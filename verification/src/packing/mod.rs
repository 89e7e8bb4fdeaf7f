//! Packing of LWE ciphertexts into one ring ciphertext.

pub mod aggregate;
pub mod bsgs_pack;
pub mod collapse;
pub mod convolution;
pub mod decrypt;
pub mod divide;
pub mod divided;
pub mod keys;
pub mod mask_preprocessing;
pub mod packed;
pub mod partial;
pub mod precompute_infos;
pub mod recursion;
pub mod run;
pub mod scratch;
pub mod switch;
pub mod trace;
pub mod wide;

pub use precompute_infos::PackingPrecomputeInfos;
