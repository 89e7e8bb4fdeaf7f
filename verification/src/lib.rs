//! Single-server private information retrieval with server-side preprocessing.
//!
//! A client fetches one record of a server's database without telling which. Two
//! constructions share the cryptosystem and the server, and differ in how the second
//! dimension of the database is collapsed: by interpolation over roots of unity, or by a
//! second level of retrieval.
//!
//! - [`payload`], [`database`], [`store`], [`matrix`]: records as digits, and where they lie.
//! - [`config`], [`parameters`], [`presets`], [`error`]: what a run is made of.
//! - [`query`], [`client`]: what to ask for a record, and how to read the answer.
//! - [`server`]: products, plans, offline work, answers and their reports.
//! - [`interpolation`]: the polynomial that takes the matrices as its values.
//! - [`packing`], [`ring`]: packing of many products into one ciphertext, and why it
//!   decrypts to them.
//! - [`encoding`], [`limbs`]: residues on the torus, in limbs.
//! - [`messages`], [`wire`], [`codec`], [`serialization`], [`bytes`]: messages and their bytes.
//! - [`roundtrip`]: what one side writes, the other side reads.
//! - [`retrieval`]: why the client reads the record that it asked for.
//! - [`parallel`], [`arith`], [`sums`]: division of work, and shared arithmetic.

pub mod arith;
pub mod bytes;
pub mod client;
pub mod codec;
pub mod config;
pub mod database;
pub mod encoding;
pub mod error;
pub mod interpolation;
pub mod limbs;
pub mod matrix;
pub mod messages;
pub mod packing;
pub mod parallel;
pub mod parameters;
pub mod payload;
pub mod presets;
pub mod query;
pub mod retrieval;
pub mod ring;
pub mod roundtrip;
pub mod serialization;
pub mod server;
pub mod store;
pub mod sums;
pub mod wire;
