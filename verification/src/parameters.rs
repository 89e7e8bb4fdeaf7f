//! Cryptosystem parameters and the byte sizes of messages.

use vstd::prelude::*;
use vstd::arithmetic::div_mod::*;
use crate::arith::{div_ceil, just_enough, lemma_div_ceil, lemma_just_enough, spec_div_ceil};
use crate::config::{Collapse, Config};
use crate::database::DatabaseLayout;
use crate::encoding::ModPEncoder;

use crate::packing::keys::KeyLayout;
use crate::packing::precompute_infos::PackingPrecomputeInfos;
use crate::packing::recursion::decompose_digits;
use crate::payload::Payload;

verus! {

/// Limb width of transmitted coefficients: the densest that fits a signed word.
pub const TRANSMIT_BASE2K: usize = 63;

pub const U8_BYTES: usize = 1;

pub const U32_BYTES: usize = 4;

pub const U64_BYTES: usize = 8;

pub const SEED_BYTES: usize = 32;

pub const I64_BYTES: usize = 8;

/// Serialized byte size of a query, split by component.
#[derive(Clone, Copy, Debug, PartialEq, Eq, Structural)]
pub struct QuerySize {
    /// Tag byte.
    pub tag: usize,
    /// Length prefixes.
    pub length_prefixes: usize,
    /// One-hot blocks of an interpolation query.
    pub one_hot: usize,
    /// First one-hot source of a recursion query.
    pub src0_one_hot: usize,
    /// Second one-hot source of a recursion query.
    pub src1_one_hot: usize,
    /// Key for the generator rotations of an interpolation query.
    pub key_g: usize,
    /// Key for the conjugation of an interpolation query.
    pub key_h: usize,
    /// Encrypted root of unity of an interpolation query.
    pub ggsw: usize,
    /// `gamma0` key of a recursion query.
    pub key_gamma0: usize,
    /// `gamma1` key of a recursion query.
    pub key_gamma1: usize,
    /// `gamma2` key of a recursion query.
    pub key_gamma2: usize,
}

impl Default for QuerySize {
    fn default() -> (r: Self)
        ensures
            r.spec_total() == 0,
            r.tag == 0 && r.length_prefixes == 0 && r.one_hot == 0 && r.src0_one_hot == 0,
            r.src1_one_hot == 0 && r.key_g == 0 && r.key_h == 0 && r.ggsw == 0,
            r.key_gamma0 == 0 && r.key_gamma1 == 0 && r.key_gamma2 == 0,
    {
        QuerySize {
            tag: 0,
            length_prefixes: 0,
            one_hot: 0,
            src0_one_hot: 0,
            src1_one_hot: 0,
            key_g: 0,
            key_h: 0,
            ggsw: 0,
            key_gamma0: 0,
            key_gamma1: 0,
            key_gamma2: 0,
        }
    }
}

impl QuerySize {
    pub open spec fn spec_total(self) -> int {
        self.tag + self.length_prefixes + self.one_hot + self.src0_one_hot + self.src1_one_hot
            + self.key_g + self.key_h + self.ggsw + self.key_gamma0 + self.key_gamma1
            + self.key_gamma2
    }

    /// Total serialized query size in bytes.
    pub fn total_size(&self) -> (r: usize)
        requires
            self.spec_total() <= usize::MAX,
        ensures
            r == self.spec_total(),
    {
        self.tag + self.length_prefixes + self.one_hot + self.src0_one_hot + self.src1_one_hot
            + self.key_g + self.key_h + self.ggsw + self.key_gamma0 + self.key_gamma1
            + self.key_gamma2
    }
}

/// Serialized byte size of a response, split by component.
#[derive(Clone, Copy, Debug, PartialEq, Eq, Structural)]
pub struct ResponseSize {
    /// Tag byte.
    pub tag: usize,
    /// Length prefixes.
    pub length_prefixes: usize,
    /// The selected ciphertext of an interpolation response.
    pub selected: usize,
    /// First vector of a recursion response.
    pub resp1: usize,
    /// Second vector of a recursion response.
    pub resp2: usize,
}

impl Default for ResponseSize {
    fn default() -> (r: Self)
        ensures
            r.tag == 0 && r.length_prefixes == 0 && r.selected == 0 && r.resp1 == 0 && r.resp2 == 0,
    {
        ResponseSize { tag: 0, length_prefixes: 0, selected: 0, resp1: 0, resp2: 0 }
    }
}

impl ResponseSize {
    pub open spec fn spec_total(self) -> int {
        self.tag + self.length_prefixes + self.selected + self.resp1 + self.resp2
    }

    /// Total serialized response size in bytes.
    pub fn total_size(&self) -> (r: usize)
        requires
            self.spec_total() <= usize::MAX,
        ensures
            r == self.spec_total(),
    {
        self.tag + self.length_prefixes + self.selected + self.resp1 + self.resp2
    }
}

// ---------------------------------------------------------------------------
// Wire sizes
// ---------------------------------------------------------------------------

/// Limbs transmitted for `k` bits.
pub open spec fn spec_transmitted_limbs(k: int) -> int {
    spec_div_ceil(k, 63)
}

/// Five header words and one word per coefficient.
pub open spec fn spec_vec_znx_bytes(n: int, cols: int, size: int) -> int {
    40 + n * cols * size * 8
}

/// A ciphertext with mask: limb width, then two columns.
pub open spec fn spec_glwe_bytes(n: int, k: int) -> int {
    4 + spec_vec_znx_bytes(n, 2, spec_transmitted_limbs(k))
}

/// A ciphertext with a seed for its mask: limb width, rank, seed, then one column.
pub open spec fn spec_glwe_compressed_bytes(n: int, k: int) -> int {
    4 + 4 + 32 + spec_vec_znx_bytes(n, 1, spec_transmitted_limbs(k))
}

/// A body without mask: limb width, then one column.
pub open spec fn spec_rank0_glwe_bytes(n: int, k: int) -> int {
    4 + spec_vec_znx_bytes(n, 1, spec_transmitted_limbs(k))
}

/// An automorphism key of three rows: its element, a seed count, seeds, then bodies.
pub open spec fn spec_auto_key_bytes(n: int, k: int) -> int {
    8 + 8 + 3 * 32 + 3 * spec_rank0_glwe_bytes(n, k)
}

/// A packing key: its stride, then an automorphism key.
pub open spec fn spec_compressed_key_bytes(n: int, k: int) -> int {
    8 + spec_auto_key_bytes(n, k)
}

/// A selector of three rows by two columns: a seed count, seeds, then bodies.
pub open spec fn spec_ggsw_bytes(n: int, k: int) -> int {
    8 + 6 * 32 + 6 * spec_rank0_glwe_bytes(n, k)
}

/// No component is smaller than its framing.
pub proof fn lemma_wire_sizes(n: int, k: int)
    requires
        n >= 0,
        k >= 0,
    ensures
        spec_transmitted_limbs(k) >= 0,
        k >= 1 ==> spec_transmitted_limbs(k) >= 1,
        spec_vec_znx_bytes(n, 1, spec_transmitted_limbs(k)) >= 40,
        spec_vec_znx_bytes(n, 2, spec_transmitted_limbs(k)) >= 40,
{
    lemma_div_ceil(k, 63);
    let s = spec_transmitted_limbs(k);
    assert(n * 1 * s >= 0 && n * 2 * s >= 0) by (nonlinear_arith)
        requires
            n >= 0,
            s >= 0,
    ;
}

fn transmitted_limbs(k: usize) -> (r: usize)
    ensures
        r == spec_transmitted_limbs(k as int),
{
    div_ceil(k, TRANSMIT_BASE2K)
}

fn vec_znx_wire_bytes(n: usize, cols: usize, size: usize) -> (r: usize)
    requires
        n * cols <= usize::MAX,
        spec_vec_znx_bytes(n as int, cols as int, size as int) <= usize::MAX,
    ensures
        r == spec_vec_znx_bytes(n as int, cols as int, size as int),
{
    proof {
        assert(0 <= n * cols && 0 <= n * cols * size) by (nonlinear_arith)
            requires
                0 <= size,
                0 <= n,
                0 <= cols,
        ;
    }
    5 * U64_BYTES + n * cols * size * I64_BYTES
}

fn glwe_wire_bytes(n: usize, k: usize) -> (r: usize)
    requires
        n * 2 <= usize::MAX,
        spec_glwe_bytes(n as int, k as int) <= usize::MAX,
    ensures
        r == spec_glwe_bytes(n as int, k as int),
{
    proof {
        lemma_wire_sizes(n as int, k as int);
    }
    U32_BYTES + vec_znx_wire_bytes(n, 2, transmitted_limbs(k))
}

fn glwe_compressed_wire_bytes(n: usize, k: usize) -> (r: usize)
    requires
        spec_glwe_compressed_bytes(n as int, k as int) <= usize::MAX,
    ensures
        r == spec_glwe_compressed_bytes(n as int, k as int),
{
    proof {
        lemma_wire_sizes(n as int, k as int);
    }
    U32_BYTES + U32_BYTES + SEED_BYTES + vec_znx_wire_bytes(n, 1, transmitted_limbs(k))
}

fn rank0_glwe_wire_bytes(n: usize, k: usize) -> (r: usize)
    requires
        spec_rank0_glwe_bytes(n as int, k as int) <= usize::MAX,
    ensures
        r == spec_rank0_glwe_bytes(n as int, k as int),
{
    proof {
        lemma_wire_sizes(n as int, k as int);
    }
    U32_BYTES + vec_znx_wire_bytes(n, 1, transmitted_limbs(k))
}

// ---------------------------------------------------------------------------
// Scalars and sizes of a configuration
// ---------------------------------------------------------------------------

/// Decomposition digits of one packed ciphertext: 32 bits in 16-bit digits.
pub open spec fn spec_tau() -> int {
    2
}

impl<P: Payload<[u8; 32]>> Config<P> {
    /// Limb width of packed ciphertexts and keys.
    pub fn base2k(&self) -> (r: usize)
        ensures
            r == self.base2k,
    {
        self.base2k
    }

    /// Limb width of matrix-product inputs.
    pub fn matmul_base2k(&self) -> (r: usize)
        ensures
            r == 16,
    {
        16
    }

    /// Limb width of query masks.
    pub fn mask_base2k(&self) -> (r: usize)
        ensures
            r == 32,
    {
        32
    }

    /// Torus precision, in bits.
    pub fn k(&self) -> (r: usize)
        ensures
            r == self.k,
    {
        self.k
    }

    pub fn dnum(&self) -> (r: usize)
        ensures
            r == 3,
    {
        3
    }

    pub fn dsize(&self) -> (r: usize)
        ensures
            r == 1,
    {
        1
    }

    pub fn baby_size(&self) -> (r: usize)
        ensures
            r == 8,
    {
        8
    }

    /// Limbs of the given width that hold the torus precision.
    pub fn size_at(&self, base2k: usize) -> (r: usize)
        requires
            base2k >= 1,
        ensures
            r == spec_div_ceil(self.k as int, base2k as int),
    {
        div_ceil(self.k, base2k)
    }

    /// Blocks of `n` slots over the columns.
    pub open spec fn spec_src0_blocks(self, layout: DatabaseLayout<P>) -> int {
        spec_div_ceil(layout.cols as int, self.n as int)
    }

    /// Blocks of `n` slots over the batches of a recursion query.
    pub open spec fn spec_src1_blocks(self, layout: DatabaseLayout<P>) -> int {
        spec_div_ceil(layout.spec_block_rows(self.spec_column_height() as int), self.n as int)
    }

    /// Ciphertexts in the first vector of a recursion response.
    pub open spec fn spec_resp1_len(self) -> int {
        match self.collapse {
            Collapse::Interpolation => 0,
            Collapse::Recursion { gamma1, .. } => spec_div_ceil(
                self.n * spec_tau(),
                gamma1 as int,
            ),
        }
    }

    /// Ciphertexts in the second vector of a recursion response.
    pub open spec fn spec_resp2_len(self) -> int {
        match self.collapse {
            Collapse::Interpolation => 0,
            Collapse::Recursion { gamma0, gamma2, .. } => spec_div_ceil(
                gamma0 * spec_tau(),
                gamma2 as int,
            ),
        }
    }

    /// Bytes of a query.
    pub open spec fn spec_query_bytes(self, layout: DatabaseLayout<P>) -> int {
        let n = self.n as int;
        let k = self.k as int;
        match self.collapse {
            Collapse::Interpolation => 1 + 8 + self.spec_src0_blocks(layout)
                * spec_glwe_compressed_bytes(n, k) + 2 * spec_auto_key_bytes(n, k)
                + spec_ggsw_bytes(n, k),
            Collapse::Recursion { .. } => 1 + 16 + self.spec_src0_blocks(layout)
                * spec_glwe_compressed_bytes(n, k) + self.spec_src1_blocks(layout)
                * spec_glwe_compressed_bytes(n, k) + 3 * spec_compressed_key_bytes(n, k),
        }
    }

    /// Bytes of a response.
    pub open spec fn spec_response_bytes(self) -> int {
        let n = self.n as int;
        match self.collapse {
            Collapse::Interpolation => 1 + spec_glwe_bytes(n, self.k as int),
            Collapse::Recursion { .. } => 1 + 16 + self.spec_resp1_len() * spec_glwe_bytes(n, 32)
                + self.spec_resp2_len() * spec_glwe_bytes(n, 32),
        }
    }

    pub proof fn lemma_query_parts(self, layout: DatabaseLayout<P>)
        requires
            self.n >= 1,
            self.spec_column_height() >= 1,
        ensures
            self.spec_src0_blocks(layout) >= 0,
            self.spec_src1_blocks(layout) >= 0,
            self.spec_src0_blocks(layout) * spec_glwe_compressed_bytes(self.n as int, self.k as int)
                >= 0,
            self.spec_src1_blocks(layout) * spec_glwe_compressed_bytes(self.n as int, self.k as int)
                >= 0,
            spec_rank0_glwe_bytes(self.n as int, self.k as int) >= 44,
            spec_glwe_compressed_bytes(self.n as int, self.k as int) == spec_rank0_glwe_bytes(
                self.n as int,
                self.k as int,
            ) + 36,
    {
        let n = self.n as int;
        let k = self.k as int;
        lemma_wire_sizes(n, k);
        lemma_div_ceil(layout.cols as int, n);
        let h = self.spec_column_height() as int;
        lemma_div_pos_is_pos(layout.rows as int, h);
        lemma_div_ceil(layout.spec_block_rows(h), n);
        let c = spec_glwe_compressed_bytes(n, k);
        let a = self.spec_src0_blocks(layout);
        let b = self.spec_src1_blocks(layout);
        assert(a * c >= 0 && b * c >= 0) by (nonlinear_arith)
            requires
                a >= 0,
                b >= 0,
                c >= 0,
        ;
    }

    /// The size of every component of a query.
    pub open spec fn is_query_size(self, layout: DatabaseLayout<P>, r: QuerySize) -> bool {
        match self.collapse {
            Collapse::Interpolation => {
                &&& r.tag == 1 && r.length_prefixes == 8
                &&& r.one_hot == self.spec_src0_blocks(layout) * spec_glwe_compressed_bytes(
                    self.n as int,
                    self.k as int,
                )
                &&& r.key_g == spec_auto_key_bytes(self.n as int, self.k as int)
                &&& r.key_h == spec_auto_key_bytes(self.n as int, self.k as int)
                &&& r.ggsw == spec_ggsw_bytes(self.n as int, self.k as int)
                &&& r.src0_one_hot == 0 && r.src1_one_hot == 0
                &&& r.key_gamma0 == 0 && r.key_gamma1 == 0 && r.key_gamma2 == 0
            },
            Collapse::Recursion { .. } => {
                &&& r.tag == 1 && r.length_prefixes == 16
                &&& r.src0_one_hot == self.spec_src0_blocks(layout)
                    * spec_glwe_compressed_bytes(self.n as int, self.k as int)
                &&& r.src1_one_hot == self.spec_src1_blocks(layout)
                    * spec_glwe_compressed_bytes(self.n as int, self.k as int)
                &&& r.key_gamma0 == spec_compressed_key_bytes(self.n as int, self.k as int)
                &&& r.key_gamma1 == spec_compressed_key_bytes(self.n as int, self.k as int)
                &&& r.key_gamma2 == spec_compressed_key_bytes(self.n as int, self.k as int)
                &&& r.one_hot == 0 && r.key_g == 0 && r.key_h == 0 && r.ggsw == 0
            },
        }
    }

    /// Serialized query size for `layout`, in bytes. A configuration that breaks a rule has
    /// one, too.
    pub fn query_size(&self, layout: DatabaseLayout<P>) -> (r: QuerySize)
        requires
            self.n >= 1,
            self.spec_column_height() >= 1,
            self.spec_query_bytes(layout) <= usize::MAX,
        ensures
            r.spec_total() == self.spec_query_bytes(layout),
            self.is_query_size(layout, r),
    {
        proof {
            self.lemma_query_parts(layout);
        }
        let mut r: QuerySize = QuerySize::default();
        r.tag = U8_BYTES;
        let blocks: usize = layout.column_blocks(self.n);
        match self.collapse {
            Collapse::Interpolation => {
                r.length_prefixes = U64_BYTES;
                r.one_hot = blocks * glwe_compressed_wire_bytes(self.n, self.k);
                r.key_g = self.auto_key_wire_bytes();
                r.key_h = self.auto_key_wire_bytes();
                r.ggsw = self.ggsw_wire_bytes();
            },
            Collapse::Recursion { gamma0, .. } => {
                let t: usize = layout.grid_rows_for(gamma0);
                r.length_prefixes = 2 * U64_BYTES;
                r.src0_one_hot = blocks * glwe_compressed_wire_bytes(self.n, self.k);
                r.src1_one_hot = div_ceil(t, self.n) * glwe_compressed_wire_bytes(self.n, self.k);
                r.key_gamma0 = self.compressed_key_wire_bytes();
                r.key_gamma1 = self.compressed_key_wire_bytes();
                r.key_gamma2 = self.compressed_key_wire_bytes();
            },
        }
        r
    }

    pub proof fn lemma_response_parts(self)
        requires
            self.divides_responses(),
        ensures
            self.spec_resp1_len() >= 0,
            self.spec_resp2_len() >= 0,
            self.spec_resp1_len() * spec_glwe_bytes(self.n as int, 32) >= 0,
            self.spec_resp2_len() * spec_glwe_bytes(self.n as int, 32) >= 0,
            spec_glwe_bytes(self.n as int, 32) == 44 + 16 * self.n,
            self.collapse is Recursion && self.n >= 1 ==> self.spec_resp1_len() >= 1,
            self.collapse is Recursion && self.spec_column_height() >= 1 ==> self.spec_resp2_len()
                >= 1,
    {
        let n = self.n as int;
        lemma_wire_sizes(n, 32);
        assert(spec_transmitted_limbs(32) == 1);
        assert(n * 2 * 1 * 8 == 16 * n) by (nonlinear_arith);
        match self.collapse {
            Collapse::Interpolation => {},
            Collapse::Recursion { gamma0, gamma1, gamma2 } => {
                lemma_div_ceil(n * 2, gamma1 as int);
                lemma_div_ceil(gamma0 * 2, gamma2 as int);
            },
        }
        let c = spec_glwe_bytes(n, 32);
        let a = self.spec_resp1_len();
        let b = self.spec_resp2_len();
        assert(a * c >= 0 && b * c >= 0) by (nonlinear_arith)
            requires
                a >= 0,
                b >= 0,
                c >= 0,
        ;
    }

    /// A recursion response is divided by numbers that are not zero.
    pub open spec fn divides_responses(self) -> bool {
        match self.collapse {
            Collapse::Interpolation => true,
            Collapse::Recursion { gamma1, gamma2, .. } => gamma1 >= 1 && gamma2 >= 1,
        }
    }

    /// The size of every component of a response.
    pub open spec fn is_response_size(self, r: ResponseSize) -> bool {
        match self.collapse {
            Collapse::Interpolation => {
                &&& r.tag == 1 && r.length_prefixes == 0
                &&& r.selected == spec_glwe_bytes(self.n as int, self.k as int)
                &&& r.resp1 == 0 && r.resp2 == 0
            },
            Collapse::Recursion { .. } => {
                &&& r.tag == 1 && r.length_prefixes == 16 && r.selected == 0
                &&& r.resp1 == self.spec_resp1_len() * spec_glwe_bytes(self.n as int, 32)
                &&& r.resp2 == self.spec_resp2_len() * spec_glwe_bytes(self.n as int, 32)
            },
        }
    }

    /// Serialized response size, in bytes. It does not depend on the database's shape. A
    /// configuration that breaks a rule has one, too.
    pub fn response_size(&self, _layout: DatabaseLayout<P>) -> (r: ResponseSize)
        requires
            self.divides_responses(),
            self.n * 2 <= usize::MAX,
            self.collapse is Recursion ==> self.spec_column_height() * 2 <= usize::MAX,
            self.spec_response_bytes() <= usize::MAX,
        ensures
            r.spec_total() == self.spec_response_bytes(),
            self.is_response_size(r),
    {
        proof {
            self.lemma_response_parts();
        }
        let mut r: ResponseSize = ResponseSize::default();
        r.tag = U8_BYTES;
        match self.collapse {
            Collapse::Interpolation => {
                r.selected = glwe_wire_bytes(self.n, self.k);
            },
            Collapse::Recursion { gamma0, gamma1, gamma2 } => {
                proof {
                    let a = self.spec_resp1_len();
                    let b = self.spec_resp2_len();
                    let c = spec_glwe_bytes(self.n as int, 32);
                    assert(a >= 1 ==> a * c >= c) by (nonlinear_arith)
                        requires
                            c >= 0,
                    ;
                }
                let qtilde_bits: usize = 2 * self.matmul_base2k();
                let tau: usize = div_ceil(qtilde_bits, self.matmul_base2k());
                assert(tau == 2);
                r.length_prefixes = 2 * U64_BYTES;
                r.resp1 = div_ceil(self.n * tau, gamma1) * glwe_wire_bytes(self.n, qtilde_bits);
                r.resp2 = div_ceil(gamma0 * tau, gamma2) * glwe_wire_bytes(self.n, qtilde_bits);
            },
        }
        r
    }

    fn auto_key_wire_bytes(&self) -> (r: usize)
        requires
            spec_auto_key_bytes(self.n as int, self.k as int) <= usize::MAX,
        ensures
            r == spec_auto_key_bytes(self.n as int, self.k as int),
    {
        proof {
            lemma_wire_sizes(self.n as int, self.k as int);
        }
        let entries: usize = self.dnum();
        U64_BYTES + U64_BYTES + entries * SEED_BYTES + entries * rank0_glwe_wire_bytes(
            self.n,
            self.k,
        )
    }

    fn compressed_key_wire_bytes(&self) -> (r: usize)
        requires
            spec_compressed_key_bytes(self.n as int, self.k as int) <= usize::MAX,
        ensures
            r == spec_compressed_key_bytes(self.n as int, self.k as int),
    {
        U64_BYTES + self.auto_key_wire_bytes()
    }

    fn ggsw_wire_bytes(&self) -> (r: usize)
        requires
            spec_ggsw_bytes(self.n as int, self.k as int) <= usize::MAX,
        ensures
            r == spec_ggsw_bytes(self.n as int, self.k as int),
    {
        proof {
            lemma_wire_sizes(self.n as int, self.k as int);
        }
        let entries: usize = self.dnum() * 2;
        U64_BYTES + entries * SEED_BYTES + entries * rank0_glwe_wire_bytes(self.n, self.k)
    }
}

// ---------------------------------------------------------------------------
// Parameters
// ---------------------------------------------------------------------------

/// Shape of a ciphertext.
#[derive(Clone, Copy, Debug, PartialEq, Eq, Structural)]
pub struct GlweLayout {
    pub n: usize,
    pub base2k: usize,
    pub k: usize,
    pub rank: usize,
}

/// Shape of a selector.
#[derive(Clone, Copy, Debug, PartialEq, Eq, Structural)]
pub struct GgswLayout {
    pub n: usize,
    pub base2k: usize,
    pub k: usize,
    pub rank: usize,
    pub dnum: usize,
    pub dsize: usize,
}

/// Shape of a matrix of samples.
#[derive(Clone, Copy, Debug, PartialEq, Eq, Structural)]
pub struct LweMatrixLayout {
    pub rows: usize,
    pub n: usize,
    pub base2k: usize,
    pub k: usize,
}

/// A configuration that breaks no rule: the single source of dimensions and layouts.
#[derive(Debug)]
pub struct Parameters<P> {
    pub params: Config<P>,
}

impl<P: Payload<[u8; 32]>> Parameters<P> {
    pub open spec fn wf(self) -> bool {
        self.params.valid()
    }

    pub fn collapse(&self) -> (r: Collapse)
        ensures
            r == self.params.collapse,
    {
        self.params.collapse
    }

    /// Rows of one logical column.
    pub fn column_height(&self) -> (r: usize)
        ensures
            r == self.params.spec_column_height(),
    {
        self.params.column_height()
    }

    pub fn n(&self) -> (r: usize)
        ensures
            r == self.params.n,
    {
        self.params.n
    }

    /// Digit radix.
    pub fn p(&self) -> (r: i64)
        ensures
            r == P::BASIS,
    {
        P::BASIS as i64
    }

    /// Digits of a payload.
    pub fn digits(&self) -> (r: usize)
        ensures
            r == P::EXPONENT,
    {
        P::EXPONENT
    }

    /// Writes the digits of a payload.
    pub fn encode(&self, digits: &mut [i16], value: [u8; 32])
        requires
            old(digits)@.len() == P::EXPONENT,
        ensures
            final(digits)@ == P::digits_of(value),
    {
        P::encode(digits, value)
    }

    /// Reads the payload that digits stand for.
    pub fn decode(&self, value: &mut [u8; 32], digits: &[i16])
        requires
            digits@.len() == P::EXPONENT,
            P::decodable(digits@),
        ensures
            P::stands_for(digits@, *final(value)),
    {
        P::decode(value, digits)
    }

    pub fn base2k(&self) -> (r: usize)
        ensures
            r == self.params.base2k,
    {
        self.params.base2k()
    }

    pub fn matmul_base2k(&self) -> (r: usize)
        ensures
            r == 16,
    {
        self.params.matmul_base2k()
    }

    pub fn mask_base2k(&self) -> (r: usize)
        ensures
            r == 32,
    {
        self.params.mask_base2k()
    }

    pub fn k(&self) -> (r: usize)
        ensures
            r == self.params.k,
    {
        self.params.k()
    }

    pub fn dnum(&self) -> (r: usize)
        ensures
            r == 3,
    {
        self.params.dnum()
    }

    pub fn dsize(&self) -> (r: usize)
        ensures
            r == 1,
    {
        self.params.dsize()
    }

    pub fn baby_size(&self) -> (r: usize)
        ensures
            r == 8,
    {
        self.params.baby_size()
    }

    /// Limbs of the given width that hold the torus precision.
    pub fn size_at(&self, base2k: usize) -> (r: usize)
        requires
            base2k >= 1,
        ensures
            r == spec_div_ceil(self.params.k as int, base2k as int),
    {
        self.params.size_at(base2k)
    }

    /// Encoder of payload digits.
    pub fn encoder(&self) -> (r: ModPEncoder)
        ensures
            r.p == P::BASIS,
            r.k == self.params.k,
    {
        ModPEncoder::new(self.p(), self.k())
    }

    fn glwe_layout(&self, base2k: usize) -> (r: GlweLayout)
        ensures
            r == (GlweLayout { n: self.params.n, base2k, k: self.params.k, rank: 1 }),
    {
        GlweLayout { n: self.n(), base2k, k: self.k(), rank: 1 }
    }

    /// Query ciphertexts.
    pub fn glwe_query(&self) -> (r: GlweLayout)
        ensures
            r == (GlweLayout { n: self.params.n, base2k: 16, k: self.params.k, rank: 1 }),
    {
        self.glwe_layout(self.matmul_base2k())
    }

    /// Packed and result ciphertexts.
    pub fn glwe_pack(&self) -> (r: GlweLayout)
        ensures
            r == (GlweLayout {
                n: self.params.n,
                base2k: self.params.base2k,
                k: self.params.k,
                rank: 1,
            }),
    {
        self.glwe_layout(self.base2k())
    }

    /// Query masks.
    pub fn glwe_mask(&self) -> (r: GlweLayout)
        ensures
            r == (GlweLayout { n: self.params.n, base2k: 32, k: self.params.k, rank: 1 }),
    {
        self.glwe_layout(self.mask_base2k())
    }

    /// Automorphism keys.
    pub fn key_layout(&self) -> (r: KeyLayout)
        ensures
            r == (KeyLayout {
                n: self.params.n,
                base2k: self.params.base2k,
                k: self.params.k,
                rank_in: 1,
                rank_out: 1,
                dnum: 3,
                dsize: 1,
            }),
    {
        KeyLayout {
            n: self.n(),
            base2k: self.base2k(),
            k: self.k(),
            rank_in: 1,
            rank_out: 1,
            dnum: self.dnum(),
            dsize: self.dsize(),
        }
    }

    /// Selectors.
    pub fn ggsw_layout(&self) -> (r: GgswLayout)
        ensures
            r == (GgswLayout {
                n: self.params.n,
                base2k: self.params.base2k,
                k: self.params.k,
                rank: 1,
                dnum: 3,
                dsize: 1,
            }),
    {
        GgswLayout {
            n: self.n(),
            base2k: self.base2k(),
            k: self.k(),
            rank: 1,
            dnum: self.dnum(),
            dsize: self.dsize(),
        }
    }

    /// Whole limbs of the given width that hold the precision stay near it.
    proof fn lemma_whole_limbs(self, base2k: int)
        requires
            base2k >= 1,
        ensures
            spec_div_ceil(self.params.k as int, base2k) * base2k < self.params.k + base2k,
            spec_div_ceil(self.params.k as int, base2k) * base2k >= self.params.k,
    {
        let k = self.params.k as int;
        lemma_div_ceil(k, base2k);
        let c = spec_div_ceil(k, base2k);
        assert((c - 1) * base2k == c * base2k - base2k) by (nonlinear_arith);
        if k == 0 {
            assert(0 * base2k == 0) by (nonlinear_arith);
        }
    }

    /// The `n x n` sample matrices that operations exchange.
    pub fn lwe_matrix_infos(&self) -> (r: LweMatrixLayout)
        requires
            self.wf(),
            self.params.k + self.params.base2k <= usize::MAX,
        ensures
            r.rows == self.params.n,
            r.n == self.params.n,
            r.base2k == self.params.base2k,
            r.k == spec_div_ceil(self.params.k as int, self.params.base2k as int)
                * self.params.base2k,
    {
        proof {
            self.lemma_whole_limbs(self.params.base2k as int);
        }
        LweMatrixLayout {
            rows: self.n(),
            n: self.n(),
            base2k: self.base2k(),
            k: self.size_at(self.base2k()) * self.base2k(),
        }
    }

    /// The sample matrices of query masks: whole 32-bit limbs.
    pub fn mask_regime_infos(&self) -> (r: LweMatrixLayout)
        requires
            self.wf(),
            self.params.k + 32 <= usize::MAX,
        ensures
            r.rows == self.params.n,
            r.n == self.params.n,
            r.base2k == 32,
            r.k == spec_div_ceil(self.params.k as int, 32) * 32,
    {
        proof {
            self.lemma_whole_limbs(32);
        }
        LweMatrixLayout {
            rows: self.n(),
            n: self.n(),
            base2k: self.mask_base2k(),
            k: self.size_at(self.mask_base2k()) * self.mask_base2k(),
        }
    }

    /// Shape of a full packing.
    pub fn packing_precompute_infos(&self) -> (r: PackingPrecomputeInfos)
        requires
            self.wf(),
        ensures
            r == (PackingPrecomputeInfos {
                steps: (self.params.n - 1) as usize,
                size: spec_div_ceil(self.params.k as int, self.params.base2k as int) as usize,
                base2k: self.params.base2k,
                baby_size: 8,
                stride: 1,
                partial: false,
            }),
    {
        PackingPrecomputeInfos::new(
            self.n() - 1,
            self.size_at(self.base2k()),
            self.base2k(),
            self.baby_size(),
        )
    }

    /// Precision of packed ciphertexts after the modulus switch.
    pub fn qtilde_bits(&self) -> (r: usize)
        ensures
            r == 32,
    {
        2 * self.matmul_base2k()
    }

    /// Decomposition digits of one packed ciphertext.
    pub fn tau(&self) -> (r: usize)
        ensures
            r == spec_tau(),
    {
        decompose_digits(self.qtilde_bits())
    }

    /// Serialized query size for `layout`, in bytes.
    pub fn query_size(&self, layout: DatabaseLayout<P>) -> (r: QuerySize)
        requires
            self.params.n >= 1,
            self.params.spec_column_height() >= 1,
            self.params.spec_query_bytes(layout) <= usize::MAX,
        ensures
            r.spec_total() == self.params.spec_query_bytes(layout),
            self.params.is_query_size(layout, r),
    {
        self.params.query_size(layout)
    }

    /// Serialized response size for `layout`, in bytes.
    pub fn response_size(&self, layout: DatabaseLayout<P>) -> (r: ResponseSize)
        requires
            self.params.divides_responses(),
            self.params.n * 2 <= usize::MAX,
            self.params.collapse is Recursion ==> self.params.spec_column_height() * 2
                <= usize::MAX,
            self.params.spec_response_bytes() <= usize::MAX,
        ensures
            r.spec_total() == self.params.spec_response_bytes(),
            self.params.is_response_size(r),
    {
        self.params.response_size(layout)
    }
}

// ---------------------------------------------------------------------------
// What the sizes are made of
// ---------------------------------------------------------------------------

/// The parts of a query's size: a tag, a length per list, `80 + 8 * n * limbs` bytes per
/// block, and per key or root its seeds and `44 + 8 * n * limbs` bytes per row. What the other
/// construction has takes nothing.
pub proof fn law_query_parts<P: Payload<[u8; 32]>>(
    config: &Config<P>,
    layout: DatabaseLayout<P>,
    limbs: int,
    blocks0: int,
    blocks1: int,
    size: QuerySize,
    total: usize,
)
    requires
        config.n >= 1,
        call_ensures(Config::<P>::query_size, (config, layout), size),
        call_ensures(QuerySize::total_size, (&size,), total),
        just_enough(limbs, 63, config.k as int),
        just_enough(blocks0, config.n as int, layout.cols as int),
        match config.collapse {
            Collapse::Interpolation => blocks1 == 0,
            Collapse::Recursion { gamma0, .. } => gamma0 >= 1 && just_enough(
                blocks1,
                config.n as int,
                layout.rows as int / gamma0 as int,
            ),
        },
    ensures
        ({
            let words = config.n * limbs;
            let block = 80 + 8 * words;
            let row = 44 + 8 * words;
            let key = 8 + 8 + 96 + 3 * row;
            &&& size.tag == 1
            &&& total == size.tag + size.length_prefixes + size.one_hot + size.src0_one_hot
                + size.src1_one_hot + size.key_g + size.key_h + size.ggsw + size.key_gamma0
                + size.key_gamma1 + size.key_gamma2
            &&& match config.collapse {
                Collapse::Interpolation => {
                    &&& size.length_prefixes == 8
                    &&& size.one_hot == blocks0 * block
                    &&& size.key_g == key
                    &&& size.key_h == key
                    &&& size.ggsw == 8 + 192 + 6 * row
                    &&& size.src0_one_hot == 0 && size.src1_one_hot == 0
                    &&& size.key_gamma0 == 0 && size.key_gamma1 == 0 && size.key_gamma2 == 0
                },
                Collapse::Recursion { .. } => {
                    &&& size.length_prefixes == 16
                    &&& size.src0_one_hot == blocks0 * block
                    &&& size.src1_one_hot == blocks1 * block
                    &&& size.key_gamma0 == 8 + key
                    &&& size.key_gamma1 == 8 + key
                    &&& size.key_gamma2 == 8 + key
                    &&& size.one_hot == 0 && size.key_g == 0 && size.key_h == 0 && size.ggsw == 0
                },
            }
        }),
{
    let n = config.n as int;
    lemma_just_enough(limbs, 63, config.k as int);
    lemma_just_enough(blocks0, n, layout.cols as int);
    assert(n * 1 * limbs * 8 == 8 * (n * limbs)) by (nonlinear_arith);
    match config.collapse {
        Collapse::Interpolation => {},
        Collapse::Recursion { gamma0, .. } => {
            lemma_div_pos_is_pos(layout.rows as int, gamma0 as int);
            lemma_just_enough(blocks1, n, layout.rows as int / gamma0 as int);
        },
    }
}

/// The parts of a response's size: a tag, and one ciphertext of `44 + 16 * n * limbs` bytes,
/// or two lists of packed ciphertexts of one limb behind their lengths.
pub proof fn law_response_parts<P: Payload<[u8; 32]>>(
    config: &Config<P>,
    layout: DatabaseLayout<P>,
    limbs: int,
    len1: int,
    len2: int,
    size: ResponseSize,
    total: usize,
)
    requires
        config.n >= 1,
        call_ensures(Config::<P>::response_size, (config, layout), size),
        call_ensures(ResponseSize::total_size, (&size,), total),
        just_enough(limbs, 63, config.k as int),
        config.collapse matches Collapse::Recursion { gamma0, gamma1, gamma2 } ==> {
            &&& gamma1 >= 1
            &&& gamma2 >= 1
            &&& just_enough(len1, gamma1 as int, 2 * config.n)
            &&& just_enough(len2, gamma2 as int, 2 * gamma0)
        },
    ensures
        size.tag == 1,
        total == size.tag + size.length_prefixes + size.selected + size.resp1 + size.resp2,
        match config.collapse {
            Collapse::Interpolation => {
                &&& size.length_prefixes == 0
                &&& size.selected == 44 + 16 * (config.n * limbs)
                &&& size.resp1 == 0 && size.resp2 == 0
            },
            Collapse::Recursion { .. } => {
                &&& size.length_prefixes == 16
                &&& size.selected == 0
                &&& size.resp1 == len1 * (44 + 16 * config.n)
                &&& size.resp2 == len2 * (44 + 16 * config.n)
            },
        },
{
    let n = config.n as int;
    lemma_just_enough(limbs, 63, config.k as int);
    assert(n * 2 * limbs * 8 == 16 * (n * limbs)) by (nonlinear_arith);
    match config.collapse {
        Collapse::Interpolation => {},
        Collapse::Recursion { gamma0, gamma1, gamma2 } => {
            lemma_just_enough(len1, gamma1 as int, 2 * n);
            lemma_just_enough(len2, gamma2 as int, 2 * gamma0);
            config.lemma_response_parts();
        },
    }
}

/// The shapes that parameters give to ciphertexts, keys and packings: all of the configured
/// ring and precision, of rank one, with three rows; queries in limbs of 16 bits, masks in
/// limbs of 32 bits, and what is packed in the configured limbs.
pub proof fn law_layouts_of_parameters<P: Payload<[u8; 32]>>(
    params: &Parameters<P>,
    query: GlweLayout,
    packed: GlweLayout,
    mask: GlweLayout,
    key: KeyLayout,
    selector: GgswLayout,
    encoder: ModPEncoder,
    packing: PackingPrecomputeInfos,
)
    requires
        params.wf(),
        call_ensures(Parameters::<P>::glwe_query, (params,), query),
        call_ensures(Parameters::<P>::glwe_pack, (params,), packed),
        call_ensures(Parameters::<P>::glwe_mask, (params,), mask),
        call_ensures(Parameters::<P>::key_layout, (params,), key),
        call_ensures(Parameters::<P>::ggsw_layout, (params,), selector),
        call_ensures(Parameters::<P>::encoder, (params,), encoder),
        call_ensures(Parameters::<P>::packing_precompute_infos, (params,), packing),
    ensures
        query.n == params.params.n && query.k == params.params.k && query.rank == 1 && query.base2k
            == 16,
        packed.n == params.params.n && packed.k == params.params.k && packed.rank == 1
            && packed.base2k == params.params.base2k,
        mask.n == params.params.n && mask.k == params.params.k && mask.rank == 1 && mask.base2k
            == 32,
        key.n == params.params.n && key.k == params.params.k && key.base2k == params.params.base2k,
        key.rank_in == 1 && key.rank_out == 1 && key.dnum == 3 && key.dsize == 1,
        selector.n == params.params.n && selector.k == params.params.k && selector.base2k
            == params.params.base2k,
        selector.rank == 1 && selector.dnum == 3 && selector.dsize == 1,
        encoder.p == P::BASIS && encoder.k == params.params.k,
        packing.steps + 1 == params.params.n && packing.stride == 1 && !packing.partial,
        packing.base2k == params.params.base2k && packing.baby_size == 8,
        just_enough(packing.size as int, packing.base2k as int, params.params.k as int),
{
    lemma_div_ceil(params.params.k as int, params.params.base2k as int);
    lemma_just_enough(packing.size as int, packing.base2k as int, params.params.k as int);
}

/// Matrices of samples are square, in whole limbs: just enough of them for the precision.
pub proof fn law_sample_matrices_hold_the_precision<P: Payload<[u8; 32]>>(
    params: &Parameters<P>,
    matrix: LweMatrixLayout,
    mask: LweMatrixLayout,
    tau: usize,
    bits: usize,
)
    requires
        params.wf(),
        call_ensures(Parameters::<P>::lwe_matrix_infos, (params,), matrix),
        call_ensures(Parameters::<P>::mask_regime_infos, (params,), mask),
        call_ensures(Parameters::<P>::tau, (params,), tau),
        call_ensures(Parameters::<P>::qtilde_bits, (params,), bits),
    ensures
        matrix.rows == params.params.n && matrix.n == params.params.n && matrix.base2k
            == params.params.base2k,
        matrix.k as int % matrix.base2k as int == 0,
        params.params.k <= matrix.k < params.params.k + matrix.base2k,
        mask.rows == params.params.n && mask.n == params.params.n && mask.base2k == 32,
        mask.k as int % 32 == 0,
        params.params.k <= mask.k < params.params.k + 32,
        bits == 32,
        just_enough(tau as int, 16, bits as int),
{
    let k = params.params.k as int;
    let b = params.params.base2k as int;
    params.lemma_whole_limbs(b);
    params.lemma_whole_limbs(32);
    lemma_mod_multiples_basic(spec_div_ceil(k, b), b);
    lemma_mod_multiples_basic(spec_div_ceil(k, 32), 32);
}

} // verus!
