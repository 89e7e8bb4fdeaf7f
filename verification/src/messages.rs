//! The messages that travel between client and server.
//!
//! Ciphertexts are held in their transmitted form: one limb vector per polynomial, and a
//! seed in place of every mask that can be expanded from it.

use vstd::prelude::*;
use crate::error::CollapseKind;
use crate::limbs::LimbVec;

verus! {

/// Body of a ciphertext whose mask is expanded from a seed.
#[derive(Debug)]
pub struct GlweCompressed {
    pub seed: [u8; 32],
    pub body: LimbVec,
}

/// Automorphism key: the automorphism, and a seed and a body per row.
#[derive(Debug)]
pub struct AutoKey {
    pub p: i64,
    pub seeds: Vec<[u8; 32]>,
    pub bodies: Vec<LimbVec>,
}

/// Packing key: an automorphism key and the stride of its generator.
#[derive(Debug)]
pub struct CompressedKey {
    pub stride: i64,
    pub key: AutoKey,
}

/// Selector: a seed and a body per row and column.
#[derive(Debug)]
pub struct GgswCompressed {
    pub seeds: Vec<[u8; 32]>,
    pub bodies: Vec<LimbVec>,
}

/// Query of the interpolation construction.
#[derive(Debug)]
pub struct InterpolationQuery {
    pub blocks: Vec<GlweCompressed>,
    pub key_g: AutoKey,
    pub key_h: AutoKey,
    pub root: GgswCompressed,
}

/// Query of the recursion construction.
#[derive(Debug)]
pub struct RecursionQuery {
    pub src0: Vec<GlweCompressed>,
    pub src1: Vec<GlweCompressed>,
    pub gamma0: CompressedKey,
    pub gamma1: CompressedKey,
    pub gamma2: CompressedKey,
}

/// A query.
#[derive(Debug)]
pub enum Query {
    Interpolation(InterpolationQuery),
    Recursion(RecursionQuery),
}

/// Response of the interpolation construction.
#[derive(Debug)]
pub struct InterpolationResponse {
    pub selected: LimbVec,
}

/// Response of the recursion construction.
#[derive(Debug)]
pub struct RecursionResponse {
    pub resp1: Vec<LimbVec>,
    pub resp2: Vec<LimbVec>,
}

/// A response.
#[derive(Debug)]
pub enum Response {
    Interpolation(InterpolationResponse),
    Recursion(RecursionResponse),
}

// ---------------------------------------------------------------------------
// Contents and shapes
// ---------------------------------------------------------------------------

/// Contents of a compressed ciphertext.
pub type GlweView = (Seq<u8>, Seq<i64>);

/// Contents of an automorphism key.
pub type AutoKeyView = (i64, (Seq<Seq<u8>>, Seq<Seq<i64>>));

/// Contents of a packing key.
pub type KeyView = (i64, AutoKeyView);

/// Contents of a selector.
pub type GgswView = (Seq<Seq<u8>>, Seq<Seq<i64>>);

/// Contents of an interpolation query.
pub type InterpolationView = (Seq<GlweView>, (AutoKeyView, (AutoKeyView, GgswView)));

/// Contents of a recursion query.
pub type RecursionView = (Seq<GlweView>, (Seq<GlweView>, (KeyView, (KeyView, KeyView))));

/// Contents of a recursion response.
pub type RecursionResponseView = (Seq<Seq<i64>>, Seq<Seq<i64>>);

pub open spec fn seeds_view(s: Seq<[u8; 32]>) -> Seq<Seq<u8>> {
    Seq::new(s.len(), |i: int| s[i]@)
}

pub open spec fn bodies_view(s: Seq<LimbVec>) -> Seq<Seq<i64>> {
    Seq::new(s.len(), |i: int| s[i].data@)
}

pub open spec fn blocks_view(s: Seq<GlweCompressed>) -> Seq<GlweView> {
    Seq::new(s.len(), |i: int| s[i].content())
}

/// A limb vector of the given shape.
pub open spec fn has_limb_shape(v: LimbVec, n: int, cols: int, size: int) -> bool {
    v.n == n && v.cols == cols && v.size == size && v.wf()
}

pub open spec fn bodies_have_shape(s: Seq<LimbVec>, n: int, cols: int, size: int) -> bool {
    forall|i: int| 0 <= i < s.len() ==> has_limb_shape(#[trigger] s[i], n, cols, size)
}

pub open spec fn blocks_have_shape(s: Seq<GlweCompressed>, n: int, size: int) -> bool {
    forall|i: int| 0 <= i < s.len() ==> has_limb_shape((#[trigger] s[i]).body, n, 1, size)
}

/// Whether a limb vector has the given shape.
fn fits_limbs(v: &LimbVec, n: usize, cols: usize, size: usize) -> (r: bool)
    ensures
        r == has_limb_shape(*v, n as int, cols as int, size as int),
{
    if v.n != n || v.cols != cols || v.size != size {
        return false;
    }
    let len: usize = v.data.len();
    match n.checked_mul(cols) {
        Some(x) => match x.checked_mul(size) {
            Some(total) => len == total,
            None => false,
        },
        None => {
            proof {
                // More coefficients than the machine addresses, unless there are no limbs.
                if size > 0 {
                    assert(n * cols * size >= n * cols) by (nonlinear_arith)
                        requires
                            n * cols >= 0,
                            size >= 1,
                    ;
                } else {
                    assert(n * cols * size == 0) by (nonlinear_arith)
                        requires
                            size == 0,
                    ;
                }
            }
            size == 0 && len == 0
        },
    }
}

fn fits_bodies(s: &[LimbVec], n: usize, cols: usize, size: usize) -> (r: bool)
    ensures
        r == bodies_have_shape(s@, n as int, cols as int, size as int),
{
    let mut i: usize = 0;
    while i < s.len()
        invariant
            i <= s@.len(),
            forall|j: int|
                0 <= j < i ==> has_limb_shape(
                    #[trigger] s@[j],
                    n as int,
                    cols as int,
                    size as int,
                ),
        decreases s@.len() - i,
    {
        if !fits_limbs(&s[i], n, cols, size) {
            assert(!has_limb_shape(s@[i as int], n as int, cols as int, size as int));
            return false;
        }
        i = i + 1;
    }
    true
}

fn fits_blocks(s: &[GlweCompressed], n: usize, size: usize) -> (r: bool)
    ensures
        r == blocks_have_shape(s@, n as int, size as int),
{
    let mut i: usize = 0;
    while i < s.len()
        invariant
            i <= s@.len(),
            forall|j: int|
                0 <= j < i ==> has_limb_shape((#[trigger] s@[j]).body, n as int, 1, size as int),
        decreases s@.len() - i,
    {
        if !fits_limbs(&s[i].body, n, 1, size) {
            assert(!has_limb_shape(s@[i as int].body, n as int, 1, size as int));
            return false;
        }
        i = i + 1;
    }
    true
}

impl GlweCompressed {
    pub open spec fn content(self) -> GlweView {
        (self.seed@, self.body.data@)
    }
}

impl AutoKey {
    pub open spec fn content(self) -> AutoKeyView {
        (self.p, (seeds_view(self.seeds@), bodies_view(self.bodies@)))
    }

    /// Three rows. The seeds carry their own count.
    pub open spec fn has_shape(self, n: int, size: int) -> bool {
        self.bodies@.len() == 3 && bodies_have_shape(self.bodies@, n, 1, size)
    }

    /// Every row has its seed.
    pub open spec fn is_seeded(self) -> bool {
        self.seeds@.len() == self.bodies@.len()
    }
}

impl AutoKey {
    /// Whether the key has three rows of the given shape.
    pub fn fits(&self, n: usize, size: usize) -> (r: bool)
        ensures
            r == self.has_shape(n as int, size as int),
    {
        self.bodies.len() == 3 && fits_bodies(&self.bodies, n, 1, size)
    }

    /// Whether every row has its seed.
    pub fn seeded(&self) -> (r: bool)
        ensures
            r == self.is_seeded(),
    {
        self.seeds.len() == self.bodies.len()
    }
}

impl CompressedKey {
    pub open spec fn content(self) -> KeyView {
        (self.stride, self.key.content())
    }
}

impl GgswCompressed {
    pub open spec fn content(self) -> GgswView {
        (seeds_view(self.seeds@), bodies_view(self.bodies@))
    }

    /// Three rows of two columns. The seeds carry their own count.
    pub open spec fn has_shape(self, n: int, size: int) -> bool {
        self.bodies@.len() == 6 && bodies_have_shape(self.bodies@, n, 1, size)
    }

    /// Every entry has its seed.
    pub open spec fn is_seeded(self) -> bool {
        self.seeds@.len() == self.bodies@.len()
    }
}

impl GgswCompressed {
    /// Whether the selector has three rows of two columns of the given shape.
    pub fn fits(&self, n: usize, size: usize) -> (r: bool)
        ensures
            r == self.has_shape(n as int, size as int),
    {
        self.bodies.len() == 6 && fits_bodies(&self.bodies, n, 1, size)
    }

    /// Whether every entry has its seed.
    pub fn seeded(&self) -> (r: bool)
        ensures
            r == self.is_seeded(),
    {
        self.seeds.len() == self.bodies.len()
    }
}

impl InterpolationQuery {
    /// Whether the query has the given shape.
    pub fn fits(&self, n: usize, size: usize, blocks: usize) -> (r: bool)
        ensures
            r == self.has_shape(n as int, size as int, blocks as int),
    {
        self.blocks.len() == blocks && fits_blocks(&self.blocks, n, size) && self.key_g.fits(
            n,
            size,
        ) && self.key_h.fits(n, size) && self.root.fits(n, size)
    }

    pub open spec fn content(self) -> InterpolationView {
        (
            blocks_view(self.blocks@),
            (self.key_g.content(), (self.key_h.content(), self.root.content())),
        )
    }

    pub open spec fn has_shape(self, n: int, size: int, blocks: int) -> bool {
        &&& self.blocks@.len() == blocks
        &&& blocks_have_shape(self.blocks@, n, size)
        &&& self.key_g.has_shape(n, size)
        &&& self.key_h.has_shape(n, size)
        &&& self.root.has_shape(n, size)
    }

    /// Every row of the keys and of the root has its seed.
    pub open spec fn is_seeded(self) -> bool {
        self.key_g.is_seeded() && self.key_h.is_seeded() && self.root.is_seeded()
    }

    /// Whether every row of the keys and of the root has its seed.
    pub fn seeded(&self) -> (r: bool)
        ensures
            r == self.is_seeded(),
    {
        self.key_g.seeded() && self.key_h.seeded() && self.root.seeded()
    }
}

impl RecursionQuery {
    /// Whether the query has the given shape.
    pub fn fits(&self, n: usize, size: usize, blocks0: usize, blocks1: usize) -> (r: bool)
        ensures
            r == self.has_shape(n as int, size as int, blocks0 as int, blocks1 as int),
    {
        self.src0.len() == blocks0 && self.src1.len() == blocks1 && fits_blocks(
            &self.src0,
            n,
            size,
        ) && fits_blocks(&self.src1, n, size) && self.gamma0.key.fits(n, size)
            && self.gamma1.key.fits(n, size) && self.gamma2.key.fits(n, size)
    }

    pub open spec fn content(self) -> RecursionView {
        (
            blocks_view(self.src0@),
            (
                blocks_view(self.src1@),
                (self.gamma0.content(), (self.gamma1.content(), self.gamma2.content())),
            ),
        )
    }

    pub open spec fn has_shape(self, n: int, size: int, blocks0: int, blocks1: int) -> bool {
        &&& self.src0@.len() == blocks0
        &&& self.src1@.len() == blocks1
        &&& blocks_have_shape(self.src0@, n, size)
        &&& blocks_have_shape(self.src1@, n, size)
        &&& self.gamma0.key.has_shape(n, size)
        &&& self.gamma1.key.has_shape(n, size)
        &&& self.gamma2.key.has_shape(n, size)
    }

    /// Every row of the keys has its seed.
    pub open spec fn is_seeded(self) -> bool {
        self.gamma0.key.is_seeded() && self.gamma1.key.is_seeded() && self.gamma2.key.is_seeded()
    }

    /// Whether every row of the keys has its seed.
    pub fn seeded(&self) -> (r: bool)
        ensures
            r == self.is_seeded(),
    {
        self.gamma0.key.seeded() && self.gamma1.key.seeded() && self.gamma2.key.seeded()
    }
}

impl RecursionResponse {
    /// A response of two vectors of ciphertexts.
    pub fn new(resp1: Vec<LimbVec>, resp2: Vec<LimbVec>) -> (r: Self)
        ensures
            r.resp1 == resp1,
            r.resp2 == resp2,
    {
        RecursionResponse { resp1, resp2 }
    }

    pub fn resp1(&self) -> (r: &[LimbVec])
        ensures
            r@ == self.resp1@,
    {
        self.resp1.as_slice()
    }

    pub fn resp2(&self) -> (r: &[LimbVec])
        ensures
            r@ == self.resp2@,
    {
        self.resp2.as_slice()
    }

    pub open spec fn content(self) -> RecursionResponseView {
        (bodies_view(self.resp1@), bodies_view(self.resp2@))
    }

    pub open spec fn has_shape(self, n: int, size: int, len1: int, len2: int) -> bool {
        &&& self.resp1@.len() == len1
        &&& self.resp2@.len() == len2
        &&& bodies_have_shape(self.resp1@, n, 2, size)
        &&& bodies_have_shape(self.resp2@, n, 2, size)
    }
}

impl RecursionResponse {
    /// Whether the response has the given shape.
    pub fn fits(&self, n: usize, size: usize, len1: usize, len2: usize) -> (r: bool)
        ensures
            r == self.has_shape(n as int, size as int, len1 as int, len2 as int),
    {
        self.resp1.len() == len1 && self.resp2.len() == len2 && fits_bodies(
            &self.resp1,
            n,
            2,
            size,
        ) && fits_bodies(&self.resp2, n, 2, size)
    }
}

impl InterpolationResponse {
    /// Whether the response has the given shape.
    pub fn fits(&self, n: usize, size: usize) -> (r: bool)
        ensures
            r == has_limb_shape(self.selected, n as int, 2, size as int),
    {
        fits_limbs(&self.selected, n, 2, size)
    }

    pub fn new(selected: LimbVec) -> (r: Self)
        ensures
            r.selected == selected,
    {
        InterpolationResponse { selected }
    }

    pub fn selected(&self) -> (r: &LimbVec)
        ensures
            *r == self.selected,
    {
        &self.selected
    }
}

impl Query {
    pub open spec fn spec_kind(self) -> CollapseKind {
        match self {
            Query::Interpolation(_) => CollapseKind::Interpolation,
            Query::Recursion(_) => CollapseKind::Recursion,
        }
    }

    /// Every row of the query's keys and root has its seed.
    pub open spec fn is_seeded(self) -> bool {
        match self {
            Query::Interpolation(q) => q.is_seeded(),
            Query::Recursion(q) => q.is_seeded(),
        }
    }

    /// Which construction the query belongs to.
    pub fn kind(&self) -> (r: CollapseKind)
        ensures
            r == self.spec_kind(),
    {
        match self {
            Query::Interpolation(_) => CollapseKind::Interpolation,
            Query::Recursion(_) => CollapseKind::Recursion,
        }
    }
}

impl Response {
    pub open spec fn spec_kind(self) -> CollapseKind {
        match self {
            Response::Interpolation(_) => CollapseKind::Interpolation,
            Response::Recursion(_) => CollapseKind::Recursion,
        }
    }

    /// Which construction the response belongs to.
    pub fn kind(&self) -> (r: CollapseKind)
        ensures
            r == self.spec_kind(),
    {
        match self {
            Response::Interpolation(_) => CollapseKind::Interpolation,
            Response::Recursion(_) => CollapseKind::Recursion,
        }
    }
}

} // verus!
