//! The default parameter sets for 32-byte payloads: which there are, and their names.

use vstd::prelude::*;
use vstd::arithmetic::div_mod::*;
use vstd::arithmetic::power2::*;
use vstd::string::*;
use crate::arith::lemma_quotient;
use crate::config::{
    Collapse, Config, DefaultPirConfig32B, DefaultPirParameters32B, DefaultScheme,
    InterpolationDefaults, RecursionDefaults,
};
use crate::database::DatabaseLayout;
use crate::encoding::ModPEncoder;
use crate::packing::divided::law_divisor_is_small;
use crate::packing::packed::{FullPacking, PartialPacking};
use crate::parameters::{QuerySize, ResponseSize};
use crate::payload::{law_shape_of_p65535, law_shape_of_p65536, U256P65535, U256P65536};
use crate::server::protocol::Transport;
use crate::server::Server;

verus! {

// ---------------------------------------------------------------------------
// The grid
// ---------------------------------------------------------------------------

/// The construction with the given number.
pub open spec fn scheme_at(i: int) -> DefaultScheme {
    if i == 0 {
        DefaultScheme::Interpolation
    } else if i == 1 {
        DefaultScheme::Recursion { gamma0: 16 }
    } else if i == 2 {
        DefaultScheme::Recursion { gamma0: 32 }
    } else {
        DefaultScheme::Recursion { gamma0: 64 }
    }
}

/// Database size and logarithm of the columns of the shape with the given number.
pub open spec fn shape_at(j: int) -> (int, int) {
    if j < 4 {
        (1, 12 + j)
    } else if j < 9 {
        (2, 12 + (j - 4))
    } else if j < 13 {
        (4, 13 + (j - 9))
    } else if j < 18 {
        (8, 13 + (j - 13))
    } else if j < 23 {
        (16, 14 + (j - 18))
    } else {
        (32, 15 + (j - 23))
    }
}

/// Database sizes of the sets.
pub open spec fn is_size(db_gib: int) -> bool {
    db_gib == 1 || db_gib == 2 || db_gib == 4 || db_gib == 8 || db_gib == 16 || db_gib == 32
}

/// Smallest and largest logarithm of the columns for a database size.
pub open spec fn window_of(db_gib: int) -> (int, int) {
    if db_gib == 1 {
        (12, 15)
    } else if db_gib == 2 {
        (12, 16)
    } else if db_gib == 4 {
        (13, 16)
    } else if db_gib == 8 {
        (13, 17)
    } else if db_gib == 16 {
        (14, 18)
    } else {
        (15, 18)
    }
}

pub open spec fn is_scheme(scheme: DefaultScheme) -> bool {
    match scheme {
        DefaultScheme::Interpolation => true,
        DefaultScheme::Recursion { gamma0 } => gamma0 == 16 || gamma0 == 32 || gamma0 == 64,
    }
}

impl DefaultPirParameters32B {
    /// A set of a listed construction and size, with a power of two of columns within the
    /// window of that size.
    pub open spec fn in_grid(self) -> bool {
        &&& is_scheme(self.scheme)
        &&& is_size(self.db_gib as int)
        &&& exists|c: nat|
            window_of(self.db_gib as int).0 <= c <= window_of(self.db_gib as int).1 && self.cols
                == #[trigger] pow2(c)
    }

    /// The set with the given number: all shapes of one construction, then the next.
    pub open spec fn spec_at(i: int) -> DefaultPirParameters32B {
        DefaultPirParameters32B {
            scheme: scheme_at(i / 27),
            db_gib: shape_at(i % 27).0 as usize,
            cols: pow2(shape_at(i % 27).1 as nat) as usize,
        }
    }

    /// The database sizes, in GiB.
    pub const DB_SIZES_GIB: [usize; 6] = [1, 2, 4, 8, 16, 32];

    /// The constructions.
    pub fn schemes() -> (r: [DefaultScheme; 4])
        ensures
            forall|i: int| 0 <= i < 4 ==> #[trigger] r@[i] == scheme_at(i),
            forall|scheme: DefaultScheme| is_scheme(scheme) <==> #[trigger] r@.contains(scheme),
    {
        let r = [
            DefaultScheme::Interpolation,
            DefaultScheme::Recursion { gamma0: 16 },
            DefaultScheme::Recursion { gamma0: 32 },
            DefaultScheme::Recursion { gamma0: 64 },
        ];
        proof {
            assert(r@[0] == scheme_at(0) && r@[1] == scheme_at(1) && r@[2] == scheme_at(2) && r@[3]
                == scheme_at(3));
        }
        r
    }

    /// The list holds the sizes of the grid, and no others.
    pub proof fn law_sizes_are_listed(db_gib: usize)
        ensures
            Self::DB_SIZES_GIB@.contains(db_gib) <==> is_size(db_gib as int),
    {
        let sizes = Self::DB_SIZES_GIB@;
        assert(sizes.len() == 6);
        assert(sizes[0] == 1 && sizes[1] == 2 && sizes[2] == 4 && sizes[3] == 8 && sizes[4] == 16
            && sizes[5] == 32);
    }

    /// Smallest and largest logarithm of the columns for a database size.
    pub fn cols_window(db_gib: usize) -> (r: (u32, u32))
        requires
            is_size(db_gib as int),
        ensures
            r.0 == window_of(db_gib as int).0,
            r.1 == window_of(db_gib as int).1,
    {
        if db_gib == 1 {
            (12, 15)
        } else if db_gib == 2 {
            (12, 16)
        } else if db_gib == 4 {
            (13, 16)
        } else if db_gib == 8 {
            (13, 17)
        } else if db_gib == 16 {
            (14, 18)
        } else {
            (15, 18)
        }
    }

    /// The set with the given number.
    fn at(i: usize) -> (r: Self)
        requires
            i < 108,
        ensures
            r == Self::spec_at(i as int),
    {
        let scheme: DefaultScheme = if i < 27 {
            DefaultScheme::Interpolation
        } else if i < 54 {
            DefaultScheme::Recursion { gamma0: 16 }
        } else if i < 81 {
            DefaultScheme::Recursion { gamma0: 32 }
        } else {
            DefaultScheme::Recursion { gamma0: 64 }
        };
        let j: usize = i % 27;
        let (db_gib, first, from): (usize, usize, usize) = if j < 4 {
            (1, 4096, 0)
        } else if j < 9 {
            (2, 4096, 4)
        } else if j < 13 {
            (4, 8192, 9)
        } else if j < 18 {
            (8, 8192, 13)
        } else if j < 23 {
            (16, 16384, 18)
        } else {
            (32, 32768, 23)
        };
        let step: usize = j - from;
        let factor: usize = if step == 0 {
            1
        } else if step == 1 {
            2
        } else if step == 2 {
            4
        } else if step == 3 {
            8
        } else {
            16
        };
        proof {
            lemma2_to64();
        }
        DefaultPirParameters32B { scheme, db_gib, cols: first * factor }
    }

    /// All sets, construction by construction.
    pub fn all() -> (r: Vec<Self>)
        ensures
            r@.len() == 108,
            forall|i: int| 0 <= i < 108 ==> #[trigger] r@[i] == Self::spec_at(i),
            forall|p: DefaultPirParameters32B| p.in_grid() <==> #[trigger] r@.contains(p),
            r@.no_duplicates(),
    {
        let mut out: Vec<Self> = Vec::new();
        let mut i: usize = 0;
        while i < 108
            invariant
                i <= 108,
                out@.len() == i,
                forall|j: int| 0 <= j < i ==> #[trigger] out@[j] == Self::spec_at(j),
            decreases 108 - i,
        {
            out.push(Self::at(i));
            i = i + 1;
        }
        proof {
            assert forall|p: DefaultPirParameters32B| p.in_grid() <==> #[trigger] out@.contains(
                p,
            ) by {
                if p.in_grid() {
                    let k = p.lemma_position();
                    assert(out@[k] == p);
                }
                if out@.contains(p) {
                    let k = choose|k: int| 0 <= k < out@.len() && out@[k] == p;
                    Self::lemma_at_in_grid(k);
                }
            }
            assert forall|a: int, b: int| 0 <= a < 108 && 0 <= b < 108 && a != b implies out@[a]
                != out@[b] by {
                Self::lemma_at_distinct(a, b);
            }
        }
        out
    }

    proof fn lemma_at_in_grid(i: int)
        requires
            0 <= i < 108,
        ensures
            Self::spec_at(i).in_grid(),
    {
        lemma2_to64();
        let c = shape_at(i % 27).1 as nat;
        assert(Self::spec_at(i).cols == pow2(c));
    }

    /// The number of a set of the grid.
    proof fn lemma_position(self) -> (i: int)
        requires
            self.in_grid(),
        ensures
            0 <= i < 108,
            Self::spec_at(i) == self,
    {
        lemma2_to64();
        let c = choose|c: nat|
            window_of(self.db_gib as int).0 <= c <= window_of(self.db_gib as int).1 && self.cols
                == #[trigger] pow2(c);
        let db = self.db_gib as int;
        let start: int = if db == 1 {
            0
        } else if db == 2 {
            4
        } else if db == 4 {
            9
        } else if db == 8 {
            13
        } else if db == 16 {
            18
        } else {
            23
        };
        let j = start + (c - window_of(db).0);
        let s: int = match self.scheme {
            DefaultScheme::Interpolation => 0,
            DefaultScheme::Recursion { gamma0 } => if gamma0 == 16 {
                1
            } else if gamma0 == 32 {
                2
            } else {
                3
            },
        };
        let i = s * 27 + j;
        lemma_quotient(i, 27, s, j);
        assert(shape_at(j) == (db, c as int));
        i
    }

    proof fn lemma_at_distinct(a: int, b: int)
        requires
            0 <= a < 108,
            0 <= b < 108,
            a != b,
        ensures
            Self::spec_at(a) != Self::spec_at(b),
    {
        lemma2_to64();
        lemma_fundamental_div_mod(a, 27);
        lemma_fundamental_div_mod(b, 27);
        let c = shape_at(a % 27).1 as nat;
        let d = shape_at(b % 27).1 as nat;
        if c < d {
            lemma_pow2_strictly_increases(c, d);
        } else if d < c {
            lemma_pow2_strictly_increases(d, c);
        }
    }

    /// Every construction and size has its canonical set in the grid.
    pub proof fn law_canonical_in_grid(self)
        requires
            is_scheme(self.scheme),
            is_size(self.db_gib as int),
            self.cols == 8192 * self.db_gib,
        ensures
            self.in_grid(),
    {
        lemma2_to64();
        let db = self.db_gib as int;
        let c: nat = if db == 1 {
            13
        } else if db == 2 {
            14
        } else if db == 4 {
            15
        } else if db == 8 {
            16
        } else if db == 16 {
            17
        } else {
            18
        };
        assert(self.cols == pow2(c));
    }

    /// A set of the grid fills its database exactly, with a power of two of rows and of
    /// columns.
    pub proof fn law_grid_fills_exactly(self)
        requires
            self.in_grid(),
        ensures
            self.spec_rows() * self.cols == 536870912 * self.db_gib,
            exists|r: nat| self.spec_rows() == #[trigger] pow2(r),
            1 <= self.db_gib <= 32,
            1 <= self.cols <= 536870912 * self.db_gib,
    {
        lemma2_to64();
        let c = choose|c: nat|
            window_of(self.db_gib as int).0 <= c <= window_of(self.db_gib as int).1 && self.cols
                == #[trigger] pow2(c);
        let db = self.db_gib as int;
        let e: nat = if db == 1 {
            29
        } else if db == 2 {
            30
        } else if db == 4 {
            31
        } else if db == 8 {
            32
        } else if db == 16 {
            33
        } else {
            34
        };
        lemma_pow2_unfold(33);
        lemma_pow2_unfold(34);
        assert(536870912 * db == pow2(e));
        lemma_pow2_adds((e - c) as nat, c);
        lemma_quotient(pow2(e) as int, pow2(c) as int, pow2((e - c) as nat) as int, 0);
        assert(self.spec_rows() == pow2((e - c) as nat));
    }
}

// ---------------------------------------------------------------------------
// Noise
// ---------------------------------------------------------------------------

impl DefaultPirParameters32B {
    /// Every interpolation set has room for the noise of an exchange: `2^27` in each row of
    /// its products, `2^26` from packing it, and `2^35` from the combination of the panels.
    pub proof fn law_interpolation_sets_tolerate_noise(self, encoder: ModPEncoder)
        requires
            self.in_grid(),
            self.scheme == DefaultScheme::Interpolation,
            encoder.p == 65535,
            encoder.k == 54,
        ensures
            ({
                let panels = self.spec_rows() / 2048;
                &&& 1 <= panels <= 256
                &&& encoder.tolerates(
                    panels * 32768,
                    panels * (0x800_0000 + 0x400_0000) + 0x8_0000_0000,
                )
            }),
    {
        lemma2_to64();
        lemma2_to64_rest();
        let c = choose|c: nat|
            window_of(self.db_gib as int).0 <= c <= window_of(self.db_gib as int).1 && self.cols
                == #[trigger] pow2(c);
        let db = self.db_gib as int;
        let e: nat = if db == 1 {
            29
        } else if db == 2 {
            30
        } else if db == 4 {
            31
        } else if db == 8 {
            32
        } else if db == 16 {
            33
        } else {
            34
        };
        assert(536870912 * db == pow2(e));
        lemma_pow2_adds((e - c) as nat, c);
        lemma_quotient(pow2(e) as int, pow2(c) as int, pow2((e - c) as nat) as int, 0);
        let rows = self.spec_rows();
        assert(rows == pow2((e - c) as nat));
        assert(14 <= e - c <= 19);
        if e - c < 19 {
            lemma_pow2_strictly_increases((e - c) as nat, 19);
        }
        if 14 < e - c {
            lemma_pow2_strictly_increases(14, (e - c) as nat);
        }
        let panels = rows / 2048;
        assert(1 <= panels <= 256);
        let noise = panels * (0x800_0000 + 0x400_0000) + 0x8_0000_0000;
        assert(0 <= noise <= 0x14_0000_0000) by (nonlinear_arith)
            requires
                noise == panels * (0x800_0000 + 0x400_0000) + 0x8_0000_0000,
                1 <= panels <= 256,
        ;
    }
}

/// The recursion sets have room for the noise of an exchange, on both levels: a row with
/// noise up to `2^27`, packed with noise up to `2^26` and switched under a ternary secret,
/// carries noise up to 2048, and decodes.
pub proof fn law_recursion_sets_tolerate_noise(
    encoder: ModPEncoder,
    switched: ModPEncoder,
    shape: Transport,
    rounding: int,
)
    requires
        encoder.p == 65536,
        encoder.k == 54,
        switched.p == 65536,
        switched.k == 32,
        shape.n == 2048,
        shape.bits == 54,
        shape.base2k == 18,
        shape.size == 3,
        shape.qbits == 32,
        shape.tau == 2,
        shape.most == 1,
        0 <= rounding,
        0 <= shape.switch_bound,
        shape.switch_bound + rounding / 2 <= 0x400_0000,
    ensures
        shape.wf(),
        shape.tolerates(
            0x800_0000,
            rounding,
            encoder.spec_encode(1),
            switched.spec_encode(1),
            2048,
        ),
        switched.tolerates(32768, 2048),
{
    lemma2_to64();
    lemma2_to64_rest();
    assert(encoder.spec_encode(1) == 0x40_0000_0000);
    assert(switched.spec_encode(1) == 0x1_0000);
    assert(shape.scale() == 0x40_0000);
    assert(shape.pad() == 1);
    assert(shape.zoom() == 1);
}

/// What rounding adds to a packing of an interpolation set is small.
pub proof fn law_interpolation_sets_round_little(pack: FullPacking)
    requires
        pack.bits == 54,
        pack.n == 2048,
        pack.most == 1,
    ensures
        0 <= pack.rounding() <= 0x80_0000,
{
    assert(is_pow2(2048)) by {
        reveal_with_fuel(is_pow2, 13);
    }
    law_divisor_is_small(pack.n, pack.bits);
}

/// What rounding adds to a packing of at most 1024 rows of a recursion set is small.
pub proof fn law_recursion_sets_round_little(pack: PartialPacking)
    requires
        1 <= pack.gamma <= 1024,
        is_pow2(pack.gamma),
        pack.bits == 54,
        pack.n == 2048,
        pack.most == 1,
    ensures
        0 <= pack.rounding() <= 0x40_0000,
{
    law_divisor_is_small(pack.gamma, pack.bits);
}

// ---------------------------------------------------------------------------
// Sizes
// ---------------------------------------------------------------------------

impl DefaultPirParameters32B {
    /// Bytes of a query.
    pub open spec fn spec_query_bytes(self) -> int {
        match self.scheme {
            DefaultScheme::Interpolation => default_interpolation().spec_query_bytes(
                self.interpolation_layout(),
            ),
            DefaultScheme::Recursion { gamma0 } => default_recursion(gamma0).spec_query_bytes(
                self.recursion_layout(),
            ),
        }
    }

    /// Bytes of a response.
    pub open spec fn spec_response_bytes(self) -> int {
        match self.scheme {
            DefaultScheme::Interpolation => default_interpolation().spec_response_bytes(),
            DefaultScheme::Recursion { gamma0 } => default_recursion(gamma0).spec_response_bytes(),
        }
    }

    pub open spec fn interpolation_layout(self) -> DatabaseLayout<U256P65535> {
        DatabaseLayout {
            rows: self.spec_rows() as usize,
            cols: self.cols,
            _phantom: core::marker::PhantomData,
        }
    }

    pub open spec fn recursion_layout(self) -> DatabaseLayout<U256P65536> {
        DatabaseLayout {
            rows: self.spec_rows() as usize,
            cols: self.cols,
            _phantom: core::marker::PhantomData,
        }
    }

    /// Bytes of a query, without any backend.
    pub fn query_bytes(&self) -> (r: usize)
        requires
            self.wf(),
            self.scheme matches DefaultScheme::Recursion { gamma0 } ==> gamma0 >= 1,
            self.spec_query_bytes() <= usize::MAX,
        ensures
            r == self.spec_query_bytes(),
    {
        match self.resolve() {
            DefaultPirConfig32B::Interpolation(d) => {
                let size: QuerySize = d.config.query_size(d.layout);
                size.total_size()
            },
            DefaultPirConfig32B::Recursion(d) => {
                let size: QuerySize = d.config.query_size(d.layout);
                size.total_size()
            },
        }
    }

    /// Bytes of a response, without any backend.
    pub fn response_bytes(&self) -> (r: usize)
        requires
            self.wf(),
            self.scheme matches DefaultScheme::Recursion { gamma0 } ==> 1 <= gamma0 && gamma0 * 2
                <= usize::MAX,
            self.spec_response_bytes() <= usize::MAX,
        ensures
            r == self.spec_response_bytes(),
    {
        match self.resolve() {
            DefaultPirConfig32B::Interpolation(d) => {
                let size: ResponseSize = d.config.response_size(d.layout);
                size.total_size()
            },
            DefaultPirConfig32B::Recursion(d) => {
                let size: ResponseSize = d.config.response_size(d.layout);
                size.total_size()
            },
        }
    }
}

/// The configuration of interpolation sets.
pub open spec fn default_interpolation() -> Config<U256P65535> {
    Config {
        n: 2048,
        base2k: 18,
        k: 54,
        collapse: Collapse::Interpolation,
        _phantom: core::marker::PhantomData,
    }
}

/// The configuration of recursion sets.
pub open spec fn default_recursion(gamma0: usize) -> Config<U256P65536> {
    Config {
        n: 2048,
        base2k: 18,
        k: 54,
        collapse: Collapse::Recursion { gamma0, gamma1: 1024, gamma2: gamma0 },
        _phantom: core::marker::PhantomData,
    }
}

// ---------------------------------------------------------------------------
// Names
// ---------------------------------------------------------------------------

/// The decimal digit of a number below ten.
pub open spec fn digit_char(d: int) -> char {
    if d == 0 {
        '0'
    } else if d == 1 {
        '1'
    } else if d == 2 {
        '2'
    } else if d == 3 {
        '3'
    } else if d == 4 {
        '4'
    } else if d == 5 {
        '5'
    } else if d == 6 {
        '6'
    } else if d == 7 {
        '7'
    } else if d == 8 {
        '8'
    } else {
        '9'
    }
}

/// The decimal digits of a number.
pub open spec fn decimal(x: int) -> Seq<char>
    decreases x,
{
    if x < 10 {
        seq![digit_char(x)]
    } else {
        decimal(x / 10).push(digit_char(x % 10))
    }
}

proof fn lemma_digit_injective(x: int, y: int)
    requires
        0 <= x < 10,
        0 <= y < 10,
        digit_char(x) == digit_char(y),
    ensures
        x == y,
{
}

/// Numbers with the same digits are the same.
proof fn lemma_decimal_injective(x: int, y: int)
    requires
        x >= 0,
        y >= 0,
        decimal(x) == decimal(y),
    ensures
        x == y,
    decreases x,
{
    lemma_decimal_len(x);
    lemma_decimal_len(y);
    if x >= 10 && y >= 10 {
        assert(decimal(x).drop_last() =~= decimal(x / 10));
        assert(decimal(y).drop_last() =~= decimal(y / 10));
        lemma_decimal_injective(x / 10, y / 10);
        assert(decimal(x).last() == digit_char(x % 10));
        assert(decimal(y).last() == digit_char(y % 10));
        lemma_digit_injective(x % 10, y % 10);
        lemma_fundamental_div_mod(x, 10);
        lemma_fundamental_div_mod(y, 10);
    } else if x < 10 && y < 10 {
        assert(decimal(x)[0] == digit_char(x));
        assert(decimal(y)[0] == digit_char(y));
        lemma_digit_injective(x, y);
    } else if x >= 10 {
        lemma_decimal_len(x / 10);
    } else if y >= 10 {
        lemma_decimal_len(y / 10);
    }
}

proof fn lemma_decimal_len(x: int)
    requires
        x >= 0,
    ensures
        decimal(x).len() >= 1,
        forall|i: int| 0 <= i < decimal(x).len() ==> #[trigger] decimal(x)[i] != '-',
        x < 10 ==> decimal(x).len() == 1,
    decreases x,
{
    if x >= 10 {
        lemma_decimal_len(x / 10);
    }
}

fn digit_str(d: usize) -> (r: &'static str)
    requires
        d < 10,
    ensures
        r@ == seq![digit_char(d as int)],
{
    proof {
        reveal_strlit("0");
        reveal_strlit("1");
        reveal_strlit("2");
        reveal_strlit("3");
        reveal_strlit("4");
        reveal_strlit("5");
        reveal_strlit("6");
        reveal_strlit("7");
        reveal_strlit("8");
        reveal_strlit("9");
    }
    let r: &'static str = if d == 0 {
        "0"
    } else if d == 1 {
        "1"
    } else if d == 2 {
        "2"
    } else if d == 3 {
        "3"
    } else if d == 4 {
        "4"
    } else if d == 5 {
        "5"
    } else if d == 6 {
        "6"
    } else if d == 7 {
        "7"
    } else if d == 8 {
        "8"
    } else {
        "9"
    };
    assert(r@ =~= seq![digit_char(d as int)]);
    r
}

/// Appends the decimal digits of a number.
fn append_decimal(out: &mut String, x: usize)
    ensures
        final(out)@ == old(out)@ + decimal(x as int),
    decreases x,
{
    let ghost start = out@;
    if x < 10 {
        out.append(digit_str(x));
    } else {
        append_decimal(out, x / 10);
        out.append(digit_str(x % 10));
        assert(out@ =~= start + decimal(x as int));
    }
}

impl DefaultPirParameters32B {
    /// Construction, size and columns, separated by dashes.
    pub open spec fn spec_name(self) -> Seq<char> {
        scheme_name(self.scheme) + seq!['-'] + decimal(self.db_gib as int) + seq!['-'] + decimal(
            self.cols as int,
        )
    }

    /// The name of the set: construction, size in GiB and columns.
    pub fn name(&self) -> (r: String)
        ensures
            r@ == self.spec_name(),
    {
        proof {
            reveal_strlit("inspire");
            reveal_strlit("inspire2_");
            reveal_strlit("-");
            assert("-"@ =~= seq!['-']);
            assert("inspire"@ =~= seq!['i', 'n', 's', 'p', 'i', 'r', 'e']);
            assert("inspire2_"@ =~= seq!['i', 'n', 's', 'p', 'i', 'r', 'e', '2', '_']);
        }
        let mut out: String = String::new();
        match self.scheme {
            DefaultScheme::Interpolation => {
                out.append("inspire");
            },
            DefaultScheme::Recursion { gamma0 } => {
                out.append("inspire2_");
                append_decimal(&mut out, gamma0);
            },
        }
        assert(out@ =~= scheme_name(self.scheme));
        out.append("-");
        append_decimal(&mut out, self.db_gib);
        out.append("-");
        append_decimal(&mut out, self.cols);
        out
    }

    /// The set of the given name, if there is one.
    pub fn from_name(name: &str) -> (r: Option<Self>)
        ensures
            match r {
                Some(p) => p.in_grid() && p.spec_name() == name@,
                None => forall|set: DefaultPirParameters32B|
                    #[trigger] set.in_grid() ==> set.spec_name() != name@,
            },
    {
        let wanted: String = name.to_owned();
        let all: Vec<Self> = Self::all();
        let mut i: usize = 0;
        while i < all.len()
            invariant
                i <= all@.len(),
                wanted@ == name@,
                forall|p: DefaultPirParameters32B| p.in_grid() <==> #[trigger] all@.contains(p),
                forall|j: int| 0 <= j < i ==> (#[trigger] all@[j]).spec_name() != name@,
            decreases all@.len() - i,
        {
            let p: Self = all[i];
            if p.name() == wanted {
                proof {
                    assert(all@.contains(all@[i as int]));
                }
                return Some(p);
            }
            i = i + 1;
        }
        proof {
            assert forall|p: DefaultPirParameters32B| #[trigger] p.in_grid() implies p.spec_name()
                != name@ by {
                assert(all@.contains(p));
                let k = choose|k: int| 0 <= k < all@.len() && all@[k] == p;
                assert(all@[k].spec_name() != name@);
            }
        }
        None
    }

    /// Different sets have different names.
    pub proof fn law_names_are_unique(self, other: DefaultPirParameters32B)
        requires
            self.spec_name() == other.spec_name(),
        ensures
            self == other,
    {
        let a = scheme_name(self.scheme);
        let b = scheme_name(other.scheme);
        let da = decimal(self.db_gib as int);
        let db = decimal(other.db_gib as int);
        let ca = decimal(self.cols as int);
        let cb = decimal(other.cols as int);
        let dash = seq!['-'];
        lemma_scheme_name(self.scheme);
        lemma_scheme_name(other.scheme);
        lemma_decimal_len(self.db_gib as int);
        lemma_decimal_len(other.db_gib as int);
        assert(self.spec_name() =~= a + dash + (da + dash + ca));
        assert(other.spec_name() =~= b + dash + (db + dash + cb));
        lemma_first_field(a, da + dash + ca, b, db + dash + cb);
        lemma_first_field(da, ca, db, cb);
        lemma_decimal_injective(self.db_gib as int, other.db_gib as int);
        lemma_decimal_injective(self.cols as int, other.cols as int);
        match (self.scheme, other.scheme) {
            (
                DefaultScheme::Recursion { gamma0: x },
                DefaultScheme::Recursion { gamma0: y },
            ) => {
                let prefix = recursion_prefix();
                assert(a.subrange(9, a.len() as int) =~= decimal(x as int));
                assert(b.subrange(9, b.len() as int) =~= decimal(y as int));
                lemma_decimal_injective(x as int, y as int);
            },
            (DefaultScheme::Recursion { gamma0: x }, DefaultScheme::Interpolation) => {
                lemma_decimal_len(x as int);
                assert(a.len() != b.len());
            },
            (DefaultScheme::Interpolation, DefaultScheme::Recursion { gamma0: y }) => {
                lemma_decimal_len(y as int);
                assert(a.len() != b.len());
            },
            _ => {},
        }
    }

    /// The name of a set of the grid leads back to it.
    pub proof fn law_name_leads_back(self, found: DefaultPirParameters32B)
        requires
            self.in_grid(),
            found.in_grid(),
            found.spec_name() == self.spec_name(),
        ensures
            found == self,
    {
        found.law_names_are_unique(self);
    }
}

pub open spec fn recursion_prefix() -> Seq<char> {
    seq!['i', 'n', 's', 'p', 'i', 'r', 'e', '2', '_']
}

/// The name of a construction.
pub open spec fn scheme_name(scheme: DefaultScheme) -> Seq<char> {
    match scheme {
        DefaultScheme::Interpolation => seq!['i', 'n', 's', 'p', 'i', 'r', 'e'],
        DefaultScheme::Recursion { gamma0 } => recursion_prefix() + decimal(gamma0 as int),
    }
}

proof fn lemma_scheme_name(scheme: DefaultScheme)
    ensures
        forall|i: int| 0 <= i < scheme_name(scheme).len() ==> #[trigger] scheme_name(scheme)[i]
            != '-',
{
    if let DefaultScheme::Recursion { gamma0 } = scheme {
        lemma_decimal_len(gamma0 as int);
        assert forall|i: int| 0 <= i < scheme_name(scheme).len() implies #[trigger] scheme_name(
            scheme,
        )[i] != '-' by {
            if i >= 9 {
                assert(scheme_name(scheme)[i] == decimal(gamma0 as int)[i - 9]);
            } else {
                assert(scheme_name(scheme)[i] == recursion_prefix()[i]);
            }
        }
    }
}

/// The first dash ends the first field.
proof fn lemma_first_field(a: Seq<char>, x: Seq<char>, b: Seq<char>, y: Seq<char>)
    requires
        a + seq!['-'] + x == b + seq!['-'] + y,
        forall|i: int| 0 <= i < a.len() ==> #[trigger] a[i] != '-',
        forall|i: int| 0 <= i < b.len() ==> #[trigger] b[i] != '-',
    ensures
        a == b,
        x == y,
{
    let s = a + seq!['-'] + x;
    let t = b + seq!['-'] + y;
    assert(s[a.len() as int] == '-');
    assert(t[b.len() as int] == '-');
    if a.len() < b.len() {
        assert(t[a.len() as int] == b[a.len() as int]);
    } else if b.len() < a.len() {
        assert(s[b.len() as int] == a[b.len() as int]);
    }
    assert forall|i: int| 0 <= i < a.len() implies a[i] == b[i] by {
        assert(s[i] == a[i] && t[i] == b[i]);
    }
    assert(a =~= b);
    assert(s.len() == a.len() + 1 + x.len());
    assert(t.len() == b.len() + 1 + y.len());
    assert forall|i: int| 0 <= i < x.len() implies x[i] == y[i] by {
        assert(s[a.len() + 1 + i] == x[i] && t[a.len() + 1 + i] == y[i]);
    }
    assert(x =~= y);
}

// ---------------------------------------------------------------------------
// What the sets are
// ---------------------------------------------------------------------------

/// A name finds its set exactly where the set is listed.
pub proof fn law_listed_names_are_found(
    all: Vec<DefaultPirParameters32B>,
    set: &DefaultPirParameters32B,
    name: String,
    wanted: &str,
    found: Option<DefaultPirParameters32B>,
)
    requires
        call_ensures(DefaultPirParameters32B::all, (), all),
        call_ensures(DefaultPirParameters32B::name, (set,), name),
        wanted@ == name@,
        call_ensures(DefaultPirParameters32B::from_name, (wanted,), found),
    ensures
        all@.contains(*set) ==> found == Some(*set),
        !all@.contains(*set) ==> found is None,
        forall|i: int, j: int|
            0 <= i < all@.len() && 0 <= j < all@.len() && #[trigger] all@[i]
                == #[trigger] all@[j] ==> i == j,
{
    assert(set.in_grid() <==> all@.contains(*set));
    match found {
        Some(p) => {
            p.law_names_are_unique(*set);
        },
        None => {},
    }
}

/// A name is the construction, the size and the columns, in decimal digits and parted by
/// dashes. Digits are those of the number: the last one is its remainder by ten.
pub proof fn law_names_spell_sets(set: &DefaultPirParameters32B, name: String, x: int)
    requires
        call_ensures(DefaultPirParameters32B::name, (set,), name),
        x >= 0,
    ensures
        name@ == match set.scheme {
            DefaultScheme::Interpolation => seq!['i', 'n', 's', 'p', 'i', 'r', 'e'],
            DefaultScheme::Recursion { gamma0 } => seq![
                'i',
                'n',
                's',
                'p',
                'i',
                'r',
                'e',
                '2',
                '_',
            ] + decimal(gamma0 as int),
        } + seq!['-'] + decimal(set.db_gib as int) + seq!['-'] + decimal(set.cols as int),
        decimal(x).last() as int == 48 + x % 10,
        x < 10 ==> decimal(x).len() == 1,
        x >= 10 ==> decimal(x).drop_last() == decimal(x / 10),
{
    lemma_decimal_len(x);
    if x >= 10 {
        assert(decimal(x).drop_last() =~= decimal(x / 10));
        assert(decimal(x).last() == digit_char(x % 10));
    } else {
        assert(decimal(x).last() == digit_char(x));
    }
}

/// The listed sets are those of a construction and a size, with a power of two of columns
/// within the window of that size. The constructions are interpolation, and recursion with
/// batches of 16, 32 or 64 rows.
pub proof fn law_sets_are_listed(
    all: Vec<DefaultPirParameters32B>,
    set: DefaultPirParameters32B,
    window: (u32, u32),
    schemes: [DefaultScheme; 4],
)
    requires
        call_ensures(DefaultPirParameters32B::all, (), all),
        call_ensures(DefaultPirParameters32B::schemes, (), schemes),
        set.db_gib == 1 || set.db_gib == 2 || set.db_gib == 4 || set.db_gib == 8 || set.db_gib
            == 16 || set.db_gib == 32,
        call_ensures(DefaultPirParameters32B::cols_window, (set.db_gib,), window),
    ensures
        all@.contains(set) <==> schemes@.contains(set.scheme) && exists|c: nat|
            window.0 <= c <= window.1 && set.cols == #[trigger] pow2(c),
        schemes@.contains(set.scheme) <==> match set.scheme {
            DefaultScheme::Interpolation => true,
            DefaultScheme::Recursion { gamma0 } => gamma0 == 16 || gamma0 == 32 || gamma0 == 64,
        },
{
    assert(set.in_grid() <==> all@.contains(set));
    assert(is_scheme(set.scheme) <==> schemes@.contains(set.scheme));
}

/// Sets of other sizes are not listed.
pub proof fn law_other_sizes_are_not_listed(
    all: Vec<DefaultPirParameters32B>,
    set: DefaultPirParameters32B,
)
    requires
        call_ensures(DefaultPirParameters32B::all, (), all),
        all@.contains(set),
    ensures
        set.db_gib == 1 || set.db_gib == 2 || set.db_gib == 4 || set.db_gib == 8 || set.db_gib
            == 16 || set.db_gib == 32,
        all@.len() == 108,
{
    assert(set.in_grid());
}

/// Every listed set is one that a server serves: its configuration is valid, and its layout
/// is one of the construction. It fills the database of its size, and two bytes per digit
/// make up that size.
pub proof fn law_listed_sets_are_served(set: &DefaultPirParameters32B, r: DefaultPirConfig32B)
    requires
        set.in_grid(),
        set.wf(),
        call_ensures(DefaultPirParameters32B::resolve, (set,), r),
    ensures
        match r {
            DefaultPirConfig32B::Interpolation(d) => {
                &&& set.scheme is Interpolation
                &&& d.config.collapse is Interpolation
                &&& d.config.n == 2048 && d.config.base2k == 18 && d.config.k == 54
                &&& Server::<U256P65535>::serves(d.config, d.layout)
                &&& d.layout.cols == set.cols
                &&& 2 * d.layout.rows * d.layout.cols == set.db_gib * 0x4000_0000
                &&& d.db_size_gib == set.db_gib
            },
            DefaultPirConfig32B::Recursion(d) => {
                &&& set.scheme matches DefaultScheme::Recursion { gamma0 } && d.config.collapse == (
                Collapse::Recursion { gamma0, gamma1: 1024, gamma2: gamma0 }) && d.gamma0 == gamma0
                    && d.gamma1 == 1024 && d.gamma2 == gamma0
                &&& d.config.n == 2048 && d.config.base2k == 18 && d.config.k == 54
                &&& Server::<U256P65536>::serves(d.config, d.layout)
                &&& d.layout.cols == set.cols
                &&& 2 * d.layout.rows * d.layout.cols == set.db_gib * 0x4000_0000
                &&& d.db_size_gib == set.db_gib
            },
        },
{
    set.law_grid_fills_exactly();
    law_shape_of_p65535();
    law_shape_of_p65536();
    let rows = set.spec_rows();
    let cols = set.cols as int;
    let c = choose|c: nat|
        window_of(set.db_gib as int).0 <= c <= window_of(set.db_gib as int).1 && set.cols
            == #[trigger] pow2(c);
    let e = choose|r: nat| rows == #[trigger] pow2(r);
    lemma2_to64();
    lemma2_to64_rest();
    lemma_pow2_adds(e, c);
    assert(rows * cols == pow2(e + c));
    set.lemma_grid_rows(e, c);
    reveal_with_fuel(is_pow2, 13);
    assert(is_pow2(2048) && is_pow2(1024) && is_pow2(16) && is_pow2(32) && is_pow2(64));
    assert(54int % 18 == 0);
    assert(2 * rows * cols == 2 * (rows * cols)) by (nonlinear_arith);
    lemma_pow2_adds((e - 11) as nat, 11);
    lemma_pow2_adds((c - 11) as nat, 11);
    let rb = pow2((e - 11) as nat) as int;
    let cb = pow2((c - 11) as nat) as int;
    assert(rows == rb * 2048 && cols == cb * 2048);
    lemma_quotient(rows, 2048, rb, 0);
    lemma_quotient(cols, 2048, cb, 0);
    lemma_quotient(rows + 2047, 2048, rb, 2047);
    lemma_quotient(cols + 2047, 2048, cb, 2047);
    lemma_pow2_pos((c - 11) as nat);
    lemma_pow2_pos((e - 11) as nat);
    assert(rb * cb <= rows * cols) by (nonlinear_arith)
        requires
            rows == rb * 2048,
            cols == cb * 2048,
            rb >= 1,
            cb >= 1,
    ;
    match r {
        DefaultPirConfig32B::Interpolation(d) => {
            d.layout.lemma_second_dimension_fits(2048);
        },
        DefaultPirConfig32B::Recursion(d) => {
            assert(rows == 16 * (rb * 128) && rows == 32 * (rb * 64) && rows == 64 * (rb * 32))
                by (nonlinear_arith)
                requires
                    rows == rb * 2048,
            ;
            lemma_quotient(rows, 16, rb * 128, 0);
            lemma_quotient(rows, 32, rb * 64, 0);
            lemma_quotient(rows, 64, rb * 32, 0);
        },
    }
}

impl DefaultPirParameters32B {
    /// Rows and columns of a set of the grid, as powers of two.
    proof fn lemma_grid_rows(self, e: nat, c: nat)
        requires
            self.in_grid(),
            window_of(self.db_gib as int).0 <= c <= window_of(self.db_gib as int).1,
            self.cols == pow2(c),
            self.spec_rows() == pow2(e),
            self.spec_rows() * self.cols == 536870912 * self.db_gib,
            self.spec_rows() * self.cols == pow2(e + c),
        ensures
            14 <= e <= 19,
            12 <= c <= 18,
            self.spec_rows() <= 524288,
    {
        lemma2_to64();
        lemma2_to64_rest();
        let db = self.db_gib as int;
        let total: nat = if db == 1 {
            29
        } else if db == 2 {
            30
        } else if db == 4 {
            31
        } else if db == 8 {
            32
        } else if db == 16 {
            33
        } else {
            34
        };
        assert(pow2(e + c) == pow2(total));
        if e + c < total {
            lemma_pow2_strictly_increases(e + c, total);
        } else if total < e + c {
            lemma_pow2_strictly_increases(total, e + c);
        }
        if e < 19 {
            lemma_pow2_strictly_increases(e, 19);
        }
    }
}

/// The bytes that are reported for a set are those of its resolved configuration.
pub proof fn law_sizes_of_sets(
    set: &DefaultPirParameters32B,
    r: DefaultPirConfig32B,
    query: usize,
    response: usize,
    query_size: QuerySize,
    response_size: ResponseSize,
    query_total: usize,
    response_total: usize,
)
    requires
        set.wf(),
        call_ensures(DefaultPirParameters32B::resolve, (set,), r),
        call_ensures(DefaultPirParameters32B::query_bytes, (set,), query),
        call_ensures(DefaultPirParameters32B::response_bytes, (set,), response),
        match r {
            DefaultPirConfig32B::Interpolation(d) => {
                &&& call_ensures(
                    Config::<U256P65535>::query_size,
                    (&d.config, d.layout),
                    query_size,
                )
                &&& call_ensures(
                    Config::<U256P65535>::response_size,
                    (&d.config, d.layout),
                    response_size,
                )
            },
            DefaultPirConfig32B::Recursion(d) => {
                &&& call_ensures(
                    Config::<U256P65536>::query_size,
                    (&d.config, d.layout),
                    query_size,
                )
                &&& call_ensures(
                    Config::<U256P65536>::response_size,
                    (&d.config, d.layout),
                    response_size,
                )
            },
        },
        call_ensures(QuerySize::total_size, (&query_size,), query_total),
        call_ensures(ResponseSize::total_size, (&response_size,), response_total),
    ensures
        query == query_total,
        response == response_total,
{
    assert(set.spec_rows() >= 0) by {
        lemma_div_pos_is_pos(536870912 * set.db_gib as int, set.cols as int);
    }
    match r {
        DefaultPirConfig32B::Interpolation(d) => {
            assert(d.layout == set.interpolation_layout());
            assert(d.config == default_interpolation());
        },
        DefaultPirConfig32B::Recursion(d) => {
            assert(d.layout == set.recursion_layout());
            match set.scheme {
                DefaultScheme::Recursion { gamma0 } => {
                    assert(d.config == default_recursion(gamma0));
                },
                _ => {},
            }
        },
    }
}

/// A set has the widths of its construction: none for interpolation, and for recursion that
/// of its batches, 1024, and that of its batches again. It resolves to parameters of that
/// construction alone.
pub proof fn law_sets_have_their_widths(
    set: &DefaultPirParameters32B,
    gammas: (Option<usize>, Option<usize>, Option<usize>),
    first: Option<InterpolationDefaults>,
    second: Option<RecursionDefaults>,
)
    requires
        set.wf(),
        call_ensures(DefaultPirParameters32B::gamma0, (set,), gammas.0),
        call_ensures(DefaultPirParameters32B::gamma1, (set,), gammas.1),
        call_ensures(DefaultPirParameters32B::gamma2, (set,), gammas.2),
        call_ensures(DefaultPirParameters32B::interpolation, (set,), first),
        call_ensures(DefaultPirParameters32B::recursion, (set,), second),
    ensures
        match set.scheme {
            DefaultScheme::Interpolation => {
                &&& gammas == (None::<usize>, None::<usize>, None::<usize>)
                &&& second is None
                &&& first matches Some(d) && d.layout.cols == set.cols && d.config.collapse
                    == Collapse::Interpolation
            },
            DefaultScheme::Recursion { gamma0 } => {
                &&& gammas == (Some(gamma0), Some(1024usize), Some(gamma0))
                &&& first is None
                &&& second matches Some(d) && d.layout.cols == set.cols && d.config.collapse == (
                Collapse::Recursion { gamma0, gamma1: 1024, gamma2: gamma0 })
            },
        },
{
}

/// The canonical set of a size has `2^16` rows, and two bytes per digit fill that size.
pub proof fn law_canonical_sets_have_65536_rows(
    scheme: DefaultScheme,
    db_gib: usize,
    set: DefaultPirParameters32B,
    rows: usize,
    digits: usize,
)
    requires
        1 <= db_gib <= 32,
        call_ensures(DefaultPirParameters32B::canonical, (scheme, db_gib), set),
        call_ensures(DefaultPirParameters32B::rows, (&set,), rows),
        call_ensures(DefaultPirParameters32B::total_u16, (&set,), digits),
    ensures
        set.scheme == scheme,
        set.db_gib == db_gib,
        rows == 65536,
        rows * set.cols == digits,
        2 * digits == db_gib * 0x4000_0000,
{
    assert(65536 * (8192 * db_gib) == 536870912 * db_gib) by (nonlinear_arith);
}

} // verus!
