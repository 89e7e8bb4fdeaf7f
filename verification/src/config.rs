//! Configuration of a run: ring, torus precision and construction.

use core::marker::PhantomData;
use vstd::prelude::*;
use vstd::arithmetic::div_mod::lemma_fundamental_div_mod;
use vstd::arithmetic::power2::is_pow2;
use crate::arith::{is_power_of_two, lemma_quotient};
use crate::database::DatabaseLayout;
use crate::error::{CollapseKind, ConfigIssue, PirError};
use crate::parameters::Parameters;
use crate::payload::{Payload, U256P65535, U256P65536};

verus! {

/// Default ring degree.
pub const DEFAULT_N: usize = 2048;

/// Default limb width.
pub const DEFAULT_BASE2K: usize = 18;

/// Default torus precision.
pub const DEFAULT_K: usize = 54;

/// How the second dimension is collapsed into the answer.
#[derive(Clone, Copy, Debug, PartialEq, Eq, Structural)]
pub enum Collapse {
    /// Polynomial interpolation over the roots of unity.
    Interpolation,
    /// A second level of retrieval over the digits of the first answer.
    Recursion { gamma0: usize, gamma1: usize, gamma2: usize },
}

impl Collapse {
    pub open spec fn spec_kind(self) -> CollapseKind {
        match self {
            Collapse::Interpolation => CollapseKind::Interpolation,
            Collapse::Recursion { .. } => CollapseKind::Recursion,
        }
    }

    /// Which construction this is.
    pub fn kind(&self) -> (r: CollapseKind)
        ensures
            r == self.spec_kind(),
    {
        match self {
            Collapse::Interpolation => CollapseKind::Interpolation,
            Collapse::Recursion { .. } => CollapseKind::Recursion,
        }
    }
}

/// Ring, torus precision and construction of a run over payloads of type `P`.
#[derive(Debug)]
pub struct Config<P> {
    pub n: usize,
    pub base2k: usize,
    pub k: usize,
    pub collapse: Collapse,
    pub _phantom: PhantomData<P>,
}

impl<P> Clone for Config<P> {
    fn clone(&self) -> (r: Self)
        ensures
            r == *self,
    {
        *self
    }
}

impl<P> Copy for Config<P> {}

/// A packing width: a power of two in `1 ..= n / 2`.
pub open spec fn valid_gamma(gamma: int, n: int) -> bool {
    is_pow2(gamma) && 1 <= gamma <= n / 2
}

fn check_gamma(gamma: usize, n: usize) -> (r: bool)
    ensures
        r == valid_gamma(gamma as int, n as int),
{
    is_power_of_two(gamma) && gamma >= 1 && gamma <= n / 2
}

impl<P: Payload<[u8; 32]>> Config<P> {
    /// Rows of one logical column.
    pub open spec fn spec_column_height(self) -> usize {
        match self.collapse {
            Collapse::Interpolation => self.n,
            Collapse::Recursion { gamma0, .. } => gamma0,
        }
    }

    /// The first rule that the configuration breaks, if any.
    pub open spec fn issue(self) -> Option<ConfigIssue> {
        if !(is_pow2(self.n as int) && self.n >= 4) {
            Some(ConfigIssue::RingDegree)
        } else if self.base2k == 0 || self.k == 0 {
            Some(ConfigIssue::Precision)
        } else {
            match self.collapse {
                Collapse::Interpolation => if P::EXPONENT > self.n {
                    Some(ConfigIssue::PayloadHeight)
                } else {
                    None
                },
                Collapse::Recursion { gamma0, gamma1, gamma2 } => if !valid_gamma(
                    gamma0 as int,
                    self.n as int,
                ) {
                    Some(ConfigIssue::Gamma0)
                } else if !valid_gamma(gamma1 as int, self.n as int) {
                    Some(ConfigIssue::Gamma1)
                } else if !valid_gamma(gamma2 as int, self.n as int) {
                    Some(ConfigIssue::Gamma2)
                } else if !(self.k > 16 && self.k as int % self.base2k as int == 0) {
                    Some(ConfigIssue::Precision)
                } else if self.k < 32 {
                    Some(ConfigIssue::Qtilde)
                } else if P::EXPONENT > gamma0 {
                    Some(ConfigIssue::PayloadHeight)
                } else {
                    None
                },
            }
        }
    }

    /// The configuration breaks no rule.
    pub open spec fn valid(self) -> bool {
        self.issue() is None
    }

    pub fn n(&self) -> (r: usize)
        ensures
            r == self.n,
    {
        self.n
    }

    pub fn collapse(&self) -> (r: Collapse)
        ensures
            r == self.collapse,
    {
        self.collapse
    }

    /// Rows of one logical column: the ring degree for interpolation, `gamma0` for
    /// recursion.
    pub fn column_height(&self) -> (r: usize)
        ensures
            r == self.spec_column_height(),
    {
        match self.collapse {
            Collapse::Interpolation => self.n,
            Collapse::Recursion { gamma0, .. } => gamma0,
        }
    }

    fn find_issue(&self) -> (r: Option<ConfigIssue>)
        ensures
            r == self.issue(),
    {
        if !(is_power_of_two(self.n) && self.n >= 4) {
            return Some(ConfigIssue::RingDegree);
        }
        if self.base2k == 0 || self.k == 0 {
            return Some(ConfigIssue::Precision);
        }
        match self.collapse {
            Collapse::Interpolation => if P::EXPONENT > self.n {
                Some(ConfigIssue::PayloadHeight)
            } else {
                None
            },
            Collapse::Recursion { gamma0, gamma1, gamma2 } => if !check_gamma(gamma0, self.n) {
                Some(ConfigIssue::Gamma0)
            } else if !check_gamma(gamma1, self.n) {
                Some(ConfigIssue::Gamma1)
            } else if !check_gamma(gamma2, self.n) {
                Some(ConfigIssue::Gamma2)
            } else if !(self.k > 16 && self.k % self.base2k == 0) {
                Some(ConfigIssue::Precision)
            } else if self.k < 32 {
                Some(ConfigIssue::Qtilde)
            } else if P::EXPONENT > gamma0 {
                Some(ConfigIssue::PayloadHeight)
            } else {
                None
            },
        }
    }

    /// Parameters of a valid configuration, or the first rule that it breaks.
    pub fn try_new(self) -> (r: Result<Parameters<P>, PirError>)
        ensures
            match r {
                Ok(params) => self.valid() && params.params == self,
                Err(e) => self.issue() matches Some(issue) && e == (PirError::InvalidConfig {
                    issue,
                }),
            },
    {
        match self.find_issue() {
            Some(issue) => Err(PirError::InvalidConfig { issue }),
            None => Ok(Parameters { params: self }),
        }
    }

    /// Parameters of a valid configuration.
    pub fn new(self) -> (r: Parameters<P>)
        requires
            self.valid(),
        ensures
            r.params == self,
    {
        Parameters { params: self }
    }
}

/// Parameters are made of a recursion configuration exactly where the ring degree is a
/// power of two of at least 4, limbs and precision are not empty, each of the three widths
/// is a power of two of at most half of the degree, whatever the others are, the limbs
/// divide the precision, which holds two digits, and a payload fits a column. They hold the
/// configuration as it is.
pub proof fn law_recursion_is_configured<P: Payload<[u8; 32]>>(
    config: Config<P>,
    r: Result<Parameters<P>, PirError>,
    gamma0: usize,
    gamma1: usize,
    gamma2: usize,
)
    requires
        call_ensures(Config::<P>::try_new, (config,), r),
        config.collapse == (Collapse::Recursion { gamma0, gamma1, gamma2 }),
    ensures
        r is Ok <==> {
            &&& is_pow2(config.n as int)
            &&& config.n >= 4
            &&& config.base2k >= 1
            &&& is_pow2(gamma0 as int)
            &&& is_pow2(gamma1 as int)
            &&& is_pow2(gamma2 as int)
            &&& 2 * gamma0 <= config.n
            &&& 2 * gamma1 <= config.n
            &&& 2 * gamma2 <= config.n
            &&& config.k as int % config.base2k as int == 0
            &&& config.k >= 32
            &&& P::EXPONENT <= gamma0
        },
        r is Ok <==> config.valid(),
        r matches Ok(params) ==> params.params == config,
{
    reveal(is_pow2);
}

/// Parameters are made of an interpolation configuration exactly where the ring degree is
/// a power of two of at least 4, limbs and precision are not empty, and a payload fits a
/// column of that degree. They hold the configuration as it is.
pub proof fn law_interpolation_is_configured<P: Payload<[u8; 32]>>(
    config: Config<P>,
    r: Result<Parameters<P>, PirError>,
)
    requires
        call_ensures(Config::<P>::try_new, (config,), r),
        config.collapse is Interpolation,
    ensures
        r is Ok <==> {
            &&& is_pow2(config.n as int)
            &&& config.n >= 4
            &&& config.base2k >= 1
            &&& config.k >= 1
            &&& P::EXPONENT <= config.n
        },
        r is Ok <==> config.valid(),
        r matches Ok(params) ==> params.params == config,
{
}

/// A configuration is rejected with a rule that it breaks. The ring comes first, then limbs
/// and precision, the widths in their order, and the column last.
pub proof fn law_rejection_names_a_broken_rule<P: Payload<[u8; 32]>>(
    config: Config<P>,
    e: PirError,
    issue: ConfigIssue,
)
    requires
        call_ensures(Config::<P>::try_new, (config,), Err::<Parameters<P>, PirError>(e)),
        e == (PirError::InvalidConfig { issue }),
    ensures
        ({
            let ring = is_pow2(config.n as int) && config.n >= 4;
            let filled = config.base2k >= 1 && config.k >= 1;
            let whole = config.k >= 17 && config.k as int % config.base2k as int == 0;
            match issue {
                ConfigIssue::RingDegree => !ring,
                ConfigIssue::Precision => ring && (!filled || config.collapse is Recursion
                    && !whole),
                ConfigIssue::Gamma0 => ring && filled && (config.collapse matches Collapse::Recursion {
                    gamma0,
                    ..
                } && !(is_pow2(gamma0 as int) && 2 * gamma0 <= config.n)),
                ConfigIssue::Gamma1 => ring && filled && (config.collapse matches Collapse::Recursion {
                    gamma0,
                    gamma1,
                    ..
                } && is_pow2(gamma0 as int) && 2 * gamma0 <= config.n && !(is_pow2(gamma1 as int)
                    && 2 * gamma1 <= config.n)),
                ConfigIssue::Gamma2 => ring && filled && (config.collapse matches Collapse::Recursion {
                    gamma0,
                    gamma1,
                    gamma2,
                } && is_pow2(gamma0 as int) && 2 * gamma0 <= config.n && is_pow2(gamma1 as int) && 2
                    * gamma1 <= config.n && !(is_pow2(gamma2 as int) && 2 * gamma2 <= config.n)),
                ConfigIssue::Qtilde => ring && filled && whole && config.collapse is Recursion
                    && config.k < 32,
                ConfigIssue::PayloadHeight => ring && filled && match config.collapse {
                    Collapse::Interpolation => P::EXPONENT > config.n,
                    Collapse::Recursion { gamma0, .. } => config.k >= 32 && whole && P::EXPONENT
                        > gamma0,
                },
            }
        }),
{
    reveal(is_pow2);
}

/// Construction of a default parameter set.
#[derive(Clone, Copy, Debug, PartialEq, Eq, Structural)]
pub enum DefaultScheme {
    Interpolation,
    Recursion { gamma0: usize },
}

/// A default parameter set for 32-byte payloads: construction, database size in GiB and
/// number of columns. The rows follow from the size.
#[derive(Clone, Copy, Debug, PartialEq, Eq, Structural)]
pub struct DefaultPirParameters32B {
    pub scheme: DefaultScheme,
    pub db_gib: usize,
    pub cols: usize,
}

/// A default interpolation set, resolved.
#[derive(Debug)]
pub struct InterpolationDefaults {
    pub db_size_gib: usize,
    pub config: Config<U256P65535>,
    pub layout: DatabaseLayout<U256P65535>,
}

/// A default recursion set, resolved.
#[derive(Debug)]
pub struct RecursionDefaults {
    pub db_size_gib: usize,
    pub gamma0: usize,
    pub gamma1: usize,
    pub gamma2: usize,
    pub config: Config<U256P65536>,
    pub layout: DatabaseLayout<U256P65536>,
}

/// A resolved default parameter set.
#[derive(Debug)]
pub enum DefaultPirConfig32B {
    Interpolation(InterpolationDefaults),
    Recursion(RecursionDefaults),
}

impl DefaultPirParameters32B {
    /// Databases of 1 to 32 GiB whose digits can be counted by the machine.
    pub open spec fn wf(self) -> bool {
        &&& 1 <= self.db_gib <= 32
        &&& 536870912 * self.db_gib <= usize::MAX
        &&& 1 <= self.cols <= 536870912 * self.db_gib
    }

    /// The set whose database has `2^16` rows.
    pub fn canonical(scheme: DefaultScheme, db_gib: usize) -> (r: Self)
        requires
            1 <= db_gib <= 32,
        ensures
            r.scheme == scheme,
            r.db_gib == db_gib,
            r.cols == 8192 * db_gib,
            r.spec_rows() == 65536,
    {
        proof {
            lemma_quotient(536870912 * db_gib, 8192 * db_gib, 65536, 0);
        }
        DefaultPirParameters32B { scheme, db_gib, cols: 8192 * db_gib }
    }

    pub fn cols(&self) -> (r: usize)
        ensures
            r == self.cols,
    {
        self.cols
    }

    /// Number of 16-bit digits in the database.
    pub fn total_u16(&self) -> (r: usize)
        requires
            self.wf(),
        ensures
            r == 536870912 * self.db_gib,
    {
        536870912 * self.db_gib
    }

    pub open spec fn spec_rows(self) -> int {
        (536870912 * self.db_gib) / self.cols as int
    }

    pub fn rows(&self) -> (r: usize)
        requires
            self.wf(),
        ensures
            r == self.spec_rows(),
    {
        self.total_u16() / self.cols
    }

    pub fn gamma0(&self) -> (r: Option<usize>)
        ensures
            r == match self.scheme {
                DefaultScheme::Interpolation => None,
                DefaultScheme::Recursion { gamma0 } => Some(gamma0),
            },
    {
        match self.scheme {
            DefaultScheme::Interpolation => None,
            DefaultScheme::Recursion { gamma0 } => Some(gamma0),
        }
    }

    pub fn gamma1(&self) -> (r: Option<usize>)
        ensures
            r == match self.scheme {
                DefaultScheme::Interpolation => None,
                DefaultScheme::Recursion { .. } => Some(1024usize),
            },
    {
        match self.scheme {
            DefaultScheme::Interpolation => None,
            DefaultScheme::Recursion { .. } => Some(1024),
        }
    }

    pub fn gamma2(&self) -> (r: Option<usize>)
        ensures
            r == match self.scheme {
                DefaultScheme::Interpolation => None,
                DefaultScheme::Recursion { gamma0 } => Some(gamma0),
            },
    {
        self.gamma0()
    }

    /// The resolved interpolation parameters.
    pub open spec fn resolves_to_interpolation(self, d: InterpolationDefaults) -> bool {
        &&& self.scheme is Interpolation
        &&& d.db_size_gib == self.db_gib
        &&& d.config.n == 2048
        &&& d.config.base2k == 18
        &&& d.config.k == 54
        &&& d.config.collapse == Collapse::Interpolation
        &&& d.layout.rows == self.spec_rows()
        &&& d.layout.cols == self.cols
    }

    /// The resolved recursion parameters.
    pub open spec fn resolves_to_recursion(self, d: RecursionDefaults) -> bool {
        &&& self.scheme matches DefaultScheme::Recursion { gamma0 }
        &&& d.db_size_gib == self.db_gib
        &&& d.gamma0 == gamma0
        &&& d.gamma1 == 1024
        &&& d.gamma2 == gamma0
        &&& d.config.n == 2048
        &&& d.config.base2k == 18
        &&& d.config.k == 54
        &&& d.config.collapse == (Collapse::Recursion { gamma0, gamma1: 1024, gamma2: gamma0 })
        &&& d.layout.rows == self.spec_rows()
        &&& d.layout.cols == self.cols
    }

    /// The parameters of the set's construction.
    pub fn resolve(&self) -> (r: DefaultPirConfig32B)
        requires
            self.wf(),
        ensures
            match r {
                DefaultPirConfig32B::Interpolation(d) => self.resolves_to_interpolation(d),
                DefaultPirConfig32B::Recursion(d) => self.resolves_to_recursion(d),
            },
    {
        let rows: usize = self.rows();
        match self.scheme {
            DefaultScheme::Interpolation => DefaultPirConfig32B::Interpolation(
                InterpolationDefaults {
                    db_size_gib: self.db_gib,
                    config: Config {
                        n: DEFAULT_N,
                        base2k: DEFAULT_BASE2K,
                        k: DEFAULT_K,
                        collapse: Collapse::Interpolation,
                        _phantom: PhantomData,
                    },
                    layout: DatabaseLayout { rows, cols: self.cols, _phantom: PhantomData },
                },
            ),
            DefaultScheme::Recursion { gamma0 } => DefaultPirConfig32B::Recursion(
                RecursionDefaults {
                    db_size_gib: self.db_gib,
                    gamma0,
                    gamma1: 1024,
                    gamma2: gamma0,
                    config: Config {
                        n: DEFAULT_N,
                        base2k: DEFAULT_BASE2K,
                        k: DEFAULT_K,
                        collapse: Collapse::Recursion { gamma0, gamma1: 1024, gamma2: gamma0 },
                        _phantom: PhantomData,
                    },
                    layout: DatabaseLayout { rows, cols: self.cols, _phantom: PhantomData },
                },
            ),
        }
    }

    /// Interpolation parameters, if that is the construction.
    pub fn interpolation(&self) -> (r: Option<InterpolationDefaults>)
        requires
            self.wf(),
        ensures
            match r {
                Some(d) => self.resolves_to_interpolation(d),
                None => !(self.scheme is Interpolation),
            },
    {
        match self.resolve() {
            DefaultPirConfig32B::Interpolation(d) => Some(d),
            DefaultPirConfig32B::Recursion(_) => None,
        }
    }

    /// Recursion parameters, if that is the construction.
    pub fn recursion(&self) -> (r: Option<RecursionDefaults>)
        requires
            self.wf(),
        ensures
            match r {
                Some(d) => self.resolves_to_recursion(d),
                None => self.scheme is Interpolation,
            },
    {
        match self.resolve() {
            DefaultPirConfig32B::Interpolation(_) => None,
            DefaultPirConfig32B::Recursion(d) => Some(d),
        }
    }

    /// Columns that divide the digits fill the database exactly.
    pub proof fn law_exact_fill(self)
        requires
            self.wf(),
            (536870912 * self.db_gib) % self.cols as int == 0,
        ensures
            self.spec_rows() * self.cols == 536870912 * self.db_gib,
    {
        lemma_fundamental_div_mod(536870912 * self.db_gib, self.cols as int);
        assert(self.cols * self.spec_rows() == self.spec_rows() * self.cols) by (nonlinear_arith);
    }
}

} // verus!
