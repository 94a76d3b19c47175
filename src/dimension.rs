//! Unit names and the resolution of dimensions into terminal cells.

use vstd::prelude::*;
use vstd::string::*;

use crate::dom::Dom;
use crate::error::{Error, UnreachableError};
use crate::node::NodeId;
use crate::stylesheet::{Dimension, Unit, Value};

verus! {

pub open spec fn ascii_lower(c: char) -> char {
    if 'A' <= c && c <= 'Z' {
        ((c as u32) + 32) as char
    } else {
        c
    }
}

fn lower(c: char) -> (r: char)
    ensures
        r == ascii_lower(c),
{
    if 'A' <= c && c <= 'Z' {
        ((c as u32) + 32) as u8 as char
    } else {
        c
    }
}

/// `s` equals `lit` once its ASCII capitals are lowered.
fn eq_folded(s: &str, lit: &str) -> (r: bool)
    ensures
        r == (s@.map_values(|c: char| ascii_lower(c)) == lit@),
{
    let n = s.unicode_len();
    if n != lit.unicode_len() {
        return false;
    }
    let mut i: usize = 0;
    while i < n
        invariant
            n == s@.len(),
            n == lit@.len(),
            i <= n,
            forall|k: int| 0 <= k < i ==> ascii_lower(s@[k]) == lit@[k],
        decreases n - i,
    {
        if lower(s.get_char(i)) != lit.get_char(i) {
            proof {
                assert(s@.map_values(|c: char| ascii_lower(c))[i as int] != lit@[i as int]);
            }
            return false;
        }
        i = i + 1;
    }
    proof {
        assert(s@.map_values(|c: char| ascii_lower(c)) =~= lit@);
    }
    true
}

/// The unit that a unit name denotes, ignoring ASCII case; the empty name is
/// `Unitless` and an unknown one `Invalid`.
pub open spec fn unit_of(s: Seq<char>) -> Unit {
    let l = s.map_values(|c: char| ascii_lower(c));
    if l == "px"@ {
        Unit::Px
    } else if l == "pt"@ {
        Unit::Pt
    } else if l == "pc"@ {
        Unit::Pc
    } else if l == "q"@ {
        Unit::Q
    } else if l == "mm"@ {
        Unit::Mm
    } else if l == "cm"@ {
        Unit::Cm
    } else if l == "in"@ {
        Unit::In
    } else if l == "em"@ {
        Unit::Em
    } else if l == "rem"@ {
        Unit::Rem
    } else if l == "vh"@ {
        Unit::Vh
    } else if l == "vw"@ {
        Unit::Vw
    } else if l == "tb"@ {
        Unit::Tb
    } else if l == "%"@ {
        Unit::Percent
    } else if l == ""@ {
        Unit::Unitless
    } else {
        Unit::Invalid
    }
}

impl Unit {
    /// Reads a unit name, ignoring ASCII case.
    pub fn parse(s: &str) -> (r: Unit)
        ensures
            r == unit_of(s@),
    {
        if eq_folded(s, "px") {
            Unit::Px
        } else if eq_folded(s, "pt") {
            Unit::Pt
        } else if eq_folded(s, "pc") {
            Unit::Pc
        } else if eq_folded(s, "q") {
            Unit::Q
        } else if eq_folded(s, "mm") {
            Unit::Mm
        } else if eq_folded(s, "cm") {
            Unit::Cm
        } else if eq_folded(s, "in") {
            Unit::In
        } else if eq_folded(s, "em") {
            Unit::Em
        } else if eq_folded(s, "rem") {
            Unit::Rem
        } else if eq_folded(s, "vh") {
            Unit::Vh
        } else if eq_folded(s, "vw") {
            Unit::Vw
        } else if eq_folded(s, "tb") {
            Unit::Tb
        } else if eq_folded(s, "%") {
            Unit::Percent
        } else if eq_folded(s, "") {
            Unit::Unitless
        } else {
            Unit::Invalid
        }
    }
}

impl std::str::FromStr for Unit {
    type Err = Error;

    fn from_str(s: &str) -> (r: Result<Unit, Error>)
        ensures
            r == Ok::<Unit, Error>(unit_of(s@)),
    {
        Ok(Unit::parse(s))
    }
}

/// Why a dimension could not be resolved.
#[derive(Debug)]
pub enum DimensionError {
    /// A percentage, and the property has no value on the parent.
    MissingPropOnParent { prop_name: String },
    /// A percentage, and the parent's value of the property is a color.
    PropParentIsColor { prop_name: String },
    /// A percentage, and the parent's value of the property is a keyword.
    PropParentIsKeyword { prop_name: String },
    /// A unitless or invalid unit.
    Invalid,
    /// A percentage chain that reaches the root.
    SharedNodeError(Error),
    /// A result too large to hold in thousandths of a cell.
    OutOfRange,
}

/// The kinds of `DimensionError`.
#[derive(Debug, Clone, Copy, PartialEq, Eq, Structural)]
pub enum DimensionErrorKind {
    MissingPropOnParent,
    PropParentIsColor,
    PropParentIsKeyword,
    Invalid,
    NoParent,
    OutOfRange,
}

impl DimensionError {
    pub open spec fn kind(self) -> DimensionErrorKind {
        match self {
            DimensionError::MissingPropOnParent { .. } => DimensionErrorKind::MissingPropOnParent,
            DimensionError::PropParentIsColor { .. } => DimensionErrorKind::PropParentIsColor,
            DimensionError::PropParentIsKeyword { .. } => DimensionErrorKind::PropParentIsKeyword,
            DimensionError::Invalid => DimensionErrorKind::Invalid,
            DimensionError::SharedNodeError(_) => DimensionErrorKind::NoParent,
            DimensionError::OutOfRange => DimensionErrorKind::OutOfRange,
        }
    }

    /// The error names the property it is about, where it names one, and a
    /// chain that reaches the root is reported as a missing parent.
    pub open spec fn about(self, prop: Seq<char>) -> bool {
        match self {
            DimensionError::MissingPropOnParent { prop_name } => prop_name@ == prop,
            DimensionError::PropParentIsColor { prop_name } => prop_name@ == prop,
            DimensionError::PropParentIsKeyword { prop_name } => prop_name@ == prop,
            DimensionError::SharedNodeError(e) => e == Error::Unreachable(UnreachableError::NoParent),
            _ => true,
        }
    }
}

/// `n / d` rounded to the nearest integer, halves away from zero.
pub open spec fn round_div(n: int, d: int) -> int
    recommends
        d > 0,
{
    if n >= 0 {
        (2 * n + d) / (2 * d)
    } else {
        -((-2 * n + d) / (2 * d))
    }
}

/// Cells a whole number of cells may hold: those whose thousandths fit an `i64`.
pub open spec fn cells_fit(c: int) -> bool {
    -9223372036854775 <= c <= 9223372036854775
}

/// Cells per unit, as a numerator and a denominator (one cell is eight pixels).
pub open spec fn ratio(unit: Unit, viewport: (u16, u16)) -> (int, int) {
    match unit {
        Unit::Px => (1, 8),
        Unit::Pt => (1, 6),
        Unit::Pc => (2, 1),
        Unit::Q => (189, 1600),
        Unit::Mm => (189, 400),
        Unit::Cm => (189, 40),
        Unit::In => (12, 1),
        Unit::Vw => (viewport.0 as int, 100),
        Unit::Vh => (viewport.1 as int, 100),
        _ => (1, 1),
    }
}

/// Units that convert to cells by a fixed ratio (the viewport's for `vw`, `vh`).
pub open spec fn is_fixed(unit: Unit) -> bool {
    !(unit is Percent || unit is Unitless || unit is Invalid)
}

/// A whole number of cells, or the error of one too large.
pub open spec fn fit(c: int) -> Result<int, DimensionErrorKind> {
    if cells_fit(c) {
        Ok(c)
    } else {
        Err(DimensionErrorKind::OutOfRange)
    }
}

/// A dimension of a fixed-ratio unit in whole cells.
pub open spec fn fixed_cells(d: Dimension, viewport: (u16, u16)) -> Result<int, DimensionErrorKind> {
    if is_fixed(d.unit) {
        fit(round_div(d.milli * ratio(d.unit, viewport).0, ratio(d.unit, viewport).1 * 1000))
    } else {
        Err(DimensionErrorKind::Invalid)
    }
}

/// `percent` per cent of `base` cells, in whole cells.
pub open spec fn percent_cells(base: int, percent_milli: int) -> Result<int, DimensionErrorKind> {
    fit(round_div(base * percent_milli, 100000))
}

impl Dom {
    /// A dimension in whole cells. A percentage takes the value that applies
    /// to `ctx` (the parent of the node it is declared on) for the same
    /// property; when that value is a percentage too, it is resolved against
    /// `ctx`'s own parent, and so on up the tree.
    pub open spec fn tb_cells(&self, d: Dimension, ctx: int, prop: Seq<char>, viewport: (u16, u16)) -> Result<
        int,
        DimensionErrorKind,
    >
        decreases self.rank_of(ctx),
    {
        if d.unit is Percent {
            match self.resolved(ctx, prop) {
                None => Err(DimensionErrorKind::MissingPropOnParent),
                Some(s) => match s.value.value {
                    Value::Keyword(_) => Err(DimensionErrorKind::PropParentIsKeyword),
                    Value::Color(_) => Err(DimensionErrorKind::PropParentIsColor),
                    Value::Dimension(pd) => {
                        let base = if pd.unit is Percent {
                            match self.parent_of(ctx) {
                                Some(g) => if self.ranked_below(g as int, ctx) {
                                    self.tb_cells(pd, g as int, prop, viewport)
                                } else {
                                    Err(DimensionErrorKind::NoParent)
                                },
                                None => Err(DimensionErrorKind::NoParent),
                            }
                        } else {
                            fixed_cells(pd, viewport)
                        };
                        match base {
                            Ok(b) => percent_cells(b, d.milli as int),
                            Err(e) => Err(e),
                        }
                    },
                },
            }
        } else {
            fixed_cells(d, viewport)
        }
    }
}

/// `n / d` rounded to the nearest integer, halves away from zero.
fn round_div_exec(n: i128, d: i128) -> (r: i128)
    requires
        0 < d <= 1_000_000_000,
        -0x0100_0000_0000_0000_0000_0000_0000_0000 < n < 0x0100_0000_0000_0000_0000_0000_0000_0000,
    ensures
        r == round_div(n as int, d as int),
{
    let den = (d + d) as u128;
    if n >= 0 {
        let num = (n + n + d) as u128;
        let q = num / den;
        assert(q <= num);
        q as i128
    } else {
        let a: i128 = 0 - n;
        let num = (a + a + d) as u128;
        let q = num / den;
        assert(q <= num);
        0 - (q as i128)
    }
}

/// Keeps a whole number of cells whose thousandths fit an `i64`.
fn fit_exec(c: i128) -> (r: Result<i64, DimensionError>)
    ensures
        match r {
            Ok(v) => fit(c as int) == Ok::<int, DimensionErrorKind>(v as int),
            Err(e) => fit(c as int) == Err::<int, DimensionErrorKind>(e.kind()) && e is OutOfRange,
        },
{
    if -9223372036854775 <= c && c <= 9223372036854775 {
        Ok(c as i64)
    } else {
        Err(DimensionError::OutOfRange)
    }
}

impl Dimension {
    /// Converts a dimension of a fixed-ratio unit to whole cells.
    fn fixed_tb(&self, viewport: (u16, u16)) -> (r: Result<i64, DimensionError>)
        ensures
            match r {
                Ok(v) => fixed_cells(*self, viewport) == Ok::<int, DimensionErrorKind>(v as int),
                Err(e) => fixed_cells(*self, viewport) == Err::<int, DimensionErrorKind>(e.kind()) && (
                e is Invalid || e is OutOfRange),
            },
    {
        let (num, den): (i128, i128) = match self.unit {
            Unit::Px => (1, 8),
            Unit::Pt => (1, 6),
            Unit::Pc => (2, 1),
            Unit::Q => (189, 1600),
            Unit::Mm => (189, 400),
            Unit::Cm => (189, 40),
            Unit::In => (12, 1),
            Unit::Vw => (viewport.0 as i128, 100),
            Unit::Vh => (viewport.1 as i128, 100),
            Unit::Tb | Unit::Em | Unit::Rem => (1, 1),
            Unit::Percent | Unit::Unitless | Unit::Invalid => {
                return Err(DimensionError::Invalid);
            },
        };
        let m = self.milli as i128;
        proof {
            assert(-0x8000_0000_0000_0000 <= m < 0x8000_0000_0000_0000);
            assert(0 <= num <= 65535);
            assert(-0x8000_0000_0000_0000 * 65536 <= m * num <= 0x8000_0000_0000_0000 * 65536) by (nonlinear_arith)
                requires
                    -0x8000_0000_0000_0000 <= m < 0x8000_0000_0000_0000,
                    0 <= num <= 65535,
            ;
        }
        let c = round_div_exec(m * num, den * 1000);
        fit_exec(c)
    }

    /// Converts the dimension to whole cells (see `Dom::tb_cells`): the
    /// result has unit `Tb` and a whole number of cells.
    pub fn as_tb(&self, dom: &Dom, parent: NodeId, prop_name: &str, viewport: (u16, u16)) -> (r: Result<
        Dimension,
        DimensionError,
    >)
        requires
            dom.wf(),
            dom.valid(parent as int),
        ensures
            match r {
                Ok(d) => dom.tb_cells(*self, parent as int, prop_name@, viewport) == Ok::<
                    int,
                    DimensionErrorKind,
                >(d.milli / 1000) && d.unit == Unit::Tb && d.milli % 1000 == 0,
                Err(e) => dom.tb_cells(*self, parent as int, prop_name@, viewport) == Err::<
                    int,
                    DimensionErrorKind,
                >(e.kind()) && e.about(prop_name@),
            },
    {
        let cells = match self.as_tb_cells(dom, parent, prop_name, viewport) {
            Ok(c) => c,
            Err(e) => return Err(e),
        };
        Ok(Dimension { milli: cells * 1000, unit: Unit::Tb })
    }

    fn as_tb_cells(&self, dom: &Dom, parent: NodeId, prop_name: &str, viewport: (u16, u16)) -> (r: Result<
        i64,
        DimensionError,
    >)
        requires
            dom.wf(),
            dom.valid(parent as int),
        ensures
            match r {
                Ok(c) => dom.tb_cells(*self, parent as int, prop_name@, viewport) == Ok::<
                    int,
                    DimensionErrorKind,
                >(c as int) && cells_fit(c as int),
                Err(e) => dom.tb_cells(*self, parent as int, prop_name@, viewport) == Err::<
                    int,
                    DimensionErrorKind,
                >(e.kind()) && e.about(prop_name@),
            },
        decreases dom.rank_of(parent as int),
    {
        match self.unit {
            Unit::Percent => {},
            _ => {
                return self.fixed_tb(viewport);
            },
        }
        let style = match dom.ask_style(parent, prop_name) {
            Some(s) => s,
            None => {
                return Err(DimensionError::MissingPropOnParent { prop_name: prop_name.to_owned() });
            },
        };
        let pd = match style.value.value {
            Value::Keyword(_) => {
                return Err(DimensionError::PropParentIsKeyword { prop_name: prop_name.to_owned() });
            },
            Value::Color(_) => {
                return Err(DimensionError::PropParentIsColor { prop_name: prop_name.to_owned() });
            },
            Value::Dimension(pd) => pd,
        };
        let base = match pd.unit {
            Unit::Percent => {
                let grandparent = match dom.parent(parent) {
                    Ok(g) => g,
                    Err(e) => {
                        return Err(DimensionError::SharedNodeError(e));
                    },
                };
                proof {
                    assert(dom.node_wf(parent as int));
                }
                pd.as_tb_cells(dom, grandparent, prop_name, viewport)
            },
            _ => pd.fixed_tb(viewport),
        };
        let b = match base {
            Ok(b) => b,
            Err(e) => {
                return Err(e);
            },
        };
        let m = self.milli as i128;
        let b128 = b as i128;
        proof {
            assert(-0x8000_0000_0000_0000 * 9223372036854775 <= b128 * m <= 0x8000_0000_0000_0000 * 9223372036854775) by (nonlinear_arith)
                requires
                    -0x8000_0000_0000_0000 <= m < 0x8000_0000_0000_0000,
                    -9223372036854775 <= b128 <= 9223372036854775,
            ;
        }
        let c = round_div_exec(b128 * m, 100000);
        fit_exec(c)
    }

    /// The dimension in whole cells, clamped to the range of a `u16`.
    pub fn as_tb_u16(&self, dom: &Dom, parent: NodeId, prop_name: &str, viewport: (u16, u16)) -> (r: Result<
        u16,
        DimensionError,
    >)
        requires
            dom.wf(),
            dom.valid(parent as int),
        ensures
            match r {
                Ok(v) => dom.tb_cells(*self, parent as int, prop_name@, viewport) matches Ok(c) && v
                    as int == (if c < 0 {
                    0
                } else if c > 65535 {
                    65535
                } else {
                    c
                }),
                Err(e) => dom.tb_cells(*self, parent as int, prop_name@, viewport) == Err::<
                    int,
                    DimensionErrorKind,
                >(e.kind()) && e.about(prop_name@),
            },
    {
        let c = match self.as_tb_cells(dom, parent, prop_name, viewport) {
            Ok(c) => c,
            Err(e) => return Err(e),
        };
        if c < 0 {
            Ok(0)
        } else if c > 65535 {
            Ok(65535)
        } else {
            Ok(c as u16)
        }
    }
}

} // verus!
