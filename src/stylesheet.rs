//! Stylesheets, selectors, specificity and declared values.

use vstd::prelude::*;
use vstd::string::*;

verus! {

/// Where a stylesheet comes from; base precedence ascends from `Agent` to `Author`.
#[derive(Debug, Clone, Copy, PartialEq, Eq, Structural)]
pub enum Origin {
    Agent,
    User,
    Author,
}

impl Origin {
    /// Position of the origin in ascending base precedence.
    pub open spec fn ordinal(self) -> nat {
        match self {
            Origin::Agent => 0,
            Origin::User => 1,
            Origin::Author => 2,
        }
    }

    /// The cascade tier: important declarations reverse the origin order and
    /// rank above every normal declaration.
    pub open spec fn tier(self, important: bool) -> nat {
        if important {
            (5 - self.ordinal()) as nat
        } else {
            self.ordinal()
        }
    }

    pub fn value(&self, important: bool) -> (r: u8)
        ensures
            r as nat == self.tier(important),
    {
        let ordinal: u8 = match self {
            Origin::Agent => 0,
            Origin::User => 1,
            Origin::Author => 2,
        };
        if important {
            5 - ordinal
        } else {
            ordinal
        }
    }
}

/// `(inline, ids, classes, tags)`, compared component by component from the left.
#[derive(Debug, Clone, Copy, PartialEq, Eq, Structural)]
pub struct Specificity(pub usize, pub usize, pub usize, pub usize);

impl Specificity {
    /// The specificity given to declarations of an inline `style` attribute.
    pub fn inline() -> (r: Specificity)
        ensures
            r == Specificity(1, 0, 0, 0),
    {
        Specificity(1, 0, 0, 0)
    }

    /// Lexicographic order on the four components.
    pub open spec fn spec_le(self, o: Specificity) -> bool {
        self.0 < o.0 || (self.0 == o.0 && (self.1 < o.1 || (self.1 == o.1 && (self.2 < o.2 || (
        self.2 == o.2 && self.3 <= o.3)))))
    }

    pub open spec fn spec_lt(self, o: Specificity) -> bool {
        self.spec_le(o) && self != o
    }

    pub fn at_most(&self, o: &Specificity) -> (r: bool)
        ensures
            r == self.spec_le(*o),
    {
        if self.0 != o.0 {
            self.0 < o.0
        } else if self.1 != o.1 {
            self.1 < o.1
        } else if self.2 != o.2 {
            self.2 < o.2
        } else {
            self.3 <= o.3
        }
    }
}

/// A count clipped to what a `usize` holds.
pub open spec fn clip(n: int) -> int {
    if n > usize::MAX {
        usize::MAX as int
    } else {
        n
    }
}

/// A compound selector: an optional tag, an optional id and a list of classes.
/// A field that is absent (or an empty class list) matches every element.
#[derive(Debug)]
pub struct Selector {
    pub id: Option<String>,
    pub tag_name: Option<String>,
    pub classes: Vec<String>,
}

impl Selector {
    pub open spec fn spec_specificity(self) -> Specificity {
        Specificity(
            0,
            if self.id is Some { 1 } else { 0 },
            self.classes.len(),
            if self.tag_name is Some { 1 } else { 0 },
        )
    }

    pub fn specificity(&self) -> (r: Specificity)
        ensures
            r == self.spec_specificity(),
    {
        let b: usize = if self.id.is_some() { 1 } else { 0 };
        let d: usize = if self.tag_name.is_some() { 1 } else { 0 };
        Specificity(0, b, self.classes.len(), d)
    }
}

/// The relation between two consecutive compound selectors.
#[derive(Debug, Clone, Copy, PartialEq, Eq, Structural)]
pub enum Combinator {
    /// ` ` in CSS
    Descendant,
    /// `>` in CSS
    Child,
    /// `+` in CSS
    AdjacentSibling,
    /// `~` in CSS
    GeneralSibling,
}

/// Compound selectors joined by combinators: `combinators[i]` stands between
/// `inner[i]` and `inner[i + 1]`.
#[derive(Debug)]
pub struct ComplexSelector {
    pub inner: Vec<Selector>,
    pub combinators: Vec<Combinator>,
}

/// Number of compound selectors with an id.
pub open spec fn id_total(s: Seq<Selector>) -> nat
    decreases s.len(),
{
    if s.len() == 0 {
        0
    } else {
        ((id_total(s.drop_last()) + s.last().spec_specificity().1) as nat)
    }
}

/// Number of classes over all compound selectors.
pub open spec fn class_total(s: Seq<Selector>) -> nat
    decreases s.len(),
{
    if s.len() == 0 {
        0
    } else {
        ((class_total(s.drop_last()) + s.last().spec_specificity().2) as nat)
    }
}

/// Number of compound selectors with a tag.
pub open spec fn tag_total(s: Seq<Selector>) -> nat
    decreases s.len(),
{
    if s.len() == 0 {
        0
    } else {
        ((tag_total(s.drop_last()) + s.last().spec_specificity().3) as nat)
    }
}

impl ComplexSelector {
    /// The component-wise sum of the compound selectors' specificities (each
    /// sum clipped to the `usize` range).
    pub open spec fn spec_specificity(self) -> Specificity {
        Specificity(
            0,
            clip(id_total(self.inner@) as int) as usize,
            clip(class_total(self.inner@) as int) as usize,
            clip(tag_total(self.inner@) as int) as usize,
        )
    }

    pub fn specificity(&self) -> (r: Specificity)
        ensures
            r == self.spec_specificity(),
    {
        let mut ids: usize = 0;
        let mut classes: usize = 0;
        let mut tags: usize = 0;
        let mut i: usize = 0;
        while i < self.inner.len()
            invariant
                i <= self.inner.len(),
                ids as int == clip(id_total(self.inner@.take(i as int)) as int),
                classes as int == clip(class_total(self.inner@.take(i as int)) as int),
                tags as int == clip(tag_total(self.inner@.take(i as int)) as int),
            decreases self.inner.len() - i,
        {
            let s = self.inner[i].specificity();
            proof {
                let t = self.inner@.take(i as int + 1);
                assert(t.drop_last() =~= self.inner@.take(i as int));
            }
            ids = ids.saturating_add(s.1);
            classes = classes.saturating_add(s.2);
            tags = tags.saturating_add(s.3);
            i = i + 1;
        }
        proof {
            assert(self.inner@.take(i as int) =~= self.inner@);
        }
        Specificity(0, ids, classes, tags)
    }
}

/// A CSS unit. Every unit but the relative ones converts to terminal cells
/// ("tb" units) by a fixed ratio.
#[derive(Debug, Clone, Copy, PartialEq, Eq, Structural)]
pub enum Unit {
    /// pixel, 1/96 in
    Px,
    /// point, 1/72 in
    Pt,
    /// pica, 1/6 in
    Pc,
    /// quarter-millimetre, 1/40 cm
    Q,
    Mm,
    Cm,
    In,
    /// font size of the element, always one cell
    Em,
    /// font size of the root, always one cell
    Rem,
    /// one hundredth of the viewport height
    Vh,
    /// one hundredth of the viewport width
    Vw,
    /// one terminal cell
    Tb,
    /// relative to the parent's value of the same property
    Percent,
    Unitless,
    Invalid,
}

/// A color as red, green, blue and alpha bytes.
#[derive(Debug, Clone, Copy, PartialEq, Eq, Structural)]
pub struct Color {
    pub r: u8,
    pub g: u8,
    pub b: u8,
    pub a: u8,
}

/// The lowercase hexadecimal digit of `n` (below 16).
pub open spec fn hex_digit(n: int) -> char {
    if n < 10 {
        ('0' as u32 + n) as char
    } else {
        ('a' as u32 + n - 10) as char
    }
}

/// Two hexadecimal digits of a byte.
pub open spec fn hex_byte(b: u8) -> Seq<char> {
    seq![hex_digit(b as int / 16), hex_digit(b as int % 16)]
}

fn hex_str(n: u8) -> (r: &'static str)
    requires
        n < 16,
    ensures
        r@ == seq![hex_digit(n as int)],
{
    proof {
        reveal_strlit("0");
        reveal_strlit("1");
        reveal_strlit("2");
        reveal_strlit("3");
        reveal_strlit("4");
        reveal_strlit("5");
        reveal_strlit("6");
        reveal_strlit("7");
        reveal_strlit("8");
        reveal_strlit("9");
        reveal_strlit("a");
        reveal_strlit("b");
        reveal_strlit("c");
        reveal_strlit("d");
        reveal_strlit("e");
        reveal_strlit("f");
    }
    let r = match n {
        0 => "0",
        1 => "1",
        2 => "2",
        3 => "3",
        4 => "4",
        5 => "5",
        6 => "6",
        7 => "7",
        8 => "8",
        9 => "9",
        10 => "a",
        11 => "b",
        12 => "c",
        13 => "d",
        14 => "e",
        _ => "f",
    };
    proof {
        assert(r@ =~= seq![hex_digit(n as int)]);
    }
    r
}

impl Color {
    /// The color as `#rrggbbaa` in lowercase hexadecimal.
    pub fn to_hex_string(&self) -> (r: String)
        ensures
            r@ == seq!['#'] + hex_byte(self.r) + hex_byte(self.g) + hex_byte(self.b) + hex_byte(self.a),
    {
        proof {
            reveal_strlit("#");
        }
        let mut s = String::from_str("#");
        s.append(hex_str(self.r / 16));
        s.append(hex_str(self.r % 16));
        s.append(hex_str(self.g / 16));
        s.append(hex_str(self.g % 16));
        s.append(hex_str(self.b / 16));
        s.append(hex_str(self.b % 16));
        s.append(hex_str(self.a / 16));
        s.append(hex_str(self.a % 16));
        proof {
            assert(s@ =~= seq!['#'] + hex_byte(self.r) + hex_byte(self.g) + hex_byte(self.b) + hex_byte(self.a));
        }
        s
    }
}

/// A number with a unit. The magnitude is held in thousandths of the unit:
/// `12.5px` is `Dimension { milli: 12500, unit: Unit::Px }`.
#[derive(Debug, Clone, Copy, PartialEq, Eq, Structural)]
pub struct Dimension {
    pub milli: i64,
    pub unit: Unit,
}

#[derive(Debug)]
pub enum Value {
    Keyword(String),
    Dimension(Dimension),
    Color(Color),
}

impl Clone for Value {
    fn clone(&self) -> (r: Self)
        ensures
            r == *self,
    {
        match self {
            Value::Keyword(k) => Value::Keyword(k.clone()),
            Value::Dimension(d) => Value::Dimension(*d),
            Value::Color(c) => Value::Color(*c),
        }
    }
}

/// A declared value with its `!important` flag.
#[derive(Debug)]
pub struct PropertyValue {
    pub value: Value,
    pub important: bool,
}

impl Clone for PropertyValue {
    fn clone(&self) -> (r: Self)
        ensures
            r == *self,
    {
        PropertyValue { value: self.value.clone(), important: self.important }
    }
}

/// One selector with the declarations it applies, as (property, value) pairs
/// in declaration order.
#[derive(Debug)]
pub struct Rule {
    pub selector: ComplexSelector,
    pub props: Vec<(String, PropertyValue)>,
}

/// An ordered list of rules tagged with an origin.
#[derive(Debug)]
pub struct Stylesheet {
    pub rules: Vec<Rule>,
    pub origin: Origin,
}

impl Stylesheet {
    pub fn new(rules: Option<Vec<Rule>>, origin: Origin) -> (r: Stylesheet)
        ensures
            r.origin == origin,
            r.rules@ == (match rules {
                Some(v) => v@,
                None => Seq::empty(),
            }),
    {
        let rules = match rules {
            Some(v) => v,
            None => Vec::new(),
        };
        Stylesheet { rules, origin }
    }
}

} // verus!
