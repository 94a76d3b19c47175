//! Reading selector text.

use vstd::prelude::*;
use vstd::string::*;

use crate::error::Error;
use crate::stylesheet::{Combinator, ComplexSelector, Selector};
use crate::text::{is_whitespace, is_ws};

verus! {

/// A compound selector as plain values.
#[verifier::ext_equal]
pub struct CompoundModel {
    pub id: Option<Seq<char>>,
    pub tag: Option<Seq<char>>,
    pub classes: Seq<Seq<char>>,
}

impl Selector {
    pub open spec fn model(self) -> CompoundModel {
        CompoundModel {
            id: match self.id {
                Some(s) => Some(s@),
                None => None,
            },
            tag: match self.tag_name {
                Some(s) => Some(s@),
                None => None,
            },
            classes: self.classes@.map_values(|c: String| c@),
        }
    }
}

/// Which part of a compound selector a name fills.
#[derive(Clone, Copy, PartialEq, Eq, Structural)]
pub enum Field {
    Tag,
    Id,
    Class,
}

pub open spec fn is_ident_char(c: char) -> bool {
    ('a' <= c && c <= 'z') || ('A' <= c && c <= 'Z') || ('0' <= c && c <= '9') || c == '-' || c
        == '_'
}

pub open spec fn is_comb_char(c: char) -> bool {
    c == '>' || c == '+' || c == '~'
}

pub open spec fn comb_of(c: char) -> Combinator {
    if c == '>' {
        Combinator::Child
    } else if c == '+' {
        Combinator::AdjacentSibling
    } else if c == '~' {
        Combinator::GeneralSibling
    } else {
        Combinator::Descendant
    }
}

/// Where a left-to-right reading of selector text stands.
#[verifier::ext_equal]
pub struct Scan {
    pub failed: bool,
    /// Compound selectors read to their end.
    pub inner: Seq<CompoundModel>,
    pub combs: Seq<Combinator>,
    /// The compound selector being read, if one is.
    pub cur: Option<CompoundModel>,
    /// The name being read: the part it fills and where it starts.
    pub field: Option<(Field, int)>,
    /// After a compound selector, the combinator read since (whitespace alone
    /// is a descendant combinator).
    pub gap: Option<Combinator>,
}

pub open spec fn empty_compound() -> CompoundModel {
    CompoundModel { id: None, tag: None, classes: Seq::empty() }
}

pub open spec fn scan_start() -> Scan {
    Scan { failed: false, inner: Seq::empty(), combs: Seq::empty(), cur: None, field: None, gap: None }
}

pub open spec fn scan_fail() -> Scan {
    Scan { failed: true, ..scan_start() }
}

/// Ends the name being read at `i`; an empty name is an error.
pub open spec fn close_field(st: Scan, s: Seq<char>, i: int) -> Scan {
    match (st.field, st.cur) {
        (Some((f, b)), Some(c)) => if b < i {
            let name = s.subrange(b, i);
            let c2 = match f {
                Field::Tag => CompoundModel { tag: Some(name), ..c },
                Field::Id => CompoundModel { id: Some(name), ..c },
                Field::Class => CompoundModel { classes: c.classes.push(name), ..c },
            };
            Scan { cur: Some(c2), field: None, ..st }
        } else {
            scan_fail()
        },
        _ => st,
    }
}

/// Begins a compound selector at `i`, after the combinator read before it.
pub open spec fn open_compound(st: Scan, field: Option<(Field, int)>) -> Scan {
    Scan {
        combs: if st.inner.len() > 0 {
            st.combs.push(
                match st.gap {
                    Some(g) => g,
                    None => Combinator::Descendant,
                },
            )
        } else {
            st.combs
        },
        cur: Some(empty_compound()),
        field: field,
        gap: None,
        ..st
    }
}

/// Reads character `s[i]`.
pub open spec fn scan_step(st: Scan, s: Seq<char>, i: int) -> Scan {
    let c = s[i];
    if st.failed {
        st
    } else if is_ident_char(c) {
        if st.field is Some {
            st
        } else if st.cur is Some {
            scan_fail()
        } else {
            open_compound(st, Some((Field::Tag, i)))
        }
    } else if c == '*' {
        if st.cur is Some {
            scan_fail()
        } else {
            open_compound(st, None)
        }
    } else if c == '#' || c == '.' {
        let f = if c == '#' {
            Field::Id
        } else {
            Field::Class
        };
        if st.cur is Some {
            let st2 = close_field(st, s, i);
            if st2.failed {
                st2
            } else {
                Scan { field: Some((f, i + 1)), ..st2 }
            }
        } else {
            open_compound(st, Some((f, i + 1)))
        }
    } else if is_ws(c) || is_comb_char(c) {
        if st.cur is Some {
            let st2 = close_field(st, s, i);
            if st2.failed {
                st2
            } else {
                Scan {
                    inner: st2.inner.push(st2.cur->0),
                    cur: None,
                    gap: Some(comb_of(c)),
                    ..st2
                }
            }
        } else if st.inner.len() == 0 {
            if is_ws(c) {
                st
            } else {
                scan_fail()
            }
        } else if is_ws(c) {
            st
        } else if st.gap == Some(Combinator::Descendant) {
            Scan { gap: Some(comb_of(c)), ..st }
        } else {
            scan_fail()
        }
    } else {
        scan_fail()
    }
}

/// The state after reading the first `n` characters of `s`.
pub open spec fn scan_prefix(s: Seq<char>, n: int) -> Scan
    decreases n,
{
    if n <= 0 {
        scan_start()
    } else {
        scan_step(scan_prefix(s, n - 1), s, n - 1)
    }
}

/// The compound selectors and combinators that selector text denotes, or
/// `None` for text that is not a selector. A selector is compound selectors
/// joined by `>`, `+`, `~` or whitespace alone (with whitespace allowed
/// around each combinator and at both ends); a compound selector is `*` or a
/// tag name, or neither, followed by any number of `#id` and `.class`; names
/// are made of ASCII letters, digits, `-` and `_`. A later `#id` replaces an
/// earlier one.
pub open spec fn selector_of(s: Seq<char>) -> Option<(Seq<CompoundModel>, Seq<Combinator>)> {
    let st = scan_prefix(s, s.len() as int);
    let end = if st.cur is Some {
        let st2 = close_field(st, s, s.len() as int);
        if st2.failed {
            st2
        } else {
            Scan { inner: st2.inner.push(st2.cur->0), cur: None, ..st2 }
        }
    } else {
        st
    };
    if end.failed || end.inner.len() == 0 || (end.cur is None && end.gap is Some && end.gap
        != Some(Combinator::Descendant)) {
        None
    } else {
        Some((end.inner, end.combs))
    }
}

/// The reading state as exec values stand for it.
pub open spec fn scan_view(
    inner: Seq<Selector>,
    combs: Seq<Combinator>,
    cur: Option<Selector>,
    field: Option<(Field, usize)>,
    gap: Option<Combinator>,
) -> Scan {
    Scan {
        failed: false,
        inner: inner.map_values(|x: Selector| x.model()),
        combs: combs,
        cur: match cur {
            Some(x) => Some(x.model()),
            None => None,
        },
        field: match field {
            Some((f, b)) => Some((f, b as int)),
            None => None,
        },
        gap: gap,
    }
}

proof fn lemma_failed_stays(s: Seq<char>, n: int, m: int)
    requires
        0 <= n <= m,
        scan_prefix(s, n) == scan_fail(),
    ensures
        scan_prefix(s, m) == scan_fail(),
    decreases m - n,
{
    if n < m {
        lemma_failed_stays(s, n, m - 1);
    }
}

fn ident_char(c: char) -> (r: bool)
    ensures
        r == is_ident_char(c),
{
    ('a' <= c && c <= 'z') || ('A' <= c && c <= 'Z') || ('0' <= c && c <= '9') || c == '-' || c
        == '_'
}

fn comb_char(c: char) -> (r: Option<Combinator>)
    ensures
        r is Some == is_comb_char(c),
        r is Some ==> r == Some(comb_of(c)),
{
    if c == '>' {
        Some(Combinator::Child)
    } else if c == '+' {
        Some(Combinator::AdjacentSibling)
    } else if c == '~' {
        Some(Combinator::GeneralSibling)
    } else {
        None
    }
}

/// Ends the name being read at `i` (see `close_field`); false for an empty name.
fn close_field_exec(cur: &mut Option<Selector>, field: &mut Option<(Field, usize)>, s: &str, i: usize) -> (ok: bool)
    requires
        (*old(cur)) is Some,
        i <= s@.len(),
        *old(field) matches Some((f, b)) ==> b <= i,
    ensures
        ({
            let before = scan_view(Seq::empty(), Seq::empty(), *old(cur), *old(field), None);
            let after = close_field(before, s@, i as int);
            &&& ok == !after.failed
            &&& ok ==> after == scan_view(Seq::empty(), Seq::empty(), *final(cur), *final(field), None)
        }),
        (*final(cur)) is Some,
        (*final(field)) is None || *final(field) == *old(field),
{
    match *field {
        None => true,
        Some((f, b)) => {
            if b >= i {
                return false;
            }
            let name = s.substring_char(b, i).to_owned();
            let mut c = cur.take().unwrap();
            let ghost c0 = c;
            match f {
                Field::Tag => {
                    c.tag_name = Some(name);
                },
                Field::Id => {
                    c.id = Some(name);
                },
                Field::Class => {
                    c.classes.push(name);
                    proof {
                        assert(c.classes@.map_values(|x: String| x@) =~= c0.classes@.map_values(|x: String| x@).push(name@));
                    }
                },
            }
            *cur = Some(c);
            *field = None;
            true
        },
    }
}

/// Reads selector text (see `selector_of`).
pub fn parse_selector(input: &str) -> (r: Result<ComplexSelector, Error>)
    ensures
        match r {
            Ok(sel) => selector_of(input@) == Some((sel.inner@.map_values(|x: Selector| x.model()), sel.combinators@))
                && sel.inner.len() >= 1 && sel.combinators.len() + 1 == sel.inner.len(),
            Err(e) => selector_of(input@) is None && e == Error::SelectorParsing,
        },
{
    let n = input.unicode_len();
    let mut inner: Vec<Selector> = Vec::new();
    let mut combs: Vec<Combinator> = Vec::new();
    let mut cur: Option<Selector> = None;
    let mut field: Option<(Field, usize)> = None;
    let mut gap: Option<Combinator> = None;
    let mut i: usize = 0;
    proof {
        assert(scan_prefix(input@, 0) =~= scan_view(inner@, combs@, cur, field, gap));
    }
    while i < n
        invariant
            n == input@.len(),
            i <= n,
            scan_prefix(input@, i as int) == scan_view(inner@, combs@, cur, field, gap),
            field matches Some((f, b)) ==> b <= i && cur is Some,
            cur is Some ==> combs.len() == inner.len() && gap is None,
            cur is None ==> (inner.len() == 0 && combs.len() == 0) || combs.len() + 1 == inner.len(),
            inner.len() == 0 ==> combs.len() == 0,
        decreases n - i,
    {
        let c = input.get_char(i);
        let ghost st = scan_view(inner@, combs@, cur, field, gap);
        proof {
            assert(scan_prefix(input@, i + 1) == scan_step(st, input@, i as int));
        }
        if ident_char(c) {
            if field.is_some() {
            } else if cur.is_some() {
                proof {
                    lemma_failed_stays(input@, i + 1, n as int);
                }
                return Err(Error::SelectorParsing);
            } else {
                if inner.len() > 0 {
                    combs.push(match gap { Some(g) => g, None => Combinator::Descendant });
                }
                cur = Some(Selector { id: None, tag_name: None, classes: Vec::new() });
                field = Some((Field::Tag, i));
                gap = None;
                proof {
                    assert(scan_view(inner@, combs@, cur, field, gap) =~= scan_step(st, input@, i as int));
                }
            }
        } else if c == '*' {
            if cur.is_some() {
                proof {
                    lemma_failed_stays(input@, i + 1, n as int);
                }
                return Err(Error::SelectorParsing);
            }
            if inner.len() > 0 {
                combs.push(match gap { Some(g) => g, None => Combinator::Descendant });
            }
            cur = Some(Selector { id: None, tag_name: None, classes: Vec::new() });
            field = None;
            gap = None;
            proof {
                assert(scan_view(inner@, combs@, cur, field, gap) =~= scan_step(st, input@, i as int));
            }
        } else if c == '#' || c == '.' {
            let f = if c == '#' { Field::Id } else { Field::Class };
            if cur.is_some() {
                let ghost before = scan_view(Seq::empty(), Seq::empty(), cur, field, None);
                if !close_field_exec(&mut cur, &mut field, input, i) {
                    proof {
                        assert(close_field(st, input@, i as int).failed) by {
                            assert(close_field(before, input@, i as int).failed);
                        }
                        lemma_failed_stays(input@, i + 1, n as int);
                    }
                    return Err(Error::SelectorParsing);
                }
                field = Some((f, i + 1));
                proof {
                    assert(close_field(st, input@, i as int) =~= Scan { inner: st.inner, combs: st.combs, gap: st.gap, ..close_field(before, input@, i as int) });
                    assert(scan_view(inner@, combs@, cur, field, gap) =~= scan_step(st, input@, i as int));
                }
            } else {
                if inner.len() > 0 {
                    combs.push(match gap { Some(g) => g, None => Combinator::Descendant });
                }
                cur = Some(Selector { id: None, tag_name: None, classes: Vec::new() });
                field = Some((f, i + 1));
                gap = None;
                proof {
                    assert(scan_view(inner@, combs@, cur, field, gap) =~= scan_step(st, input@, i as int));
                }
            }
        } else if is_whitespace(c) || comb_char(c).is_some() {
            let here = match comb_char(c) { Some(k) => k, None => Combinator::Descendant };
            if cur.is_some() {
                let ghost before = scan_view(Seq::empty(), Seq::empty(), cur, field, None);
                if !close_field_exec(&mut cur, &mut field, input, i) {
                    proof {
                        assert(close_field(st, input@, i as int).failed) by {
                            assert(close_field(before, input@, i as int).failed);
                        }
                        lemma_failed_stays(input@, i + 1, n as int);
                    }
                    return Err(Error::SelectorParsing);
                }
                let ghost mid = close_field(st, input@, i as int);
                proof {
                    assert(mid =~= Scan { inner: st.inner, combs: st.combs, gap: st.gap, ..close_field(before, input@, i as int) });
                }
                let done = cur.take().unwrap();
                let ghost old_inner = inner@;
                inner.push(done);
                gap = Some(here);
                proof {
                    assert(inner@.map_values(|x: Selector| x.model()) =~= old_inner.map_values(|x: Selector| x.model()).push(done.model()));
                    assert(scan_view(inner@, combs@, cur, field, gap) =~= scan_step(st, input@, i as int));
                }
            } else if inner.len() == 0 {
                if !is_whitespace(c) {
                    proof {
                        lemma_failed_stays(input@, i + 1, n as int);
                    }
                    return Err(Error::SelectorParsing);
                }
            } else if is_whitespace(c) {
            } else if gap == Some(Combinator::Descendant) {
                gap = Some(here);
                proof {
                    assert(scan_view(inner@, combs@, cur, field, gap) =~= scan_step(st, input@, i as int));
                }
            } else {
                proof {
                    lemma_failed_stays(input@, i + 1, n as int);
                }
                return Err(Error::SelectorParsing);
            }
        } else {
            proof {
                lemma_failed_stays(input@, i + 1, n as int);
            }
            return Err(Error::SelectorParsing);
        }
        i = i + 1;
    }
    let ghost st = scan_view(inner@, combs@, cur, field, gap);
    if cur.is_some() {
        let ghost before = scan_view(Seq::empty(), Seq::empty(), cur, field, None);
        if !close_field_exec(&mut cur, &mut field, input, n) {
            proof {
                assert(close_field(st, input@, n as int).failed) by {
                    assert(close_field(before, input@, n as int).failed);
                }
            }
            return Err(Error::SelectorParsing);
        }
        proof {
            assert(close_field(st, input@, n as int) =~= Scan { inner: st.inner, combs: st.combs, gap: st.gap, ..close_field(before, input@, n as int) });
        }
        let ghost st2 = close_field(st, input@, n as int);
        let done = cur.take().unwrap();
        let ghost old_inner = inner@;
        inner.push(done);
        proof {
            assert(inner@.map_values(|x: Selector| x.model()) =~= old_inner.map_values(|x: Selector| x.model()).push(done.model()));
            let end = Scan { inner: st2.inner.push(st2.cur->0), cur: None, ..st2 };
            assert(end.inner == inner@.map_values(|x: Selector| x.model()));
            assert(end.combs == combs@);
            assert(!end.failed && end.inner.len() > 0 && end.gap is None);
        }
    } else {
        if inner.len() == 0 {
            return Err(Error::SelectorParsing);
        }
        match gap {
            Some(Combinator::Descendant) => {},
            Some(_) => {
                return Err(Error::SelectorParsing);
            },
            None => {},
        }
    }
    Ok(ComplexSelector { inner, combinators: combs })
}

impl std::str::FromStr for ComplexSelector {
    type Err = Error;

    fn from_str(input: &str) -> (r: Result<ComplexSelector, Error>)
        ensures
            match r {
                Ok(sel) => selector_of(input@) == Some((sel.inner@.map_values(|x: Selector| x.model()), sel.combinators@))
                    && sel.inner.len() >= 1 && sel.combinators.len() + 1 == sel.inner.len(),
                Err(e) => selector_of(input@) is None && e == Error::SelectorParsing,
            },
    {
        parse_selector(input)
    }
}

} // verus!
