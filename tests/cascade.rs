use tb::cascade::is_inheritable;
use tb::dimension::DimensionError;
use tb::dom::Dom;
use tb::error::{Error, UnreachableError};
use tb::node::{AttrMap, NodeId};
use tb::stylesheet::{
    Color, Combinator, ComplexSelector, Dimension, Origin, PropertyValue, Rule, Selector,
    Specificity, Stylesheet, Unit, Value,
};

fn compound(tag: Option<&str>, classes: &[&str]) -> Selector {
    Selector {
        id: None,
        tag_name: tag.map(String::from),
        classes: classes.iter().map(|c| c.to_string()).collect(),
    }
}

fn single(s: Selector) -> ComplexSelector {
    ComplexSelector { inner: vec![s], combinators: vec![] }
}

fn class_attr(c: &str) -> Option<AttrMap> {
    let mut m = AttrMap::new();
    m.insert("class", c);
    Some(m)
}

fn dim(milli: i64, unit: Unit) -> Value {
    Value::Dimension(Dimension { milli, unit })
}

fn keyword(k: &str) -> Value {
    Value::Keyword(k.to_string())
}

fn decl(key: &str, value: Value, important: bool) -> (String, PropertyValue) {
    (key.to_string(), PropertyValue { value, important })
}

fn rule(selector: Selector, props: Vec<(String, PropertyValue)>) -> Rule {
    Rule { selector: single(selector), props }
}

fn keyword_of(v: Option<Value>) -> String {
    match v {
        Some(Value::Keyword(k)) => k,
        other => panic!("not a keyword: {:?}", other),
    }
}

fn color_of(dom: &Dom, node: NodeId) -> Option<String> {
    dom.ask_style(node, "color").map(|s| keyword_of(Some(s.value.value)))
}

fn cells(dom: &Dom, node: NodeId, prop: &str, viewport: (u16, u16)) -> Result<i64, DimensionError> {
    let style = dom.ask_style(node, prop).expect("property is set");
    let d = match style.value.value {
        Value::Dimension(d) => d,
        other => panic!("not a dimension: {:?}", other),
    };
    let parent = dom.parent(node).unwrap();
    d.as_tb(dom, parent, prop, viewport).map(|r| {
        assert_eq!(r.unit, Unit::Tb);
        r.milli / 1000
    })
}

fn fixed(milli: i64, unit: Unit, viewport: (u16, u16)) -> Result<i64, DimensionError> {
    let dom = Dom::new("html");
    Dimension { milli, unit }.as_tb(&dom, dom.root, "width", viewport).map(|r| r.milli / 1000)
}

#[test]
fn half_as_wide_chain() {
    let mut dom = Dom::new("html");
    let root = dom.root;
    let outer = dom.append_element(root, "div", class_attr("wide"));
    let middle = dom.append_element(outer, "div", class_attr("half-as-wide"));
    let inner = dom.append_element(middle, "div", class_attr("half-as-wide"));
    let sheet = Stylesheet::new(
        Some(vec![
            rule(compound(None, &["wide"]), vec![decl("width", dim(100_000, Unit::Vw), false)]),
            rule(compound(None, &["half-as-wide"]), vec![decl("width", dim(50_000, Unit::Percent), false)]),
        ]),
        Origin::Author,
    );
    dom.apply_stylesheet(sheet).unwrap();
    let viewport = (120, 60);
    assert_eq!(cells(&dom, outer, "width", viewport).unwrap(), 120);
    assert_eq!(cells(&dom, middle, "width", viewport).unwrap(), 60);
    assert_eq!(cells(&dom, inner, "width", viewport).unwrap(), 30);
    let d = match dom.ask_style(inner, "width").unwrap().value.value {
        Value::Dimension(d) => d,
        _ => panic!(),
    };
    assert_eq!(d.as_tb_u16(&dom, middle, "width", viewport).unwrap(), 30);
}

#[test]
fn half_of_forty_cells() {
    let mut dom = Dom::new("html");
    let root = dom.root;
    let parent = dom.append_element(root, "div", None);
    let child = dom.append_element(parent, "div", None);
    dom.set_inline_style(parent, vec![decl("width", dim(40_000, Unit::Tb), false)]);
    dom.set_inline_style(child, vec![decl("width", dim(50_000, Unit::Percent), false)]);
    dom.refresh_styles().unwrap();
    assert_eq!(cells(&dom, child, "width", (80, 24)).unwrap(), 20);
}

#[test]
fn refreshing_twice_changes_nothing() {
    let mut dom = Dom::new("html");
    let root = dom.root;
    let p = dom.append_element(root, "p", class_attr("yellow"));
    dom.set_inline_style(p, vec![decl("color", keyword("pink"), false)]);
    let sheet = Stylesheet::new(
        Some(vec![rule(compound(Some("p"), &[]), vec![decl("color", keyword("red"), false)])]),
        Origin::Agent,
    );
    dom.apply_stylesheet(sheet).unwrap();
    let once: Vec<String> = dom.nodes.iter().map(|n| format!("{:?}", n.applied_styles)).collect();
    dom.refresh_styles().unwrap();
    let twice: Vec<String> = dom.nodes.iter().map(|n| format!("{:?}", n.applied_styles)).collect();
    assert_eq!(once, twice);
    assert_eq!(dom.nodes[p].applied_styles.len(), 2);
    assert_eq!(dom.nodes[p].applied_styles[1].rule_specificity, Specificity(1, 0, 0, 0));
}

#[test]
fn class_rule_outranks_tag_rule_in_either_order() {
    for class_first in [true, false] {
        let mut dom = Dom::new("html");
        let root = dom.root;
        let p = dom.append_element(root, "p", class_attr("yellow"));
        let by_class = rule(compound(None, &["yellow"]), vec![decl("color", keyword("purple"), false)]);
        let by_tag = rule(compound(Some("p"), &[]), vec![decl("color", keyword("blue"), false)]);
        let rules = if class_first { vec![by_class, by_tag] } else { vec![by_tag, by_class] };
        dom.apply_stylesheet(Stylesheet::new(Some(rules), Origin::Author)).unwrap();
        assert_eq!(color_of(&dom, p), Some("purple".to_string()));
    }
}

#[test]
fn important_agent_outranks_author() {
    let mut dom = Dom::new("html");
    let root = dom.root;
    let h1 = dom.append_element(root, "h1", None);
    let agent = Stylesheet::new(
        Some(vec![rule(compound(Some("h1"), &[]), vec![decl("color", keyword("red"), true)])]),
        Origin::Agent,
    );
    let author = Stylesheet::new(
        Some(vec![rule(compound(Some("h1"), &[]), vec![decl("color", keyword("blue"), false)])]),
        Origin::Author,
    );
    dom.apply_stylesheet(agent).unwrap();
    dom.apply_stylesheet(author).unwrap();
    assert_eq!(color_of(&dom, h1), Some("red".to_string()));
}

#[test]
fn author_outranks_agent_without_importance() {
    let mut dom = Dom::new("html");
    let root = dom.root;
    let h1 = dom.append_element(root, "h1", None);
    let agent = Stylesheet::new(
        Some(vec![rule(compound(Some("h1"), &[]), vec![decl("color", keyword("red"), false)])]),
        Origin::Agent,
    );
    let author = Stylesheet::new(
        Some(vec![rule(compound(Some("h1"), &[]), vec![decl("color", keyword("blue"), false)])]),
        Origin::Author,
    );
    dom.apply_stylesheet(agent).unwrap();
    dom.apply_stylesheet(author).unwrap();
    assert_eq!(color_of(&dom, h1), Some("blue".to_string()));
}

#[test]
fn inline_style_outranks_rules() {
    let mut dom = Dom::new("html");
    let root = dom.root;
    let p = dom.append_element(root, "p", class_attr("yellow"));
    dom.set_inline_style(p, vec![decl("color", keyword("pink"), false)]);
    let sheet = Stylesheet::new(
        Some(vec![rule(compound(Some("p"), &["yellow"]), vec![decl("color", keyword("yellow"), false)])]),
        Origin::Author,
    );
    dom.apply_stylesheet(sheet).unwrap();
    assert_eq!(color_of(&dom, p), Some("pink".to_string()));
}

#[test]
fn first_of_equal_declarations_wins() {
    let mut dom = Dom::new("html");
    let root = dom.root;
    let p = dom.append_element(root, "p", None);
    let sheet = Stylesheet::new(
        Some(vec![
            rule(compound(Some("p"), &[]), vec![decl("color", keyword("first"), false)]),
            rule(compound(Some("p"), &[]), vec![decl("color", keyword("second"), false)]),
        ]),
        Origin::User,
    );
    dom.apply_stylesheet(sheet).unwrap();
    assert_eq!(color_of(&dom, p), Some("first".to_string()));
}

#[test]
fn inheritance_follows_the_inheritable_set() {
    let mut dom = Dom::new("html");
    let root = dom.root;
    let div = dom.append_element(root, "div", None);
    let span = dom.append_element(div, "span", None);
    dom.set_inline_style(
        div,
        vec![decl("color", keyword("cyan"), false), decl("width", dim(10_000, Unit::Tb), false)],
    );
    dom.refresh_styles().unwrap();
    assert_eq!(color_of(&dom, span), Some("cyan".to_string()));
    assert!(dom.ask_style(span, "width").is_none());
    assert!(dom.ask_style(root, "color").is_none());
    assert!(is_inheritable("color"));
    assert!(is_inheritable("word-spacing"));
    assert!(!is_inheritable("width"));
    assert!(!is_inheritable("Color"));
}

#[test]
fn style_with_fallback() {
    let mut dom = Dom::new("html");
    let root = dom.root;
    let div = dom.append_element(root, "div", None);
    dom.set_inline_style(div, vec![decl("left", keyword("auto"), false)]);
    dom.refresh_styles().unwrap();
    let default = keyword("none");
    assert_eq!(keyword_of(Some(dom.get_style(div, "inset", "left", &default))), "auto");
    assert_eq!(keyword_of(Some(dom.get_style(div, "left", "inset", &default))), "auto");
    assert_eq!(keyword_of(Some(dom.get_style(div, "top", "inset", &default))), "none");
}

#[test]
fn malformed_rule_leaves_styles_untouched() {
    let mut dom = Dom::new("html");
    let root = dom.root;
    let p = dom.append_element(root, "p", None);
    dom.set_inline_style(p, vec![decl("color", keyword("pink"), false)]);
    dom.refresh_styles().unwrap();
    let bad = Rule {
        selector: ComplexSelector { inner: vec![], combinators: vec![] },
        props: vec![decl("color", keyword("red"), false)],
    };
    let r = dom.apply_stylesheet(Stylesheet::new(Some(vec![bad]), Origin::Author));
    assert_eq!(r, Err(Error::Unreachable(UnreachableError::SelectorHasNoSimpleSelectors)));
    assert_eq!(color_of(&dom, p), Some("pink".to_string()));
    assert_eq!(dom.stylesheets.len(), 1);
}

#[test]
fn specificity_sums_compounds() {
    let sel = ComplexSelector {
        inner: vec![
            Selector { id: Some("a".to_string()), tag_name: Some("div".to_string()), classes: vec![] },
            Selector { id: None, tag_name: Some("p".to_string()), classes: vec!["x".to_string(), "y".to_string()] },
        ],
        combinators: vec![Combinator::Descendant],
    };
    assert_eq!(sel.specificity(), Specificity(0, 1, 2, 2));
    assert_eq!(sel.inner[1].specificity(), Specificity(0, 0, 2, 1));
    assert!(Specificity(0, 0, 0, 1).at_most(&Specificity(0, 0, 1, 0)));
    assert!(!Specificity(0, 1, 0, 0).at_most(&Specificity(0, 0, 9, 9)));
    assert_eq!(Specificity::inline(), Specificity(1, 0, 0, 0));
}

#[test]
fn origin_tiers() {
    assert_eq!(Origin::Agent.value(false), 0);
    assert_eq!(Origin::User.value(false), 1);
    assert_eq!(Origin::Author.value(false), 2);
    assert_eq!(Origin::Author.value(true), 3);
    assert_eq!(Origin::User.value(true), 4);
    assert_eq!(Origin::Agent.value(true), 5);
}

#[test]
fn unit_names() {
    assert_eq!(Unit::parse("px"), Unit::Px);
    assert_eq!(Unit::parse("PX"), Unit::Px);
    assert_eq!(Unit::parse("cm"), Unit::Cm);
    assert_eq!(Unit::parse("Rem"), Unit::Rem);
    assert_eq!(Unit::parse("%"), Unit::Percent);
    assert_eq!(Unit::parse(""), Unit::Unitless);
    assert_eq!(Unit::parse("parsec"), Unit::Invalid);
    assert_eq!("q".parse::<Unit>(), Ok(Unit::Q));
}

#[test]
fn fixed_unit_conversions() {
    let vp = (120, 60);
    assert_eq!(fixed(16_000, Unit::Px, vp).unwrap(), 2);
    assert_eq!(fixed(12_000, Unit::Pt, vp).unwrap(), 2);
    assert_eq!(fixed(1_000, Unit::Pc, vp).unwrap(), 2);
    assert_eq!(fixed(40_000, Unit::Q, vp).unwrap(), 5);
    assert_eq!(fixed(10_000, Unit::Mm, vp).unwrap(), 5);
    assert_eq!(fixed(1_000, Unit::Cm, vp).unwrap(), 5);
    assert_eq!(fixed(1_000, Unit::In, vp).unwrap(), 12);
    assert_eq!(fixed(3_000, Unit::Em, vp).unwrap(), 3);
    assert_eq!(fixed(3_000, Unit::Rem, vp).unwrap(), 3);
    assert_eq!(fixed(7_000, Unit::Tb, vp).unwrap(), 7);
    assert_eq!(fixed(50_000, Unit::Vh, vp).unwrap(), 30);
    assert_eq!(fixed(25_000, Unit::Vw, vp).unwrap(), 30);
    assert_eq!(fixed(2_500, Unit::Tb, vp).unwrap(), 3);
    assert_eq!(fixed(4_000, Unit::Px, vp).unwrap(), 1);
    assert_eq!(fixed(-4_000, Unit::Px, vp).unwrap(), -1);
    assert_eq!(fixed(3_999, Unit::Px, vp).unwrap(), 0);
}

#[test]
fn conversion_failures() {
    let vp = (120, 60);
    assert!(matches!(fixed(1_000, Unit::Unitless, vp), Err(DimensionError::Invalid)));
    assert!(matches!(fixed(1_000, Unit::Invalid, vp), Err(DimensionError::Invalid)));
    assert!(matches!(fixed(i64::MAX, Unit::In, vp), Err(DimensionError::OutOfRange)));

    let mut dom = Dom::new("html");
    let root = dom.root;
    let a = dom.append_element(root, "div", None);
    let b = dom.append_element(a, "div", None);
    let half = Dimension { milli: 50_000, unit: Unit::Percent };
    match half.as_tb(&dom, a, "width", vp) {
        Err(DimensionError::MissingPropOnParent { prop_name }) => assert_eq!(prop_name, "width"),
        other => panic!("{:?}", other),
    }
    dom.set_inline_style(
        a,
        vec![
            decl("width", keyword("auto"), false),
            decl("height", Value::Color(Color { r: 1, g: 2, b: 3, a: 255 }), false),
        ],
    );
    dom.set_inline_style(root, vec![decl("left", dim(10_000, Unit::Percent), false)]);
    dom.refresh_styles().unwrap();
    match half.as_tb(&dom, a, "width", vp) {
        Err(DimensionError::PropParentIsKeyword { prop_name }) => assert_eq!(prop_name, "width"),
        other => panic!("{:?}", other),
    }
    match half.as_tb(&dom, a, "height", vp) {
        Err(DimensionError::PropParentIsColor { prop_name }) => assert_eq!(prop_name, "height"),
        other => panic!("{:?}", other),
    }
    match half.as_tb(&dom, root, "left", vp) {
        Err(DimensionError::SharedNodeError(e)) => {
            assert_eq!(e, Error::Unreachable(UnreachableError::NoParent))
        }
        other => panic!("{:?}", other),
    }
    assert!(b > a);
}

#[test]
fn cell_counts_clamp_to_u16() {
    let dom = Dom::new("html");
    let vp = (120, 60);
    let big = Dimension { milli: 1_000_000_000, unit: Unit::Px };
    assert_eq!(big.as_tb_u16(&dom, dom.root, "width", vp).unwrap(), 65535);
    let negative = Dimension { milli: -80_000, unit: Unit::Px };
    assert_eq!(negative.as_tb_u16(&dom, dom.root, "width", vp).unwrap(), 0);
    let ten = Dimension { milli: 80_000, unit: Unit::Px };
    assert_eq!(ten.as_tb_u16(&dom, dom.root, "width", vp).unwrap(), 10);
}

#[test]
fn color_as_hex() {
    let c = Color { r: 255, g: 0, b: 171, a: 16 };
    assert_eq!(c.to_hex_string(), "#ff00ab10");
    assert_eq!(Color { r: 0, g: 0, b: 0, a: 0 }.to_hex_string(), "#00000000");
}

#[test]
fn outline_in_document_order() {
    let mut dom = Dom::new("html");
    let root = dom.root;
    let head = dom.append_element(root, "head", None);
    let title = dom.append_element(head, "title", None);
    let text = dom.append_text(title, "MY WEBSITE");
    let body = dom.append_element(root, "body", None);
    let comment = dom.append_comment(body, "note");
    assert_eq!(
        dom.outline(root, 0),
        vec![(0, root), (1, head), (2, title), (3, text), (1, body), (2, comment)]
    );
    assert_eq!(dom.outline(body, 5), vec![(5, body), (6, comment)]);
}
