use tb::dom::Dom;
use tb::error::{Error, UnreachableError};
use tb::node::{AttrMap, ElementData, Node, NodeId, NodeType};
use std::str::FromStr;

use tb::css::parse_selector;
use tb::simply::{remove_fluff, SimplifyError};
use tb::stylesheet::{Combinator, ComplexSelector, Selector};

fn compound(tag: Option<&str>, id: Option<&str>, classes: &[&str]) -> Selector {
    Selector {
        id: id.map(String::from),
        tag_name: tag.map(String::from),
        classes: classes.iter().map(|c| c.to_string()).collect(),
    }
}

fn tag(name: &str) -> Selector {
    compound(Some(name), None, &[])
}

fn chain(parts: Vec<Selector>, combinators: Vec<Combinator>) -> ComplexSelector {
    ComplexSelector { inner: parts, combinators }
}

fn single(s: Selector) -> ComplexSelector {
    chain(vec![s], vec![])
}

fn attrs(pairs: &[(&str, &str)]) -> AttrMap {
    let mut m = AttrMap::new();
    for (k, v) in pairs {
        m.insert(k, v);
    }
    m
}

/// A small page built node by node: head > title, style, then
/// body > h1#title, div.lorem-blue > p, div#second-paragraph > p, p.yellow.
fn hello_web() -> Dom {
    let mut dom = Dom::new("html");
    let root = dom.root;
    let head = dom.append_element(root, "head", None);
    let title = dom.append_element(head, "title", None);
    dom.append_text(title, "Hello web");
    let style = dom.append_element(head, "style", None);
    dom.append_text(style, ".yellow { color: yellow; }");
    let body = dom.append_element(root, "body", None);
    let h1 = dom.append_element(body, "h1", Some(attrs(&[("id", "title")])));
    dom.append_text(h1, "Hello Web");
    let div1 = dom.append_element(body, "div", Some(attrs(&[("class", "lorem-blue")])));
    let p1 = dom.append_element(div1, "p", None);
    dom.append_text(p1, "Lorem ipsum, dolor sit amet consectetur adipisicing elit.");
    let div2 = dom.append_element(body, "div", Some(attrs(&[("id", "second-paragraph")])));
    let p2 = dom.append_element(div2, "p", None);
    dom.append_text(p2, "Lorem ipsum dolor sit amet consectetur adipisicing elit.");
    let p3 = dom.append_element(body, "p", Some(attrs(&[("class", "yellow")])));
    dom.append_text(p3, "Lorem ipsum dolor sit amet consectetur adipisicing elit.");
    dom
}

fn count(dom: &Dom, sel: &ComplexSelector) -> usize {
    dom.select(dom.root, sel).unwrap().len()
}

fn selector_helper(input: &str) -> Selector {
    ComplexSelector::from_str(input).unwrap().inner.remove(0)
}

#[test]
fn selector_matching() {
    let element = ElementData::new("h1", Some(attrs(&[("class", "yellow red pink"), ("id", "ooo")])));

    let matches = [
        "*",
        "h1",
        "#ooo",
        "h1#ooo",
        ".yellow",
        "h1.yellow",
        "*.yellow",
        "*.yellow.pink",
        "*.yellow.pink.red",
        "*.yellow.pink.red.pink.pink",
    ];
    let not_matches = [
        "h1.yellow#iowjefoijweijf",
        "h2.yellow",
        "pink.red.yellow.blue",
    ];

    for x in matches {
        assert!(element.matches_selector(&selector_helper(x)));
    }
    for x in not_matches {
        assert!(!element.matches_selector(&selector_helper(x)));
    }
}

#[test]
fn test_selectors() {
    let dom = hello_web();

    let basic_class = dom.query_select(".yellow").unwrap().len();
    assert_eq!(basic_class, 1);

    let child_paragraphs = dom.query_select("body>p").unwrap().len();
    assert_eq!(child_paragraphs, 1);

    let div_child_paragraphs = dom.query_select("body>div>p").unwrap().len();
    assert_eq!(div_child_paragraphs, 2);

    let body_para_descendants = dom.query_select("body p").unwrap().len();
    assert_eq!(
        body_para_descendants,
        child_paragraphs + div_child_paragraphs
    );

    assert_eq!(dom.query_select("h1 ~ div").unwrap().len(), 2);
    assert_eq!(dom.query_select("h1 + div").unwrap().len(), 1);
}

#[test]
fn structured_selectors_give_the_same_counts() {
    let dom = hello_web();
    assert_eq!(count(&dom, &single(compound(None, None, &["yellow"]))), 1);
    assert_eq!(count(&dom, &chain(vec![tag("body"), tag("p")], vec![Combinator::Child])), 1);
    assert_eq!(
        count(&dom, &chain(vec![tag("body"), tag("div"), tag("p")], vec![Combinator::Child, Combinator::Child])),
        2
    );
    assert_eq!(count(&dom, &chain(vec![tag("body"), tag("p")], vec![Combinator::Descendant])), 3);
}

#[test]
fn selector_text_is_read() {
    let s = parse_selector("  div.a.b#x > p + *.c ~ span  em ").unwrap();
    assert_eq!(s.inner.len(), 5);
    assert_eq!(
        s.combinators,
        vec![Combinator::Child, Combinator::AdjacentSibling, Combinator::GeneralSibling, Combinator::Descendant]
    );
    assert_eq!(s.inner[0].tag_name, Some("div".to_string()));
    assert_eq!(s.inner[0].id, Some("x".to_string()));
    assert_eq!(s.inner[0].classes, vec!["a".to_string(), "b".to_string()]);
    assert_eq!(s.inner[2].tag_name, None);
    assert_eq!(s.inner[2].classes, vec!["c".to_string()]);
    assert_eq!(s.inner[4].tag_name, Some("em".to_string()));
    let star = parse_selector("*").unwrap();
    assert_eq!(star.inner.len(), 1);
    assert!(star.inner[0].tag_name.is_none() && star.inner[0].id.is_none() && star.inner[0].classes.is_empty());
    assert_eq!(parse_selector("h1#a#b").unwrap().inner[0].id, Some("b".to_string()));
}

#[test]
fn bad_selector_text_is_refused() {
    for bad in ["", "   ", "> p", "p >", "p > > q", "*h1", "h1*", "#", "p.", "p$", "p..q", "a,b"] {
        assert_eq!(parse_selector(bad).unwrap_err(), Error::SelectorParsing, "{:?}", bad);
    }
    let dom = hello_web();
    assert_eq!(dom.query_select("body >").unwrap_err(), Error::SelectorParsing);
}

#[test]
fn child_combinator_versus_descendant() {
    let mut dom = Dom::new("html");
    let root = dom.root;
    let body = dom.append_element(root, "body", None);
    dom.append_element(body, "p", None);
    let div = dom.append_element(body, "div", None);
    dom.append_element(div, "p", None);
    dom.append_element(div, "p", None);

    assert_eq!(count(&dom, &chain(vec![tag("body"), tag("p")], vec![Combinator::Child])), 1);
    assert_eq!(count(&dom, &chain(vec![tag("body"), tag("p")], vec![Combinator::Descendant])), 3);
}

#[test]
fn adjacent_versus_general_sibling() {
    let mut dom = Dom::new("html");
    let root = dom.root;
    let body = dom.append_element(root, "body", None);
    dom.append_element(body, "h1", None);
    dom.append_element(body, "div", None);
    dom.append_element(body, "div", None);

    assert_eq!(
        count(&dom, &chain(vec![tag("h1"), tag("div")], vec![Combinator::AdjacentSibling])),
        1
    );
    assert_eq!(
        count(&dom, &chain(vec![tag("h1"), tag("div")], vec![Combinator::GeneralSibling])),
        2
    );
}

#[test]
fn adjacent_sibling_of_last_child_is_empty() {
    let mut dom = Dom::new("html");
    let root = dom.root;
    dom.append_element(root, "div", None);
    dom.append_element(root, "h1", None);
    assert_eq!(
        count(&dom, &chain(vec![tag("h1"), tag("div")], vec![Combinator::AdjacentSibling])),
        0
    );
}

#[test]
fn nested_matches_are_returned_once() {
    let mut dom = Dom::new("html");
    let root = dom.root;
    let outer = dom.append_element(root, "div", None);
    let inner = dom.append_element(outer, "div", None);
    let p = dom.append_element(inner, "p", None);
    let found = dom
        .select(root, &chain(vec![tag("div"), tag("p")], vec![Combinator::Descendant]))
        .unwrap();
    assert_eq!(found, vec![p]);
}

#[test]
fn text_nodes_never_match() {
    let mut dom = Dom::new("html");
    let root = dom.root;
    dom.append_text(root, "p");
    dom.append_comment(root, "p");
    assert_eq!(count(&dom, &single(compound(None, None, &[]))), 0);
}

#[test]
fn malformed_selectors_are_reported() {
    let dom = hello_web();
    let empty = chain(vec![], vec![]);
    assert_eq!(
        dom.select(dom.root, &empty).unwrap_err(),
        Error::Unreachable(UnreachableError::SelectorHasNoSimpleSelectors)
    );
    let too_many = chain(vec![tag("p")], vec![Combinator::Child]);
    assert_eq!(
        dom.select(dom.root, &too_many).unwrap_err(),
        Error::Unreachable(UnreachableError::SelectorHasMoreCombinatorsThanSelectors)
    );
    let too_few = chain(vec![tag("body"), tag("p")], vec![]);
    assert_eq!(
        dom.select(dom.root, &too_few).unwrap_err(),
        Error::Unreachable(UnreachableError::SelectorHasFewerCombinatorsThanSelectors)
    );
}

#[test]
fn classes_split_on_whitespace() {
    let element = ElementData::new("p", Some(attrs(&[("class", "  a\tb  c\n")])));
    assert_eq!(element.classes(), vec!["a".to_string(), "b".to_string(), "c".to_string()]);
    assert!(!element.matches_selector(&compound(None, None, &["a b"])));
    let bare = ElementData::new("p", None);
    assert!(bare.classes().is_empty());
    assert_eq!(bare.id(), None);
}

#[test]
fn attributes_are_set_and_replaced() {
    let mut dom = Dom::new("html");
    let root = dom.root;
    let p = dom.append_element(root, "p", None);
    assert_eq!(dom.get_attr(p, "id"), None);
    dom.set_attr(p, "id", "first").unwrap();
    dom.set_attr(p, "id", "second").unwrap();
    assert_eq!(dom.get_attr(p, "id"), Some("second".to_string()));
    match &dom.nodes[p].node_type {
        NodeType::Element(e) => assert_eq!(e.id(), Some(&"second".to_string())),
        _ => panic!("not an element"),
    }
}

#[test]
fn attribute_operations_on_text_fail() {
    let mut dom = Dom::new("html");
    let root = dom.root;
    let t = dom.append_text(root, "hello");
    assert_eq!(dom.set_attr(t, "id", "x"), Err(Error::NotAnElement));
    assert_eq!(dom.get_attr(t, "id"), None);
}

#[test]
fn parent_links() {
    let mut dom = Dom::new("html");
    let root = dom.root;
    let a = dom.append_element(root, "div", None);
    let b = dom.append_element(a, "p", None);
    assert_eq!(dom.parent(b), Ok(a));
    assert_eq!(dom.parent(a), Ok(root));
    assert_eq!(dom.parent(root), Err(Error::Unreachable(UnreachableError::NoParent)));
    assert_eq!(dom.nodes[a].children, vec![b]);
}

#[test]
fn moving_a_subtree() {
    let mut dom = Dom::new("html");
    let root = dom.root;
    let a = dom.append_element(root, "div", None);
    let b = dom.append_element(root, "section", None);
    let c = dom.append_element(a, "p", None);
    let moved: NodeId = dom.append_shared_node(b, c).unwrap();
    assert_eq!(moved, c);
    assert_eq!(dom.parent(c), Ok(b));
    assert!(dom.nodes[a].children.is_empty());
    assert_eq!(dom.nodes[b].children, vec![c]);
    assert_eq!(dom.append_shared_node(c, b), Err(Error::CannotAppend));
    assert_eq!(dom.append_shared_node(c, c), Err(Error::CannotAppend));
    assert_eq!(dom.append_shared_node(c, root), Err(Error::CannotAppend));
}

#[test]
fn moving_under_a_later_node() {
    let mut dom = Dom::new("html");
    let root = dom.root;
    let a = dom.append_element(root, "div", None);
    let inner = dom.append_element(a, "p", None);
    let b = dom.append_element(root, "section", None);
    assert_eq!(dom.append_shared_node(b, a), Ok(a));
    assert_eq!(dom.parent(a), Ok(b));
    assert_eq!(dom.nodes[root].children, vec![b]);
    assert_eq!(dom.nodes[b].children, vec![a]);
    assert_eq!(
        count(&dom, &chain(vec![tag("section"), tag("div"), tag("p")], vec![Combinator::Child, Combinator::Child])),
        1
    );
    assert_eq!(dom.append_shared_node(inner, b), Err(Error::CannotAppend));
    let orphan = dom.create(Node::new(NodeType::Element(ElementData::new("span", None))));
    let leaf = dom.append_element(orphan, "em", None);
    let later = dom.append_element(inner, "i", None);
    assert_eq!(dom.append_shared_node(later, orphan), Ok(orphan));
    assert_eq!(dom.outline(later, 0), vec![(0, later), (1, orphan), (2, leaf)]);
}

#[test]
fn main_section_is_preferred_over_body() {
    let mut dom = Dom::new("html");
    let root = dom.root;
    let body = dom.append_element(root, "body", None);
    assert_eq!(remove_fluff(&dom, root), Ok(body));
    let main = dom.append_element(body, "main", None);
    assert_eq!(remove_fluff(&dom, root), Ok(main));
    let bare = Dom::new("html");
    assert_eq!(remove_fluff(&bare, bare.root), Err(SimplifyError::NoMainSectionFound));
}
