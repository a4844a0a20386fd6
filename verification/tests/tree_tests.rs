use xml::{Attribute, BuilderError, Element, ElementBuilder, Parser, Xml};

fn attr(name: &str, ns: Option<&str>, value: &str) -> Attribute {
    Attribute {
        name: name.to_string(),
        ns: ns.map(|s| s.to_string()),
        value: value.to_string(),
    }
}

#[test]
fn new_element_collects_attributes() {
    let e = Element::new(
        "a".to_string(),
        Some("urn:x".to_string()),
        vec![
            ("k".to_string(), None, "1".to_string()),
            ("l".to_string(), None, "2".to_string()),
            ("k".to_string(), None, "3".to_string()),
        ],
    );
    assert_eq!(e.name, "a");
    assert_eq!(e.ns, Some("urn:x".to_string()));
    assert_eq!(e.default_ns, Some("urn:x".to_string()));
    assert_eq!(e.attributes, vec![attr("k", None, "3"), attr("l", None, "2")]);
    assert!(e.children.is_empty());
}

#[test]
fn set_get_remove_attribute() {
    let mut e = Element::new("a".to_string(), None, vec![]);
    assert_eq!(e.set_attribute("k".to_string(), None, "1".to_string()), None);
    assert_eq!(e.get_attribute("k", None), Some("1"));
    assert_eq!(e.get_attribute("k", Some("u")), None);
    assert_eq!(
        e.set_attribute("k".to_string(), None, "2".to_string()),
        Some("1".to_string())
    );
    assert_eq!(e.get_attribute("k", None), Some("2"));
    assert_eq!(e.remove_attribute("k", None), Some("2".to_string()));
    assert_eq!(e.get_attribute("k", None), None);
    assert_eq!(e.remove_attribute("k", None), None);
}

#[test]
fn children_builders_and_getters() {
    let mut e = Element::new("root".to_string(), None, vec![]);
    e.tag(Element::new("a".to_string(), None, vec![]));
    e.text("one".to_string());
    e.tag(Element::new("b".to_string(), Some("u".to_string()), vec![]));
    e.cdata("two".to_string());
    e.tag(Element::new("a".to_string(), None, vec![]));
    e.comment("note".to_string());
    e.pi("target".to_string());
    assert_eq!(e.children.len(), 7);
    assert_eq!(e.content_str(), "onetwo");
    assert!(e.get_child("a", None).is_some());
    assert!(e.get_child("b", None).is_none());
    assert!(e.get_child("b", Some("u")).is_some());
    assert_eq!(e.get_children("a", None).len(), 2);
    assert_eq!(e.children_with_name("a").len(), 2);
    assert!(e.child_with_name("a").is_some());
    assert!(e.child_with_name_and_ns("b", Some("u")).is_some());
}

#[test]
fn attribute_with_name_finds_whole_attribute() {
    let e = Element::new(
        "a".to_string(),
        None,
        vec![("k".to_string(), None, "v".to_string())],
    );
    assert_eq!(e.attribute_with_name("k"), Some(&attr("k", None, "v")));
    assert_eq!(e.attribute_with_name("missing"), None);
    assert_eq!(e.attribute_with_name_and_ns("k", Some("u")), None);
}

#[test]
fn content_str_recurses_through_elements() {
    let mut inner = Element::new("i".to_string(), None, vec![]);
    inner.text("deep".to_string());
    let mut e = Element::new("o".to_string(), None, vec![]);
    e.text("a".to_string());
    e.tag(inner);
    e.cdata("b".to_string());
    e.comment("skipped".to_string());
    assert_eq!(e.content_str(), "adeepb");
}

#[test]
fn builder_assembles_a_tree() {
    let mut p = Parser::new();
    let mut b = ElementBuilder::new();
    let mut root = None;
    for ev in p.feed_str("<a k='v'><b>text</b><!--c--></a>") {
        if let Some(r) = b.handle_event(ev) {
            root = Some(r);
        }
    }
    let e = root.expect("a root should have completed").expect("no error");
    assert_eq!(e.name, "a");
    assert_eq!(e.attributes, vec![attr("k", None, "v")]);
    assert_eq!(e.children.len(), 2);
    match &e.children[0] {
        Xml::ElementNode(c) => {
            assert_eq!(c.name, "b");
            assert_eq!(c.children, vec![Xml::CharacterNode("text".to_string())]);
        },
        _ => panic!("expected an element child"),
    }
    assert_eq!(e.children[1], Xml::CommentNode("c".to_string()));
}

#[test]
fn builder_rejects_unmatched_end_tag() {
    let mut b = ElementBuilder::new();
    let mut p = Parser::new();
    let events = p.feed_str("<a></b>");
    let mut outcome = None;
    for ev in events {
        if let Some(r) = b.handle_event(ev) {
            outcome = Some(r);
        }
    }
    assert_eq!(outcome, Some(Err(BuilderError::UnmatchedEndTag)));
}

#[test]
fn from_str_returns_first_root() {
    let e = Element::from_str("<a><b/>tail</a>").expect("well-formed");
    assert_eq!(e.name, "a");
    assert_eq!(e.children.len(), 2);

    assert_eq!(Element::from_str(""), Err(BuilderError::NoElement));
    assert_eq!(Element::from_str("<a>"), Err(BuilderError::NoElement));
    assert_eq!(
        Element::from_str("<a></b>"),
        Err(BuilderError::UnmatchedEndTag)
    );
}

#[test]
fn to_xml_writes_canonical_form() {
    let mut e = Element::new("a".to_string(), None, vec![]);
    e.set_attribute("k".to_string(), None, "a<b".to_string());
    e.text("x & y".to_string());
    assert_eq!(e.to_xml(), Some("<a k='a&lt;b'>x &amp; y</a>".to_string()));

    let empty = Element::new("e".to_string(), Some("urn:u".to_string()), vec![]);
    assert_eq!(empty.to_xml(), Some("<e xmlns='urn:u'/>".to_string()));

    let cd = Xml::CDATANode("raw <stuff>".to_string());
    assert_eq!(cd.to_xml(), Some("<![CDATA[raw <stuff>]]>".to_string()));
}

#[test]
fn to_xml_fails_on_unbound_prefix() {
    let mut e = Element::new("a".to_string(), None, vec![]);
    e.ns = Some("urn:other".to_string());
    // `ns` differs from `default_ns` and no prefix maps to it.
    assert_eq!(e.to_xml(), None);
}

#[test]
fn serialize_then_parse_round_trips() {
    let mut e = Element::new(
        "a".to_string(),
        Some("urn:x".to_string()),
        vec![("k".to_string(), None, "v<'&".to_string())],
    );
    let mut child = Element::new("b".to_string(), Some("urn:x".to_string()), vec![]);
    child.text("hello & <world>".to_string());
    e.tag(child);
    e.cdata("lit <>".to_string());
    e.comment("a-b".to_string());
    e.pi("pi data".to_string());

    let text = e.to_xml().expect("serializable");
    let parsed = Element::from_str(&text).expect("well-formed");
    assert_eq!(parsed, e);
}

#[test]
fn prefixed_names_serialize_with_their_prefix() {
    let mut e = Element::new("a".to_string(), None, vec![]);
    e.prefixes.push(("urn:p".to_string(), "p".to_string()));
    let mut child = Element::new("c".to_string(), None, vec![]);
    child.ns = Some("urn:p".to_string());
    child.default_ns = None;
    e.tag(child);

    let text = e.to_xml().expect("serializable");
    assert_eq!(text, "<a><p:c/></a>");
    // The serialized form names the prefix without declaring it, so
    // parsing it back stops at the unbound prefix.
    match Element::from_str(&text) {
        Err(BuilderError::Parser(err)) => assert_eq!(err.msg, "Unbound prefix"),
        other => panic!("expected an unbound prefix error, got {:?}", other),
    }
}
