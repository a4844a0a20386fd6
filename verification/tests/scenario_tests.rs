use xml::{Attribute, EndTag, Event, Parser, StartTag};

fn plain_start(name: &str) -> Event {
    Event::StartTag(StartTag {
        name: name.to_string(),
        ns: None,
        prefix: None,
        attributes: vec![],
        declared: vec![],
    })
}

fn plain_end(name: &str) -> Event {
    Event::EndTag(EndTag { name: name.to_string(), ns: None, prefix: None })
}

#[test]
fn empty_input_no_events() {
    let mut p = Parser::new();
    let events = p.feed_str("");
    assert_eq!(events.len(), 0);
}

#[test]
fn cdata_keeps_double_bracket_without_gt() {
    let mut p = Parser::new();
    let events = p.feed_str("<![CDATA[a]]b]]>");
    assert_eq!(events.len(), 1);
    assert_eq!(events[0], Ok(Event::CDATA("a]]b".to_string())));
}

#[test]
fn comment_with_lone_dash_accepted() {
    let mut p = Parser::new();
    let events = p.feed_str("<!--a-b-->");
    assert_eq!(events.len(), 1);
    assert_eq!(events[0], Ok(Event::Comment("a-b".to_string())));
}

#[test]
fn comment_with_double_dash_rejected() {
    let mut p = Parser::new();
    let events = p.feed_str("<!--a--b-->");
    assert_eq!(events.len(), 1);
    match &events[0] {
        Err(e) => {
            assert_eq!(e.line, 1);
            assert_eq!(e.col, 8);
            assert_eq!(e.msg, "Not more than one adjacent '-' allowed in a comment");
        },
        Ok(_) => panic!("expected an error"),
    }
}

#[test]
fn attribute_value_may_hold_angle_brackets() {
    let mut p = Parser::new();
    let events = p.feed_str("<a b='<>'/>");
    assert_eq!(events.len(), 2);
    assert_eq!(
        events[0],
        Ok(Event::StartTag(StartTag {
            name: "a".to_string(),
            ns: None,
            prefix: None,
            attributes: vec![Attribute {
                name: "b".to_string(),
                ns: None,
                value: "<>".to_string(),
            }],
            declared: vec![],
        }))
    );
    assert_eq!(events[1], Ok(plain_end("a")));
}

#[test]
fn attribute_value_ampersand_must_open_entity() {
    let mut p = Parser::new();
    let events = p.feed_str("<a b='&nope;'/>");
    assert_eq!(events.len(), 1);
    match &events[0] {
        Err(e) => assert_eq!(e.msg, "Found invalid entity"),
        Ok(_) => panic!("expected an error"),
    }
}

#[test]
fn lone_start_tag() {
    let mut p = Parser::new();
    let events = p.feed_str("<a>");
    assert_eq!(events, vec![Ok(plain_start("a"))]);
}

#[test]
fn lone_end_tag() {
    let mut p = Parser::new();
    let events = p.feed_str("</a>");
    assert_eq!(events, vec![Ok(plain_end("a"))]);
}

#[test]
fn processing_instruction() {
    let mut p = Parser::new();
    let events = p.feed_str("<?xml version='1.0' encoding='utf-8'?>");
    assert_eq!(
        events,
        vec![Ok(Event::PI("xml version='1.0' encoding='utf-8'".to_string()))]
    );
}

#[test]
fn comment_event() {
    let mut p = Parser::new();
    let events = p.feed_str("<!--Nothing to see-->");
    assert_eq!(events, vec![Ok(Event::Comment("Nothing to see".to_string()))]);
}

#[test]
fn cdata_event() {
    let mut p = Parser::new();
    let events = p.feed_str("<![CDATA[<m/><b>Hello</b>]]>");
    assert_eq!(events, vec![Ok(Event::CDATA("<m/><b>Hello</b>".to_string()))]);
}

#[test]
fn characters_are_unescaped() {
    let mut p = Parser::new();
    let events = p.feed_str("<text>Hello World, it&apos;s a nice day</text>");
    assert_eq!(events.len(), 3);
    assert_eq!(events[0], Ok(plain_start("text")));
    assert_eq!(
        events[1],
        Ok(Event::Characters("Hello World, it's a nice day".to_string()))
    );
    assert_eq!(events[2], Ok(plain_end("text")));
}

#[test]
fn doctype_is_skipped_silently() {
    let mut p = Parser::new();
    let events = p.feed_str("<!DOCTYPE html>");
    assert_eq!(events.len(), 0);
}

#[test]
fn bindings_across_three_chunks() {
    let mut p = Parser::new();
    let mut events = p.feed_str("<body xmlns='u1' ");
    assert_eq!(events.len(), 0);
    events = p.feed_str("xmlns:p='u2' ");
    assert_eq!(events.len(), 0);
    events = p.feed_str("p:x='1'/>");
    assert_eq!(events.len(), 2);
    assert_eq!(
        events[0],
        Ok(Event::StartTag(StartTag {
            name: "body".to_string(),
            ns: Some("u1".to_string()),
            prefix: None,
            attributes: vec![Attribute {
                name: "x".to_string(),
                ns: Some("u2".to_string()),
                value: "1".to_string(),
            }],
            declared: vec![
                ("".to_string(), "u1".to_string()),
                ("p".to_string(), "u2".to_string()),
            ],
        }))
    );
    assert_eq!(
        events[1],
        Ok(Event::EndTag(EndTag {
            name: "body".to_string(),
            ns: Some("u1".to_string()),
            prefix: None,
        }))
    );
}

#[test]
fn split_feeding_equals_one_shot() {
    let doc = "<a x='1'><b>text &amp; more</b><!--c--><![CDATA[d]]></a>";
    let mut whole = Parser::new();
    let expected = whole.feed_str(doc);
    for cut in 0..doc.len() {
        if !doc.is_char_boundary(cut) {
            continue;
        }
        let mut p = Parser::new();
        let mut events = p.feed_str(&doc[..cut]);
        events.extend(p.feed_str(&doc[cut..]));
        assert_eq!(events, expected);
    }
}

#[test]
fn namespace_frame_popped_after_balanced_element() {
    let mut p = Parser::new();
    let events = p.feed_str("<a xmlns:p='u'><p:b/></a>");
    assert_eq!(events.len(), 4);
    for e in &events {
        assert!(e.is_ok());
    }
    // The binding for `p` died with its element: using it again fails.
    let events = p.feed_str("<p:c/>");
    assert_eq!(events.len(), 1);
    match &events[0] {
        Err(e) => assert_eq!(e.msg, "Unbound prefix"),
        Ok(_) => panic!("expected an unbound prefix error"),
    }
}

#[test]
fn self_closing_tag_emits_matched_pair() {
    let mut p = Parser::new();
    let events = p.feed_str("<p:a xmlns:p='u' k='v'/>");
    assert_eq!(events.len(), 2);
    match (&events[0], &events[1]) {
        (Ok(Event::StartTag(s)), Ok(Event::EndTag(e))) => {
            assert_eq!(s.name, "a");
            assert_eq!(s.ns, Some("u".to_string()));
            assert_eq!(s.prefix, Some("p".to_string()));
            assert_eq!(e.name, s.name);
            assert_eq!(e.ns, s.ns);
            assert_eq!(e.prefix, s.prefix);
        },
        _ => panic!("expected a start tag and an end tag"),
    }
}

#[test]
fn error_position_counts_lines_and_columns() {
    let mut p = Parser::new();
    let events = p.feed_str("<a>\n</a junk>");
    // The `j` after the close-tag name's whitespace is neither space nor `>`.
    let last = events.last().unwrap();
    match last {
        Err(e) => {
            assert_eq!(e.line, 2);
            assert_eq!(e.msg, "Expected '>' to close tag, or LWS");
        },
        Ok(_) => panic!("expected an error"),
    }
}

#[test]
fn space_inside_attribute_name_rejected() {
    let mut p = Parser::new();
    let events = p.feed_str("<a b c='1'/>");
    let last = events.last().unwrap();
    match last {
        Err(e) => assert_eq!(e.msg, "Space occured in attribute name"),
        Ok(_) => panic!("expected an error"),
    }
}

#[test]
fn unquoted_attribute_value_rejected() {
    let mut p = Parser::new();
    let events = p.feed_str("<a b=1/>");
    let last = events.last().unwrap();
    match last {
        Err(e) => assert_eq!(e.msg, "Attribute value not enclosed in ' or \""),
        Ok(_) => panic!("expected an error"),
    }
}

#[test]
fn self_closing_tag_needs_gt() {
    let mut p = Parser::new();
    let events = p.feed_str("<a/x");
    let last = events.last().unwrap();
    match last {
        Err(e) => assert_eq!(e.msg, "Expected '>' to close tag"),
        Ok(_) => panic!("expected an error"),
    }
}

#[test]
fn unknown_declaration_rejected() {
    let mut p = Parser::new();
    let events = p.feed_str("<!x");
    let last = events.last().unwrap();
    match last {
        Err(e) => assert_eq!(e.msg, "Malformed XML"),
        Ok(_) => panic!("expected an error"),
    }
}

#[test]
fn bad_cdata_opening_rejected() {
    let mut p = Parser::new();
    let events = p.feed_str("<![CDAT4[x]]>");
    let last = events.last().unwrap();
    match last {
        Err(e) => assert_eq!(e.msg, "Invalid CDATA opening sequence"),
        Ok(_) => panic!("expected an error"),
    }
}

#[test]
fn comment_needs_second_dash() {
    let mut p = Parser::new();
    let events = p.feed_str("<!-x");
    let last = events.last().unwrap();
    match last {
        Err(e) => assert_eq!(e.msg, "Expected 2nd '-' to start comment"),
        Ok(_) => panic!("expected an error"),
    }
}

#[test]
fn bad_doctype_rejected() {
    let mut p = Parser::new();
    let events = p.feed_str("<!DOCTIPE html>");
    let last = events.last().unwrap();
    match last {
        Err(e) => assert_eq!(e.msg, "Invalid DOCTYPE"),
        Ok(_) => panic!("expected an error"),
    }
}

#[test]
fn unbound_tag_prefix_rejected() {
    let mut p = Parser::new();
    let events = p.feed_str("<q:a>");
    assert_eq!(events.len(), 1);
    match &events[0] {
        Err(e) => assert_eq!(e.msg, "Unbound prefix"),
        Ok(_) => panic!("expected an error"),
    }
}

#[test]
fn reserved_xml_prefix_is_always_bound() {
    let mut p = Parser::new();
    let events = p.feed_str("<a xml:lang='en'/>");
    assert_eq!(events.len(), 2);
    match &events[0] {
        Ok(Event::StartTag(s)) => {
            assert_eq!(s.attributes.len(), 1);
            assert_eq!(s.attributes[0].name, "lang");
            assert_eq!(
                s.attributes[0].ns,
                Some("http://www.w3.org/XML/1998/namespace".to_string())
            );
        },
        other => panic!("expected a start tag, got {:?}", other),
    }
}

#[test]
fn numeric_entities_in_attribute_values() {
    let mut p = Parser::new();
    let events = p.feed_str("<a b='&#65;&#x42;'/>");
    match &events[0] {
        Ok(Event::StartTag(s)) => assert_eq!(s.attributes[0].value, "AB"),
        other => panic!("expected a start tag, got {:?}", other),
    }
}

#[test]
fn pi_keeps_inner_question_marks() {
    let mut p = Parser::new();
    let events = p.feed_str("<?a?b?>");
    assert_eq!(events.len(), 1);
    assert_eq!(events[0], Ok(Event::PI("a?b".to_string())));
}
