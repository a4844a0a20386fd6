#![allow(non_snake_case)]

use xml::{Attribute, EndTag, Event, Parser, StartTag};

fn start_tag(name: &str, ns: Option<&str>, prefix: Option<&str>) -> StartTag {
    StartTag {
        name: name.to_string(),
        ns: ns.map(|s| s.to_string()),
        prefix: prefix.map(|s| s.to_string()),
        attributes: vec![],
        declared: vec![],
    }
}

#[test]
fn test_start_tag() {
    let mut p = Parser::new();
    let events = p.feed_str("<a>");
    assert_eq!(events.len(), 1);
    assert_eq!(events[0], Ok(Event::StartTag(start_tag("a", None, None))));
}

#[test]
fn test_end_tag() {
    let mut p = Parser::new();
    let events = p.feed_str("</a>");
    assert_eq!(events.len(), 1);
    assert_eq!(
        events[0],
        Ok(Event::EndTag(EndTag { name: "a".to_string(), ns: None, prefix: None }))
    );
}

#[test]
fn test_PI() {
    let mut p = Parser::new();
    let events = p.feed_str("<?xml version='1.0' encoding='utf-8'?>");
    assert_eq!(events.len(), 1);
    assert_eq!(
        events[0],
        Ok(Event::PI("xml version='1.0' encoding='utf-8'".to_string()))
    );
}

#[test]
fn test_comment() {
    let mut p = Parser::new();
    let events = p.feed_str("<!--Nothing to see-->");
    assert_eq!(events.len(), 1);
    assert_eq!(events[0], Ok(Event::Comment("Nothing to see".to_string())));
}

#[test]
fn test_CDATA() {
    let mut p = Parser::new();
    let events = p.feed_str(
        "<![CDATA[<message to='florob@babelmonkeys.de' type='chat'><body>Hello</body></message>]]>",
    );
    assert_eq!(events.len(), 1);
    assert_eq!(
        events[0],
        Ok(Event::CDATA(
            "<message to='florob@babelmonkeys.de' type='chat'><body>Hello</body></message>"
                .to_string()
        ))
    );
}

#[test]
fn test_characters() {
    let mut p = Parser::new();
    let events = p.feed_str("<text>Hello World, it&apos;s a nice day</text>");
    assert_eq!(events.len(), 3);
    assert_eq!(
        events[1],
        Ok(Event::Characters("Hello World, it's a nice day".to_string()))
    );
}

#[test]
fn test_doctype() {
    let mut p = Parser::new();
    let events = p.feed_str("<!DOCTYPE html>");
    assert_eq!(events.len(), 0);
}
