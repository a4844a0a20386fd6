use xml::{escape, unescape};

#[test]
fn escape_replaces_the_five_specials() {
    assert_eq!(escape("&<>'\""), "&amp;&lt;&gt;&apos;&quot;");
    assert_eq!(escape("nothing to do"), "nothing to do");
    assert_eq!(escape("a<b & c>'d'"), "a&lt;b &amp; c&gt;&apos;d&apos;");
}

#[test]
fn unescape_resolves_named_entities() {
    assert_eq!(
        unescape("&quot;&apos;&gt;&lt;&amp;"),
        Ok("\"'><&".to_string())
    );
    assert_eq!(unescape("it&apos;s"), Ok("it's".to_string()));
}

#[test]
fn unescape_resolves_numeric_references() {
    assert_eq!(unescape("&#65;"), Ok("A".to_string()));
    assert_eq!(unescape("&#x41;"), Ok("A".to_string()));
    assert_eq!(unescape("&#x4a;&#x4A;"), Ok("JJ".to_string()));
    assert_eq!(unescape("&#228;"), Ok("\u{e4}".to_string()));
    assert_eq!(unescape("&#x1F600;"), Ok("\u{1F600}".to_string()));
}

#[test]
fn unescape_rejects_unknown_entities() {
    assert_eq!(unescape("&bogus;"), Err("&bogus;".to_string()));
    assert_eq!(unescape("a&b;c"), Err("&b;".to_string()));
}

#[test]
fn unescape_rejects_unterminated_entities() {
    assert_eq!(unescape("&amp"), Err("&amp".to_string()));
    assert_eq!(unescape("tail&"), Err("&".to_string()));
}

#[test]
fn unescape_rejects_invalid_scalars() {
    assert_eq!(unescape("&#xD800;"), Err("&#xD800;".to_string()));
    assert_eq!(unescape("&#1114112;"), Err("&#1114112;".to_string()));
    assert_eq!(unescape("&#x110000;"), Err("&#x110000;".to_string()));
    assert_eq!(unescape("&#;"), Err("&#;".to_string()));
    assert_eq!(unescape("&#x;"), Err("&#x;".to_string()));
}

#[test]
fn unescape_of_escape_is_identity() {
    let samples = [
        "",
        "plain",
        "a<b>c&d'e\"f",
        "&&&&",
        "semi;colon & <tag>",
        "unicode \u{e4}\u{1F600} mixed <&>",
    ];
    for s in samples {
        assert_eq!(unescape(&escape(s)), Ok(s.to_string()));
    }
}

#[test]
fn parse_qname_splits_at_first_colon() {
    assert_eq!(xml::parse_qname("a"), (None, "a".to_string()));
    assert_eq!(
        xml::parse_qname("p:a"),
        (Some("p".to_string()), "a".to_string())
    );
    assert_eq!(
        xml::parse_qname("p:a:b"),
        (Some("p".to_string()), "a:b".to_string())
    );
    assert_eq!(xml::parse_qname(":a"), (Some("".to_string()), "a".to_string()));
}
