use mdzk::text::escape_special_chars;
use mdzk::wikilink::{parse_link, Anchor, LinkError, PathIndex, WikiLink};

#[test]
fn escapel_special_chars() {
    assert_eq!(
        escape_special_chars("w3ir∂ førmättÎñg"),
        "w3ir%E2%88%82%20f%C3%B8rm%C3%A4tt%C3%8E%C3%B1g"
    )
}

#[test]
fn escape_keeps_safe_and_entities() {
    assert_eq!(escape_special_chars("a/b-c_d.e~f"), "a/b-c_d.e~f");
    assert_eq!(escape_special_chars("a&b'c"), "a&amp;b&#x27;c");
    assert_eq!(escape_special_chars("<x>[y]"), "%3Cx%3E%5By%5D");
}

#[test]
fn wikilinks_test_parse_link() {
    let cases = vec![
        (
            WikiLink {
                path: Some("This is note".to_owned()),
                title: "Some alias".to_owned(),
                anchor: Anchor::Absent,
            },
            "This is note|Some alias",
        ),
        (
            WikiLink {
                path: Some("Tïtlæ fôr nøte".to_owned()),
                title: "Tïtlæ fôr nøte".to_owned(),
                anchor: Anchor::Blockref("id1234".to_owned()),
            },
            "Tïtlæ fôr nøte#^id1234",
        ),
        (
            WikiLink {
                path: Some("🔈 Music".to_owned()),
                title: "🔈 Music".to_owned(),
                anchor: Anchor::Header("header-with-spaces".to_owned()),
            },
            "🔈 Music#Header with spaces",
        ),
    ];
    for (want, from) in cases {
        assert_eq!(want, WikiLink::from(from).unwrap());
    }
}

#[test]
fn wikilinks_test_cmark_link() {
    let mut index = PathIndex::new();
    index.insert("This is note", "This is note.md".to_owned());
    index.insert("Tïtlæ fôr nøte", "Tïtlæ fôr nøte.md".to_owned());

    let cases = vec![
        (
            "[Some alias](<../../This%20is%20note.md>)",
            WikiLink::from_with_index("This is note|Some alias", &index).unwrap(),
        ),
        (
            "[Tïtlæ fôr nøte](<../../T%C3%AFtl%C3%A6%20f%C3%B4r%20n%C3%B8te.md#id1234>)",
            WikiLink::from_with_index("Tïtlæ fôr nøte#id1234", &index).unwrap(),
        ),
        (
            "<span class=\"missing-link\" style=\"color:darkred;\">This is missing note</span>",
            WikiLink::from_with_index("Missing note#header | This is missing note", &index)
                .unwrap(),
        ),
    ];

    for (want, from) in cases {
        assert_eq!(want, from.cmark("sub/subsub"))
    }
}

#[test]
fn parse_link_trims_parts() {
    let p = parse_link("  link#header | more complex ").unwrap();
    assert_eq!(p.note, "link");
    assert_eq!(p.anchor, Anchor::Header("header".to_owned()));
    assert_eq!(p.alias, Some("more complex".to_owned()));

    let p = parse_link("note # ^ abc").unwrap();
    assert_eq!(p.anchor, Anchor::Blockref("abc".to_owned()));
    assert_eq!(p.alias, None);
}

#[test]
fn parse_link_errors() {
    assert_eq!(parse_link("  ").unwrap_err(), LinkError::EmptyDestination);
    assert_eq!(parse_link("#header").unwrap_err(), LinkError::EmptyDestination);
    assert_eq!(parse_link("note#").unwrap_err(), LinkError::EmptyAnchor);
    assert_eq!(parse_link("note#^ ").unwrap_err(), LinkError::EmptyAnchor);
    assert_eq!(parse_link("note| ").unwrap_err(), LinkError::EmptyAlias);
}

#[test]
fn index_later_entries_win() {
    let mut index = PathIndex::new();
    assert!(index.is_empty());
    index.insert("a", "one.md".to_owned());
    index.insert("a", "two.md".to_owned());
    assert!(!index.is_empty());
    assert_eq!(index.get(&['a']), Some(&"two.md".to_owned()));
    assert_eq!(index.get(&['b']), None);
}
