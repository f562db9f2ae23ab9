use mdzk::blockref::{blockref_id, is_id_friendly, wrap_blocks};

#[test]
fn test_id_friendly() {
    assert!(is_id_friendly('a'));
    assert!(is_id_friendly('Z'));
    assert!(is_id_friendly('7'));
    assert!(is_id_friendly('-'));
    assert!(!is_id_friendly('%'));
    assert!(!is_id_friendly('å'));
}

#[test]
fn find_id() {
    let cases = vec![
        ("This is text with blockref at end ^1234fe", Some("1234fe".to_owned())),
        ("This is text with invalid blockref at end [^fn]...", None),
    ];

    for (from, want) in cases.iter() {
        assert_eq!(want, &blockref_id(from));
    }
}

#[test]
fn blockref_is_the_last_seven_characters() {
    assert_eq!(blockref_id("^abcdef"), Some("abcdef".to_owned()));
    assert_eq!(blockref_id("é text ^abcdef"), Some("abcdef".to_owned()));
    assert_eq!(blockref_id("^abcde"), None);
    assert_eq!(blockref_id("x^abcdefg"), None);
    assert_eq!(blockref_id("x^abcdef"), Some("abcdef".to_owned()));
    assert_eq!(blockref_id("x^abc_e-"), Some("abc_e-".to_owned()));
    assert_eq!(blockref_id("x^abc ef"), None);
}

#[test]
fn wrap_blocks_wraps_referenced_paragraphs() {
    let mut content = "First paragraph ^abc123\n\nSecond paragraph".to_owned();
    wrap_blocks(&mut content);
    assert_eq!(
        content,
        "<div id=\"abc123\">First paragraph </div>\n\nSecond paragraph"
    );

    let mut plain = "Nothing here\n\nat all".to_owned();
    wrap_blocks(&mut plain);
    assert_eq!(plain, "Nothing here\n\nat all");
}
