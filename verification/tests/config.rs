use mdzk::config::{split_key, BuildConfig, MdzkConfig, StyleConfig};
use mdzk::log::{enabled, level_enabled, max_level, message_lines_of, set_max_level, threshold, Level};

#[test]
fn config_defaults() {
    let c = MdzkConfig::default();
    assert_eq!(c.src, "notes");
    assert_eq!(c.language, Some("en".to_owned()));
    assert!(!c.multilingual);
    let b = BuildConfig::default();
    assert_eq!(b.build_dir, "html");
    assert!(b.create_missing);
    assert!(!b.disable_default_preprocessors);
}

#[test]
fn dotted_keys_split_at_the_first_dot() {
    assert_eq!(split_key("a.b.c"), Some(("a".to_owned(), "b.c".to_owned())));
    assert_eq!(split_key("abc"), None);
}

#[test]
fn style_css() {
    let style = StyleConfig {
        additional_css: Some("extra.css".to_owned()),
        variables: Some(vec![("main-color".to_owned(), Some("red".to_owned())), ("n".to_owned(), None)]),
    };
    assert_eq!(
        style.css_bytes(Some("body {}".to_owned())),
        Some(":root {\n--main-color: red;\n}body {}".as_bytes().to_vec())
    );
    let none = StyleConfig { additional_css: None, variables: None };
    assert_eq!(none.css_bytes(None), None);
}

#[test]
fn log_levels_and_lines() {
    let mut store = 0;
    set_max_level(&mut store, 3);
    assert_eq!(max_level(&store), 3);
    assert!(enabled(2, max_level(&store)));
    assert!(!enabled(4, max_level(&store)));
    assert_eq!(
        message_lines_of("E", "first\nsecond\r\n"),
        vec!["E first".to_owned(), "  second".to_owned()]
    );
    assert!(message_lines_of("E", "").is_empty());
}

#[test]
fn log_kinds_follow_the_documented_levels() {
    assert_eq!(threshold(Level::Error), 1);
    assert_eq!(threshold(Level::Warning), 2);
    assert_eq!(threshold(Level::Success), 2);
    assert_eq!(threshold(Level::Info), 3);
    assert_eq!(threshold(Level::Debug), 5);
    assert!(!level_enabled(Level::Error, 0));
    assert!(level_enabled(Level::Error, 1));
    assert!(!level_enabled(Level::Info, 2));
    assert!(level_enabled(Level::Info, 3));
    assert!(!level_enabled(Level::Debug, 4));
    assert!(level_enabled(Level::Debug, 5));
}
