use mdzk::ser::{serialize_vault, NoteSerialized};
use mdzk::ssg::{dark_mode, html_path, index_body, index_list, index_page, site_pages, sort_entries, Config, StyleConfig};
use mdzk::time::{to_readable, to_rfc3339, DateTime, UtcOffset};
use mdzk::vault::{FrontMatter, Note, NoteId, NoteSource, Vault};

fn note(path: &str, body: &str) -> Note {
    Note::from_source(
        NoteSource {
            path: path.to_owned(),
            original_content: body.to_owned(),
            front_matter: None,
            body: body.to_owned(),
        },
        UtcOffset::utc(),
    )
}

fn dated(path: &str, body: &str, date: &str) -> Note {
    Note::from_source(
        NoteSource {
            path: path.to_owned(),
            original_content: body.to_owned(),
            front_matter: Some(FrontMatter {
                title: None,
                tags: Some(vec!["t".to_owned()]),
                date: Some(date.to_owned()),
                extra: Vec::new(),
            }),
            body: body.to_owned(),
        },
        UtcOffset::utc(),
    )
}

fn vault() -> Vault {
    Vault::from_notes(
        "root".to_owned(),
        vec![
            dated("a.md", "Link to [[b]].", "1814-05-17"),
            note("dir/b.md", "Back to [[a]]."),
            note("README.md", "Start at [[a]]."),
        ],
    )
}

#[test]
fn pages_are_named_html() {
    assert_eq!(html_path("a.md"), "a.html");
    assert_eq!(html_path("dir/b.md"), "dir/b.html");
    assert_eq!(html_path("a.tar.gz"), "a.tar.html");
    assert_eq!(html_path(".hidden"), ".hidden.html");
    assert_eq!(html_path("noext"), "noext.html");
    assert_eq!(html_path("a/b/"), "a/b.html");
    assert_eq!(html_path("dir/."), "dir.html");
    assert_eq!(html_path(".."), "..");
    assert_eq!(html_path(""), "");
}

#[test]
fn index_pages_are_readme_and_index() {
    assert!(index_page("README.html"));
    assert!(index_page("index.html"));
    assert!(index_page("dir/../README.html") == false);
    assert!(!index_page("./index.html"));
    assert!(!index_page("dir/README.html"));
    assert!(!index_page("readme.html"));
}

#[test]
fn index_lists_notes_sorted_without_the_readme() {
    let v = vault();
    let list = index_list(&v);
    assert_eq!(
        list,
        vec![("a".to_owned(), "a.html".to_owned()), ("b".to_owned(), "dir/b.html".to_owned())]
    );
    assert!(index_body(&v).contains("<a href=\"a.html\">a</a>"));
}

#[test]
fn entries_sort_by_title_then_path_components() {
    let sorted = sort_entries(vec![
        ("b".to_owned(), "x.html".to_owned()),
        ("a".to_owned(), "a-b.html".to_owned()),
        ("a".to_owned(), "a/b.html".to_owned()),
        ("B".to_owned(), "y.html".to_owned()),
    ]);
    assert_eq!(
        sorted,
        vec![
            ("B".to_owned(), "y.html".to_owned()),
            ("a".to_owned(), "a/b.html".to_owned()),
            ("a".to_owned(), "a-b.html".to_owned()),
            ("b".to_owned(), "x.html".to_owned()),
        ]
    );
}

#[test]
fn pages_list_backlinks_but_not_the_readme() {
    let v = vault();
    let pages = site_pages(&v).unwrap();
    assert_eq!(pages.len(), 2);
    assert_eq!(pages[0].title, "a");
    assert_eq!(pages[0].path, "a.html");
    assert_eq!(pages[0].backlinks, vec![("b".to_owned(), "dir/b.html".to_owned())]);
    assert_eq!(pages[0].path_to_root, "./");
    assert_eq!(pages[0].date.as_deref(), Some("17 May 1814"));
    assert_eq!(pages[1].title, "b");
    assert_eq!(pages[1].backlinks, vec![("a".to_owned(), "../a.html".to_owned())]);
    assert_eq!(pages[1].path_to_root, "../");
    assert_eq!(pages[1].date, None);
    assert!(pages[1].body.contains("href=\"../a.html\""));
}

#[test]
fn records_name_notes_by_hex_ids() {
    let v = vault();
    let records: Vec<NoteSerialized> = serialize_vault(&v);
    assert_eq!(records.len(), 3);
    let a = &records[0];
    assert_eq!(a.id, NoteId::from_path("a.md").to_hex());
    assert_eq!(a.title, "a");
    assert_eq!(a.path.as_deref(), Some("a.md"));
    assert_eq!(a.tags, vec!["t".to_owned()]);
    assert_eq!(a.date.as_deref(), Some("1814-05-17T00:00:00Z"));
    assert_eq!(a.links, vec![NoteId::from_path("dir/b.md").to_hex()]);
    assert_eq!(
        a.backlinks,
        vec![NoteId::from_path("dir/b.md").to_hex(), NoteId::from_path("README.md").to_hex()]
    );
}

#[test]
fn dates_format_readably_and_in_rfc3339() {
    let d = DateTime {
        year: 1857,
        month: 3,
        day: 8,
        hour: 7,
        minute: 20,
        second: 42,
        nanosecond: 0,
        offset_hours: 2,
        offset_minutes: 0,
        offset_seconds: 0,
    };
    assert_eq!(to_readable(&d).as_deref(), Some("8 March 1857"));
    assert_eq!(to_rfc3339(&d).as_deref(), Some("1857-03-08T07:20:42+02:00"));
    let bad = DateTime { month: 13, ..d };
    assert_eq!(to_rfc3339(&bad), None);
}

#[test]
fn site_style() {
    let mut c = Config::default();
    assert_eq!(c.title, "My vault");
    assert!(dark_mode(&c));
    c.style = Some(StyleConfig {
        dark_mode: Some(false),
        css: Some("extra.css".to_owned()),
        variables: Some(vec![("bg".to_owned(), Some("black".to_owned())), ("n".to_owned(), None)]),
    });
    assert!(!dark_mode(&c));
    assert_eq!(
        c.style.as_ref().unwrap().css_bytes(Some("p {}".to_owned())),
        Some(":root {\n--bg: black !important;\n}p {}".as_bytes().to_vec())
    );
}

#[test]
fn every_page_is_listed_on_the_index() {
    let v = vault();
    let mut from_pages: Vec<(String, String)> =
        site_pages(&v).unwrap().into_iter().map(|p| (p.title, p.path)).collect();
    from_pages.sort();
    assert_eq!(index_list(&v), from_pages);
}

#[test]
fn records_keep_extra_front_matter_fields() {
    let n = Note::from_source(
        NoteSource {
            path: "x.md".to_owned(),
            original_content: String::new(),
            front_matter: Some(FrontMatter {
                title: Some("X".to_owned()),
                tags: None,
                date: None,
                extra: vec![("rating".to_owned(), serde_json::Value::from(5))],
            }),
            body: String::new(),
        },
        UtcOffset::utc(),
    );
    let r = NoteSerialized::new("1f".to_owned(), &n, vec!["2a".to_owned()]);
    assert_eq!(r.id, "1f");
    assert_eq!(r.title, "X");
    assert_eq!(r.extra.len(), 1);
    assert_eq!(r.extra[0].0, "rating");
    assert_eq!(r.extra[0].1, serde_json::Value::from(5));
    assert_eq!(r.backlinks, vec!["2a".to_owned()]);
    assert!(r.links.is_empty());
    assert_eq!(r.date, None);
}
