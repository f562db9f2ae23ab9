use mdzk::book::{Book, BookItem, Chapter};
use mdzk::builder::{Error, VaultBuilder};
use mdzk::frontmatter::{FrontMatter, FrontMatterConfig};
use mdzk::preprocess::{backlinks_header, insert_backlinks, prefix};
use mdzk::time::UtcOffset;
use mdzk::vault::{FrontMatter as NoteFrontMatter, Note, NoteSource};
use mdzk::watch::{event_paths, remove_ignored_files, summary_file, FsEvent};

fn chapter(name: &str, path: Option<&str>, content: &str) -> Chapter {
    Chapter {
        name: name.to_owned(),
        content: content.to_owned(),
        number: None,
        has_sub_items: false,
        path: path.map(|p| p.to_owned()),
        source_path: path.map(|p| p.to_owned()),
    }
}

#[test]
fn test_ignores() {
    let ignores = vec!["ignore-this-dir", "also-ignore-this", "!dont-ignore-this-dir"];

    let _ = VaultBuilder::default().ignores(ignores);
}

#[test]
fn ignores_turn_into_override_lines() {
    let b = VaultBuilder::default()
        .source("notes")
        .ignores(vec!["draft-*", "!keep-this"]);
    assert_eq!(b.source_dir(), "notes");
    assert_eq!(b.overrides(), &vec!["!draft-*".to_owned(), "keep-this".to_owned()]);
}

#[test]
fn invalid_ignore_patterns_are_refused() {
    let mut b = VaultBuilder::default();
    match b.add_ignore("a{b") {
        Err(Error::IgnorePatternError(p)) => assert_eq!(p, "a{b"),
        _ => panic!("the pattern should be refused"),
    }
    assert!(b.overrides().is_empty());
    assert!(b.add_ignore("*.tmp").is_ok());
    assert_eq!(b.overrides(), &vec!["!*.tmp".to_owned()]);
    match VaultBuilder::default().try_ignores(vec!["ok", "a{b"]) {
        Err(Error::IgnorePatternError(p)) => assert_eq!(p, "a{b"),
        _ => panic!("the pattern should be refused"),
    }
    assert!(VaultBuilder::default().try_ignores(vec!["ok"]).is_ok());
}

#[test]
fn front_matter_preprocessor_applies_configs() {
    let book = Book {
        items: vec![
            BookItem::Chapter(chapter("old", Some("a.md"), "---\ntitle: New\n---\nBody")),
            BookItem::Separator,
            BookItem::Chapter(chapter("keep", Some("b.md"), "Text")),
        ],
    };
    let configs = vec![Some(FrontMatterConfig { title: Some("New".to_owned()), date: None }), None];
    let out = FrontMatter.run(configs, book);
    assert_eq!(FrontMatter.name(), "front_matter");
    match &out.items[0] {
        BookItem::Chapter(c) => {
            assert_eq!(c.name, "New");
            assert_eq!(c.content, "\nBody");
        }
        _ => panic!("expected a chapter"),
    }
    assert!(matches!(out.items[1], BookItem::Separator));
    match &out.items[2] {
        BookItem::Chapter(c) => {
            assert_eq!(c.name, "keep");
            assert_eq!(c.content, "Text");
        }
        _ => panic!("expected a chapter"),
    }
}

#[test]
fn backlink_prefixes_and_headers() {
    assert_eq!(prefix(None), "\n\n---\n\n");
    assert_eq!(prefix(Some("Backlinks".to_owned())), "\n\n---\n\n## Backlinks\n\n");
    assert_eq!(backlinks_header(None), "");
    assert_eq!(
        backlinks_header(Some("Backlinks".to_owned())),
        "### Backlinks {.backlinks-header}"
    );
}

#[test]
fn backlinks_are_inserted_relative_to_the_chapter() {
    let map = vec![
        ("other.md".to_owned(), Vec::new()),
        (
            "dir/./note.md".to_owned(),
            vec![("a.md".to_owned(), "A".to_owned()), ("dir/sub/b.md".to_owned(), "B".to_owned())],
        ),
    ];
    let mut ch = chapter("Note", Some("dir/note.md"), "Body");
    insert_backlinks(&mut ch, &map, "\n\n---\n\n");
    assert_eq!(ch.content, "Body\n\n---\n\n\n> - [A](<../a.md>)\n> - [B](<sub/b.md>)");
    let mut lonely = chapter("Other", Some("other.md"), "Body");
    insert_backlinks(&mut lonely, &map, "PRE");
    assert_eq!(lonely.content, "Body");
    let mut draft = chapter("Draft", None, "Body");
    insert_backlinks(&mut draft, &map, "PRE");
    assert_eq!(draft.content, "Body");
}

#[test]
fn front_matter_updates_a_note() {
    let mut n = Note::from_source(
        NoteSource {
            path: "dir/n.md".to_owned(),
            original_content: "x".to_owned(),
            front_matter: None,
            body: "x".to_owned(),
        },
        UtcOffset::utc(),
    );
    n.process_front_matter(
        Some(NoteFrontMatter {
            title: Some("Titled".to_owned()),
            tags: None,
            date: Some("1814-05-17".to_owned()),
            extra: Vec::new(),
        }),
        "body".to_owned(),
        UtcOffset::utc(),
    );
    assert_eq!(n.title, "Titled");
    assert!(n.tags.is_empty());
    assert_eq!(n.date.map(|d| (d.year, d.month, d.day)), Some((1814, 5, 17)));
    assert_eq!(n.content, "body");
    n.process_front_matter(None, "again".to_owned(), UtcOffset::utc());
    assert_eq!(n.title, "Titled");
    assert_eq!(n.content, "again");
}

#[test]
fn rebuilds_follow_changed_files_but_not_summaries() {
    let events = vec![
        FsEvent::Create("notes/a.md".to_owned()),
        FsEvent::Other,
        FsEvent::Rename("notes/old.md".to_owned(), "notes/new.md".to_owned()),
        FsEvent::Write("notes/SUMMARY.md".to_owned()),
        FsEvent::Remove("notes/tmp.md".to_owned()),
    ];
    let paths = event_paths(&events);
    assert_eq!(
        paths,
        vec!["notes/a.md", "notes/new.md", "notes/SUMMARY.md", "notes/tmp.md"]
            .into_iter()
            .map(String::from)
            .collect::<Vec<_>>()
    );
    let kept = remove_ignored_files(&paths, &vec![false, false, false, true]);
    assert_eq!(kept, vec!["notes/a.md".to_owned(), "notes/new.md".to_owned()]);
    assert!(summary_file("SUMMARY.md"));
    assert!(!summary_file("summary.md"));
    assert!(!summary_file("SUMMARY.md/.."));
}
