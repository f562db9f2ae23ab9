use mdzk::backlinks::{
    escape_special_chars as escape_link, link_targets, set_md_extension, BacklinksHeader, Backlinks,
};
use mdzk::book::{Book, BookItem, Chapter, WikiLinks};
use mdzk::frontmatter::{apply_front_matter_with, pick_date, strip_front_matter, FrontMatterConfig};
use mdzk::preprocess::{enabled, MdzkOptions, MdzkPreprocessor};
use mdzk::readme::{convert_readme, readme_links, set_index_file_name};

fn chapter(name: &str, path: &str, content: &str) -> Chapter {
    Chapter {
        name: name.to_owned(),
        content: content.to_owned(),
        number: None,
        has_sub_items: false,
        path: Some(path.to_owned()),
        source_path: Some(path.to_owned()),
    }
}

fn contents(book: &Book) -> Vec<String> {
    book.items
        .iter()
        .filter_map(|i| match i {
            BookItem::Chapter(c) => Some(c.content.clone()),
            _ => None,
        })
        .collect()
}

#[test]
fn wikilinks_preprocessor_links_chapters() {
    let book = Book {
        items: vec![
            BookItem::Chapter(chapter("One", "one.md", "See [[Two]] and [[Nope]].")),
            BookItem::Separator,
            BookItem::Chapter(chapter("Two", "sub/two.md", "Back to [[One#Intro Part]].")),
        ],
    };
    let out = WikiLinks.run(book);
    assert_eq!(
        contents(&out),
        vec![
            "See [Two](<sub/two.md>) and <span class=\"missing-link\" style=\"color:darkred;\">Nope</span>."
                .to_owned(),
            "Back to [One](<../one.md#intro-part>).".to_owned(),
        ]
    );
    assert!(matches!(out.items[1], BookItem::Separator));
    assert_eq!(WikiLinks.name(), "wikilink-preprocessor");
}

#[test]
fn backlinks_are_listed() {
    let book = Book {
        items: vec![
            BookItem::Chapter(chapter("One", "one.md", "Link [[two]]")),
            BookItem::Chapter(chapter("Two", "two.md", "Nothing")),
        ],
    };
    let out = Backlinks.run(&BacklinksHeader::Unset, book);
    assert_eq!(
        contents(&out),
        vec!["Link [[two]]".to_owned(), "Nothing\n\n> - [One](<one.md>)\n".to_owned()]
    );
    let book = Book { items: vec![BookItem::Chapter(chapter("Solo", "s.md", "[[s]]"))] };
    let out = Backlinks.run(&BacklinksHeader::Text("Backlinks".to_owned()), book);
    assert_eq!(
        contents(&out),
        vec!["[[s]]\n\n---\n\n## Backlinks\n\n> - [Solo](<s.md>)\n".to_owned()]
    );
}

#[test]
fn backlink_link_syntax() {
    assert_eq!(link_targets("[[a]] [[b|c]] [[d"), vec!["a".to_owned(), "b".to_owned()]);
    assert_eq!(link_targets("[[x|]] [[]]"), Vec::<String>::new());
    assert_eq!(set_md_extension("note"), "note.md");
    assert_eq!(set_md_extension("dir/x.txt"), "dir/x.md");
    assert_eq!(set_md_extension("a/"), "a.md");
    assert_eq!(set_md_extension(".."), "..");
    assert_eq!(escape_link("a b<c>?"), "a%20b%3Cc%3E%3F");
}

#[test]
fn readme_pages_become_index() {
    let mut readme = chapter("Home", "README.md", "Welcome");
    convert_readme(&mut readme);
    assert_eq!(readme.path, Some("index.md".to_owned()));
    assert_eq!(readme.content, "Welcome");
    let mut other = chapter("X", "x.md", "[Home](README.md) and [Sub](<readme.markdown>)");
    convert_readme(&mut other);
    assert_eq!(other.content, "[Home](index.md) and [Sub](index.md)");
    // Only a link straight to a README page is led to the index.
    assert_eq!(readme_links("[Doc](docs/README.md)"), "[Doc](docs/README.md)");
    assert_eq!(set_index_file_name("a/Readme.md"), "a/index.md");
    assert_eq!(readme_links("[x](README.txt)"), "[x](README.txt)");
}

#[test]
fn front_matter_is_removed_and_applied() {
    assert_eq!(strip_front_matter("---\ntitle: T\n---\nBody"), "\nBody");
    assert_eq!(strip_front_matter("No front matter"), "No front matter");
    let mut ch = chapter("Old", "o.md", "---\ntitle: T\n---\nBody");
    apply_front_matter_with(
        &mut ch,
        FrontMatterConfig { title: Some("T".to_owned()), date: Some("2001".to_owned()) },
        Some("Monday".to_owned()),
    );
    assert_eq!(ch.name, "T");
    assert!(ch.content.starts_with("\nBody\n\n<div class=\"datetime\""));
    assert!(ch.content.ends_with(">Monday</div>\n\n"));
    assert_eq!(pick_date(None, None, None), "Unknown date format");
    assert_eq!(pick_date(None, Some("b".to_owned()), Some("c".to_owned())), "b");
}

#[test]
fn mdzk_preprocessor_links_and_lists_backlinks() {
    let book = Book {
        items: vec![
            BookItem::Chapter(chapter("A", "a.md", "Go to [[B]].")),
            BookItem::Chapter(chapter("B", "b.md", "Hi.")),
        ],
    };
    let opts = MdzkOptions { wikilinks: true, math: false, readme: true, front_matter: true };
    let out = MdzkPreprocessor.run(&opts, vec![None, None], book);
    assert_eq!(
        contents(&out),
        vec!["Go to [B](<b.md>).".to_owned(), "Hi.> - [A](<a.md>)\n".to_owned()]
    );
    assert_eq!(MdzkPreprocessor.name(), "mdzk");
    assert!(enabled(None));
    assert!(enabled(Some(true)));
    assert!(!enabled(Some(false)));
}

#[test]
fn mdzk_preprocessor_can_be_turned_off() {
    let book = Book { items: vec![BookItem::Chapter(chapter("A", "a.md", "Go to [[B]] $x$."))] };
    let opts = MdzkOptions { wikilinks: false, math: false, readme: false, front_matter: false };
    let out = MdzkPreprocessor.run(&opts, vec![None], book);
    assert_eq!(contents(&out), vec!["Go to [[B]] $x$.".to_owned()]);
}

#[test]
fn link_checks_find_what_cannot_be_written() {
    let good = Book {
        items: vec![
            BookItem::Chapter(chapter("One", "one.md", "See [[Two]] and [two](sub/two.md).")),
            BookItem::Chapter(chapter("Two", "sub/two.md", "Back to [[One]].")),
        ],
    };
    assert!(WikiLinks.resolvable(&good));
    assert!(Backlinks.resolvable(&good));
    let opts = MdzkOptions { wikilinks: true, math: false, readme: false, front_matter: false };
    assert!(MdzkPreprocessor.links_writable(&opts, &vec![None, None], &good));

    let mut draft = chapter("Draft", "x.md", "See [[Two]].");
    draft.path = None;
    let bad = Book {
        items: vec![
            BookItem::Chapter(draft),
            BookItem::Chapter(chapter("Two", "sub/two.md", "Nothing")),
        ],
    };
    assert!(!WikiLinks.resolvable(&bad));
    assert!(!MdzkPreprocessor.links_writable(&opts, &vec![None, None], &bad));
    let off = MdzkOptions { wikilinks: false, math: false, readme: false, front_matter: false };
    assert!(MdzkPreprocessor.links_writable(&off, &vec![None, None], &bad));

    let mixed = Book {
        items: vec![
            BookItem::Chapter(chapter("Abs", "/x/abs.md", "Nothing")),
            BookItem::Chapter(chapter("Rel", "rel.md", "See [[/x/abs]].")),
        ],
    };
    assert!(!Backlinks.resolvable(&mixed));
}

#[test]
fn dates_with_an_offset_are_shown_at_it() {
    use_date_formats();
}

fn use_date_formats() {
    assert_eq!(mdzk::frontmatter::format_date("2001-01-01T01:01:00+02:00"), "01:01 Monday 01 January 2001");
    let (cfg, shown) = mdzk::frontmatter::with_date_text(FrontMatterConfig {
        title: None,
        date: Some("1990-12-31T23:59:00-05:00".to_owned()),
    });
    assert_eq!(cfg.date.as_deref(), Some("1990-12-31T23:59:00-05:00"));
    assert_eq!(shown.as_deref(), Some("23:59 Monday 31 December 1990"));
    assert_eq!(mdzk::frontmatter::format_date("not a date"), "Unknown date format");
    assert_eq!(mdzk::frontmatter::format_date("2001-01-01"), "Unknown date format");
    assert_ne!(mdzk::frontmatter::format_date("2001-01-01T01:01:30"), "Unknown date format");
    assert_ne!(mdzk::frontmatter::format_date("2001-01-01T01:01"), "Unknown date format");
}

#[test]
fn local_dates_without_a_single_meaning_are_unknown() {
    assert_eq!(mdzk::frontmatter::local_or_unknown(None), "Unknown date format");
    assert_eq!(mdzk::frontmatter::local_or_unknown(Some("12:00".to_owned())), "12:00");
}
