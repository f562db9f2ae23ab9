use mdzk::book::{Book, BookItem, Chapter};
use mdzk::render::{fix_link, has_scheme, note_pages, render_markdown, section_label, toc_entries, HtmlMdzk, TocEntry};

fn chapter(name: &str, content: &str, number: Option<Vec<u32>>, path: Option<&str>) -> Chapter {
    Chapter {
        name: name.to_owned(),
        content: content.to_owned(),
        number,
        has_sub_items: false,
        path: path.map(|p| p.to_owned()),
        source_path: path.map(|p| p.to_owned()),
    }
}

#[test]
fn test_fix_link() {
    assert_eq!(fix_link("folder/subfolder/file.md"), "folder/subfolder/file.html");
    assert_eq!(fix_link("https://mdzk.md"), "https://mdzk.md");
    assert_eq!(fix_link("file.md#anchor"), "file.html#anchor");
}

#[test]
fn fix_link_leaves_anchors_and_other_files() {
    assert_eq!(fix_link("#section.md"), "#section.md");
    assert_eq!(fix_link("picture.png"), "picture.png");
    assert_eq!(fix_link("notes.md.bak"), "notes.md.bak");
    assert_eq!(fix_link("notes.mdx"), "notes.mdx");
    assert_eq!(fix_link("dir/.md"), "dir/.md");
    assert_eq!(fix_link("a.md#part.md"), "a.html#part.md");
    assert_eq!(fix_link("a.txt#x.md"), "a.txt#x.md");
    assert_eq!(fix_link("mailto:someone@example.md"), "mailto:someone@example.md");
    assert_eq!(fix_link("Some:thing.md"), "Some:thing.html");
}

#[test]
fn schemes_are_lowercase_words_before_a_colon() {
    assert!(has_scheme("https://example.com"));
    assert!(has_scheme("git+ssh:host"));
    assert!(!has_scheme("HTTPS://example.com"));
    assert!(!has_scheme("1http:x"));
    assert!(!has_scheme("file.md"));
    assert!(!has_scheme(":"));
    assert!(!has_scheme(""));
}

#[test]
fn section_labels_are_dotted() {
    assert_eq!(section_label(&[1, 2]), "1.2.");
    assert_eq!(section_label(&[10]), "10.");
    assert_eq!(section_label(&[]), "0");
}

#[test]
fn markdown_links_point_at_pages() {
    let html = render_markdown("See [other](dir/other.md#part) and [web](https://a.md).");
    assert!(html.contains("href=\"dir/other.html#part\""));
    assert!(html.contains("href=\"https://a.md\""));
    assert!(html.starts_with("<p>"));
}

#[test]
fn toc_has_an_entry_per_item() {
    let book = Book {
        items: vec![
            BookItem::PartTitle("Part".to_owned()),
            BookItem::Chapter(chapter("One", "", Some(vec![1]), Some("one.md"))),
            BookItem::Separator,
            BookItem::Chapter(chapter("Draft", "", None, None)),
        ],
    };
    let toc = toc_entries(&book);
    assert_eq!(toc.len(), 4);
    assert!(matches!(&toc[0], TocEntry::Part(p) if p == "Part"));
    match &toc[1] {
        TocEntry::Chapter { section, has_sub_items, name, path } => {
            assert_eq!(section.as_deref(), Some("1."));
            assert!(!has_sub_items);
            assert_eq!(name, "One");
            assert_eq!(path.as_deref(), Some("one.md"));
        }
        _ => panic!("expected a chapter"),
    }
    assert!(matches!(&toc[2], TocEntry::Spacer));
    assert!(matches!(&toc[3], TocEntry::Chapter { path: None, .. }));
}

#[test]
fn drafts_get_no_page() {
    let book = Book {
        items: vec![
            BookItem::Chapter(chapter("One", "# Hi", Some(vec![1]), Some("dir/one.md"))),
            BookItem::Chapter(chapter("Draft", "", None, None)),
        ],
    };
    let pages = note_pages(&book);
    assert_eq!(pages.len(), 1);
    assert_eq!(pages[0].title, "One");
    assert_eq!(pages[0].path, "dir/one.md");
    assert_eq!(pages[0].path_to_root, "../");
    assert_eq!(pages[0].section, Some(vec![1]));
    assert!(pages[0].content.contains("<h1>Hi</h1>"));
    assert_eq!(HtmlMdzk.name(), "mdzk");
}
