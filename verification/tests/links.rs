use mdzk::markdown::{for_each_internal_link, for_each_wikilink};
use mdzk::wikilink::{Anchor, InternalLink};

fn wikilink_texts(content: &str) -> Vec<String> {
    for_each_wikilink(content).into_iter().map(|(text, _)| text).collect()
}

const FOUR_LINKS: &str = r#"This is a note with four links:

This one [[link]], this one [[ link#header ]], this one [[   link | a bit more complex]], and this one [[     link#header | more 😭 complex]].

> This is a [[link in a blockquote]]

- List item
- Second list item with [[list link]]

| Header 1 | Header 2 |
| -------- | -------- |
| Tables can also have [[table links]] | more stuff |"#;

const SEVEN_WANTS: [&str; 7] = [
    "link",
    "link#header",
    "link | a bit more complex",
    "link#header | more 😭 complex",
    "link in a blockquote",
    "list link",
    "table links",
];

const NON_LINKS_WITH_MATH: &str = r#"Here are some non-correct links:

First a link [[with
newline]]

Then a link `inside [[inline code]]`, or inside <span class="katex-inline">inline [[math]]</span>. What about \[\[escaped brackets\]\]?

<div class="katex-display">
    f(x) = \text{[[display link]]}
</div>

```rust
let link = "[[link_in_code]]".to_owned();
```

<p>
  This is some raw HTML. We don't want [[html links]] detected here.
</p>"#;

#[test]
fn lib_detect_these() {
    assert_eq!(for_each_internal_link(FOUR_LINKS), SEVEN_WANTS.to_vec());
}

#[test]
fn lib_dont_detect_these() {
    let links = for_each_internal_link(NON_LINKS_WITH_MATH);
    assert!(links.is_empty(), "Got links: {:?}", links);
}

#[test]
fn wikilinks_detect_these() {
    assert_eq!(for_each_internal_link(FOUR_LINKS), SEVEN_WANTS.to_vec());
}

#[test]
fn wikilinks_dont_detect_these() {
    let links = for_each_internal_link(NON_LINKS_WITH_MATH);
    assert!(links.is_empty(), "Got links: {:?}", links);
}

#[test]
fn link_detect_these() {
    let content = r#"This is a note with four links:
This one [[link]], this one [[ link#header ]], this one [[   link | a bit more complex]], and this one [[     link#header | more 😭 complex]].
> This is a [[link in a blockquote]]
- List item
- Second list item with [[list link]]
| Header 1 | Header 2 |
| -------- | -------- |
| Tables can also have [[table links]] | more stuff |"#;
    assert_eq!(for_each_internal_link(content), SEVEN_WANTS.to_vec());
}

#[test]
fn link_dont_detect_these() {
    let content = r#"Here are some non-correct links:
First a link [[with
newline]]
Then a link `inside [[inline code]]`, or inside <span class="katex-inline">inline [[math]]</span>. What about \[\[escaped brackets\]\]?
<div class="katex-display">
    f(x) = \text{[[display link]]}
</div>
```rust
let link = "[[link_in_code]]".to_owned();
```
<p>
  This is some raw HTML. We don't want [[html links]] detected here.
</p>"#;
    let links = for_each_internal_link(content);
    assert!(links.is_empty(), "Got links: {:?}", links);
}

const NINE_LINKS: &str = r#"This is a note with four links:

This one [[link]], this one [[ link#header ]], this one [[   link | a bit more complex]], and this one [[     link#header | more 😭 complex]].

> This is a [[link in a blockquote]]

- List item
- Second list item with [[list link]]

| Header 1 | Header 2 |
| -------- | -------- |
| Tables can also have [[table links]] | more stuff |

Check if [[link with (parentheses) work as well]]. What [[about {curly braces}?]]"#;

const NINE_WANTS: [&str; 9] = [
    "link",
    "link#header",
    "link | a bit more complex",
    "link#header | more 😭 complex",
    "link in a blockquote",
    "list link",
    "table links",
    "link with (parentheses) work as well",
    "about {curly braces}?",
];

const NON_LINKS: &str = r#"Here are some non-correct links:
First a link [[with
newline]]
Then a link `inside [[inline code]]`, or inside. What about \[\[escaped brackets\]\]?

```rust
let link = "[[link_in_code]]".to_owned();
```
<p>
  This is some raw HTML. We don't want [[html links]] detected here.
</p>"#;

#[test]
fn mod_detect_these() {
    let gots = wikilink_texts(NINE_LINKS);
    for (got, want) in gots.iter().zip(NINE_WANTS.iter()) {
        assert_eq!(got, want);
    }
    assert_eq!(gots.len(), NINE_WANTS.len());
}

#[test]
fn mod_dont_detect_these() {
    let links = wikilink_texts(NON_LINKS);
    assert!(links.is_empty(), "Got links: {:?}", links);
}

#[test]
fn note_link_detect_these() {
    let gots = wikilink_texts(NINE_LINKS);
    assert_eq!(gots, NINE_WANTS.to_vec());
}

#[test]
fn note_link_dont_detect_these() {
    let links = wikilink_texts(NON_LINKS);
    assert!(links.is_empty(), "Got links: {:?}", links);
}

#[test]
fn wikilink_ranges_are_closing_brackets() {
    let content = "See [[a]] and [[b|B]].";
    let found = for_each_wikilink(content);
    assert_eq!(found.len(), 2);
    assert_eq!(found[0].0, "a");
    assert_eq!(found[1].0, "b|B");
    assert_eq!(&content[found[0].1.clone()], "]");
    assert_eq!(&content[found[1].1.clone()], "]");
    assert!(found[0].1.start < found[1].1.start);
}

#[test]
fn links_in_links_and_images_are_ignored() {
    assert!(wikilink_texts("[text [[inner]]](url) ![alt [[img]]](pic.png)").is_empty());
    assert_eq!(wikilink_texts("[[outer]] [x](y)"), vec!["outer"]);
}

#[test]
fn link_test_parse_link() {
    let cases = vec![
        (
            InternalLink {
                dest_title: "This is note".to_owned(),
                dest_path: None,
                link_text: "Some alias".to_owned(),
                anchor: Anchor::Absent,
            },
            "This is note|Some alias",
        ),
        (
            InternalLink {
                dest_title: "Tïtlæ fôr nøte".to_owned(),
                dest_path: None,
                link_text: "Tïtlæ fôr nøte".to_owned(),
                anchor: Anchor::Blockref("id1234".to_owned()),
            },
            "Tïtlæ fôr nøte#^id1234",
        ),
        (
            InternalLink {
                dest_title: "🔈 Music".to_owned(),
                dest_path: None,
                link_text: "🔈 Music".to_owned(),
                anchor: Anchor::Header("header-with-spaces".to_owned()),
            },
            "🔈 Music#Header with spaces",
        ),
    ];
    for (want, from) in cases {
        assert_eq!(want, InternalLink::from(from).unwrap());
    }
}

#[test]
fn link_test_cmark_link() {
    let cases = vec![
        (
            "[Some alias](../../This%20is%20note.md)",
            InternalLink::from("This is note|Some alias").unwrap(),
        ),
        (
            "[Tïtlæ fôr nøte](../../T%C3%AFtl%C3%A6%20f%C3%B4r%20n%C3%B8te.md#id1234)",
            InternalLink::from("Tïtlæ fôr nøte#id1234").unwrap(),
        ),
    ];

    for (want, mut from) in cases {
        from.dest_path = Some(format!("{}.md", from.dest_title));
        assert_eq!(want, from.cmark("sub/subsub"))
    }
}

#[test]
fn internal_link_without_path_uses_title() {
    let link = InternalLink::from("My note#Some Header").unwrap();
    assert_eq!(link.cmark("any/dir"), "[My note](My%20note#some-header)");
}
