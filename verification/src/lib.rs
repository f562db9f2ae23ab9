//! mdzk: the verified core of a plain-text Zettelkasten tool.
//!
//! Notes are Markdown files that refer to each other with wikilinks
//! (`[[Note title#header|alias]]`).  This crate holds the logic that finds,
//! parses and rewrites those links, computes relative paths between notes,
//! builds the note graph and prepares note content for publishing.

pub mod backlinks;
pub mod blockref;
pub mod builder;
pub mod book;
pub mod config;
pub mod context;
pub mod frontmatter;
pub mod katex;
pub mod log;
pub mod markdown;
pub mod path;
pub mod preprocess;
pub mod readme;
pub mod render;
pub mod ser;
pub mod ssg;
pub mod text;
pub mod time;
pub mod vault;
pub mod watch;
pub mod wikilink;

