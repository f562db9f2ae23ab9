//! Configuration of an mdzk: its metadata and how it is built.

use vstd::prelude::*;
use crate::text::{chars_of, extend_chars, find_char, find_char_in, slice_range, string_of};

verus! {

/// Where the notes of an mdzk are, by default.
pub const SRC_DIR: &'static str = "notes";

/// Where an mdzk is built, by default.
pub const BUILD_DIR: &'static str = "html";

/// The metadata of an mdzk and what it includes.
pub struct MdzkConfig {
    /// The title of the vault.
    pub title: Option<String>,
    /// The author(s) of the vault.
    pub authors: Vec<String>,
    /// A description of the vault.
    pub description: Option<String>,
    /// The source directory of the vault, relative to the configuration file.
    pub src: String,
    /// Patterns of notes to ignore, in gitignore syntax.
    pub ignore: Vec<String>,
    /// Whether the vault is multilingual.
    pub multilingual: bool,
    /// The language of the vault.
    pub language: Option<String>,
    /// The header before the list of backlinks.
    pub backlinks_header: Option<String>,
}

impl Default for MdzkConfig {
    /// No title, authors, description or ignores, the notes in `notes`, one
    /// language, English.
    fn default() -> (r: MdzkConfig)
        ensures
            r.title is None,
            r.authors@.len() == 0,
            r.description is None,
            r.src@ == SRC_DIR@,
            r.ignore@.len() == 0,
            !r.multilingual,
            r.language matches Some(l) && l@ == "en"@,
            r.backlinks_header is None,
    {
        MdzkConfig {
            title: None,
            authors: Vec::new(),
            description: None,
            src: SRC_DIR.to_string(),
            ignore: Vec::new(),
            multilingual: false,
            language: Some("en".to_string()),
            backlinks_header: None,
        }
    }
}

/// How an mdzk is built.
pub struct BuildConfig {
    /// Where the build goes.
    pub build_dir: String,
    /// Whether missing files are created.
    pub create_missing: bool,
    /// Whether the default preprocessors are left out.
    pub disable_default_preprocessors: bool,
}

impl Default for BuildConfig {
    /// Built into `html`, missing files created, default preprocessors used.
    fn default() -> (r: BuildConfig)
        ensures
            r.build_dir@ == BUILD_DIR@,
            r.create_missing,
            !r.disable_default_preprocessors,
    {
        BuildConfig {
            build_dir: BUILD_DIR.to_string(),
            create_missing: true,
            disable_default_preprocessors: false,
        }
    }
}

/// A dotted configuration key split at its first `.`: the table and the
/// rest of the key.
pub open spec fn spec_split_key(key: Seq<char>) -> Option<(Seq<char>, Seq<char>)> {
    match find_char(key, '.') {
        Some(i) => Some((key.subrange(0, i), key.subrange(i + 1, key.len() as int))),
        None => None,
    }
}

/// Splits a dotted configuration key at its first `.`.
pub fn split_key(key: &str) -> (r: Option<(String, String)>)
    ensures
        match r {
            Some((head, tail)) => spec_split_key(key@) == Some((head@, tail@)),
            None => spec_split_key(key@) is None,
        },
{
    let k = chars_of(key);
    proof {
        crate::text::lemma_find_from_some(k@, seq!['.'], 0);
    }
    let n = k.len();
    match find_char_in(&k, '.') {
        Some(i) => {
            assert(crate::text::matches_at(k@, seq!['.'], i as int));
            assert(i < n);
            let head = slice_range(&k, 0, i);
            let tail = slice_range(&k, i + 1, k.len());
            Some((string_of(&head), string_of(&tail)))
        },
        None => None,
    }
}

/// The styling of the rendered vault: additional CSS, and CSS variables
/// (each with its value when that is a text), in the order of their names.
pub struct StyleConfig {
    pub additional_css: Option<String>,
    pub variables: Option<Vec<(String, Option<String>)>>,
}

/// The CSS declarations of `vars` that have a text value.
pub open spec fn variable_lines(vars: Seq<(String, Option<String>)>) -> Seq<char>
    decreases vars.len(),
{
    if vars.len() == 0 {
        Seq::empty()
    } else {
        variable_lines(vars.drop_last()) + match vars.last().1 {
            Some(v) => "--"@ + vars.last().0@ + ": "@ + v@ + ";\n"@,
            None => Seq::empty(),
        }
    }
}

/// The user CSS of `style`, with `additional` the additional CSS (the
/// content of the file it names, or the CSS itself); none when empty.
pub open spec fn spec_css(style: StyleConfig, additional: Option<Seq<char>>) -> Option<Seq<char>> {
    let vars = match style.variables {
        Some(vs) => ":root {\n"@ + variable_lines(vs@) + "}"@,
        None => Seq::empty(),
    };
    let css = vars + match style.additional_css {
        Some(_) => match additional {
            Some(a) => a,
            None => Seq::empty(),
        },
        None => Seq::empty(),
    };
    if css.len() == 0 {
        None
    } else {
        Some(css)
    }
}

impl StyleConfig {
    /// The user CSS, in UTF-8: a `:root` block with the variables that have
    /// text values, then the additional CSS, given as `additional` (the
    /// content of the file it names, or the CSS itself); none when that is
    /// empty.
    pub fn css_bytes(&self, additional: Option<String>) -> (r: Option<Vec<u8>>)
        ensures
            match r {
                Some(b) => spec_css(*self, crate::frontmatter::opt_text(additional)) matches Some(c)
                    && b@ == vstd::utf8::encode_utf8(c),
                None => spec_css(*self, crate::frontmatter::opt_text(additional)) is None,
            },
    {
        let mut css: Vec<char> = Vec::new();
        match &self.variables {
            Some(vs) => {
                css = chars_of(":root {\n");
                let mut k: usize = 0;
                while k < vs.len()
                    invariant
                        k <= vs@.len(),
                        css@ == ":root {\n"@ + variable_lines(vs@.subrange(0, k as int)),
                    decreases vs@.len() - k,
                {
                    proof {
                        let pre = vs@.subrange(0, k + 1);
                        assert(pre.drop_last() =~= vs@.subrange(0, k as int));
                        assert(pre.last() == vs@[k as int]);
                    }
                    let ghost before = css@;
                    match &vs[k].1 {
                        Some(v) => {
                            extend_chars(&mut css, &chars_of("--"));
                            extend_chars(&mut css, &chars_of(vs[k].0.as_str()));
                            extend_chars(&mut css, &chars_of(": "));
                            extend_chars(&mut css, &chars_of(v.as_str()));
                            extend_chars(&mut css, &chars_of(";\n"));
                            assert(css@ =~= before + ("--"@ + vs@[k as int].0@ + ": "@ + v@ + ";\n"@));
                        },
                        None => {
                            assert(css@ =~= before + Seq::<char>::empty());
                        },
                    }
                    k = k + 1;
                }
                assert(vs@.subrange(0, vs@.len() as int) =~= vs@);
                css.push('}');
                proof {
                    reveal_strlit("}");
                }
                assert(css@ =~= ":root {\n"@ + variable_lines(vs@) + "}"@);
            },
            None => {
                assert(css@ =~= Seq::<char>::empty());
            },
        }
        let ghost vars = css@;
        match &self.additional_css {
            Some(_) => match &additional {
                Some(a) => extend_chars(&mut css, &chars_of(a.as_str())),
                None => {
                    assert(css@ =~= vars + Seq::<char>::empty());
                },
            },
            None => {
                assert(css@ =~= vars + Seq::<char>::empty());
            },
        }
        if css.len() == 0 {
            None
        } else {
            Some(crate::text::utf8_bytes(string_of(&css).as_str()))
        }
    }
}

} // verus!
