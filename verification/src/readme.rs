//! `README.md` pages become `index.md`, and links to a `README` page lead to
//! `index.md`.

use vstd::prelude::*;
use crate::backlinks::{name_end, name_start};
use crate::book::Chapter;
use crate::path::{is_readme_file, spec_is_readme_file};
use crate::text::{chars_of, extend_chars, slice_range, string_of};

verus! {

/// Whether `c` matches the lowercase ASCII letter `l` without regard to
/// case: `l` itself, its capital, or the Kelvin sign for `k` (the simple
/// case folding that case-insensitive regular expressions apply).
pub open spec fn ci_char(c: char, l: char) -> bool {
    c == l || ('A' <= c && c <= 'Z' && (c as u32) + 32 == (l as u32)) || (l == 'k' && c
        == '\u{212A}')
}

/// Whether `word` (lowercase ASCII) occurs at `i` in `s` without regard to case.
pub open spec fn ci_at(s: Seq<char>, i: int, word: Seq<char>) -> bool {
    0 <= i && i + word.len() <= s.len() && forall|j: int|
        0 <= j < word.len() ==> ci_char(#[trigger] s[i + j], word[j])
}

/// The end of the link destination part `](<README.md>)` that starts at `q`,
/// if one does: `](`, an optional `<`, `readme` and `.md` or `.markdown` in
/// any case, an optional `>` and `)`.
pub open spec fn readme_tail_at(s: Seq<char>, q: int) -> Option<int> {
    if 0 <= q && q + 2 <= s.len() && s[q] == ']' && s[q + 1] == '(' {
        let r = if q + 2 < s.len() && s[q + 2] == '<' {
            q + 3
        } else {
            q + 2
        };
        if ci_at(s, r, "readme"@) {
            let x = r + 6;
            let y = if ci_at(s, x, ".md"@) {
                x + 3
            } else if ci_at(s, x, ".markdown"@) {
                x + 9
            } else {
                -1
            };
            if y < 0 {
                None
            } else {
                let z = if y < s.len() && s[y] == '>' {
                    y + 1
                } else {
                    y
                };
                if z < s.len() && s[z] == ')' {
                    Some(z + 1)
                } else {
                    None
                }
            }
        } else {
            None
        }
    } else {
        None
    }
}

/// The shortest link text from `q` on of a link to `README` opened at an
/// earlier `[`: the end of the text and of the link.
pub open spec fn readme_match_from(s: Seq<char>, q: int) -> Option<(int, int)>
    decreases s.len() - q,
{
    if q < 0 || q > s.len() {
        None
    } else {
        match readme_tail_at(s, q) {
            Some(e) => Some((q, e)),
            None => if q < s.len() && s[q] != '\n' {
                readme_match_from(s, q + 1)
            } else {
                None
            },
        }
    }
}

/// The link to `README` that starts at `p`, if one does.
pub open spec fn readme_match_at(s: Seq<char>, p: int) -> Option<(int, int)> {
    if 0 <= p < s.len() && s[p] == '[' {
        readme_match_from(s, p + 1)
    } else {
        None
    }
}

/// `s` from `pos` on with every link to `README` (found from the left,
/// without overlapping) turned into a link to `index.md` with the same text.
pub open spec fn readme_links_from(s: Seq<char>, pos: int) -> Seq<char>
    decreases s.len() - pos,
{
    if pos < 0 || pos >= s.len() {
        Seq::empty()
    } else {
        match readme_match_at(s, pos) {
            Some((q, e)) => if pos < q && q <= e && e <= s.len() {
                seq!['['] + s.subrange(pos + 1, q) + "](index.md)"@ + readme_links_from(s, e)
            } else {
                Seq::empty()
            },
            None => seq![s[pos]] + readme_links_from(s, pos + 1),
        }
    }
}

proof fn lemma_match_from_bounds(s: Seq<char>, q: int)
    ensures
        readme_match_from(s, q) matches Some((a, e)) ==> q <= a && a + 2 < e <= s.len(),
    decreases s.len() - q,
{
    if 0 <= q <= s.len() && readme_tail_at(s, q) is None && q < s.len() && s[q] != '\n' {
        lemma_match_from_bounds(s, q + 1);
    }
}

fn ci_char_exec(c: char, l: char) -> (b: bool)
    ensures
        b == ci_char(c, l),
{
    c == l || ('A' <= c && c <= 'Z' && (c as u32) + 32 == (l as u32)) || (l == 'k' && c
        == '\u{212A}')
}

fn ci_at_exec(s: &[char], i: usize, word: &[char]) -> (b: bool)
    ensures
        b == ci_at(s@, i as int, word@),
{
    if i > s.len() || word.len() > s.len() - i {
        return false;
    }
    let n = s.len();
    let mut j: usize = 0;
    while j < word.len()
        invariant
            n == s@.len(),
            i + word@.len() <= s@.len(),
            j <= word@.len(),
            forall|t: int| 0 <= t < j ==> ci_char(#[trigger] s@[i + t], word@[t]),
        decreases word@.len() - j,
    {
        assert(i + j < n);
        if !ci_char_exec(s[i + j], word[j]) {
            return false;
        }
        j = j + 1;
    }
    true
}

fn tail_at(s: &[char], q: usize) -> (r: Option<usize>)
    ensures
        match r {
            Some(e) => readme_tail_at(s@, q as int) == Some(e as int),
            None => readme_tail_at(s@, q as int) is None,
        },
{
    if q > s.len() || s.len() - q < 2 || s[q] != ']' || s[q + 1] != '(' {
        return None;
    }
    let r = if s.len() - q > 2 && s[q + 2] == '<' {
        q + 3
    } else {
        q + 2
    };
    proof {
        reveal_strlit("readme");
        reveal_strlit(".md");
        reveal_strlit(".markdown");
    }
    let readme = chars_of("readme");
    if !ci_at_exec(s, r, &readme) {
        return None;
    }
    let x = r + 6;
    let md = chars_of(".md");
    let markdown = chars_of(".markdown");
    let y = if ci_at_exec(s, x, &md) {
        x + 3
    } else if ci_at_exec(s, x, &markdown) {
        x + 9
    } else {
        return None;
    };
    let z = if y < s.len() && s[y] == '>' {
        y + 1
    } else {
        y
    };
    if z < s.len() && s[z] == ')' {
        Some(z + 1)
    } else {
        None
    }
}

fn match_at(s: &[char], p: usize) -> (r: Option<(usize, usize)>)
    requires
        p < s@.len(),
    ensures
        match r {
            Some((a, e)) => readme_match_at(s@, p as int) == Some((a as int, e as int)),
            None => readme_match_at(s@, p as int) is None,
        },
{
    if s[p] != '[' {
        return None;
    }
    let mut q = p + 1;
    while q <= s.len()
        invariant
            p < q <= s@.len() + 1,
            q <= s@.len() ==> readme_match_at(s@, p as int) == readme_match_from(s@, q as int),
            q > s@.len() ==> readme_match_at(s@, p as int) is None,
        decreases s@.len() + 1 - q,
    {
        match tail_at(s, q) {
            Some(e) => {
                return Some((q, e));
            },
            None => {
                if q < s.len() && s[q] != '\n' {
                    q = q + 1;
                } else {
                    return None;
                }
            },
        }
    }
    None
}

/// `content` with every Markdown link to a `README` page (`[text](README.md)`,
/// in any case, `.md` or `.markdown`, with or without `<>`) led to `index.md`.
pub open spec fn spec_readme_links(content: Seq<char>) -> Seq<char> {
    readme_links_from(content, 0)
}

/// `content` with every Markdown link to a `README` page led to `index.md`.
pub fn readme_links(content: &str) -> (r: String)
    ensures
        r@ == spec_readme_links(content@),
{
    let s = chars_of(content);
    let mut out: Vec<char> = Vec::new();
    let mut pos: usize = 0;
    while pos < s.len()
        invariant
            pos <= s@.len(),
            s@ == content@,
            out@ + readme_links_from(s@, pos as int) == readme_links_from(s@, 0),
        decreases s@.len() - pos,
    {
        let ghost before = out@;
        match match_at(&s, pos) {
            Some((q, e)) => {
                proof {
                    lemma_match_from_bounds(s@, pos + 1);
                }
                out.push('[');
                extend_chars(&mut out, &slice_range(&s, pos + 1, q));
                extend_chars(&mut out, &chars_of("](index.md)"));
                assert(out@ + readme_links_from(s@, e as int) =~= before + readme_links_from(
                    s@,
                    pos as int,
                ));
                pos = e;
            },
            None => {
                out.push(s[pos]);
                assert(out@ + readme_links_from(s@, pos + 1) =~= before + readme_links_from(
                    s@,
                    pos as int,
                ));
                pos = pos + 1;
            },
        }
    }
    assert(readme_links_from(s@, pos as int) =~= Seq::<char>::empty());
    assert(out@ =~= readme_links_from(s@, 0));
    string_of(&out)
}

/// How much of a path comes before its first component that can be taken
/// away: its root `/`, or a leading `.`.
pub open spec fn body_start(s: Seq<char>) -> int {
    if s.len() > 0 && s[0] == '/' {
        1
    } else if s.len() > 0 && s[0] == '.' && (s.len() == 1 || s[1] == '/') {
        1
    } else {
        0
    }
}

/// The end of `s[..e]` once trailing `/` and `.` segments are taken away,
/// not below `floor`.
pub open spec fn trim_back(s: Seq<char>, e: int, floor: int) -> int
    decreases e,
{
    if e <= floor || e <= 0 || e > s.len() {
        e
    } else if s[e - 1] == '/' {
        trim_back(s, e - 1, floor)
    } else if s[e - 1] == '.' && (e == 1 || s[e - 2] == '/') {
        trim_back(s, e - 1, floor)
    } else {
        e
    }
}

/// The path `s` with its file name replaced by `index.md` (what
/// `PathBuf::set_file_name("index.md")` does): cut to its parent and
/// `index.md` pushed onto it.
pub open spec fn with_index_file_name(s: Seq<char>) -> Seq<char> {
    let e = name_end(s, s.len() as int);
    let a = name_start(s, e);
    let named = e > 0 && s.subrange(a, e) != seq!['.', '.'];
    let buf = if named {
        s.subrange(0, trim_back(s, a, body_start(s)))
    } else {
        s
    };
    if buf.len() == 0 || buf.last() == '/' {
        buf + "index.md"@
    } else {
        buf + seq!['/'] + "index.md"@
    }
}

proof fn lemma_trim_back(s: Seq<char>, e: int, floor: int)
    requires
        0 <= e <= s.len(),
    ensures
        0 <= trim_back(s, e, floor) <= e,
    decreases e,
{
    if !(e <= floor || e <= 0) && (s[e - 1] == '/' || (s[e - 1] == '.' && (e == 1 || s[e - 2] == '/'))) {
        lemma_trim_back(s, e - 1, floor);
    }
}

proof fn lemma_name_bounds(s: Seq<char>, e: int)
    requires
        0 <= e <= s.len(),
    ensures
        0 <= name_end(s, e) <= e,
        0 <= name_start(s, name_end(s, e)) <= name_end(s, e),
    decreases e,
{
    if e > 0 && (s[e - 1] == '/' || (s[e - 1] == '.' && (e == 1 || s[e - 2] == '/'))) {
        lemma_name_bounds(s, e - 1);
    } else {
        lemma_name_start(s, e);
    }
}

proof fn lemma_name_start(s: Seq<char>, a: int)
    requires
        0 <= a <= s.len(),
    ensures
        0 <= name_start(s, a) <= a,
    decreases a,
{
    if a > 0 && s[a - 1] != '/' {
        lemma_name_start(s, a - 1);
    }
}

/// The path `path` with its file name replaced by `index.md`.
#[verifier::spinoff_prover]
pub fn set_index_file_name(path: &str) -> (r: String)
    ensures
        r@ == with_index_file_name(path@),
{
    let s = chars_of(path);
    let n = s.len();
    proof {
        lemma_name_bounds(s@, n as int);
    }
    let mut e = n;
    while e > 0 && (s[e - 1] == '/' || (s[e - 1] == '.' && (e == 1 || s[e - 2] == '/')))
        invariant
            e <= s@.len(),
            name_end(s@, s@.len() as int) == name_end(s@, e as int),
        decreases e,
    {
        e = e - 1;
    }
    let mut a = e;
    while a > 0 && s[a - 1] != '/'
        invariant
            a <= e <= s@.len(),
            name_start(s@, e as int) == name_start(s@, a as int),
        decreases a,
    {
        a = a - 1;
    }
    assert(name_end(s@, e as int) == e);
    assert(name_start(s@, a as int) == a);
    let named = e > 0 && !(e - a == 2 && s[a] == '.' && s[a + 1] == '.');
    proof {
        if e > 0 {
            if e - a == 2 && s@[a as int] == '.' && s@[a + 1] == '.' {
                assert(s@.subrange(a as int, e as int) =~= seq!['.', '.']);
            } else if s@.subrange(a as int, e as int) == seq!['.', '.'] {
                assert(s@.subrange(a as int, e as int)[0] == s@[a as int]);
                assert(s@.subrange(a as int, e as int)[1] == s@[a + 1]);
            }
        }
    }
    let buf = if named {
        let floor: usize = if n > 0 && s[0] == '/' {
            1
        } else if n > 0 && s[0] == '.' && (n == 1 || s[1] == '/') {
            1
        } else {
            0
        };
        let mut t = a;
        proof {
            lemma_trim_back(s@, a as int, floor as int);
        }
        while t > floor && t > 0 && (s[t - 1] == '/' || (s[t - 1] == '.' && (t == 1 || s[t - 2]
            == '/')))
            invariant
                t <= a <= s@.len(),
                trim_back(s@, a as int, floor as int) == trim_back(s@, t as int, floor as int),
            decreases t,
        {
            t = t - 1;
        }
        assert(trim_back(s@, t as int, floor as int) == t as int);
        assert(floor as int == body_start(s@));
        slice_range(&s, 0, t)
    } else {
        slice_range(&s, 0, n)
    };
    assert(!named ==> buf@ =~= s@);
    let ghost want_buf = if e > 0 && s@.subrange(a as int, e as int) != seq!['.', '.'] {
        s@.subrange(0, trim_back(s@, a as int, body_start(s@)))
    } else {
        s@
    };
    assert(buf@ == want_buf);
    assert(name_end(s@, s@.len() as int) == e as int);
    assert(name_start(s@, name_end(s@, s@.len() as int)) == a as int);
    let mut out = buf;
    let bl = out.len();
    let ghost b = out@;
    if bl == 0 || out[bl - 1] == '/' {
        extend_chars(&mut out, &chars_of("index.md"));
        assert(out@ =~= with_index_file_name(path@));
    } else {
        out.push('/');
        extend_chars(&mut out, &chars_of("index.md"));
        assert(out@ =~= with_index_file_name(path@));
    }
    string_of(&out)
}

/// A chapter whose path is a `README` page is moved to `index.md` in its
/// directory; in any other chapter with a path, links to `README` pages lead
/// to `index.md`.  A chapter without a path is left as it is.
pub open spec fn spec_convert_readme(before: Chapter, after: Chapter) -> bool {
    &&& after.name == before.name
    &&& after.number == before.number
    &&& after.has_sub_items == before.has_sub_items
    &&& after.source_path == before.source_path
    &&& match before.path {
        Some(p) => if spec_is_readme_file(p@) {
            after.path matches Some(q) && q@ == with_index_file_name(p@) && after.content
                == before.content
        } else {
            after.path == before.path && after.content@ == spec_readme_links(before.content@)
        },
        None => after.path == before.path && after.content == before.content,
    }
}

/// Moves a `README` page to `index.md`, or leads the links of any other
/// page to `README` pages to `index.md`.
pub fn convert_readme(ch: &mut Chapter)
    ensures
        spec_convert_readme(*old(ch), *final(ch)),
{
    match &ch.path {
        Some(p) => {
            if is_readme_file(p.as_str()) {
                let q = set_index_file_name(p.as_str());
                ch.path = Some(q);
            } else {
                let c = readme_links(ch.content.as_str());
                ch.content = c;
            }
        },
        None => {},
    }
}

} // verus!
