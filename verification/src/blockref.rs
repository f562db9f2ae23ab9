//! Block references: a paragraph that ends with `^` and a six character id
//! can be linked to as `[[note#^id]]`.

use vstd::prelude::*;
use crate::context::opt_view;
use crate::text::{
    chars_of, ends_with, extend_chars, replace_first, replace_first_chars, slice_range,
    split_at_str, split_str_chars, string_of,
};

verus! {

/// Whether `c` may stand in a block reference id: an ASCII letter or digit,
/// `_` or `-` (`char::is_digit` with radix 36 accepts exactly the ASCII
/// letters and digits).
pub open spec fn is_id_char(c: char) -> bool {
    c == '_' || c == '-' || ('0' <= c && c <= '9') || ('a' <= c && c <= 'z') || ('A' <= c && c
        <= 'Z')
}

/// Whether `c` may stand in a block reference id.
pub fn is_id_friendly(c: char) -> (b: bool)
    ensures
        b == is_id_char(c),
{
    c == '_' || c == '-' || ('0' <= c && c <= '9') || ('a' <= c && c <= 'z') || ('A' <= c && c
        <= 'Z')
}

/// The block reference id that ends the paragraph `p`, if any: when its
/// last seven characters are `^` and then six id characters, those six.
pub open spec fn spec_blockref_id(p: Seq<char>) -> Option<Seq<char>> {
    let n = p.len() as int;
    if n >= 7 && p[n - 7] == '^' && forall|i: int| n - 6 <= i < n ==> is_id_char(#[trigger] p[i]) {
        Some(p.subrange(n - 6, n))
    } else {
        None
    }
}

/// The block reference id at the end of `paragraph`: the six id characters
/// after a `^` that is its seventh last character.
pub fn blockref_id(paragraph: &str) -> (r: Option<String>)
    ensures
        opt_view(r) == spec_blockref_id(paragraph@),
{
    let p = chars_of(paragraph);
    let n = p.len();
    if n < 7 || p[n - 7] != '^' {
        return None;
    }
    let mut i: usize = n - 6;
    while i < n
        invariant
            n == p@.len(),
            p@ == paragraph@,
            n >= 7,
            n - 6 <= i <= n,
            p@[n - 7] == '^',
            forall|j: int| n - 6 <= j < i ==> is_id_char(#[trigger] p@[j]),
        decreases n - i,
    {
        if !is_id_friendly(p[i]) {
            assert(!is_id_char(p@[i as int]));
            return None;
        }
        i = i + 1;
    }
    let id = slice_range(&p, n - 6, n);
    Some(string_of(&id))
}

/// `s` with `pat` taken off its end as often as it ends with it (what
/// `str::trim_end_matches` does; an empty `pat` takes nothing).
pub open spec fn trim_end_all(s: Seq<char>, pat: Seq<char>) -> Seq<char>
    decreases s.len(),
{
    if pat.len() > 0 && ends_with(s, pat) {
        trim_end_all(s.subrange(0, s.len() - pat.len()), pat)
    } else {
        s
    }
}

fn trim_end_all_chars(s: &[char], pat: &[char]) -> (r: Vec<char>)
    ensures
        r@ == trim_end_all(s@, pat@),
{
    let mut cur = slice_range(s, 0, s.len());
    assert(cur@ =~= s@);
    while pat.len() > 0 && crate::text::ends_with_chars(&cur, pat)
        invariant
            trim_end_all(cur@, pat@) == trim_end_all(s@, pat@),
        decreases cur@.len(),
    {
        let n = cur.len();
        cur = slice_range(&cur, 0, n - pat.len());
    }
    cur
}

/// The markup a block with the id `id` and text `text` becomes.
pub open spec fn block_div(id: Seq<char>, text: Seq<char>) -> Seq<char> {
    "<div id=\""@ + id + "\">"@ + text + "</div>"@
}

/// The content after wrapping, one after the other, the blocks `pieces`
/// from the `k`th: each that ends with a block reference id has its first
/// occurrence replaced by a `div` with that id, holding the block without the
/// id and the `^` before it.
pub open spec fn wrap_from(pieces: Seq<Seq<char>>, k: int, content: Seq<char>) -> Seq<char>
    decreases pieces.len() - k,
{
    if k < 0 || k >= pieces.len() {
        content
    } else {
        let split = pieces[k];
        wrap_from(
            pieces,
            k + 1,
            match spec_blockref_id(split) {
                Some(id) => replace_first(
                    content,
                    split,
                    block_div(id, trim_end_all(trim_end_all(split, id), seq!['^'])),
                ),
                None => content,
            },
        )
    }
}

/// What wrapping the one block `split` does to `content`.
pub open spec fn wrap_one(split: Seq<char>, content: Seq<char>) -> Seq<char> {
    match spec_blockref_id(split) {
        Some(id) => replace_first(content, split, block_div(id, trim_end_all(trim_end_all(split, id), seq!['^']))),
        None => content,
    }
}

proof fn lemma_wrap_shift(p1: Seq<Seq<char>>, p2: Seq<Seq<char>>, j: int, c: Seq<char>)
    requires
        0 <= j <= p2.len(),
    ensures
        wrap_from(p1 + p2, p1.len() + j, c) == wrap_from(p2, j, c),
    decreases p2.len() - j,
{
    if j < p2.len() {
        assert((p1 + p2)[p1.len() + j] == p2[j]);
        lemma_wrap_shift(p1, p2, j + 1, wrap_one(p2[j], c));
    }
}

proof fn lemma_wrap_compose(p1: Seq<Seq<char>>, p2: Seq<Seq<char>>, k: int, c: Seq<char>)
    requires
        0 <= k <= p1.len(),
    ensures
        wrap_from(p1 + p2, k, c) == wrap_from(p2, 0, wrap_from(p1, k, c)),
    decreases p1.len() - k,
{
    if k == p1.len() {
        lemma_wrap_shift(p1, p2, 0, c);
    } else {
        assert((p1 + p2)[k] == p1[k]);
        lemma_wrap_compose(p1, p2, k + 1, wrap_one(p1[k], c));
    }
}

/// Blocks are wrapped one after the other, however many there are: wrapping
/// the blocks `p1` followed by `p2` wraps `p2` in what wrapping `p1` leaves,
/// so a block that ends with a block reference is wrapped whatever blocks
/// came before it.  A single block that ends with `^` and an id has its first
/// occurrence replaced by a `div` with that id holding the block without the
/// id and the `^`; any other block leaves the content as it is.
pub proof fn law_every_referenced_block_is_wrapped(p1: Seq<Seq<char>>, p2: Seq<Seq<char>>, c: Seq<char>)
    ensures
        wrap_from(p1 + p2, 0, c) == wrap_from(p2, 0, wrap_from(p1, 0, c)),
        p1.len() == 1 ==> wrap_from(p1, 0, c) == match spec_blockref_id(p1[0]) {
            Some(id) => replace_first(
                c,
                p1[0],
                "<div id=\""@ + id + "\">"@ + trim_end_all(trim_end_all(p1[0], id), seq!['^']) + "</div>"@,
            ),
            None => c,
        },
{
    lemma_wrap_compose(p1, p2, 0, c);
    if p1.len() == 1 {
        assert(wrap_from(p1, 1, wrap_one(p1[0], c)) == wrap_one(p1[0], c));
    }
}

/// `content` with every block (the text between blank lines, `\n\n`) that
/// ends with a block reference id wrapped in a `div` with that id.
pub open spec fn spec_wrap_blocks(content: Seq<char>) -> Seq<char> {
    wrap_from(split_at_str(content, seq!['\n', '\n']), 0, content)
}

/// The blocks wrapped are the pieces of the content between blank lines
/// (`\n\n`), each in turn as [`law_every_referenced_block_is_wrapped`] says.
pub proof fn law_blocks_are_split_at_blank_lines(content: Seq<char>)
    ensures
        spec_wrap_blocks(content) == wrap_from(split_at_str(content, "\n\n"@), 0, content),
{
    reveal_strlit("\n\n");
    assert("\n\n"@ =~= seq!['\n', '\n']);
}

/// Wraps every block of `content` (split at blank lines) that ends with a
/// block reference id in a `div` with that id, so that it can be linked to.
pub fn wrap_blocks(content: &mut String)
    ensures
        final(content)@ == spec_wrap_blocks(old(content)@),
{
    let orig = chars_of(content.as_str());
    let sep = ['\n', '\n'];
    assert(sep@ =~= seq!['\n', '\n']);
    let pieces = split_str_chars(&orig, &sep);
    let ghost ps = pieces@.map_values(|v: Vec<char>| v@);
    let mut out = slice_range(&orig, 0, orig.len());
    assert(out@ =~= orig@);
    let mut k: usize = 0;
    while k < pieces.len()
        invariant
            k <= pieces@.len(),
            ps == pieces@.map_values(|v: Vec<char>| v@),
            wrap_from(ps, 0, orig@) == wrap_from(ps, k as int, out@),
        decreases pieces@.len() - k,
    {
        let split = &pieces[k];
        assert(ps[k as int] == split@);
        let s = string_of(split);
        match blockref_id(s.as_str()) {
            Some(id) => {
                let idc = chars_of(id.as_str());
                let t1 = trim_end_all_chars(split, &idc);
                let caret = ['^'];
                assert(caret@ =~= seq!['^']);
                let t2 = trim_end_all_chars(&t1, &caret);
                let mut rep = chars_of("<div id=\"");
                extend_chars(&mut rep, &idc);
                extend_chars(&mut rep, &chars_of("\">"));
                extend_chars(&mut rep, &t2);
                extend_chars(&mut rep, &chars_of("</div>"));
                assert(rep@ =~= block_div(idc@, t2@));
                out = replace_first_chars(&out, split, &rep);
            },
            None => {},
        }
        k = k + 1;
    }
    *content = string_of(&out);
}

} // verus!
