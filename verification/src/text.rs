//! Character-level string helpers shared by the rest of the crate.

use vstd::prelude::*;

verus! {

/// The characters of `s`, in order.
#[verifier::external_body]
pub fn chars_of(s: &str) -> (v: Vec<char>)
    ensures
        v@ == s@,
{
    s.chars().collect()
}

/// The string made of the characters of `v`, in order.
#[verifier::external_body]
pub fn string_of(v: &[char]) -> (s: String)
    ensures
        s@ == v@,
{
    v.iter().collect()
}

/// Whether `c` has the Unicode `White_Space` property (what `char::is_whitespace` tests).
pub open spec fn is_ws(c: char) -> bool {
    ||| ('\t' <= c && c <= '\r')
    ||| c == ' '
    ||| c == '\u{85}'
    ||| c == '\u{a0}'
    ||| c == '\u{1680}'
    ||| ('\u{2000}' <= c && c <= '\u{200a}')
    ||| c == '\u{2028}'
    ||| c == '\u{2029}'
    ||| c == '\u{202f}'
    ||| c == '\u{205f}'
    ||| c == '\u{3000}'
}

/// Executable form of [`is_ws`].
pub fn is_whitespace(c: char) -> (b: bool)
    ensures
        b == is_ws(c),
{
    ('\t' <= c && c <= '\r') || c == ' ' || c == '\u{85}' || c == '\u{a0}' || c == '\u{1680}'
        || ('\u{2000}' <= c && c <= '\u{200a}') || c == '\u{2028}' || c == '\u{2029}'
        || c == '\u{202f}' || c == '\u{205f}' || c == '\u{3000}'
}


/// `s` without its leading whitespace.
pub open spec fn trim_start(s: Seq<char>) -> Seq<char>
    decreases s.len(),
{
    if s.len() > 0 && is_ws(s[0]) {
        trim_start(s.drop_first())
    } else {
        s
    }
}

/// `s` without its trailing whitespace.
pub open spec fn trim_end(s: Seq<char>) -> Seq<char>
    decreases s.len(),
{
    if s.len() > 0 && is_ws(s.last()) {
        trim_end(s.drop_last())
    } else {
        s
    }
}

/// `s` without leading and trailing whitespace (what `str::trim` returns).
pub open spec fn trim(s: Seq<char>) -> Seq<char> {
    trim_end(trim_start(s))
}

proof fn lemma_trim_start_skip(s: Seq<char>, i: int)
    requires
        0 <= i <= s.len(),
        forall|k: int| 0 <= k < i ==> is_ws(#[trigger] s[k]),
    ensures
        trim_start(s) == trim_start(s.subrange(i, s.len() as int)),
    decreases i,
{
    if i > 0 {
        assert(s.drop_first() =~= s.subrange(1, s.len() as int));
        lemma_trim_start_skip(s.drop_first(), i - 1);
        assert(s.drop_first().subrange(i - 1, s.drop_first().len() as int) =~= s.subrange(
            i,
            s.len() as int,
        ));
    } else {
        assert(s.subrange(0, s.len() as int) =~= s);
    }
}

proof fn lemma_trim_end_skip(s: Seq<char>, j: int)
    requires
        0 <= j <= s.len(),
        forall|k: int| j <= k < s.len() ==> is_ws(#[trigger] s[k]),
    ensures
        trim_end(s) == trim_end(s.subrange(0, j)),
    decreases s.len() - j,
{
    if j < s.len() {
        lemma_trim_end_skip(s.drop_last(), j);
        assert(s.drop_last().subrange(0, j) =~= s.subrange(0, j));
    } else {
        assert(s.subrange(0, j) =~= s);
    }
}

/// The start and end (exclusive) of `trim(v@)` inside `v`.
pub fn trim_bounds(v: &[char]) -> (r: (usize, usize))
    ensures
        r.0 <= r.1 <= v@.len(),
        v@.subrange(r.0 as int, r.1 as int) == trim(v@),
{
    let mut i: usize = 0;
    while i < v.len() && is_whitespace(v[i])
        invariant
            i <= v@.len(),
            forall|k: int| 0 <= k < i ==> is_ws(#[trigger] v@[k]),
        decreases v@.len() - i,
    {
        i = i + 1;
    }
    let mut j: usize = v.len();
    while j > i && is_whitespace(v[j - 1])
        invariant
            i <= j <= v@.len(),
            forall|k: int| j <= k < v@.len() ==> is_ws(#[trigger] v@[k]),
        decreases j,
    {
        j = j - 1;
    }
    proof {
        lemma_trim_start_skip(v@, i as int);
        let rest = v@.subrange(i as int, v@.len() as int);
        assert(!(rest.len() > 0 && is_ws(rest[0])));
        assert(trim_start(v@) == rest);
        lemma_trim_end_skip(rest, j - i);
        let mid = rest.subrange(0, j - i);
        assert(mid =~= v@.subrange(i as int, j as int));
        assert(!(mid.len() > 0 && is_ws(mid.last())));
    }
    (i, j)
}

/// `str::trim` on a character sequence.
pub fn trim_chars(v: &[char]) -> (r: Vec<char>)
    ensures
        r@ == trim(v@),
{
    let (i, j) = trim_bounds(v);
    slice_range(v, i, j)
}

/// The characters `v[from..to]`.
pub fn slice_range(v: &[char], from: usize, to: usize) -> (r: Vec<char>)
    requires
        from <= to <= v@.len(),
    ensures
        r@ == v@.subrange(from as int, to as int),
{
    let mut r: Vec<char> = Vec::new();
    let mut k = from;
    while k < to
        invariant
            from <= k <= to <= v@.len(),
            r@ == v@.subrange(from as int, k as int),
        decreases to - k,
    {
        r.push(v[k]);
        k = k + 1;
        assert(r@ =~= v@.subrange(from as int, k as int));
    }
    r
}

/// Appends the characters of `w` to `r`.
pub fn extend_chars(r: &mut Vec<char>, w: &[char])
    ensures
        final(r)@ == old(r)@ + w@,
{
    let mut k: usize = 0;
    while k < w.len()
        invariant
            k <= w@.len(),
            r@ == old(r)@ + w@.subrange(0, k as int),
        decreases w@.len() - k,
    {
        r.push(w[k]);
        k = k + 1;
        assert(r@ =~= old(r)@ + w@.subrange(0, k as int));
    }
    assert(w@.subrange(0, w@.len() as int) =~= w@);
}

/// Whether `pat` occurs in `s` at index `i`.
pub open spec fn matches_at(s: Seq<char>, pat: Seq<char>, i: int) -> bool {
    0 <= i && i + pat.len() <= s.len() && s.subrange(i, i + pat.len()) == pat
}

/// The first index at or after `i` where `pat` occurs in `s`.
pub open spec fn find_from(s: Seq<char>, pat: Seq<char>, i: int) -> Option<int>
    decreases s.len() + 1 - i,
{
    if i < 0 || i + pat.len() > s.len() {
        None
    } else if matches_at(s, pat, i) {
        Some(i)
    } else {
        find_from(s, pat, i + 1)
    }
}

/// The first index where `pat` occurs in `s`.
pub open spec fn find(s: Seq<char>, pat: Seq<char>) -> Option<int> {
    find_from(s, pat, 0)
}

/// Whether `s` contains `pat`.
pub open spec fn contains(s: Seq<char>, pat: Seq<char>) -> bool {
    find(s, pat) is Some
}

/// `s` with its first occurrence of `pat` replaced by `rep` (what `str::replacen(pat, rep, 1)` returns).
pub open spec fn replace_first(s: Seq<char>, pat: Seq<char>, rep: Seq<char>) -> Seq<char> {
    match find(s, pat) {
        Some(i) => s.subrange(0, i) + rep + s.subrange(i + pat.len(), s.len() as int),
        None => s,
    }
}

/// Whether `s` starts with `pat`.
pub open spec fn starts_with(s: Seq<char>, pat: Seq<char>) -> bool {
    pat.len() <= s.len() && s.subrange(0, pat.len() as int) == pat
}

/// Whether `s` ends with `pat`.
pub open spec fn ends_with(s: Seq<char>, pat: Seq<char>) -> bool {
    pat.len() <= s.len() && s.subrange(s.len() - pat.len(), s.len() as int) == pat
}

/// Whether `pat` occurs in `s` at index `i`.
pub fn match_at(s: &[char], pat: &[char], i: usize) -> (b: bool)
    ensures
        b == matches_at(s@, pat@, i as int),
{
    if i > s.len() || pat.len() > s.len() - i {
        return false;
    }
    let n = s.len();
    let mut k: usize = 0;
    while k < pat.len()
        invariant
            n == s@.len(),
            i + pat@.len() <= s@.len(),
            k <= pat@.len(),
            forall|m: int| 0 <= m < k ==> s@[i + m] == pat@[m],
        decreases pat@.len() - k,
    {
        assert(i + k < s@.len());
        if s[i + k] != pat[k] {
            assert(s@.subrange(i as int, i + pat@.len())[k as int] != pat@[k as int]);
            return false;
        }
        k = k + 1;
    }
    assert(s@.subrange(i as int, i + pat@.len()) =~= pat@);
    true
}

/// A found occurrence really is one, at or after the starting index, and nothing
/// between the start and it matches.
pub proof fn lemma_find_from_some(s: Seq<char>, pat: Seq<char>, j: int)
    requires
        0 <= j,
    ensures
        find_from(s, pat, j) matches Some(i) ==> {
            &&& j <= i
            &&& matches_at(s, pat, i)
            &&& forall|k: int| j <= k < i ==> !matches_at(s, pat, k)
        },
        find_from(s, pat, j) is None ==> forall|k: int| j <= k ==> !matches_at(s, pat, k),
    decreases s.len() + 1 - j,
{
    if j + pat.len() > s.len() {
    } else if matches_at(s, pat, j) {
    } else {
        lemma_find_from_some(s, pat, j + 1);
    }
}

/// The first index where `pat` occurs in `s`.
pub fn find_chars(s: &[char], pat: &[char]) -> (r: Option<usize>)
    ensures
        r matches Some(i) ==> find(s@, pat@) == Some(i as int),
        r is None ==> find(s@, pat@) is None,
{
    find_chars_from(s, pat, 0)
}

/// The first index at or after `from` where `pat` occurs in `s`.
pub fn find_chars_from(s: &[char], pat: &[char], from: usize) -> (r: Option<usize>)
    ensures
        r matches Some(i) ==> find_from(s@, pat@, from as int) == Some(i as int),
        r is None ==> find_from(s@, pat@, from as int) is None,
{
    let mut i = from;
    while i <= s.len() && pat.len() <= s.len() - i
        invariant
            from <= i,
            find_from(s@, pat@, from as int) == find_from(s@, pat@, i as int),
        decreases s@.len() + 1 - i,
    {
        if match_at(s, pat, i) {
            return Some(i);
        }
        if i == s.len() {
            assert(s@.subrange(i as int, i + pat@.len()) =~= pat@);
        }
        i = i + 1;
    }
    None
}

/// `s` with its first occurrence of `pat` replaced by `rep`.
pub fn replace_first_chars(s: &[char], pat: &[char], rep: &[char]) -> (r: Vec<char>)
    ensures
        r@ == replace_first(s@, pat@, rep@),
{
    proof {
        lemma_find_from_some(s@, pat@, 0);
    }
    match find_chars(s, pat) {
        Some(i) => {
            let mut r = slice_range(s, 0, i);
            extend_chars(&mut r, rep);
            let n = s.len();
            assert(i + pat@.len() <= n);
            let tail = slice_range(s, i + pat.len(), n);
            extend_chars(&mut r, &tail);
            r
        },
        None => slice_range(s, 0, s.len()),
    }
}

/// Whether `s` starts with `pat`.
pub fn starts_with_chars(s: &[char], pat: &[char]) -> (b: bool)
    ensures
        b == starts_with(s@, pat@),
{
    match_at(s, pat, 0)
}

/// Whether `s` ends with `pat`.
pub fn ends_with_chars(s: &[char], pat: &[char]) -> (b: bool)
    ensures
        b == ends_with(s@, pat@),
{
    if pat.len() > s.len() {
        false
    } else {
        match_at(s, pat, s.len() - pat.len())
    }
}

/// Whether the two character sequences are equal.
pub fn chars_eq(a: &[char], b: &[char]) -> (r: bool)
    ensures
        r == (a@ == b@),
{
    if a.len() != b.len() {
        return false;
    }
    let r = match_at(a, b, 0);
    proof {
        assert(a@.subrange(0, b@.len() as int) =~= a@);
    }
    r
}


/// The first index of `c` in `s`.
pub open spec fn find_char(s: Seq<char>, c: char) -> Option<int> {
    find(s, seq![c])
}

/// The first index of `c` in `v`.
pub fn find_char_in(v: &[char], c: char) -> (r: Option<usize>)
    ensures
        r matches Some(i) ==> find_char(v@, c) == Some(i as int),
        r is None ==> find_char(v@, c) is None,
{
    let pat = [c];
    assert(pat@ =~= seq![c]);
    find_chars(v, &pat)
}

/// Whether the byte `b` may stand unescaped in a link destination.
pub open spec fn href_safe(b: u8) -> bool {
    ||| b == 33
    ||| 35 <= b <= 37
    ||| 40 <= b <= 59
    ||| b == 61
    ||| 63 <= b <= 90
    ||| 94 <= b <= 95
    ||| 97 <= b <= 122
    ||| b == 126
}

/// The uppercase hexadecimal digit for `d < 16`.
pub open spec fn hex_upper(d: u8) -> char {
    if d < 10 {
        (('0' as u8) + d) as char
    } else {
        (('A' as u8) + (d - 10)) as char
    }
}

/// What one byte of a link destination becomes once escaped.
pub open spec fn escape_href_byte(b: u8) -> Seq<char> {
    if href_safe(b) {
        seq![b as char]
    } else if b == 38 {
        seq!['&', 'a', 'm', 'p', ';']
    } else if b == 39 {
        seq!['&', '#', 'x', '2', '7', ';']
    } else {
        seq!['%', hex_upper(b / 16), hex_upper(b % 16)]
    }
}

/// The escaped form of the bytes `bs` of a link destination.
pub open spec fn escape_href_bytes(bs: Seq<u8>) -> Seq<char>
    decreases bs.len(),
{
    if bs.len() == 0 {
        Seq::empty()
    } else {
        escape_href_bytes(bs.drop_last()) + escape_href_byte(bs.last())
    }
}

/// The UTF-8 form of two strings one after the other is their forms one
/// after the other.
pub proof fn lemma_encode_utf8_concat(a: Seq<char>, b: Seq<char>)
    ensures
        vstd::utf8::encode_utf8(a + b) == vstd::utf8::encode_utf8(a) + vstd::utf8::encode_utf8(b),
    decreases a.len(),
{
    if a.len() > 0 {
        lemma_encode_utf8_concat(a.drop_first(), b);
        assert((a + b).drop_first() =~= a.drop_first() + b);
        assert((a + b)[0] == a[0]);
        assert(vstd::utf8::encode_scalar(a[0] as u32) + (vstd::utf8::encode_utf8(a.drop_first())
            + vstd::utf8::encode_utf8(b)) =~= vstd::utf8::encode_scalar(a[0] as u32)
            + vstd::utf8::encode_utf8(a.drop_first()) + vstd::utf8::encode_utf8(b));
    } else {
        assert(a + b =~= b);
        assert(vstd::utf8::encode_utf8(a) =~= Seq::<u8>::empty());
        assert(Seq::<u8>::empty() + vstd::utf8::encode_utf8(b) =~= vstd::utf8::encode_utf8(b));
    }
}

/// Escaping bytes one after the other escapes each part on its own.
pub proof fn lemma_escape_href_concat(x: Seq<u8>, y: Seq<u8>)
    ensures
        escape_href_bytes(x + y) == escape_href_bytes(x) + escape_href_bytes(y),
    decreases y.len(),
{
    if y.len() == 0 {
        assert(x + y =~= x);
        assert(escape_href_bytes(x) + Seq::<char>::empty() =~= escape_href_bytes(x));
    } else {
        lemma_escape_href_concat(x, y.drop_last());
        assert((x + y).drop_last() =~= x + y.drop_last());
        assert((x + y).last() == y.last());
        assert(escape_href_bytes(x) + escape_href_bytes(y.drop_last()) + escape_href_byte(y.last())
            =~= escape_href_bytes(x) + (escape_href_bytes(y.drop_last()) + escape_href_byte(y.last())));
    }
}

/// Calls `pulldown_cmark::escape::escape_href`, writing into a fresh `String`.
/// Its source walks the UTF-8 bytes of `text`: a byte of its `HREF_SAFE` table
/// is copied, `&` becomes `&amp;`, `'` becomes `&#x27;`, and every other byte
/// (all bytes from 0x80 up among them) becomes `%` and two uppercase hex
/// digits. Writing into a `String` never fails, so the whole escaped text is
/// what the buffer holds afterwards.
#[verifier::external_body]
fn escape_href_into_string(text: &str) -> (r: String)
    ensures
        r@ == escape_href_bytes(vstd::utf8::encode_utf8(text@)),
{
    let mut buf = String::new();
    pulldown_cmark::escape::escape_href(&mut buf, text).ok();
    buf
}

/// Escapes the characters of `text` that may not stand in a link destination:
/// every byte of its UTF-8 form that is not URL-safe becomes `%XX`, except `&`
/// and `'`, which become HTML entities (the escaping that CommonMark renderers
/// apply to `href`s).
pub fn escape_special_chars(text: &str) -> (r: String)
    ensures
        r@ == escape_href_bytes(vstd::utf8::encode_utf8(text@)),
{
    escape_href_into_string(text)
}


/// `s` split at every occurrence of `c` (what `str::split` with a `char` yields).
pub open spec fn split_at_char(s: Seq<char>, c: char) -> Seq<Seq<char>>
    decreases s.len(),
{
    if s.len() == 0 {
        seq![Seq::<char>::empty()]
    } else {
        let r = split_at_char(s.drop_last(), c);
        if s.last() == c {
            r.push(Seq::<char>::empty())
        } else {
            r.update(r.len() - 1, r.last().push(s.last()))
        }
    }
}

proof fn lemma_split_at_char_len(s: Seq<char>, c: char)
    ensures
        split_at_char(s, c).len() >= 1,
    decreases s.len(),
{
    if s.len() > 0 {
        lemma_split_at_char_len(s.drop_last(), c);
    }
}

/// The pieces of `s` between the occurrences of `c`.
pub fn split_chars(s: &[char], c: char) -> (r: Vec<Vec<char>>)
    ensures
        r@.len() >= 1,
        r@.map_values(|v: Vec<char>| v@) == split_at_char(s@, c),
{
    let mut done: Vec<Vec<char>> = Vec::new();
    let mut cur: Vec<char> = Vec::new();
    let mut k: usize = 0;
    while k < s.len()
        invariant
            k <= s@.len(),
            done@.map_values(|v: Vec<char>| v@).push(cur@) == split_at_char(s@.subrange(0, k as int), c),
        decreases s@.len() - k,
    {
        proof {
            let t = s@.subrange(0, k + 1);
            assert(t.drop_last() =~= s@.subrange(0, k as int));
            assert(t.last() == s@[k as int]);
            lemma_split_at_char_len(s@.subrange(0, k as int), c);
        }
        let ghost before = done@.map_values(|v: Vec<char>| v@);
        if s[k] == c {
            let piece = cur;
            done.push(piece);
            cur = Vec::new();
            assert(done@.map_values(|v: Vec<char>| v@) =~= before.push(piece@));
        } else {
            cur.push(s[k]);
        }
        k = k + 1;
        assert(done@.map_values(|v: Vec<char>| v@).push(cur@) =~= split_at_char(
            s@.subrange(0, k as int),
            c,
        ));
    }
    assert(s@.subrange(0, s@.len() as int) =~= s@);
    let ghost before = done@.map_values(|v: Vec<char>| v@);
    done.push(cur);
    assert(done@.map_values(|v: Vec<char>| v@) =~= before.push(cur@));
    done
}

/// `s` split at the occurrences of `pat`, found from the left without
/// overlapping (what `str::split` with a non-empty string yields).
pub open spec fn split_at_str(s: Seq<char>, pat: Seq<char>) -> Seq<Seq<char>>
    decreases s.len(),
{
    if pat.len() == 0 {
        seq![s]
    } else {
        match find(s, pat) {
            Some(i) => if 0 <= i && i + pat.len() <= s.len() {
                seq![s.subrange(0, i)] + split_at_str(s.subrange(i + pat.len(), s.len() as int), pat)
            } else {
                seq![s]
            },
            None => seq![s],
        }
    }
}

/// The pieces of `s` between the occurrences of `pat`, which is not empty.
pub fn split_str_chars(s: &[char], pat: &[char]) -> (r: Vec<Vec<char>>)
    requires
        pat@.len() > 0,
    ensures
        r@.map_values(|v: Vec<char>| v@) == split_at_str(s@, pat@),
{
    let mut done: Vec<Vec<char>> = Vec::new();
    let mut rest = slice_range(s, 0, s.len());
    assert(rest@ =~= s@);
    loop
        invariant
            pat@.len() > 0,
            done@.map_values(|v: Vec<char>| v@) + split_at_str(rest@, pat@) == split_at_str(s@, pat@),
        decreases rest@.len(),
    {
        proof {
            lemma_find_from_some(rest@, pat@, 0);
        }
        let ghost before = done@.map_values(|v: Vec<char>| v@);
        match find_chars(&rest, pat) {
            Some(i) => {
                let n = rest.len();
                let piece = slice_range(&rest, 0, i);
                let tail = slice_range(&rest, i + pat.len(), n);
                let ghost old_rest = rest@;
                done.push(piece);
                rest = tail;
                assert(done@.map_values(|v: Vec<char>| v@) =~= before.push(piece@));
                assert(before.push(piece@) + split_at_str(rest@, pat@) =~= before + split_at_str(
                    old_rest,
                    pat@,
                ));
            },
            None => {
                done.push(rest);
                assert(done@.map_values(|v: Vec<char>| v@) =~= before + split_at_str(
                    rest@,
                    pat@,
                ));
                return done;
            },
        }
    }
}

/// `s` with every occurrence of `pat` (found from the left, without
/// overlapping) replaced by `rep` (what `str::replace` returns for a
/// non-empty `pat`).
pub open spec fn replace_all(s: Seq<char>, pat: Seq<char>, rep: Seq<char>) -> Seq<char>
    decreases s.len(),
{
    if pat.len() == 0 {
        s
    } else {
        match find(s, pat) {
            Some(i) => if 0 <= i && i + pat.len() <= s.len() {
                s.subrange(0, i) + rep + replace_all(s.subrange(i + pat.len(), s.len() as int), pat, rep)
            } else {
                s
            },
            None => s,
        }
    }
}

/// `s` with every occurrence of `pat`, which is not empty, replaced by `rep`.
pub fn replace_all_chars(s: &[char], pat: &[char], rep: &[char]) -> (r: Vec<char>)
    requires
        pat@.len() > 0,
    ensures
        r@ == replace_all(s@, pat@, rep@),
{
    let mut out: Vec<char> = Vec::new();
    let mut rest = slice_range(s, 0, s.len());
    assert(rest@ =~= s@);
    loop
        invariant
            pat@.len() > 0,
            out@ + replace_all(rest@, pat@, rep@) == replace_all(s@, pat@, rep@),
        decreases rest@.len(),
    {
        proof {
            lemma_find_from_some(rest@, pat@, 0);
        }
        match find_chars(&rest, pat) {
            Some(i) => {
                let n = rest.len();
                let ghost old_rest = rest@;
                let ghost old_out = out@;
                let head = slice_range(&rest, 0, i);
                extend_chars(&mut out, &head);
                extend_chars(&mut out, rep);
                rest = slice_range(&rest, i + pat.len(), n);
                assert(out@ + replace_all(rest@, pat@, rep@) =~= old_out + replace_all(
                    old_rest,
                    pat@,
                    rep@,
                ));
            },
            None => {
                let ghost old_out = out@;
                extend_chars(&mut out, &rest);
                assert(out@ =~= old_out + replace_all(rest@, pat@, rep@));
                return out;
            },
        }
    }
}

/// The number of bytes of the UTF-8 encoding of `c`.
pub open spec fn utf8_width(c: char) -> nat {
    if (c as u32) <= 0x7f {
        1
    } else if (c as u32) <= 0x7ff {
        2
    } else if (c as u32) <= 0xffff {
        3
    } else {
        4
    }
}

/// The number of bytes of the UTF-8 encoding of `s`.
pub open spec fn utf8_len(s: Seq<char>) -> nat
    decreases s.len(),
{
    if s.len() == 0 {
        0
    } else {
        utf8_len(s.drop_last()) + utf8_width(s.last())
    }
}

/// The index of the character of `s` that starts at the byte offset `b` of
/// its UTF-8 encoding (the length of `s` for its end), if `b` falls on a
/// character boundary.
pub open spec fn char_index_of_byte(s: Seq<char>, b: int) -> Option<int> {
    if exists|i: int| 0 <= i <= s.len() && utf8_len(#[trigger] s.subrange(0, i)) == b {
        Some(choose|i: int| 0 <= i <= s.len() && utf8_len(#[trigger] s.subrange(0, i)) == b)
    } else {
        None
    }
}

/// The text of `s` between the byte offsets `start` and `end` of its UTF-8
/// encoding, if both fall on character boundaries in that order.
pub open spec fn byte_range_text(s: Seq<char>, start: int, end: int) -> Option<Seq<char>> {
    match (char_index_of_byte(s, start), char_index_of_byte(s, end)) {
        (Some(i), Some(j)) => if i <= j {
            Some(s.subrange(i, j))
        } else {
            None
        },
        _ => None,
    }
}

proof fn lemma_utf8_len_mono(s: Seq<char>, i: int, j: int)
    requires
        0 <= i < j <= s.len(),
    ensures
        utf8_len(s.subrange(0, i)) < utf8_len(s.subrange(0, j)),
    decreases j - i,
{
    let t = s.subrange(0, j);
    assert(t.drop_last() =~= s.subrange(0, j - 1));
    if i < j - 1 {
        lemma_utf8_len_mono(s, i, j - 1);
    }
}

fn width_of(c: char) -> (w: usize)
    ensures
        w == utf8_width(c),
{
    if (c as u32) <= 0x7f {
        1
    } else if (c as u32) <= 0x7ff {
        2
    } else if (c as u32) <= 0xffff {
        3
    } else {
        4
    }
}

/// The character index at the byte offset `b` of the UTF-8 encoding of `s`.
pub fn char_index_at_byte(s: &[char], b: usize) -> (r: Option<usize>)
    ensures
        match r {
            Some(i) => char_index_of_byte(s@, b as int) == Some(i as int),
            None => char_index_of_byte(s@, b as int) is None,
        },
{
    let mut i: usize = 0;
    let mut acc: usize = 0;
    assert(s@.subrange(0, 0).len() == 0);
    while i < s.len() && acc < b
        invariant
            i <= s@.len(),
            acc == utf8_len(s@.subrange(0, i as int)),
            forall|k: int| 0 <= k < i ==> utf8_len(#[trigger] s@.subrange(0, k)) < b,
        decreases s@.len() - i,
    {
        proof {
            let t = s@.subrange(0, i + 1);
            assert(t.drop_last() =~= s@.subrange(0, i as int));
            assert(t.last() == s@[i as int]);
        }
        let w = width_of(s[i]);
        if w > b - acc {
            proof {
                assert forall|k: int| 0 <= k <= s@.len() implies utf8_len(#[trigger] s@.subrange(0, k)) != b by {
                    if k > i + 1 {
                        lemma_utf8_len_mono(s@, i + 1, k);
                    }
                }
                assert(!exists|k: int| 0 <= k <= s@.len() && utf8_len(#[trigger] s@.subrange(0, k)) == b);
            }
            return None;
        }
        acc = acc + w;
        i = i + 1;
    }
    proof {
        assert forall|k: int| 0 <= k <= s@.len() && k != i implies utf8_len(#[trigger] s@.subrange(0, k)) != b by {
            if k < i {
            } else {
                lemma_utf8_len_mono(s@, i as int, k);
            }
        }
    }
    if acc == b {
        assert(utf8_len(s@.subrange(0, i as int)) == b);
        Some(i)
    } else {
        proof {
            assert(!exists|k: int| 0 <= k <= s@.len() && utf8_len(#[trigger] s@.subrange(0, k)) == b);
        }
        None
    }
}

/// The text of `s` between the byte offsets `start` and `end` of its UTF-8
/// encoding, if both fall on character boundaries in that order.
pub fn byte_range_chars(s: &[char], start: usize, end: usize) -> (r: Option<Vec<char>>)
    ensures
        match r {
            Some(t) => byte_range_text(s@, start as int, end as int) == Some(t@),
            None => byte_range_text(s@, start as int, end as int) is None,
        },
{
    match (char_index_at_byte(s, start), char_index_at_byte(s, end)) {
        (Some(i), Some(j)) => {
            if i <= j {
                Some(slice_range(s, i, j))
            } else {
                None
            }
        },
        _ => None,
    }
}

/// The UTF-8 bytes of `s`.
pub fn utf8_bytes(s: &str) -> (r: Vec<u8>)
    ensures
        r@ == vstd::utf8::encode_utf8(s@),
{
    let bytes = s.as_bytes();
    let mut r: Vec<u8> = Vec::new();
    let mut k: usize = 0;
    while k < bytes.len()
        invariant
            k <= bytes@.len(),
            r@ == bytes@.subrange(0, k as int),
        decreases bytes@.len() - k,
    {
        r.push(bytes[k]);
        k = k + 1;
        assert(r@ =~= bytes@.subrange(0, k as int));
    }
    assert(bytes@.subrange(0, bytes@.len() as int) =~= bytes@);
    r
}

} // verus!
