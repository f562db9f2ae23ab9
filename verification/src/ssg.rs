//! The static site of a vault: which notes get pages, the list of notes on
//! the index page, and what each note's page shows.

use vstd::prelude::*;
use crate::path::{Comp, CompKind, PathComponent, comp_view, comps_view, comps_wf, components,
    diff_from_parent, path_components, path_to_root, rfind_char, same_path, spec_diff_from_parent,
    spec_path_to_root};
use crate::render::{markdown_html, rendered_html};
use crate::text::{chars_eq, chars_of, extend_chars, slice_range, string_of, utf8_bytes};
use crate::time::{format_readable, formatted_datetime, opt_chars, to_readable};
use crate::vault::{Note, NoteId, Vault, fnv_path_hash, incoming, note_path, note_with_id, deref_opt};

verus! {

/// `s` without the trailing `/` and `/.` pieces, which name no component.
pub open spec fn strip_trailing(s: Seq<char>) -> Seq<char>
    decreases s.len(),
{
    if s.len() > 0 && s.last() == '/' {
        strip_trailing(s.drop_last())
    } else if s.len() >= 2 && s.last() == '.' && s[s.len() - 2] == '/' {
        strip_trailing(s.drop_last())
    } else {
        s
    }
}

/// Where the last `/`-separated segment of `r` starts.
pub open spec fn last_segment_start(r: Seq<char>) -> int {
    match rfind_char(r, '/') {
        Some(i) => i + 1,
        None => 0,
    }
}

/// How long the stem of the file name `name` is: up to its last dot, unless
/// that dot starts the name.
pub open spec fn stem_len(name: Seq<char>) -> int {
    match rfind_char(name, '.') {
        Some(i) => if i == 0 {
            name.len() as int
        } else {
            i
        },
        None => name.len() as int,
    }
}

/// The path `s` with its extension set to `html` (what
/// `Path::with_extension("html")` gives): the text up to the end of the stem
/// of the final file name, then `.html`; `s` itself when it ends in no file
/// name.
pub open spec fn spec_html_path(s: Seq<char>) -> Seq<char> {
    let r = strip_trailing(s);
    let st = last_segment_start(r);
    let name = r.subrange(st, r.len() as int);
    if name.len() == 0 || name == seq!['.'] || name == seq!['.', '.'] {
        s
    } else {
        r.subrange(0, st + stem_len(name)) + seq!['.', 'h', 't', 'm', 'l']
    }
}

proof fn lemma_rfind_char_bounds(s: Seq<char>, c: char)
    ensures
        rfind_char(s, c) matches Some(i) ==> 0 <= i < s.len() && s[i] == c && forall|j: int|
            i < j < s.len() ==> s[j] != c,
        rfind_char(s, c) is None ==> forall|j: int| 0 <= j < s.len() ==> s[j] != c,
    decreases s.len(),
{
    if s.len() > 0 && s.last() != c {
        lemma_rfind_char_bounds(s.drop_last(), c);
        assert forall|j: int| 0 <= j < s.len() - 1 implies s.drop_last()[j] == s[j] by {}
    }
}

/// The last index of `c` in `v[..end]`.
fn rfind_in(v: &[char], end: usize, c: char) -> (r: Option<usize>)
    requires
        end <= v@.len(),
    ensures
        match r {
            Some(i) => i < end && rfind_char(v@.subrange(0, end as int), c) == Some(i as int),
            None => rfind_char(v@.subrange(0, end as int), c) is None,
        },
{
    let mut k = end;
    while k > 0
        invariant
            k <= end <= v@.len(),
            rfind_char(v@.subrange(0, end as int), c) == rfind_char(v@.subrange(0, k as int), c),
        decreases k,
    {
        proof {
            let t = v@.subrange(0, k as int);
            assert(t.drop_last() =~= v@.subrange(0, k - 1));
            assert(t.last() == v@[k - 1]);
        }
        if v[k - 1] == c {
            return Some(k - 1);
        }
        k = k - 1;
    }
    None
}

/// `path` with its extension set to `html`, as a note's page is named.
#[verifier::spinoff_prover]
#[verifier::rlimit(40)]
pub fn html_path(path: &str) -> (r: String)
    ensures
        r@ == spec_html_path(path@),
{
    let s = chars_of(path);
    let mut e = s.len();
    assert(s@.subrange(0, s@.len() as int) =~= s@);
    while e > 0 && (s[e - 1] == '/' || (e >= 2 && s[e - 1] == '.' && s[e - 2] == '/'))
        invariant
            e <= s@.len(),
            strip_trailing(s@) == strip_trailing(s@.subrange(0, e as int)),
        decreases e,
    {
        proof {
            let t = s@.subrange(0, e as int);
            assert(t.drop_last() =~= s@.subrange(0, e - 1));
            assert(t.last() == s@[e - 1]);
            if e >= 2 {
                assert(t[t.len() - 2] == s@[e - 2]);
            }
        }
        e = e - 1;
    }
    let ghost r = s@.subrange(0, e as int);
    proof {
        assert(s@.subrange(0, s@.len() as int) =~= s@);
        if e > 0 {
            assert(r.last() == s@[e - 1]);
            if e >= 2 {
                assert(r[r.len() - 2] == s@[e - 2]);
            }
        }
        assert(strip_trailing(s@) == r);
    }
    let st = match rfind_in(&s, e, '/') {
        Some(i) => i + 1,
        None => 0,
    };
    proof {
        lemma_rfind_char_bounds(r, '/');
    }
    assert(st == last_segment_start(r));
    let name = slice_range(&s, st, e);
    assert(name@ == r.subrange(st as int, r.len() as int));
    let n = name.len();
    if n == 0 || (n == 1 && name[0] == '.') || (n == 2 && name[0] == '.' && name[1] == '.') {
        proof {
            if n == 1 {
                assert(name@ =~= seq!['.']);
            }
            if n == 2 {
                assert(name@ =~= seq!['.', '.']);
            }
        }
        return string_of(&s);
    }
    proof {
        if name@ == seq!['.'] {
            assert(name@[0] == '.');
        }
        if name@ == seq!['.', '.'] {
            assert(name@[0] == '.' && name@[1] == '.');
        }
    }
    let sl = match rfind_in(&name, n, '.') {
        Some(i) => if i == 0 {
            n
        } else {
            i
        },
        None => n,
    };
    proof {
        assert(name@.subrange(0, n as int) =~= name@);
        lemma_rfind_char_bounds(name@, '.');
    }
    assert(sl == stem_len(name@));
    let mut out = slice_range(&s, 0, st + sl);
    out.push('.');
    out.push('h');
    out.push('t');
    out.push('m');
    out.push('l');
    assert(out@ =~= r.subrange(0, st + sl) + seq!['.', 'h', 't', 'm', 'l']);
    string_of(&out)
}

/// Whether `a` comes before `b` in the order of `str`: by the first
/// character where they differ, a proper prefix first.
pub open spec fn chars_lt(a: Seq<char>, b: Seq<char>) -> bool
    decreases a.len(),
{
    if a.len() == 0 {
        b.len() > 0
    } else if b.len() == 0 {
        false
    } else if a[0] != b[0] {
        a[0] < b[0]
    } else {
        chars_lt(a.drop_first(), b.drop_first())
    }
}

proof fn lemma_chars_lt_asym(a: Seq<char>, b: Seq<char>)
    ensures
        !(chars_lt(a, b) && chars_lt(b, a)),
    decreases a.len(),
{
    if a.len() > 0 && b.len() > 0 && a[0] == b[0] {
        lemma_chars_lt_asym(a.drop_first(), b.drop_first());
    }
}

proof fn lemma_chars_lt_trans(a: Seq<char>, b: Seq<char>, c: Seq<char>)
    requires
        chars_lt(a, b),
        chars_lt(b, c),
    ensures
        chars_lt(a, c),
    decreases a.len(),
{
    if a.len() > 0 && b.len() > 0 && c.len() > 0 && a[0] == b[0] && b[0] == c[0] {
        lemma_chars_lt_trans(a.drop_first(), b.drop_first(), c.drop_first());
    }
}

/// A path component as the order of `Path` sees it: its rank among the kinds
/// of component (root, current directory, parent directory, name) and its
/// text for a name.
pub open spec fn comp_key(c: PathComponent) -> (int, Seq<char>) {
    match c {
        PathComponent::RootDir => (0, Seq::empty()),
        PathComponent::CurDir => (1, Seq::empty()),
        PathComponent::ParentDir => (2, Seq::empty()),
        PathComponent::Normal(t) => (3, t),
    }
}

/// Whether the component key `x` comes before `y`.
pub open spec fn comp_lt(x: (int, Seq<char>), y: (int, Seq<char>)) -> bool {
    x.0 < y.0 || (x.0 == y.0 && chars_lt(x.1, y.1))
}

/// Whether the component keys `a` come before `b`: by the first component
/// where they differ, a proper prefix first (the order of `Path`).
pub open spec fn comps_lt(a: Seq<(int, Seq<char>)>, b: Seq<(int, Seq<char>)>) -> bool
    decreases a.len(),
{
    if a.len() == 0 {
        b.len() > 0
    } else if b.len() == 0 {
        false
    } else if a[0] != b[0] {
        comp_lt(a[0], b[0])
    } else {
        comps_lt(a.drop_first(), b.drop_first())
    }
}

proof fn lemma_comp_lt(x: (int, Seq<char>), y: (int, Seq<char>), z: (int, Seq<char>))
    ensures
        !(comp_lt(x, y) && comp_lt(y, x)),
        comp_lt(x, y) && comp_lt(y, z) ==> comp_lt(x, z),
        !comp_lt(x, x),
{
    lemma_chars_lt_asym(x.1, y.1);
    lemma_chars_lt_asym(x.1, x.1);
    if comp_lt(x, y) && comp_lt(y, z) && x.0 == y.0 && y.0 == z.0 {
        lemma_chars_lt_trans(x.1, y.1, z.1);
    }
}

proof fn lemma_comps_lt_asym(a: Seq<(int, Seq<char>)>, b: Seq<(int, Seq<char>)>)
    ensures
        !(comps_lt(a, b) && comps_lt(b, a)),
    decreases a.len(),
{
    if a.len() > 0 && b.len() > 0 {
        lemma_comp_lt(a[0], b[0], b[0]);
        if a[0] == b[0] {
            lemma_comps_lt_asym(a.drop_first(), b.drop_first());
        }
    }
}

proof fn lemma_comps_lt_trans(a: Seq<(int, Seq<char>)>, b: Seq<(int, Seq<char>)>, c: Seq<(int, Seq<char>)>)
    requires
        comps_lt(a, b),
        comps_lt(b, c),
    ensures
        comps_lt(a, c),
    decreases a.len(),
{
    if a.len() > 0 && b.len() > 0 && c.len() > 0 {
        lemma_comp_lt(a[0], b[0], c[0]);
        lemma_comp_lt(a[0], c[0], b[0]);
        lemma_comp_lt(b[0], a[0], c[0]);
        if a[0] == b[0] && b[0] == c[0] {
            lemma_comps_lt_trans(a.drop_first(), b.drop_first(), c.drop_first());
        }
    }
}

/// An entry of the index page: a note's title and the path of its page.
pub open spec fn entry_view(e: (String, String)) -> (Seq<char>, Seq<char>) {
    (e.0@, e.1@)
}

/// The key an index entry is sorted by: its title, then its path's components.
pub open spec fn entry_key(e: (Seq<char>, Seq<char>)) -> (Seq<char>, Seq<(int, Seq<char>)>) {
    (e.0, components(e.1).map_values(|c: PathComponent| comp_key(c)))
}

/// Whether the key `x` comes before `y`: by title, then by path (the order
/// of `(&str, PathBuf)`).
pub open spec fn key_lt(x: (Seq<char>, Seq<(int, Seq<char>)>), y: (Seq<char>, Seq<(int, Seq<char>)>)) -> bool {
    chars_lt(x.0, y.0) || (x.0 == y.0 && comps_lt(x.1, y.1))
}

proof fn lemma_key_lt(
    x: (Seq<char>, Seq<(int, Seq<char>)>),
    y: (Seq<char>, Seq<(int, Seq<char>)>),
    z: (Seq<char>, Seq<(int, Seq<char>)>),
)
    ensures
        !(key_lt(x, y) && key_lt(y, x)),
        key_lt(x, y) && key_lt(y, z) ==> key_lt(x, z),
{
    lemma_chars_lt_asym(x.0, y.0);
    lemma_chars_lt_asym(x.0, x.0);
    lemma_comps_lt_asym(x.1, y.1);
    if key_lt(x, y) && key_lt(y, z) {
        if chars_lt(x.0, y.0) && chars_lt(y.0, z.0) {
            lemma_chars_lt_trans(x.0, y.0, z.0);
        }
        if x.0 == y.0 && y.0 == z.0 {
            lemma_comps_lt_trans(x.1, y.1, z.1);
        }
    }
}

/// Whether the entries `v` are in order: no entry's key comes before that of
/// an entry ahead of it.
pub open spec fn entries_sorted(v: Seq<(Seq<char>, Seq<char>)>) -> bool {
    forall|i: int, j: int|
        0 <= i < j < v.len() ==> !key_lt(entry_key(#[trigger] v[j]), entry_key(#[trigger] v[i]))
}

/// An index entry's sort key, held as plain values.
struct SortKey {
    title: Vec<char>,
    comps: Vec<(u8, Vec<char>)>,
}

spec fn sort_key_view(k: SortKey) -> (Seq<char>, Seq<(int, Seq<char>)>) {
    (k.title@, k.comps@.map_values(|c: (u8, Vec<char>)| (c.0 as int, c.1@)))
}

fn chars_lt_exec(a: &[char], b: &[char]) -> (r: bool)
    ensures
        r == chars_lt(a@, b@),
{
    let mut k: usize = 0;
    proof {
        assert(a@.subrange(0, a@.len() as int) =~= a@);
        assert(b@.subrange(0, b@.len() as int) =~= b@);
    }
    while k < a.len() && k < b.len() && a[k] == b[k]
        invariant
            k <= a@.len(),
            k <= b@.len(),
            chars_lt(a@, b@) == chars_lt(a@.subrange(k as int, a@.len() as int), b@.subrange(k as int, b@.len() as int)),
        decreases a@.len() - k,
    {
        proof {
            let ta = a@.subrange(k as int, a@.len() as int);
            let tb = b@.subrange(k as int, b@.len() as int);
            assert(ta.drop_first() =~= a@.subrange(k + 1, a@.len() as int));
            assert(tb.drop_first() =~= b@.subrange(k + 1, b@.len() as int));
        }
        k = k + 1;
    }
    if k == a.len() {
        k < b.len()
    } else if k == b.len() {
        false
    } else {
        a[k] < b[k]
    }
}

fn comps_lt_exec(a: &Vec<(u8, Vec<char>)>, b: &Vec<(u8, Vec<char>)>) -> (r: bool)
    ensures
        r == comps_lt(
            a@.map_values(|c: (u8, Vec<char>)| (c.0 as int, c.1@)),
            b@.map_values(|c: (u8, Vec<char>)| (c.0 as int, c.1@)),
        ),
{
    let ghost va = a@.map_values(|c: (u8, Vec<char>)| (c.0 as int, c.1@));
    let ghost vb = b@.map_values(|c: (u8, Vec<char>)| (c.0 as int, c.1@));
    let mut k: usize = 0;
    proof {
        assert(va.subrange(0, va.len() as int) =~= va);
        assert(vb.subrange(0, vb.len() as int) =~= vb);
    }
    while k < a.len() && k < b.len()
        invariant
            k <= a@.len(),
            k <= b@.len(),
            va == a@.map_values(|c: (u8, Vec<char>)| (c.0 as int, c.1@)),
            vb == b@.map_values(|c: (u8, Vec<char>)| (c.0 as int, c.1@)),
            comps_lt(va, vb) == comps_lt(va.subrange(k as int, va.len() as int), vb.subrange(k as int, vb.len() as int)),
        decreases a@.len() - k,
    {
        let ghost ta = va.subrange(k as int, va.len() as int);
        let ghost tb = vb.subrange(k as int, vb.len() as int);
        assert(ta[0] == va[k as int]);
        assert(tb[0] == vb[k as int]);
        let same = a[k].0 == b[k].0 && chars_eq(a[k].1.as_slice(), b[k].1.as_slice());
        if !same {
            let r = a[k].0 < b[k].0 || (a[k].0 == b[k].0 && chars_lt_exec(a[k].1.as_slice(), b[k].1.as_slice()));
            return r;
        }
        proof {
            assert(ta.drop_first() =~= va.subrange(k + 1, va.len() as int));
            assert(tb.drop_first() =~= vb.subrange(k + 1, vb.len() as int));
        }
        k = k + 1;
    }
    k == a.len() && k < b.len()
}

fn key_lt_exec(x: &SortKey, y: &SortKey) -> (r: bool)
    ensures
        r == key_lt(sort_key_view(*x), sort_key_view(*y)),
{
    if chars_lt_exec(x.title.as_slice(), y.title.as_slice()) {
        true
    } else if chars_eq(x.title.as_slice(), y.title.as_slice()) {
        comps_lt_exec(&x.comps, &y.comps)
    } else {
        false
    }
}

fn sort_key(title: &str, path: &str) -> (k: SortKey)
    ensures
        sort_key_view(k) == entry_key((title@, path@)),
{
    let s = chars_of(path);
    let cs = path_components(&s);
    let ghost cv = components(path@);
    let mut comps: Vec<(u8, Vec<char>)> = Vec::new();
    let mut j: usize = 0;
    while j < cs.len()
        invariant
            j <= cs@.len(),
            comps_wf(s@, cs@),
            comps_view(s@, cs@) == cv,
            s@ == path@,
            comps@.len() == j,
            forall|i: int| 0 <= i < j ==> ((#[trigger] comps@[i]).0 as int, comps@[i].1@) == comp_key(cv[i]),
        decreases cs@.len() - j,
    {
        assert(cv[j as int] == comp_view(s@, cs@[j as int]));
        assert(cs@[j as int].start <= cs@[j as int].end);
        assert(cs@[j as int].end <= s@.len());
        let c = match cs[j].kind {
            CompKind::RootDir => (0u8, Vec::new()),
            CompKind::CurDir => (1u8, Vec::new()),
            CompKind::ParentDir => (2u8, Vec::new()),
            CompKind::Normal => (3u8, slice_range(&s, cs[j].start, cs[j].end)),
        };
        proof {
            assert(c.1@ =~= comp_key(cv[j as int]).1);
        }
        comps.push(c);
        j = j + 1;
    }
    let k = SortKey { title: chars_of(title), comps };
    assert(sort_key_view(k).1 =~= entry_key((title@, path@)).1);
    k
}

/// Sorts `v` by title, then by path (what `sort_unstable` does to a list of
/// `(&str, PathBuf)`).
pub fn sort_entries(v: Vec<(String, String)>) -> (r: Vec<(String, String)>)
    ensures
        entries_sorted(r@.map_values(|e: (String, String)| entry_view(e))),
        r@.map_values(|e: (String, String)| entry_view(e)).to_multiset()
            == v@.map_values(|e: (String, String)| entry_view(e)).to_multiset(),
{
    broadcast use vstd::seq_lib::to_multiset_insert;
    broadcast use vstd::multiset::group_multiset_axioms;
    let ghost orig = v@.map_values(|e: (String, String)| entry_view(e));
    assert(Seq::<(Seq<char>, Seq<char>)>::empty().to_multiset().add(orig.to_multiset()) =~= orig.to_multiset()) by {
        broadcast use vstd::seq_lib::group_to_multiset_ensures;
    }
    let mut src = v;
    let mut out: Vec<(String, String)> = Vec::new();
    let mut keys: Vec<SortKey> = Vec::new();
    assert(out@.map_values(|e: (String, String)| entry_view(e)) =~= Seq::<(Seq<char>, Seq<char>)>::empty());
    while src.len() > 0
        invariant
            out@.len() == keys@.len(),
            forall|i: int| 0 <= i < keys@.len() ==> sort_key_view(#[trigger] keys@[i]) == entry_key(entry_view(out@[i])),
            entries_sorted(out@.map_values(|e: (String, String)| entry_view(e))),
            out@.map_values(|e: (String, String)| entry_view(e)).to_multiset().add(
                src@.map_values(|e: (String, String)| entry_view(e)).to_multiset(),
            ) == orig.to_multiset(),
        decreases src@.len(),
    {
        let ghost src_before = src@.map_values(|e: (String, String)| entry_view(e));
        let ghost out_before = out@.map_values(|e: (String, String)| entry_view(e));
        let e = src.pop().unwrap();
        let ghost sv = src@.map_values(|e: (String, String)| entry_view(e));
        proof {
            assert(src_before =~= sv.push(entry_view(e)));
            vstd::seq_lib::to_multiset_build(sv, entry_view(e));
        }
        let key = sort_key(e.0.as_str(), e.1.as_str());
        let ghost kx = sort_key_view(key);
        let mut p: usize = 0;
        while p < keys.len() && !key_lt_exec(&key, &keys[p])
            invariant
                p <= keys@.len(),
                kx == sort_key_view(key),
                out@.len() == keys@.len(),
                forall|i: int| 0 <= i < keys@.len() ==> sort_key_view(#[trigger] keys@[i]) == entry_key(entry_view(out@[i])),
                forall|i: int| 0 <= i < p ==> !key_lt(kx, #[trigger] sort_key_view(keys@[i])),
            decreases keys@.len() - p,
        {
            p = p + 1;
        }
        proof {
            assert forall|j: int| p <= j < out_before.len() implies !key_lt(entry_key(#[trigger] out_before[j]), kx) by {
                assert(key_lt(kx, sort_key_view(keys@[p as int])));
                assert(sort_key_view(keys@[j]) == entry_key(out_before[j]));
                if j > p as int {
                    assert(!key_lt(entry_key(out_before[j]), entry_key(out_before[p as int])));
                }
                lemma_key_lt(entry_key(out_before[j]), kx, sort_key_view(keys@[p as int]));
            }
            assert forall|i: int| 0 <= i < p implies !key_lt(kx, entry_key(#[trigger] out_before[i])) by {
                assert(sort_key_view(keys@[i]) == entry_key(out_before[i]));
            }
        }
        let ghost keys_before = keys@;
        let ghost out_raw = out@;
        out.insert(p, e);
        keys.insert(p, key);
        proof {
            let ov = out@.map_values(|e: (String, String)| entry_view(e));
            assert(ov =~= out_before.insert(p as int, entry_view(e)));
            vstd::seq_lib::to_multiset_insert(out_before, p as int, entry_view(e));
            assert(ov.to_multiset() == out_before.to_multiset().insert(entry_view(e)));
            assert(src_before.to_multiset() == sv.to_multiset().insert(entry_view(e)));
            assert(out_before.to_multiset().add(src_before.to_multiset()) == orig.to_multiset());
            assert(ov.to_multiset().add(sv.to_multiset()) =~= orig.to_multiset());
            assert(kx == entry_key(entry_view(e)));
            assert forall|i: int, j: int| 0 <= i < j < ov.len() implies !key_lt(
                entry_key(#[trigger] ov[j]),
                entry_key(#[trigger] ov[i]),
            ) by {
                if i < p && j < p {
                    assert(ov[i] == out_before[i] && ov[j] == out_before[j]);
                } else if i < p && j == p {
                    assert(ov[i] == out_before[i]);
                    lemma_key_lt(kx, entry_key(out_before[i]), kx);
                } else if i < p && j > p {
                    assert(ov[i] == out_before[i] && ov[j] == out_before[j - 1]);
                } else if i == p {
                    assert(ov[j] == out_before[j - 1]);
                } else {
                    assert(ov[i] == out_before[i - 1] && ov[j] == out_before[j - 1]);
                }
            }
            assert forall|i: int| 0 <= i < keys@.len() implies sort_key_view(#[trigger] keys@[i]) == entry_key(entry_view(out@[i])) by {
                if i < p {
                    assert(keys@[i] == keys_before[i] && out@[i] == out_raw[i]);
                } else if i > p {
                    assert(keys@[i] == keys_before[i - 1] && out@[i] == out_raw[i - 1]);
                }
            }
        }
    }
    assert(src@.map_values(|e: (String, String)| entry_view(e)) =~= Seq::empty());
    out
}

/// Whether a page at `html` is the index page, which is made apart: it is
/// the path `README.html` or `index.html`.
pub open spec fn is_index_page(html: Seq<char>) -> bool {
    components(html) == components("README.html"@) || components(html) == components("index.html"@)
}

/// Whether a page at `html` is the index page.
pub fn index_page(html: &str) -> (b: bool)
    ensures
        b == is_index_page(html@),
{
    same_path(html, "README.html") || same_path(html, "index.html")
}

/// The entries the index page lists, before sorting: the title and page
/// path of each note of `ns` whose page is not the index page.
pub open spec fn index_candidates(ns: Seq<Note>) -> Seq<(Seq<char>, Seq<char>)>
    decreases ns.len(),
{
    if ns.len() == 0 {
        Seq::empty()
    } else {
        let init = index_candidates(ns.drop_last());
        let h = spec_html_path(note_path(ns.last()));
        if is_index_page(h) {
            init
        } else {
            init.push((ns.last().title@, h))
        }
    }
}

/// The list of the index page: the title and page path of every note but
/// those whose page is the index page, sorted by title, then by path.
pub fn index_list(vault: &Vault) -> (r: Vec<(String, String)>)
    ensures
        entries_sorted(r@.map_values(|e: (String, String)| entry_view(e))),
        r@.map_values(|e: (String, String)| entry_view(e)).to_multiset()
            == index_candidates(vault.notes()).to_multiset(),
{
    let notes = vault.iter();
    let mut list: Vec<(String, String)> = Vec::new();
    let mut k: usize = 0;
    while k < notes.len()
        invariant
            k <= notes@.len(),
            list@.map_values(|e: (String, String)| entry_view(e)) == index_candidates(notes@.subrange(0, k as int)),
        decreases notes@.len() - k,
    {
        proof {
            let t = notes@.subrange(0, k + 1);
            assert(t.drop_last() =~= notes@.subrange(0, k as int));
            assert(t.last() == notes@[k as int]);
        }
        let h = html_path(notes[k].path().as_str());
        if !index_page(h.as_str()) {
            let ghost before = list@.map_values(|e: (String, String)| entry_view(e));
            list.push((notes[k].title.clone(), h));
            assert(list@.map_values(|e: (String, String)| entry_view(e)) =~= before.push(
                (notes@[k as int].title@, spec_html_path(note_path(notes@[k as int]))),
            ));
        }
        k = k + 1;
    }
    assert(notes@.subrange(0, notes@.len() as int) =~= notes@);
    sort_entries(list)
}

/// The index page lists exactly the notes that get a page of their own, in
/// the vault's order before sorting: each by its title and the path of its
/// page.
pub proof fn law_index_lists_every_page(ns: Seq<Note>)
    ensures
        index_candidates(ns) == paged_notes(ns).map_values(
            |n: Note| (n.title@, spec_html_path(note_path(n))),
        ),
    decreases ns.len(),
{
    if ns.len() > 0 {
        law_index_lists_every_page(ns.drop_last());
        let f = |n: Note| (n.title@, spec_html_path(note_path(n)));
        let init = paged_notes(ns.drop_last());
        assert(init.push(ns.last()).map_values(f) =~= init.map_values(f).push(f(ns.last())));
    } else {
        assert(paged_notes(ns).map_values(|n: Note| (n.title@, spec_html_path(note_path(n)))) =~= Seq::empty());
    }
}

/// The CommonMark extensions notes are rendered with: all of them.
pub const ALL_OPTIONS: u32 = 126;

impl Note {
    /// The note's content rendered to HTML, with links to other notes
    /// pointing at their pages.
    pub fn as_html(&self) -> (html: String)
        ensures
            html@ == rendered_html(self.content@, ALL_OPTIONS),
    {
        markdown_html(self.content.as_str(), ALL_OPTIONS)
    }
}

/// The id of the vault's `README.md`, whose page is the index page.
pub open spec fn readme_id() -> NoteId {
    NoteId(fnv_path_hash("README.md"@))
}

/// The body of the index page: the HTML of the vault's `README.md`, or
/// nothing when it has none.
pub fn index_body(vault: &Vault) -> (r: String)
    ensures
        r@ == match note_with_id(vault.notes(), readme_id()) {
            Some(n) => rendered_html(n.content@, ALL_OPTIONS),
            None => Seq::empty(),
        },
{
    let readme = NoteId::from_path("README.md");
    match vault.get(&readme) {
        Some(n) => n.as_html(),
        None => String::new(),
    }
}

/// The backlinks a page at `html` lists for the notes with ids `ids`: the
/// title of each such note other than `README.md`, with the path from the
/// page's directory to that note's page; none when such a path cannot be
/// made (the page has no parent directory, or one path is absolute and the
/// other is not).
pub open spec fn page_backlinks(ns: Seq<Note>, ids: Seq<NoteId>, html: Seq<char>) -> Option<
    Seq<(Seq<char>, Seq<char>)>,
>
    decreases ids.len(),
{
    if ids.len() == 0 {
        Some(Seq::empty())
    } else {
        match page_backlinks(ns, ids.drop_last(), html) {
            None => None,
            Some(init) => {
                let id = ids.last();
                if id == readme_id() {
                    Some(init)
                } else {
                    match note_with_id(ns, id) {
                        None => Some(init),
                        Some(n) => match spec_diff_from_parent(spec_html_path(note_path(n)), html) {
                            None => None,
                            Some(rel) => Some(init.push((n.title@, rel))),
                        },
                    }
                }
            },
        }
    }
}

/// What the page of a note shows: the note's title, the page's path, the
/// note's HTML, its backlinks (title and relative page path), the way back
/// to the site's root and the note's date in readable form.
pub struct SitePage {
    pub title: String,
    pub path: String,
    pub body: String,
    pub backlinks: Vec<(String, String)>,
    pub path_to_root: String,
    pub date: Option<String>,
}

/// Whether `p` is the page of the note `n` of the notes `ns`.
pub open spec fn is_site_page(p: SitePage, n: Note, ns: Seq<Note>) -> bool {
    let h = spec_html_path(note_path(n));
    &&& p.title@ == n.title@
    &&& p.path@ == h
    &&& p.body@ == rendered_html(n.content@, ALL_OPTIONS)
    &&& page_backlinks(ns, incoming(ns, n.id), h) == Some(
        p.backlinks@.map_values(|e: (String, String)| entry_view(e)),
    )
    &&& p.path_to_root@ == spec_path_to_root(h)
    &&& opt_chars(p.date) == match n.date {
        Some(d) => formatted_datetime(d, format_readable()),
        None => None,
    }
}

/// The notes of `ns` that get a page of their own, in order.
pub open spec fn paged_notes(ns: Seq<Note>) -> Seq<Note>
    decreases ns.len(),
{
    if ns.len() == 0 {
        Seq::empty()
    } else {
        let init = paged_notes(ns.drop_last());
        if is_index_page(spec_html_path(note_path(ns.last()))) {
            init
        } else {
            init.push(ns.last())
        }
    }
}

fn backlinks_of(vault: &Vault, ids: &Vec<NoteId>, html: &str) -> (r: Option<Vec<(String, String)>>)
    ensures
        match r {
            Some(v) => page_backlinks(vault.notes(), ids@, html@) == Some(
                v@.map_values(|e: (String, String)| entry_view(e)),
            ),
            None => page_backlinks(vault.notes(), ids@, html@) is None,
        },
{
    let readme = NoteId::from_path("README.md");
    let mut out: Vec<(String, String)> = Vec::new();
    let mut k: usize = 0;
    while k < ids.len()
        invariant
            k <= ids@.len(),
            readme == readme_id(),
            page_backlinks(vault.notes(), ids@.subrange(0, k as int), html@) == Some(
                out@.map_values(|e: (String, String)| entry_view(e)),
            ),
        decreases ids@.len() - k,
    {
        proof {
            let t = ids@.subrange(0, k + 1);
            assert(t.drop_last() =~= ids@.subrange(0, k as int));
            assert(t.last() == ids@[k as int]);
        }
        let id = ids[k];
        if id.0 != readme.0 {
            match vault.get(&id) {
                None => {},
                Some(n) => {
                    let other = html_path(n.path().as_str());
                    match diff_from_parent(other.as_str(), html) {
                        None => {
                            proof {
                                lemma_page_backlinks_none(vault.notes(), ids@, html@, k + 1);
                            }
                            return None;
                        },
                        Some(rel) => {
                            let ghost before = out@.map_values(|e: (String, String)| entry_view(e));
                            out.push((n.title.clone(), rel));
                            assert(out@.map_values(|e: (String, String)| entry_view(e)) =~= before.push(
                                (n.title@, rel@),
                            ));
                        },
                    }
                },
            }
        }
        k = k + 1;
    }
    assert(ids@.subrange(0, ids@.len() as int) =~= ids@);
    Some(out)
}

proof fn lemma_page_backlinks_none(ns: Seq<Note>, ids: Seq<NoteId>, html: Seq<char>, k: int)
    requires
        0 <= k <= ids.len(),
        page_backlinks(ns, ids.subrange(0, k), html) is None,
    ensures
        page_backlinks(ns, ids, html) is None,
    decreases ids.len() - k,
{
    if k < ids.len() {
        let t = ids.subrange(0, k + 1);
        assert(t.drop_last() =~= ids.subrange(0, k));
        lemma_page_backlinks_none(ns, ids, html, k + 1);
    } else {
        assert(ids.subrange(0, k) =~= ids);
    }
}

/// The page of the note `n` of `vault`.
pub fn site_page(vault: &Vault, n: &Note) -> (r: Option<SitePage>)
    requires
        vault.wf(),
    ensures
        match r {
            Some(p) => is_site_page(p, *n, vault.notes()),
            None => page_backlinks(
                vault.notes(),
                incoming(vault.notes(), n.id),
                spec_html_path(note_path(*n)),
            ) is None,
        },
{
    let h = html_path(n.path().as_str());
    let ids = vault.incoming_arcs(&n.id);
    let backlinks = match backlinks_of(vault, &ids, h.as_str()) {
        Some(b) => b,
        None => {
            return None;
        },
    };
    let date = match &n.date {
        Some(d) => to_readable(d),
        None => None,
    };
    Some(SitePage { title: n.title.clone(), path_to_root: path_to_root(h.as_str()), path: h, body: n.as_html(), backlinks, date })
}

/// The pages of the notes of `vault`, in order, but for those whose page is
/// the index page; none when some page cannot link to one of its backlinks.
pub fn site_pages(vault: &Vault) -> (r: Option<Vec<SitePage>>)
    requires
        vault.wf(),
    ensures
        match r {
            Some(ps) => ps@.len() == paged_notes(vault.notes()).len() && forall|i: int|
                0 <= i < ps@.len() ==> is_site_page(#[trigger] ps@[i], paged_notes(vault.notes())[i], vault.notes()),
            None => exists|i: int|
                0 <= i < paged_notes(vault.notes()).len() && page_backlinks(
                    vault.notes(),
                    incoming(vault.notes(), #[trigger] paged_notes(vault.notes())[i].id),
                    spec_html_path(note_path(paged_notes(vault.notes())[i])),
                ) is None,
        },
{
    let notes = vault.iter();
    let mut pages: Vec<SitePage> = Vec::new();
    let mut k: usize = 0;
    while k < notes.len()
        invariant
            vault.wf(),
            notes@ == vault.notes(),
            k <= notes@.len(),
            pages@.len() == paged_notes(notes@.subrange(0, k as int)).len(),
            forall|i: int|
                0 <= i < pages@.len() ==> is_site_page(
                    #[trigger] pages@[i],
                    paged_notes(notes@.subrange(0, k as int))[i],
                    notes@,
                ),
        decreases notes@.len() - k,
    {
        let ghost pre = notes@.subrange(0, k as int);
        proof {
            let t = notes@.subrange(0, k + 1);
            assert(t.drop_last() =~= pre);
            assert(t.last() == notes@[k as int]);
            lemma_paged_prefix(notes@, k as int);
        }
        let h = html_path(notes[k].path().as_str());
        if !index_page(h.as_str()) {
            match site_page(vault, &notes[k]) {
                Some(p) => {
                    pages.push(p);
                },
                None => {
                    proof {
                        lemma_paged_prefix(notes@, k + 1);
                        let i = paged_notes(pre).len() as int;
                        assert(paged_notes(notes@.subrange(0, k + 1))[i] == notes@[k as int]);
                        assert(paged_notes(notes@)[i] == notes@[k as int]);
                    }
                    return None;
                },
            }
        }
        k = k + 1;
    }
    assert(notes@.subrange(0, notes@.len() as int) =~= notes@);
    Some(pages)
}

proof fn lemma_paged_prefix(ns: Seq<Note>, k: int)
    requires
        0 <= k <= ns.len(),
    ensures
        paged_notes(ns.subrange(0, k)).len() <= paged_notes(ns).len(),
        forall|i: int|
            0 <= i < paged_notes(ns.subrange(0, k)).len() ==> #[trigger] paged_notes(ns)[i]
                == paged_notes(ns.subrange(0, k))[i],
    decreases ns.len() - k,
{
    if k < ns.len() {
        lemma_paged_prefix(ns, k + 1);
        let t = ns.subrange(0, k + 1);
        assert(t.drop_last() =~= ns.subrange(0, k));
    } else {
        assert(ns.subrange(0, k) =~= ns);
    }
}

/// The settings of a vault's site.
pub struct Config {
    /// The title of the vault.
    pub title: String,
    /// A description of the vault.
    pub description: Option<String>,
    /// How the site is styled.
    pub style: Option<StyleConfig>,
}

impl Default for Config {
    /// A vault titled "My vault", without description or styling.
    fn default() -> (r: Config)
        ensures
            r.title@ == "My vault"@,
            r.description is None,
            r.style is None,
    {
        Config { title: "My vault".to_string(), description: None, style: None }
    }
}

/// The styling of a vault's site: dark mode, additional CSS, and CSS
/// variables (each with its value when that is a text), in the order of
/// their names.
pub struct StyleConfig {
    pub dark_mode: Option<bool>,
    pub css: Option<String>,
    pub variables: Option<Vec<(String, Option<String>)>>,
}

/// Whether the site of `config` is in dark mode: it is unless its style
/// says otherwise.
pub open spec fn spec_dark_mode(config: Config) -> bool {
    match config.style {
        Some(s) => match s.dark_mode {
            Some(d) => d,
            None => true,
        },
        None => true,
    }
}

/// Whether the site of `config` is in dark mode.
pub fn dark_mode(config: &Config) -> (b: bool)
    ensures
        b == spec_dark_mode(*config),
{
    match &config.style {
        Some(s) => match s.dark_mode {
            Some(d) => d,
            None => true,
        },
        None => true,
    }
}

/// The CSS declarations of `vars` that have a text value, each marked important.
pub open spec fn important_lines(vars: Seq<(String, Option<String>)>) -> Seq<char>
    decreases vars.len(),
{
    if vars.len() == 0 {
        Seq::empty()
    } else {
        important_lines(vars.drop_last()) + match vars.last().1 {
            Some(v) => "--"@ + vars.last().0@ + ": "@ + v@ + " !important;\n"@,
            None => Seq::empty(),
        }
    }
}

/// The user CSS of `style`, with `additional` its additional CSS (the
/// content of the file it names, or the CSS itself); none when empty.
pub open spec fn spec_site_css(style: StyleConfig, additional: Option<Seq<char>>) -> Option<Seq<char>> {
    let vars = match style.variables {
        Some(vs) => ":root {\n"@ + important_lines(vs@) + "}"@,
        None => Seq::empty(),
    };
    let css = vars + match style.css {
        Some(_) => match additional {
            Some(a) => a,
            None => Seq::empty(),
        },
        None => Seq::empty(),
    };
    if css.len() == 0 {
        None
    } else {
        Some(css)
    }
}

impl StyleConfig {
    /// The user CSS, in UTF-8: a `:root` block with the variables that have
    /// text values, marked important, then the additional CSS, given as
    /// `additional` (the content of the file it names, or the CSS itself);
    /// none when that is empty.
    pub fn css_bytes(&self, additional: Option<String>) -> (r: Option<Vec<u8>>)
        ensures
            match r {
                Some(b) => spec_site_css(*self, opt_chars(additional)) matches Some(c) && b@
                    == vstd::utf8::encode_utf8(c),
                None => spec_site_css(*self, opt_chars(additional)) is None,
            },
    {
        let mut css: Vec<char> = Vec::new();
        match &self.variables {
            Some(vs) => {
                css = chars_of(":root {\n");
                let mut k: usize = 0;
                while k < vs.len()
                    invariant
                        k <= vs@.len(),
                        css@ == ":root {\n"@ + important_lines(vs@.subrange(0, k as int)),
                    decreases vs@.len() - k,
                {
                    proof {
                        let pre = vs@.subrange(0, k + 1);
                        assert(pre.drop_last() =~= vs@.subrange(0, k as int));
                        assert(pre.last() == vs@[k as int]);
                    }
                    let ghost before = css@;
                    match &vs[k].1 {
                        Some(v) => {
                            extend_chars(&mut css, &chars_of("--"));
                            extend_chars(&mut css, &chars_of(vs[k].0.as_str()));
                            extend_chars(&mut css, &chars_of(": "));
                            extend_chars(&mut css, &chars_of(v.as_str()));
                            extend_chars(&mut css, &chars_of(" !important;\n"));
                            assert(css@ =~= before + ("--"@ + vs@[k as int].0@ + ": "@ + v@
                                + " !important;\n"@));
                        },
                        None => {
                            assert(css@ =~= before + Seq::<char>::empty());
                        },
                    }
                    k = k + 1;
                }
                assert(vs@.subrange(0, vs@.len() as int) =~= vs@);
                extend_chars(&mut css, &chars_of("}"));
            },
            None => {
                assert(css@ =~= Seq::<char>::empty());
            },
        }
        let ghost vars = css@;
        match &self.css {
            Some(_) => match &additional {
                Some(a) => extend_chars(&mut css, &chars_of(a.as_str())),
                None => {
                    assert(css@ =~= vars + Seq::<char>::empty());
                },
            },
            None => {
                assert(css@ =~= vars + Seq::<char>::empty());
            },
        }
        if css.len() == 0 {
            None
        } else {
            Some(utf8_bytes(string_of(&css).as_str()))
        }
    }
}

} // verus!
