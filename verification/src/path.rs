//! Paths as the notes of a vault name them: `/`-separated strings.
//!
//! The component rules are those of `std::path::Path` on Unix: a leading `/`
//! is the root, empty segments and `.` segments vanish (except a `.` that
//! starts a relative path), `..` is the parent directory.

use vstd::prelude::*;


verus! {

/// One component of a path.
pub enum PathComponent {
    RootDir,
    CurDir,
    ParentDir,
    Normal(Seq<char>),
}

/// `s` split at every occurrence of `c` (what `str::split(c)` yields).
pub open spec fn split_char(s: Seq<char>, c: char) -> Seq<Seq<char>>
    decreases s.len(),
{
    if s.len() == 0 {
        seq![Seq::<char>::empty()]
    } else {
        let r = split_char(s.drop_last(), c);
        if s.last() == c {
            r.push(Seq::<char>::empty())
        } else {
            r.update(r.len() - 1, r.last().push(s.last()))
        }
    }
}

pub proof fn lemma_split_char_nonempty(s: Seq<char>, c: char)
    ensures
        split_char(s, c).len() >= 1,
    decreases s.len(),
{
    if s.len() > 0 {
        lemma_split_char_nonempty(s.drop_last(), c);
    }
}

/// The component a `/`-free segment stands for, if any.
pub open spec fn segment_component(seg: Seq<char>) -> Option<PathComponent> {
    if seg.len() == 0 || seg == seq!['.'] {
        None
    } else if seg == seq!['.', '.'] {
        Some(PathComponent::ParentDir)
    } else {
        Some(PathComponent::Normal(seg))
    }
}

/// The components that a list of segments stands for, in order.
pub open spec fn segment_components(segs: Seq<Seq<char>>) -> Seq<PathComponent>
    decreases segs.len(),
{
    if segs.len() == 0 {
        Seq::empty()
    } else {
        let init = segment_components(segs.drop_last());
        match segment_component(segs.last()) {
            Some(c) => init.push(c),
            None => init,
        }
    }
}

/// Whether `s` is an absolute path.
pub open spec fn is_absolute(s: Seq<char>) -> bool {
    s.len() > 0 && s[0] == '/'
}

/// The leading components: the root of an absolute path, the `.` that starts a relative one.
pub open spec fn head_components(s: Seq<char>, segs: Seq<Seq<char>>) -> Seq<PathComponent> {
    let root = if is_absolute(s) { seq![PathComponent::RootDir] } else { Seq::empty() };
    let cur = if segs.len() > 0 && segs[0] == seq!['.'] {
        seq![PathComponent::CurDir]
    } else {
        Seq::empty()
    };
    root + cur
}

/// The components of the path `s` (what `Path::components` yields).
pub open spec fn components(s: Seq<char>) -> Seq<PathComponent> {
    let segs = split_char(s, '/');
    head_components(s, segs) + segment_components(segs)
}

/// The text of a component.
pub open spec fn component_text(c: PathComponent) -> Seq<char> {
    match c {
        PathComponent::RootDir => seq!['/'],
        PathComponent::CurDir => seq!['.'],
        PathComponent::ParentDir => seq!['.', '.'],
        PathComponent::Normal(s) => s,
    }
}

/// `buf` with the path `p` pushed onto it (what `PathBuf::push` does).
pub open spec fn push_path(buf: Seq<char>, p: Seq<char>) -> Seq<char> {
    if is_absolute(p) {
        p
    } else if buf.len() == 0 || buf.last() == '/' {
        buf + p
    } else {
        buf + seq!['/'] + p
    }
}

/// The path made by pushing the components in order onto an empty path
/// (what collecting components into a `PathBuf` gives).
pub open spec fn join_components(cs: Seq<PathComponent>) -> Seq<char>
    decreases cs.len(),
{
    if cs.len() == 0 {
        Seq::empty()
    } else {
        push_path(join_components(cs.drop_last()), component_text(cs.last()))
    }
}

/// `n` parent-directory components.
pub open spec fn parents(n: nat) -> Seq<PathComponent> {
    Seq::new(n, |i: int| PathComponent::ParentDir)
}

/// The components of the way from `from` to `to`, given the components
/// `acc` already chosen; `None` when `from` climbs out through a `..`.
pub open spec fn diff_components(
    to: Seq<PathComponent>,
    from: Seq<PathComponent>,
    acc: Seq<PathComponent>,
) -> Option<Seq<PathComponent>>
    decreases to.len() + from.len(),
{
    if to.len() == 0 && from.len() == 0 {
        Some(acc)
    } else if from.len() == 0 {
        Some(acc + to)
    } else if to.len() == 0 {
        diff_components(to, from.drop_first(), acc.push(PathComponent::ParentDir))
    } else if acc.len() == 0 && to[0] == from[0] {
        diff_components(to.drop_first(), from.drop_first(), acc)
    } else if from[0] == PathComponent::CurDir {
        diff_components(to.drop_first(), from.drop_first(), acc.push(to[0]))
    } else if from[0] == PathComponent::ParentDir {
        None
    } else {
        Some(acc + parents(from.len()) + to)
    }
}

/// The relative path from `from` to `to`, as [`diff_paths`] computes it.
pub open spec fn spec_diff_paths(to: Seq<char>, from: Seq<char>) -> Option<Seq<char>> {
    if is_absolute(to) && !is_absolute(from) {
        Some(to)
    } else if !is_absolute(to) && is_absolute(from) {
        None
    } else {
        match diff_components(components(to), components(from), Seq::empty()) {
            Some(cs) => Some(join_components(cs)),
            None => None,
        }
    }
}


/// What kind of component a [`Comp`] is.
pub enum CompKind {
    RootDir,
    CurDir,
    ParentDir,
    Normal,
}

/// A component of a path held as character positions into the path.
pub struct Comp {
    pub kind: CompKind,
    pub start: usize,
    pub end: usize,
}

/// The component `c` stands for inside the path `s`.
pub open spec fn comp_view(s: Seq<char>, c: Comp) -> PathComponent {
    match c.kind {
        CompKind::RootDir => PathComponent::RootDir,
        CompKind::CurDir => PathComponent::CurDir,
        CompKind::ParentDir => PathComponent::ParentDir,
        CompKind::Normal => PathComponent::Normal(s.subrange(c.start as int, c.end as int)),
    }
}

/// The components the list `cs` stands for inside the path `s`.
pub open spec fn comps_view(s: Seq<char>, cs: Seq<Comp>) -> Seq<PathComponent> {
    cs.map_values(|c: Comp| comp_view(s, c))
}

/// Every position of `cs` lies inside `s`.
pub open spec fn comps_wf(s: Seq<char>, cs: Seq<Comp>) -> bool {
    forall|i: int| 0 <= i < cs.len() ==> #[trigger] cs[i].start <= cs[i].end <= s.len()
}

/// The components to add for the segment `s[a..b]`, with the `.` that starts a
/// relative path when `first`.
pub open spec fn segment_additions(s: Seq<char>, a: int, b: int, first: bool) -> Seq<PathComponent> {
    let seg = s.subrange(a, b);
    let cur = if first && seg == seq!['.'] {
        seq![PathComponent::CurDir]
    } else {
        Seq::empty()
    };
    match segment_component(seg) {
        Some(c) => cur.push(c),
        None => cur,
    }
}

fn push_comp(cs: &mut Vec<Comp>, kind: CompKind, start: usize, end: usize, Ghost(s): Ghost<Seq<char>>)
    requires
        start <= end <= s.len(),
        comps_wf(s, old(cs)@),
    ensures
        comps_wf(s, final(cs)@),
        final(cs)@ == old(cs)@.push(Comp { kind, start, end }),
{
    cs.push(Comp { kind, start, end });
}

fn push_segment(s: &[char], cs: &mut Vec<Comp>, a: usize, b: usize, first: bool)
    requires
        a <= b <= s@.len(),
        comps_wf(s@, old(cs)@),
    ensures
        comps_wf(s@, final(cs)@),
        comps_view(s@, final(cs)@) == comps_view(s@, old(cs)@) + segment_additions(
            s@,
            a as int,
            b as int,
            first,
        ),
{
    let ghost seg = s@.subrange(a as int, b as int);
    let len = b - a;
    let dot = len == 1 && s[a] == '.';
    let dotdot = len == 2 && s[a] == '.' && s[a + 1] == '.';
    proof {
        assert(seg.len() == len);
        if seg.len() >= 1 {
            assert(seg[0] == s@[a as int]);
        }
        if seg.len() >= 2 {
            assert(seg[1] == s@[a + 1]);
        }
        if dot {
            assert(seg =~= seq!['.']);
        }
        if dotdot {
            assert(seg =~= seq!['.', '.']);
        }
        if seg == seq!['.'] {
            assert(seg[0] == '.');
        }
        if seg == seq!['.', '.'] {
            assert(seg[0] == '.' && seg[1] == '.');
        }
        assert(dot == (seg == seq!['.']));
        assert(dotdot == (seg == seq!['.', '.']));
    }
    if first && dot {
        push_comp(cs, CompKind::CurDir, a, b, Ghost(s@));
    }
    if len == 0 || dot {
    } else if dotdot {
        push_comp(cs, CompKind::ParentDir, a, b, Ghost(s@));
    } else {
        push_comp(cs, CompKind::Normal, a, b, Ghost(s@));
    }
    assert(comps_view(s@, cs@) =~= comps_view(s@, old(cs)@) + segment_additions(
        s@,
        a as int,
        b as int,
        first,
    ));
}

proof fn lemma_head_components_grow(s: Seq<char>, done: Seq<Seq<char>>, seg: Seq<char>)
    ensures
        head_components(s, done.push(seg)) + segment_components(done.push(seg))
            == head_components(s, done) + segment_components(done) + segment_additions(
            seg,
            0,
            seg.len() as int,
            done.len() == 0,
        ),
{
    let d2 = done.push(seg);
    assert(d2.drop_last() =~= done);
    assert(seg.subrange(0, seg.len() as int) =~= seg);
    if done.len() == 0 {
        assert(d2[0] == seg);
    } else {
        assert(d2[0] == done[0]);
    }
    assert(head_components(s, d2) + segment_components(d2) =~= head_components(s, done)
        + segment_components(done) + segment_additions(
        seg,
        0,
        seg.len() as int,
        done.len() == 0,
    ));
}


proof fn lemma_split_char_step(s: Seq<char>, k: int, c: char)
    requires
        0 <= k < s.len(),
    ensures
        split_char(s.subrange(0, k + 1), c) == ({
            let r = split_char(s.subrange(0, k), c);
            if s[k] == c {
                r.push(Seq::<char>::empty())
            } else {
                r.update(r.len() - 1, r.last().push(s[k]))
            }
        }),
{
    let t = s.subrange(0, k + 1);
    assert(t.drop_last() =~= s.subrange(0, k));
    assert(t.last() == s[k]);
}

/// The components of the path `s`, as positions into `s`.
pub fn path_components(s: &[char]) -> (cs: Vec<Comp>)
    ensures
        comps_wf(s@, cs@),
        comps_view(s@, cs@) == components(s@),
{
    let n = s.len();
    let mut cs: Vec<Comp> = Vec::new();
    if n > 0 && s[0] == '/' {
        push_comp(&mut cs, CompKind::RootDir, 0, 0, Ghost(s@));
    }
    let ghost mut done: Seq<Seq<char>> = Seq::empty();
    let mut nsegs: usize = 0;
    let mut seg_start: usize = 0;
    let mut k: usize = 0;
    proof {
        assert(s@.subrange(0, 0) =~= Seq::<char>::empty());
        assert(s@.subrange(0, 0) =~= s@.subrange(0, 0));
        assert(split_char(Seq::<char>::empty(), '/') == seq![Seq::<char>::empty()]);
        assert(done.push(s@.subrange(0, 0)) =~= seq![Seq::<char>::empty()]);
        assert(comps_view(s@, cs@) =~= head_components(s@, done) + segment_components(done));
    }
    while k < n
        invariant
            n == s@.len(),
            seg_start <= k <= n,
            split_char(s@.subrange(0, k as int), '/') == done.push(
                s@.subrange(seg_start as int, k as int),
            ),
            nsegs == done.len(),
            nsegs <= k,
            comps_wf(s@, cs@),
            comps_view(s@, cs@) == head_components(s@, done) + segment_components(done),
        decreases n - k,
    {
        proof {
            lemma_split_char_step(s@, k as int, '/');
        }
        if s[k] == '/' {
            let ghost seg = s@.subrange(seg_start as int, k as int);
            push_segment(s, &mut cs, seg_start, k, nsegs == 0);
            proof {
                lemma_head_components_grow(s@, done, seg);
                assert(seg.subrange(0, seg.len() as int) =~= seg);
                assert(segment_additions(seg, 0, seg.len() as int, nsegs == 0)
                    == segment_additions(s@, seg_start as int, k as int, nsegs == 0));
                done = done.push(seg);
                assert(s@.subrange(k + 1, k + 1) =~= Seq::<char>::empty());
            }
            seg_start = k + 1;
            nsegs = nsegs + 1;
        } else {
            proof {
                assert(s@.subrange(seg_start as int, k + 1) =~= s@.subrange(
                    seg_start as int,
                    k as int,
                ).push(s@[k as int]));
            }
        }
        k = k + 1;
    }
    let ghost seg = s@.subrange(seg_start as int, n as int);
    push_segment(s, &mut cs, seg_start, n, nsegs == 0);
    proof {
        lemma_head_components_grow(s@, done, seg);
        assert(seg.subrange(0, seg.len() as int) =~= seg);
        assert(segment_additions(seg, 0, seg.len() as int, nsegs == 0) == segment_additions(
            s@,
            seg_start as int,
            n as int,
            nsegs == 0,
        ));
        assert(s@.subrange(0, n as int) =~= s@);
        // split_char(s) is done.push(seg): all its segments are accounted for
        assert(components(s@) == head_components(s@, done.push(seg)) + segment_components(
            done.push(seg),
        ));
    }
    cs
}


/// Whether `a[a0..a1]` and `b[b0..b1]` hold the same characters.
fn range_eq(a: &[char], a0: usize, a1: usize, b: &[char], b0: usize, b1: usize) -> (r: bool)
    requires
        a0 <= a1 <= a@.len(),
        b0 <= b1 <= b@.len(),
    ensures
        r == (a@.subrange(a0 as int, a1 as int) == b@.subrange(b0 as int, b1 as int)),
{
    if a1 - a0 != b1 - b0 {
        assert(a@.subrange(a0 as int, a1 as int).len() != b@.subrange(b0 as int, b1 as int).len());
        return false;
    }
    let len = a1 - a0;
    let mut k: usize = 0;
    while k < len
        invariant
            len == a1 - a0,
            len == b1 - b0,
            a0 <= a1 <= a@.len(),
            b0 <= b1 <= b@.len(),
            k <= len,
            forall|m: int|
                0 <= m < k ==> #[trigger] a@.subrange(a0 as int, a1 as int)[m] == b@.subrange(
                    b0 as int,
                    b1 as int,
                )[m],
        decreases len - k,
    {
        if a[a0 + k] != b[b0 + k] {
            assert(a@.subrange(a0 as int, a1 as int)[k as int] != b@.subrange(
                b0 as int,
                b1 as int,
            )[k as int]);
            return false;
        }
        k = k + 1;
    }
    assert(a@.subrange(a0 as int, a1 as int) =~= b@.subrange(b0 as int, b1 as int));
    true
}

/// Whether the components `ca` of `a` and `cb` of `b` are the same.
fn comp_eq(a: &[char], ca: &Comp, b: &[char], cb: &Comp) -> (r: bool)
    requires
        ca.start <= ca.end <= a@.len(),
        cb.start <= cb.end <= b@.len(),
    ensures
        r == (comp_view(a@, *ca) == comp_view(b@, *cb)),
{
    match (&ca.kind, &cb.kind) {
        (CompKind::RootDir, CompKind::RootDir) => true,
        (CompKind::CurDir, CompKind::CurDir) => true,
        (CompKind::ParentDir, CompKind::ParentDir) => true,
        (CompKind::Normal, CompKind::Normal) => range_eq(a, ca.start, ca.end, b, cb.start, cb.end),
        _ => false,
    }
}

fn copy_comp(c: &Comp) -> (r: Comp)
    ensures
        r == *c,
{
    let kind = match c.kind {
        CompKind::RootDir => CompKind::RootDir,
        CompKind::CurDir => CompKind::CurDir,
        CompKind::ParentDir => CompKind::ParentDir,
        CompKind::Normal => CompKind::Normal,
    };
    Comp { kind, start: c.start, end: c.end }
}

/// Appends `cs[from..]` to `acc`.
fn append_comps(acc: &mut Vec<Comp>, cs: &Vec<Comp>, from: usize, Ghost(s): Ghost<Seq<char>>)
    requires
        from <= cs@.len(),
        comps_wf(s, old(acc)@),
        comps_wf(s, cs@),
    ensures
        comps_wf(s, final(acc)@),
        final(acc)@ == old(acc)@ + cs@.skip(from as int),
{
    let mut k = from;
    while k < cs.len()
        invariant
            from <= k <= cs@.len(),
            comps_wf(s, cs@),
            comps_wf(s, acc@),
            acc@ == old(acc)@ + cs@.subrange(from as int, k as int),
        decreases cs@.len() - k,
    {
        let c = copy_comp(&cs[k]);
        push_comp(acc, c.kind, c.start, c.end, Ghost(s));
        k = k + 1;
        assert(acc@ =~= old(acc)@ + cs@.subrange(from as int, k as int));
    }
}

proof fn lemma_comps_view_skip(s: Seq<char>, cs: Seq<Comp>, i: int)
    requires
        0 <= i <= cs.len(),
    ensures
        comps_view(s, cs).skip(i) == comps_view(s, cs.skip(i)),
{
    assert(comps_view(s, cs).skip(i) =~= comps_view(s, cs.skip(i)));
}

/// The components of the way from the path `f` to the path `t`, as positions into `t`.
fn diff_comps(t: &[char], f: &[char]) -> (r: Option<Vec<Comp>>)
    ensures
        match r {
            Some(acc) => comps_wf(t@, acc@) && diff_components(
                components(t@),
                components(f@),
                Seq::empty(),
            ) == Some(comps_view(t@, acc@)),
            None => diff_components(components(t@), components(f@), Seq::empty()) is None,
        },
{
    let tc = path_components(t);
    let fc = path_components(f);
    diff_comp_lists(t, &tc, f, &fc)
}

/// The components of the way from the components `fc` of `f` to the
/// components `tc` of `t`, as positions into `t`.
fn diff_comp_lists(t: &[char], tc: &Vec<Comp>, f: &[char], fc: &Vec<Comp>) -> (r: Option<Vec<Comp>>)
    requires
        comps_wf(t@, tc@),
        comps_wf(f@, fc@),
    ensures
        match r {
            Some(acc) => comps_wf(t@, acc@) && diff_components(
                comps_view(t@, tc@),
                comps_view(f@, fc@),
                Seq::empty(),
            ) == Some(comps_view(t@, acc@)),
            None => diff_components(comps_view(t@, tc@), comps_view(f@, fc@), Seq::empty()) is None,
        },
{
    let ghost tv = comps_view(t@, tc@);
    let ghost fv = comps_view(f@, fc@);
    let mut acc: Vec<Comp> = Vec::new();
    let mut ti: usize = 0;
    let mut fi: usize = 0;
    proof {
        assert(tv.skip(0) =~= tv);
        assert(fv.skip(0) =~= fv);
        assert(comps_view(t@, acc@) =~= Seq::<PathComponent>::empty());
    }
    loop
        invariant
            tv == comps_view(t@, tc@),
            fv == comps_view(f@, fc@),
            comps_view(t@, tc@) == tv,
            comps_view(f@, fc@) == fv,
            comps_wf(t@, tc@),
            comps_wf(f@, fc@),
            comps_wf(t@, acc@),
            ti <= tc@.len(),
            fi <= fc@.len(),
            diff_components(tv.skip(ti as int), fv.skip(fi as int), comps_view(t@, acc@))
                == diff_components(tv, fv, Seq::empty()),
        decreases tc@.len() - ti + fc@.len() - fi,
    {
        let ghost rt = tv.skip(ti as int);
        let ghost rf = fv.skip(fi as int);
        let ghost av = comps_view(t@, acc@);
        proof {
            lemma_comps_view_skip(t@, tc@, ti as int);
            lemma_comps_view_skip(f@, fc@, fi as int);
        }
        assert(rt.len() == tc@.len() - ti);
        assert(rf.len() == fc@.len() - fi);
        if ti == tc.len() && fi == fc.len() {
            assert(diff_components(rt, rf, av) == Some(av));
            return Some(acc);
        } else if fi == fc.len() {
            append_comps(&mut acc, tc, ti, Ghost(t@));
            assert(comps_view(t@, acc@) =~= av + rt);
            assert(diff_components(rt, rf, av) == Some(av + rt));
            return Some(acc);
        } else if ti == tc.len() {
            push_comp(&mut acc, CompKind::ParentDir, 0, 0, Ghost(t@));
            proof {
                assert(rf.drop_first() =~= fv.skip(fi + 1));
                assert(comps_view(t@, acc@) =~= av.push(PathComponent::ParentDir));
            }
            fi = fi + 1;
        } else if acc.len() == 0 && {
            assert(tc@[ti as int].start <= tc@[ti as int].end <= t@.len());
            assert(fc@[fi as int].start <= fc@[fi as int].end <= f@.len());
            comp_eq(t, &tc[ti], f, &fc[fi])
        } {
            proof {
                assert(rt[0] == tv[ti as int]);
                assert(rf[0] == fv[fi as int]);
                assert(rt.drop_first() =~= tv.skip(ti + 1));
                assert(rf.drop_first() =~= fv.skip(fi + 1));
            }
            ti = ti + 1;
            fi = fi + 1;
        } else {
            proof {
                assert(rt[0] == tv[ti as int]);
                assert(rf[0] == fv[fi as int]);
                assert(rt.drop_first() =~= tv.skip(ti + 1));
                assert(rf.drop_first() =~= fv.skip(fi + 1));
            }
            match fc[fi].kind {
                CompKind::CurDir => {
                    let c = copy_comp(&tc[ti]);
                    push_comp(&mut acc, c.kind, c.start, c.end, Ghost(t@));
                    assert(comps_view(t@, acc@) =~= av.push(rt[0]));
                    ti = ti + 1;
                    fi = fi + 1;
                },
                CompKind::ParentDir => {
                    return None;
                },
                _ => {
                    let mut m = fi;
                    while m < fc.len()
                        invariant
                            fi <= m <= fc@.len(),
                            comps_wf(t@, acc@),
                            comps_view(t@, acc@) == av + parents((m - fi) as nat),
                        decreases fc@.len() - m,
                    {
                        let ghost before = comps_view(t@, acc@);
                        push_comp(&mut acc, CompKind::ParentDir, 0, 0, Ghost(t@));
                        assert(comps_view(t@, acc@) =~= before.push(PathComponent::ParentDir));
                        m = m + 1;
                        assert(comps_view(t@, acc@) =~= av + parents((m - fi) as nat));
                    }
                    let ghost av2 = comps_view(t@, acc@);
                    append_comps(&mut acc, tc, ti, Ghost(t@));
                    assert(comps_view(t@, acc@) =~= av2 + rt);
                    return Some(acc);
                },
            }
        }
    }
}

/// The text of the component `c` of the path `s`.
fn comp_chars(s: &[char], c: &Comp) -> (r: Vec<char>)
    requires
        c.start <= c.end <= s@.len(),
    ensures
        r@ == component_text(comp_view(s@, *c)),
{
    match c.kind {
        CompKind::RootDir => vec!['/'],
        CompKind::CurDir => vec!['.'],
        CompKind::ParentDir => vec!['.', '.'],
        CompKind::Normal => crate::text::slice_range(s, c.start, c.end),
    }
}

/// Pushes the path `p` onto `buf` (what `PathBuf::push` does).
fn push_path_chars(buf: &mut Vec<char>, p: &[char])
    ensures
        final(buf)@ == push_path(old(buf)@, p@),
{
    if p.len() > 0 && p[0] == '/' {
        *buf = crate::text::slice_range(p, 0, p.len());
        assert(buf@ =~= p@);
    } else if buf.len() == 0 || buf[buf.len() - 1] == '/' {
        crate::text::extend_chars(buf, p);
    } else {
        buf.push('/');
        crate::text::extend_chars(buf, p);
    }
}

/// The path made of the components `cs` of `s`.
fn join_comps(s: &[char], cs: &Vec<Comp>) -> (r: Vec<char>)
    requires
        comps_wf(s@, cs@),
    ensures
        r@ == join_components(comps_view(s@, cs@)),
{
    let mut r: Vec<char> = Vec::new();
    let mut k: usize = 0;
    while k < cs.len()
        invariant
            k <= cs@.len(),
            comps_wf(s@, cs@),
            r@ == join_components(comps_view(s@, cs@.subrange(0, k as int))),
        decreases cs@.len() - k,
    {
        let text = comp_chars(s, &cs[k]);
        push_path_chars(&mut r, &text);
        proof {
            let v = comps_view(s@, cs@.subrange(0, k + 1));
            assert(v.drop_last() =~= comps_view(s@, cs@.subrange(0, k as int)));
            assert(v.last() == comp_view(s@, cs@[k as int]));
        }
        k = k + 1;
    }
    assert(cs@.subrange(0, cs@.len() as int) =~= cs@);
    r
}

/// Returns a relative path from `from` to `to`.
///
/// If `to` is absolute but `from` is not, `to` itself is returned; if `from`
/// is absolute but `to` is not, there is none.
pub fn diff_paths(to: &str, from: &str) -> (r: Option<String>)
    ensures
        match r {
            Some(p) => spec_diff_paths(to@, from@) == Some(p@),
            None => spec_diff_paths(to@, from@) is None,
        },
{
    let t = crate::text::chars_of(to);
    let f = crate::text::chars_of(from);
    let to_abs = t.len() > 0 && t[0] == '/';
    let from_abs = f.len() > 0 && f[0] == '/';
    if to_abs && !from_abs {
        return Some(crate::text::string_of(&t));
    }
    if !to_abs && from_abs {
        return None;
    }
    match diff_comps(&t, &f) {
        Some(cs) => {
            let joined = join_comps(&t, &cs);
            Some(crate::text::string_of(&joined))
        },
        None => None,
    }
}


proof fn lemma_diff_common_prefix(p: Seq<PathComponent>, to: Seq<PathComponent>, from: Seq<PathComponent>)
    ensures
        diff_components(p + to, p + from, Seq::empty()) == diff_components(to, from, Seq::empty()),
    decreases p.len(),
{
    if p.len() > 0 {
        let t2 = p + to;
        let f2 = p + from;
        assert(t2[0] == p[0]);
        assert(f2[0] == p[0]);
        assert(t2.drop_first() =~= p.drop_first() + to);
        assert(f2.drop_first() =~= p.drop_first() + from);
        lemma_diff_common_prefix(p.drop_first(), to, from);
    } else {
        assert(p + to =~= to);
        assert(p + from =~= from);
    }
}

proof fn lemma_diff_climb(rest: Seq<PathComponent>, acc: Seq<PathComponent>)
    ensures
        diff_components(Seq::empty(), rest, acc) == Some(acc + parents(rest.len())),
    decreases rest.len(),
{
    if rest.len() > 0 {
        lemma_diff_climb(rest.drop_first(), acc.push(PathComponent::ParentDir));
        assert(acc.push(PathComponent::ParentDir) + parents(rest.drop_first().len()) =~= acc
            + parents(rest.len()));
    } else {
        assert(acc + parents(0) =~= acc);
    }
}

proof fn lemma_segment_components_no_root(segs: Seq<Seq<char>>)
    ensures
        forall|i: int|
            0 <= i < segment_components(segs).len() ==> segment_components(segs)[i]
                != PathComponent::RootDir,
    decreases segs.len(),
{
    if segs.len() > 0 {
        lemma_segment_components_no_root(segs.drop_last());
    }
}

/// An absolute path is one whose components start at the root.
proof fn lemma_absolute_root(s: Seq<char>)
    ensures
        is_absolute(s) <==> (components(s).len() > 0 && components(s)[0]
            == PathComponent::RootDir),
{
    let segs = split_char(s, '/');
    lemma_segment_components_no_root(segs);
    let h = head_components(s, segs);
    let sc = segment_components(segs);
    if !is_absolute(s) && components(s).len() > 0 {
        if h.len() > 0 {
            assert(components(s)[0] == h[0]);
        } else {
            assert(components(s)[0] == sc[0]);
        }
    }
}

/// A path reaches itself by the empty path.
pub proof fn law_diff_paths_identity(p: Seq<char>)
    ensures
        spec_diff_paths(p, p) == Some(Seq::<char>::empty()),
{
    lemma_diff_common_prefix(components(p), Seq::empty(), Seq::empty());
    assert(components(p) + Seq::<PathComponent>::empty() =~= components(p));
}

/// When `to` lies below `from` (the components of `from` begin those of
/// `to`), the way from `from` to `to` is the rest of `to`.
pub proof fn law_diff_paths_descendant(to: Seq<char>, from: Seq<char>, rest: Seq<PathComponent>)
    requires
        components(to) == components(from) + rest,
        components(from).len() > 0,
    ensures
        spec_diff_paths(to, from) == Some(join_components(rest)),
{
    lemma_absolute_root(to);
    lemma_absolute_root(from);
    assert(components(to)[0] == components(from)[0]);
    lemma_diff_common_prefix(components(from), rest, Seq::empty());
    assert(components(from) + Seq::<PathComponent>::empty() =~= components(from));
    assert(Seq::<PathComponent>::empty() + rest =~= rest);
}

/// When `from` lies below `to`, the way from `from` to `to` climbs one `..`
/// for each component of `from` beyond `to`.
pub proof fn law_diff_paths_ancestor(to: Seq<char>, from: Seq<char>, rest: Seq<PathComponent>)
    requires
        components(from) == components(to) + rest,
        components(to).len() > 0,
    ensures
        spec_diff_paths(to, from) == Some(join_components(parents(rest.len()))),
{
    lemma_absolute_root(to);
    lemma_absolute_root(from);
    assert(components(from)[0] == components(to)[0]);
    lemma_diff_common_prefix(components(to), Seq::empty(), rest);
    assert(components(to) + Seq::<PathComponent>::empty() =~= components(to));
    lemma_diff_climb(rest, Seq::empty());
    assert(Seq::<PathComponent>::empty() + parents(rest.len()) =~= parents(rest.len()));
}


/// Whether every component of `cs` is a name.
pub open spec fn all_normal(cs: Seq<PathComponent>) -> bool {
    forall|i: int| 0 <= i < cs.len() ==> (#[trigger] cs[i]) is Normal
}

/// How many components `a` and `b` have in common at their beginning.
pub open spec fn common_prefix_len(a: Seq<PathComponent>, b: Seq<PathComponent>) -> nat
    decreases a.len(),
{
    if a.len() > 0 && b.len() > 0 && a[0] == b[0] {
        1 + common_prefix_len(a.drop_first(), b.drop_first())
    } else {
        0
    }
}

/// The components `cs` followed from `base` and normalised lexically: a
/// `..` cancels the name before it, anything else is added.
pub open spec fn normalize_onto(base: Seq<PathComponent>, cs: Seq<PathComponent>) -> Seq<PathComponent>
    decreases cs.len(),
{
    if cs.len() == 0 {
        base
    } else {
        let next = if cs[0] == PathComponent::ParentDir && base.len() > 0 && base.last() is Normal {
            base.drop_last()
        } else {
            base.push(cs[0])
        };
        normalize_onto(next, cs.drop_first())
    }
}

proof fn lemma_common_prefix(a: Seq<PathComponent>, b: Seq<PathComponent>)
    ensures
        common_prefix_len(a, b) <= a.len(),
        common_prefix_len(a, b) <= b.len(),
        a.subrange(0, common_prefix_len(a, b) as int) == b.subrange(0, common_prefix_len(a, b) as int),
    decreases a.len(),
{
    let p = common_prefix_len(a, b);
    if a.len() > 0 && b.len() > 0 && a[0] == b[0] {
        lemma_common_prefix(a.drop_first(), b.drop_first());
        assert(a.subrange(0, p as int) =~= seq![a[0]] + a.drop_first().subrange(0, p - 1));
        assert(b.subrange(0, p as int) =~= seq![b[0]] + b.drop_first().subrange(0, p - 1));
    } else {
        assert(a.subrange(0, 0) =~= b.subrange(0, 0));
    }
}

proof fn lemma_diff_names(to: Seq<PathComponent>, from: Seq<PathComponent>)
    requires
        all_normal(to),
        all_normal(from),
    ensures
        common_prefix_len(to, from) <= to.len(),
        common_prefix_len(to, from) <= from.len(),
        diff_components(to, from, Seq::empty()) == Some(
            parents((from.len() - common_prefix_len(to, from)) as nat) + to.subrange(
                common_prefix_len(to, from) as int,
                to.len() as int,
            ),
        ),
    decreases to.len(),
{
    lemma_common_prefix(to, from);
    let p = common_prefix_len(to, from);
    if to.len() > 0 && from.len() > 0 && to[0] == from[0] {
        let t2 = to.drop_first();
        let f2 = from.drop_first();
        assert forall|i: int| 0 <= i < t2.len() implies (#[trigger] t2[i]) is Normal by {
            assert(t2[i] == to[i + 1]);
        }
        assert forall|i: int| 0 <= i < f2.len() implies (#[trigger] f2[i]) is Normal by {
            assert(f2[i] == from[i + 1]);
        }
        lemma_diff_names(t2, f2);
        assert(p == 1 + common_prefix_len(t2, f2));
        assert(diff_components(to, from, Seq::empty()) == diff_components(t2, f2, Seq::empty()));
        assert(t2.subrange(p - 1, t2.len() as int) =~= to.subrange(p as int, to.len() as int));
        assert(f2.len() - common_prefix_len(t2, f2) == from.len() - p);
    } else if to.len() == 0 && from.len() == 0 {
        assert(parents(0) + to.subrange(0, 0) =~= Seq::<PathComponent>::empty());
    } else if from.len() == 0 {
        assert(parents(0) + to.subrange(0, to.len() as int) =~= Seq::<PathComponent>::empty() + to);
    } else if to.len() == 0 {
        assert(to =~= Seq::<PathComponent>::empty());
        lemma_diff_climb(from, Seq::empty());
        assert(Seq::<PathComponent>::empty() + parents(from.len()) =~= parents(from.len()) + to.subrange(0, 0));
    } else {
        assert(from[0] is Normal);
        assert(p == 0);
        assert(diff_components(to, from, Seq::empty()) == Some(Seq::<PathComponent>::empty() + parents(from.len()) + to));
        assert(Seq::<PathComponent>::empty() + parents(from.len()) + to =~= parents(from.len())
            + to.subrange(0, to.len() as int));
    }
}

proof fn lemma_normalize_append(base: Seq<PathComponent>, a: Seq<PathComponent>, b: Seq<PathComponent>)
    ensures
        normalize_onto(base, a + b) == normalize_onto(normalize_onto(base, a), b),
    decreases a.len(),
{
    if a.len() == 0 {
        assert(a + b =~= b);
    } else {
        assert((a + b)[0] == a[0]);
        assert((a + b).drop_first() =~= a.drop_first() + b);
        let next = if a[0] == PathComponent::ParentDir && base.len() > 0 && base.last() is Normal {
            base.drop_last()
        } else {
            base.push(a[0])
        };
        lemma_normalize_append(next, a.drop_first(), b);
    }
}

proof fn lemma_normalize_climb(base: Seq<PathComponent>, m: nat)
    requires
        all_normal(base),
        m <= base.len(),
    ensures
        normalize_onto(base, parents(m)) == base.subrange(0, base.len() - m),
    decreases m,
{
    if m == 0 {
        assert(base.subrange(0, base.len() as int) =~= base);
    } else {
        assert(parents(m)[0] == PathComponent::ParentDir);
        assert(base.last() == base[base.len() - 1]);
        assert(parents(m).drop_first() =~= parents((m - 1) as nat));
        let b2 = base.drop_last();
        assert forall|i: int| 0 <= i < b2.len() implies (#[trigger] b2[i]) is Normal by {
            assert(b2[i] == base[i]);
        }
        lemma_normalize_climb(b2, (m - 1) as nat);
        assert(b2.subrange(0, b2.len() - (m - 1)) =~= base.subrange(0, base.len() - m));
    }
}

proof fn lemma_normalize_names(base: Seq<PathComponent>, t: Seq<PathComponent>)
    requires
        all_normal(t),
    ensures
        normalize_onto(base, t) == base + t,
    decreases t.len(),
{
    if t.len() == 0 {
        assert(base + t =~= base);
    } else {
        assert(t[0] is Normal);
        let t2 = t.drop_first();
        assert forall|i: int| 0 <= i < t2.len() implies (#[trigger] t2[i]) is Normal by {
            assert(t2[i] == t[i + 1]);
        }
        lemma_normalize_names(base.push(t[0]), t2);
        assert(base.push(t[0]) + t2 =~= base + t);
    }
}

/// Whether the component `c` reads back as itself once written: a `..`, or a
/// name that is not empty, not `.` or `..`, and holds no `/`.
pub open spec fn plain_component(c: PathComponent) -> bool {
    match c {
        PathComponent::ParentDir => true,
        PathComponent::Normal(s) => s.len() > 0 && s != seq!['.'] && s != seq!['.', '.'] && !s.contains('/'),
        _ => false,
    }
}

/// The texts of the components `cs`, in order.
pub open spec fn component_texts(cs: Seq<PathComponent>) -> Seq<Seq<char>> {
    Seq::new(cs.len(), |i: int| component_text(cs[i]))
}

proof fn lemma_split_plain(seg: Seq<char>, c: char)
    requires
        !seg.contains(c),
    ensures
        split_char(seg, c) == seq![seg],
    decreases seg.len(),
{
    if seg.len() > 0 {
        let init = seg.drop_last();
        assert(!init.contains(c)) by {
            if init.contains(c) {
                let i = choose|i: int| 0 <= i < init.len() && init[i] == c;
                assert(seg[i] == c);
            }
        }
        lemma_split_plain(init, c);
        assert(seg.last() == seg[seg.len() - 1]);
        assert(init.push(seg.last()) =~= seg);
    } else {
        assert(seg =~= Seq::<char>::empty());
    }
}

proof fn lemma_split_after_sep(a: Seq<char>, seg: Seq<char>, c: char)
    requires
        !seg.contains(c),
    ensures
        split_char(a + seq![c] + seg, c) == split_char(a, c).push(seg),
    decreases seg.len(),
{
    let s = a + seq![c] + seg;
    if seg.len() == 0 {
        assert(s.drop_last() =~= a);
        assert(s.last() == c);
        assert(seg =~= Seq::<char>::empty());
    } else {
        let init = seg.drop_last();
        assert(!init.contains(c)) by {
            if init.contains(c) {
                let i = choose|i: int| 0 <= i < init.len() && init[i] == c;
                assert(seg[i] == c);
            }
        }
        lemma_split_after_sep(a, init, c);
        assert(s.drop_last() =~= a + seq![c] + init);
        assert(s.last() == seg[seg.len() - 1]);
        assert(seg.last() != c);
        lemma_split_char_nonempty(a, c);
        assert(init.push(seg.last()) =~= seg);
        assert(split_char(s, c) =~= split_char(a, c).push(seg));
    }
}

proof fn lemma_split_joined(cs: Seq<PathComponent>)
    requires
        cs.len() > 0,
        forall|i: int| 0 <= i < cs.len() ==> plain_component(#[trigger] cs[i]),
    ensures
        split_char(join_components(cs), '/') == component_texts(cs),
        join_components(cs).len() > 0,
        join_components(cs)[0] != '/',
        join_components(cs).last() != '/',
    decreases cs.len(),
{
    let x = cs.last();
    assert(plain_component(cs[cs.len() - 1]));
    let t = component_text(x);
    assert(t.len() > 0 && !t.contains('/') && t.last() == t[t.len() - 1]);
    assert(t[0] != '/');
    let init = cs.drop_last();
    if init.len() == 0 {
        assert(join_components(init) =~= Seq::<char>::empty());
        assert(join_components(cs) =~= t);
        lemma_split_plain(t, '/');
        assert(component_texts(cs) =~= seq![t]);
    } else {
        assert forall|i: int| 0 <= i < init.len() implies plain_component(#[trigger] init[i]) by {
            assert(init[i] == cs[i]);
        }
        lemma_split_joined(init);
        let j = join_components(init);
        assert(join_components(cs) == j + seq!['/'] + t);
        lemma_split_after_sep(j, t, '/');
        assert(component_texts(cs) =~= component_texts(init).push(t));
        assert((j + seq!['/'] + t)[0] == j[0]);
        assert((j + seq!['/'] + t).last() == t.last());
    }
}

proof fn lemma_segments_of_texts(cs: Seq<PathComponent>)
    requires
        forall|i: int| 0 <= i < cs.len() ==> plain_component(#[trigger] cs[i]),
    ensures
        segment_components(component_texts(cs)) == cs,
    decreases cs.len(),
{
    if cs.len() > 0 {
        let init = cs.drop_last();
        assert forall|i: int| 0 <= i < init.len() implies plain_component(#[trigger] init[i]) by {
            assert(init[i] == cs[i]);
        }
        lemma_segments_of_texts(init);
        assert(component_texts(cs).drop_last() =~= component_texts(init));
        assert(plain_component(cs[cs.len() - 1]));
        assert(component_texts(cs).last() == component_text(cs.last()));
        assert(init.push(cs.last()) =~= cs);
    } else {
        assert(component_texts(cs) =~= Seq::<Seq<char>>::empty());
        assert(cs =~= Seq::<PathComponent>::empty());
    }
}

proof fn lemma_split_pieces_plain(s: Seq<char>, c: char)
    ensures
        forall|i: int| 0 <= i < split_char(s, c).len() ==> !(#[trigger] split_char(s, c)[i]).contains(c),
    decreases s.len(),
{
    if s.len() > 0 {
        let r = split_char(s.drop_last(), c);
        lemma_split_pieces_plain(s.drop_last(), c);
        lemma_split_char_nonempty(s.drop_last(), c);
        if s.last() != c {
            let l = r.last().push(s.last());
            assert(!l.contains(c)) by {
                if l.contains(c) {
                    let k = choose|k: int| 0 <= k < l.len() && l[k] == c;
                    if k < l.len() - 1 {
                        assert(r.last()[k] == c);
                        assert(r[r.len() - 1].contains(c));
                    }
                }
            }
            assert forall|i: int| 0 <= i < split_char(s, c).len() implies !(#[trigger] split_char(s, c)[i]).contains(c) by {
                if i < r.len() - 1 {
                    assert(split_char(s, c)[i] == r[i]);
                }
            }
        } else {
            assert forall|i: int| 0 <= i < split_char(s, c).len() implies !(#[trigger] split_char(s, c)[i]).contains(c) by {
                if i < r.len() {
                    assert(split_char(s, c)[i] == r[i]);
                } else {
                    assert(split_char(s, c)[i] =~= Seq::<char>::empty());
                }
            }
        }
    }
}

proof fn lemma_segment_components_plain(segs: Seq<Seq<char>>)
    requires
        forall|i: int| 0 <= i < segs.len() ==> !(#[trigger] segs[i]).contains('/'),
    ensures
        forall|i: int| 0 <= i < segment_components(segs).len() ==> plain_component(#[trigger] segment_components(segs)[i]),
    decreases segs.len(),
{
    if segs.len() > 0 {
        let init = segs.drop_last();
        assert forall|i: int| 0 <= i < init.len() implies !(#[trigger] init[i]).contains('/') by {
            assert(init[i] == segs[i]);
        }
        lemma_segment_components_plain(init);
        assert(!segs[segs.len() - 1].contains('/'));
        assert(segs.last() == segs[segs.len() - 1]);
        let isc = segment_components(init);
        let sc = segment_components(segs);
        match segment_component(segs.last()) {
            Some(c) => {
                assert(plain_component(c));
                assert forall|i: int| 0 <= i < sc.len() implies plain_component(#[trigger] sc[i]) by {
                    if i < isc.len() {
                        assert(sc[i] == isc[i]);
                    }
                }
            },
            None => {
                assert(sc == isc);
            },
        }
    }
}

proof fn lemma_names_plain(p: Seq<char>)
    requires
        all_normal(components(p)),
    ensures
        forall|i: int| 0 <= i < components(p).len() ==> plain_component(#[trigger] components(p)[i]),
{
    let segs = split_char(p, '/');
    let h = head_components(p, segs);
    let sc = segment_components(segs);
    lemma_split_pieces_plain(p, '/');
    lemma_segment_components_plain(segs);
    assert forall|i: int| 0 <= i < components(p).len() implies plain_component(#[trigger] components(p)[i]) by {
        assert(components(p)[i] is Normal);
        if i < h.len() {
            assert(components(p)[i] == h[i]);
        } else {
            assert(components(p)[i] == sc[i - h.len()]);
        }
    }
}

/// Components that read back as themselves, written out as a path, read back
/// as the same components.
pub proof fn law_join_components_reads_back(cs: Seq<PathComponent>)
    requires
        forall|i: int| 0 <= i < cs.len() ==> plain_component(#[trigger] cs[i]),
    ensures
        components(join_components(cs)) == cs,
{
    let j = join_components(cs);
    if cs.len() == 0 {
        assert(j =~= Seq::<char>::empty());
        assert(split_char(j, '/') =~= seq![Seq::<char>::empty()]);
        let e: Seq<Seq<char>> = seq![Seq::<char>::empty()];
        assert(e.drop_last() =~= Seq::<Seq<char>>::empty());
        assert(e.last() == Seq::<char>::empty());
        assert(segment_component(e.last()) is None);
        assert(segment_components(e.drop_last()) =~= Seq::<PathComponent>::empty());
        assert(segment_components(e) =~= Seq::<PathComponent>::empty());
        assert(head_components(j, split_char(j, '/')) =~= Seq::<PathComponent>::empty());
        assert(components(j) =~= cs);
    } else {
        lemma_split_joined(cs);
        lemma_segments_of_texts(cs);
        let segs = split_char(j, '/');
        assert(segs[0] == component_text(cs[0]));
        assert(plain_component(cs[0]));
        assert(segs[0] != seq!['.']);
        assert(head_components(j, segs) =~= Seq::<PathComponent>::empty());
        assert(components(j) =~= cs);
    }
}

/// Between relative paths made of names only, the way from `from` to `to`
/// climbs one `..` for each component of `from` past their common beginning
/// and then names the rest of `to`; the path it gives reads back as exactly
/// those components, and they, followed from `from` and normalised (each `..`
/// cancelling the name before it), lead back to `to`.
pub proof fn law_diff_paths_rejoins(to: Seq<char>, from: Seq<char>) -> (cs: Seq<PathComponent>)
    requires
        all_normal(components(to)),
        all_normal(components(from)),
    ensures
        spec_diff_paths(to, from) == Some(join_components(cs)),
        cs == parents(
            (components(from).len() - common_prefix_len(components(to), components(from))) as nat,
        ) + components(to).subrange(
            common_prefix_len(components(to), components(from)) as int,
            components(to).len() as int,
        ),
        normalize_onto(components(from), cs) == components(to),
        components(join_components(cs)) == cs,
{
    let tc = components(to);
    let fc = components(from);
    lemma_absolute_root(to);
    lemma_absolute_root(from);
    if is_absolute(to) {
        assert(tc[0] is Normal);
    }
    if is_absolute(from) {
        assert(fc[0] is Normal);
    }
    lemma_diff_names(tc, fc);
    lemma_common_prefix(tc, fc);
    let p = common_prefix_len(tc, fc);
    let m = (fc.len() - p) as nat;
    let rest = tc.subrange(p as int, tc.len() as int);
    let cs = parents(m) + rest;
    lemma_normalize_append(fc, parents(m), rest);
    lemma_normalize_climb(fc, m);
    assert forall|i: int| 0 <= i < rest.len() implies (#[trigger] rest[i]) is Normal by {
        assert(rest[i] == tc[p + i]);
    }
    lemma_normalize_names(fc.subrange(0, fc.len() - m), rest);
    assert(fc.subrange(0, fc.len() - m) + rest =~= tc);
    lemma_names_plain(to);
    assert forall|i: int| 0 <= i < cs.len() implies plain_component(#[trigger] cs[i]) by {
        if i < m {
            assert(cs[i] == PathComponent::ParentDir);
        } else {
            assert(cs[i] == tc[p + i - m]);
        }
    }
    law_join_components_reads_back(cs);
    cs
}

/// The components of the parent of a path with components `cs`
/// (what `Path::parent` gives), when it has one.
pub open spec fn parent_components(cs: Seq<PathComponent>) -> Option<Seq<PathComponent>> {
    if cs.len() > 0 && cs.last() != PathComponent::RootDir {
        Some(cs.drop_last())
    } else {
        None
    }
}

/// The number of named (normal) components in `cs`.
pub open spec fn count_normal(cs: Seq<PathComponent>) -> nat
    decreases cs.len(),
{
    if cs.len() == 0 {
        0
    } else {
        count_normal(cs.drop_last()) + if cs.last() is Normal {
            1nat
        } else {
            0nat
        }
    }
}

/// `s` written `n` times.
pub open spec fn repeat(s: Seq<char>, n: nat) -> Seq<char>
    decreases n,
{
    if n == 0 {
        Seq::empty()
    } else {
        repeat(s, (n - 1) as nat) + s
    }
}

/// The relative path that climbs from the directory holding `s` to the root of `s`.
pub open spec fn spec_path_to_root(s: Seq<char>) -> Seq<char> {
    let depth = match parent_components(components(s)) {
        Some(p) => count_normal(p),
        None => 0,
    };
    if depth == 0 {
        seq!['.', '/']
    } else {
        repeat(seq!['.', '.', '/'], depth)
    }
}

/// Takes a path and returns a string containing just enough `../` to point to
/// the root of the given path.
pub fn path_to_root(path: &str) -> (r: String)
    ensures
        r@ == spec_path_to_root(path@),
{
    let s = crate::text::chars_of(path);
    let cs = path_components(&s);
    let ghost cv = components(s@);
    let mut depth: usize = 0;
    let mut out: Vec<char> = Vec::new();
    if cs.len() > 0 {
        let last = cs.len() - 1;
        let is_root = match cs[last].kind {
            CompKind::RootDir => true,
            _ => false,
        };
        assert(cv.last() == comp_view(s@, cs@[last as int]));
        if !is_root {
            let mut k: usize = 0;
            while k < last
                invariant
                    last < cs@.len(),
                    cv == comps_view(s@, cs@),
                    k <= last,
                    depth == count_normal(cv.subrange(0, k as int)),
                    depth <= k,
                    out@ == repeat(seq!['.', '.', '/'], depth as nat),
                decreases last - k,
            {
                let normal = match cs[k].kind {
                    CompKind::Normal => true,
                    _ => false,
                };
                proof {
                    assert(cv.subrange(0, k + 1).drop_last() =~= cv.subrange(0, k as int));
                    assert(cv.subrange(0, k + 1).last() == comp_view(s@, cs@[k as int]));
                }
                if normal {
                    out.push('.');
                    out.push('.');
                    out.push('/');
                    depth = depth + 1;
                    assert(out@ =~= repeat(seq!['.', '.', '/'], depth as nat));
                }
                k = k + 1;
            }
            assert(cv.subrange(0, last as int) =~= cv.drop_last());
        }
    }
    if depth == 0 {
        out = vec!['.', '/'];
    }
    crate::text::string_of(&out)
}

/// The last index of `c` in `s`.
pub open spec fn rfind_char(s: Seq<char>, c: char) -> Option<int>
    decreases s.len(),
{
    if s.len() == 0 {
        None
    } else if s.last() == c {
        Some(s.len() - 1)
    } else {
        rfind_char(s.drop_last(), c)
    }
}

/// The final component of a path, if it names something (what `Path::file_name` gives).
pub open spec fn file_name(s: Seq<char>) -> Option<Seq<char>> {
    let cs = components(s);
    if cs.len() > 0 && cs.last() is Normal {
        Some(cs.last()->Normal_0)
    } else {
        None
    }
}

/// The file name without its extension (what `Path::file_stem` gives).
pub open spec fn file_stem(s: Seq<char>) -> Option<Seq<char>> {
    match file_name(s) {
        Some(name) => Some(
            match rfind_char(name, '.') {
                Some(i) => if i == 0 {
                    name
                } else {
                    name.subrange(0, i)
                },
                None => name,
            },
        ),
        None => None,
    }
}

/// Whether `c` lowercases to `l`, one of the letters of `readme`: the only
/// characters whose lowercase is such a letter are the letter itself and
/// its ASCII capital (and no character lowercases to more than one
/// character that could spell part of `readme`), so this is what comparing
/// the lowercase of `c` with `l` decides.
pub open spec fn lowers_to(c: char, l: char) -> bool {
    c == l || ('A' <= c && c <= 'Z' && (c as u32) + 32 == (l as u32))
}

/// Whether `s` equals the ASCII lowercase `t` once lowercased.
pub open spec fn eq_lowercase(s: Seq<char>, t: Seq<char>) -> bool {
    s.len() == t.len() && forall|i: int| 0 <= i < s.len() ==> lowers_to(#[trigger] s[i], t[i])
}

/// Whether the file stem of `path` is `readme`, in any case.
pub open spec fn spec_is_readme_file(path: Seq<char>) -> bool {
    let stem = match file_stem(path) {
        Some(stem) => stem,
        None => Seq::empty(),
    };
    eq_lowercase(stem, seq!['r', 'e', 'a', 'd', 'm', 'e'])
}

fn char_lowers_to(c: char, l: char) -> (b: bool)
    ensures
        b == lowers_to(c, l),
{
    c == l || ('A' <= c && c <= 'Z' && (c as u32) + 32 == (l as u32))
}

/// Whether the file stem of `path` is `readme`, in any case.
#[verifier::spinoff_prover]
pub fn is_readme_file(path: &str) -> (b: bool)
    ensures
        b == spec_is_readme_file(path@),
{
    let s = crate::text::chars_of(path);
    let cs = path_components(&s);
    let ghost cv = components(s@);
    if cs.len() == 0 {
        return false;
    }
    let last = cs.len() - 1;
    let (a, e) = match cs[last].kind {
        CompKind::Normal => (cs[last].start, cs[last].end),
        _ => {
            assert(cv.last() == comp_view(s@, cs@[last as int]));
            return false;
        },
    };
    assert(cv.last() == comp_view(s@, cs@[last as int]));
    let name = crate::text::slice_range(&s, a, e);
    let mut k = name.len();
    let mut found: Option<usize> = None;
    proof {
        assert(name@.subrange(0, name@.len() as int) =~= name@);
    }
    while k > 0
        invariant_except_break
            found is None,
        invariant
            k <= name@.len(),
            rfind_char(name@, '.') == rfind_char(name@.subrange(0, k as int), '.'),
        ensures
            found matches Some(d) ==> rfind_char(name@, '.') == Some(d as int) && d < name@.len(),
            found is None ==> rfind_char(name@, '.') is None,
        decreases k,
    {
        proof {
            let t = name@.subrange(0, k as int);
            assert(t.drop_last() =~= name@.subrange(0, k - 1));
            assert(t.last() == name@[k - 1]);
        }
        if name[k - 1] == '.' {
            found = Some(k - 1);
            break;
        }
        k = k - 1;
    }
    let stem_end = match found {
        Some(d) => if d == 0 {
            name.len()
        } else {
            d
        },
        None => name.len(),
    };
    let ghost stem = name@.subrange(0, stem_end as int);
    proof {
        assert(stem_end <= name@.len());
        assert(stem.len() == stem_end);
        assert(file_stem(s@) == Some(stem));
    }
    if stem_end != 6 {
        return false;
    }
    let want = ['r', 'e', 'a', 'd', 'm', 'e'];
    let mut i: usize = 0;
    while i < 6
        invariant
            stem_end == 6,
            6 <= name@.len(),
            stem == name@.subrange(0, 6),
            file_stem(s@) == Some(stem),
            path@ == s@,
            want@ == seq!['r', 'e', 'a', 'd', 'm', 'e'],
            i <= 6,
            forall|j: int| 0 <= j < i ==> lowers_to(#[trigger] stem[j], want@[j]),
        decreases 6 - i,
    {
        if !char_lowers_to(name[i], want[i]) {
            assert(!lowers_to(stem[i as int], want@[i as int]));
            return false;
        }
        i = i + 1;
    }
    true
}


/// The relative path from the directory holding `from_file` to `to`: the
/// relative path from the parent of `from_file`, when it has one.
pub open spec fn spec_diff_from_parent(to: Seq<char>, from_file: Seq<char>) -> Option<Seq<char>> {
    match parent_components(components(from_file)) {
        None => None,
        Some(pc) => if is_absolute(to) && !is_absolute(from_file) {
            Some(to)
        } else if !is_absolute(to) && is_absolute(from_file) {
            None
        } else {
            match diff_components(components(to), pc, Seq::empty()) {
                Some(cs) => Some(join_components(cs)),
                None => None,
            }
        },
    }
}

/// The relative path from the directory holding `from_file` to `to` (what
/// `diff_paths(to, from_file.parent()?)` gives).
pub fn diff_from_parent(to: &str, from_file: &str) -> (r: Option<String>)
    ensures
        match r {
            Some(p) => spec_diff_from_parent(to@, from_file@) == Some(p@),
            None => spec_diff_from_parent(to@, from_file@) is None,
        },
{
    let t = crate::text::chars_of(to);
    let f = crate::text::chars_of(from_file);
    let mut fc = path_components(&f);
    if fc.len() == 0 {
        return None;
    }
    let ghost fv = comps_view(f@, fc@);
    let ghost all = fc@;
    let last = fc.pop().unwrap();
    let is_root = match last.kind {
        CompKind::RootDir => true,
        _ => false,
    };
    proof {
        assert(fv.last() == comp_view(f@, last));
        assert(comps_view(f@, fc@) =~= fv.drop_last());
        assert forall|i: int| 0 <= i < fc@.len() implies #[trigger] fc@[i].start <= fc@[i].end <= f@.len() by {
            assert(fc@[i] == all[i]);
        }
    }
    if is_root {
        return None;
    }
    let to_abs = t.len() > 0 && t[0] == '/';
    let from_abs = f.len() > 0 && f[0] == '/';
    if to_abs && !from_abs {
        return Some(crate::text::string_of(&t));
    }
    if !to_abs && from_abs {
        return None;
    }
    let tc = path_components(&t);
    match diff_comp_lists(&t, &tc, &f, &fc) {
        Some(cs) => {
            let joined = join_comps(&t, &cs);
            Some(crate::text::string_of(&joined))
        },
        None => None,
    }
}

/// A path of named components only: relative, without `.` or `..`, not empty.
pub open spec fn is_clean_path(s: Seq<char>) -> bool {
    &&& components(s).len() > 0
    &&& forall|i: int| 0 <= i < components(s).len() ==> (#[trigger] components(s)[i]) is Normal
}

proof fn lemma_diff_some(to: Seq<PathComponent>, from: Seq<PathComponent>, acc: Seq<PathComponent>)
    requires
        forall|i: int| 0 <= i < from.len() ==> (#[trigger] from[i]) is Normal,
    ensures
        diff_components(to, from, acc) is Some,
    decreases to.len() + from.len(),
{
    if to.len() == 0 && from.len() == 0 {
    } else if from.len() == 0 {
    } else {
        let f2 = from.drop_first();
        assert forall|i: int| 0 <= i < f2.len() implies (#[trigger] f2[i]) is Normal by {
            assert(f2[i] == from[i + 1]);
        }
        assert(from[0] is Normal);
        if to.len() == 0 {
            lemma_diff_some(to, f2, acc.push(PathComponent::ParentDir));
        } else if acc.len() == 0 && to[0] == from[0] {
            lemma_diff_some(to.drop_first(), f2, acc);
        }
    }
}

/// Between two clean paths there is always a way from the directory holding
/// the second to the first.
pub proof fn law_clean_paths_reach_each_other(to: Seq<char>, from_file: Seq<char>)
    requires
        is_clean_path(to),
        is_clean_path(from_file),
    ensures
        spec_diff_from_parent(to, from_file) is Some,
{
    lemma_absolute_root(to);
    lemma_absolute_root(from_file);
    let fc = components(from_file);
    assert(fc.last() == fc[fc.len() - 1]);
    let pc = fc.drop_last();
    assert forall|i: int| 0 <= i < pc.len() implies (#[trigger] pc[i]) is Normal by {
        assert(pc[i] == fc[i]);
    }
    lemma_diff_some(components(to), pc, Seq::empty());
}


proof fn lemma_names_rejoin(tc: Seq<PathComponent>, fc: Seq<PathComponent>) -> (cs: Seq<PathComponent>)
    requires
        all_normal(tc),
        all_normal(fc),
        forall|i: int| 0 <= i < tc.len() ==> plain_component(#[trigger] tc[i]),
    ensures
        diff_components(tc, fc, Seq::empty()) == Some(cs),
        normalize_onto(fc, cs) == tc,
        components(join_components(cs)) == cs,
{
    lemma_diff_names(tc, fc);
    lemma_common_prefix(tc, fc);
    let p = common_prefix_len(tc, fc);
    let m = (fc.len() - p) as nat;
    let rest = tc.subrange(p as int, tc.len() as int);
    let cs = parents(m) + rest;
    lemma_normalize_append(fc, parents(m), rest);
    lemma_normalize_climb(fc, m);
    assert forall|i: int| 0 <= i < rest.len() implies (#[trigger] rest[i]) is Normal by {
        assert(rest[i] == tc[p + i]);
    }
    lemma_normalize_names(fc.subrange(0, fc.len() - m), rest);
    assert(fc.subrange(0, fc.len() - m) + rest =~= tc);
    assert forall|i: int| 0 <= i < cs.len() implies plain_component(#[trigger] cs[i]) by {
        if i < m {
            assert(cs[i] == PathComponent::ParentDir);
        } else {
            assert(cs[i] == tc[p + i - m]);
        }
    }
    law_join_components_reads_back(cs);
    cs
}

/// Between two clean paths, the way from the directory holding `from_file`
/// to `to` reads back as components that, followed from that directory and
/// normalised (each `..` cancelling the name before it), lead to `to`.
pub proof fn law_diff_from_parent_rejoins(to: Seq<char>, from_file: Seq<char>) -> (cs: Seq<PathComponent>)
    requires
        is_clean_path(to),
        is_clean_path(from_file),
    ensures
        spec_diff_from_parent(to, from_file) == Some(join_components(cs)),
        components(join_components(cs)) == cs,
        normalize_onto(components(from_file).drop_last(), cs) == components(to),
{
    lemma_absolute_root(to);
    lemma_absolute_root(from_file);
    let tc = components(to);
    let fc = components(from_file);
    assert(fc.last() == fc[fc.len() - 1]);
    let pc = fc.drop_last();
    assert forall|i: int| 0 <= i < pc.len() implies (#[trigger] pc[i]) is Normal by {
        assert(pc[i] == fc[i]);
    }
    lemma_names_plain(to);
    lemma_names_rejoin(tc, pc)
}

/// The file name of `path` without its extension (what `Path::file_stem` gives).
pub fn file_stem_of(path: &str) -> (r: Option<String>)
    ensures
        match r {
            Some(stem) => file_stem(path@) == Some(stem@),
            None => file_stem(path@) is None,
        },
{
    let s = crate::text::chars_of(path);
    let cs = path_components(&s);
    let ghost cv = components(s@);
    if cs.len() == 0 {
        return None;
    }
    let last = cs.len() - 1;
    assert(cv.last() == comp_view(s@, cs@[last as int]));
    let (a, e) = match cs[last].kind {
        CompKind::Normal => (cs[last].start, cs[last].end),
        _ => {
            return None;
        },
    };
    let name = crate::text::slice_range(&s, a, e);
    let mut k = name.len();
    let mut found: Option<usize> = None;
    proof {
        assert(name@.subrange(0, name@.len() as int) =~= name@);
    }
    while k > 0
        invariant_except_break
            found is None,
        invariant
            k <= name@.len(),
            rfind_char(name@, '.') == rfind_char(name@.subrange(0, k as int), '.'),
        ensures
            found matches Some(d) ==> rfind_char(name@, '.') == Some(d as int) && d < name@.len(),
            found is None ==> rfind_char(name@, '.') is None,
        decreases k,
    {
        proof {
            let t = name@.subrange(0, k as int);
            assert(t.drop_last() =~= name@.subrange(0, k - 1));
            assert(t.last() == name@[k - 1]);
        }
        if name[k - 1] == '.' {
            found = Some(k - 1);
            break;
        }
        k = k - 1;
    }
    let stem_end = match found {
        Some(d) => if d == 0 {
            name.len()
        } else {
            d
        },
        None => name.len(),
    };
    let stem = crate::text::slice_range(&name, 0, stem_end);
    proof {
        assert(name@.subrange(0, name@.len() as int) =~= name@);
    }
    Some(crate::text::string_of(&stem))
}


/// Whether the paths `a` and `b` are the same path: the same components
/// (what `==` on `Path`s compares).
pub fn same_path(a: &str, b: &str) -> (r: bool)
    ensures
        r == (components(a@) == components(b@)),
{
    let sa = crate::text::chars_of(a);
    let sb = crate::text::chars_of(b);
    let ca = path_components(&sa);
    let cb = path_components(&sb);
    let ghost va = comps_view(sa@, ca@);
    let ghost vb = comps_view(sb@, cb@);
    if ca.len() != cb.len() {
        assert(va.len() != vb.len());
        return false;
    }
    let mut k: usize = 0;
    while k < ca.len()
        invariant
            k <= ca@.len(),
            ca@.len() == cb@.len(),
            comps_wf(sa@, ca@),
            comps_wf(sb@, cb@),
            va == comps_view(sa@, ca@),
            vb == comps_view(sb@, cb@),
            va == components(a@),
            vb == components(b@),
            forall|j: int| 0 <= j < k ==> va[j] == vb[j],
        decreases ca@.len() - k,
    {
        assert(ca@[k as int].start <= ca@[k as int].end);
        assert(cb@[k as int].start <= cb@[k as int].end);
        if !comp_eq(&sa, &ca[k], &sb, &cb[k]) {
            assert(va[k as int] != vb[k as int]);
            return false;
        }
        k = k + 1;
    }
    assert(va =~= vb);
    true
}

} // verus!
