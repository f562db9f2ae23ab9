//! Which file changes make a served book rebuild.

use vstd::prelude::*;
use crate::path::{file_name, components, path_components, CompKind, comp_view};
use crate::text::chars_of;

verus! {

/// A change the file watcher reports.
pub enum FsEvent {
    /// A file was created at the path.
    Create(String),
    /// A file was written at the path.
    Write(String),
    /// A file was removed at the path.
    Remove(String),
    /// A file was renamed from the first path to the second.
    Rename(String, String),
    /// Any other notice of the watcher.
    Other,
}

/// The path an event changed, if it changed one: the new path of a rename.
pub open spec fn event_path(e: FsEvent) -> Option<Seq<char>> {
    match e {
        FsEvent::Create(p) => Some(p@),
        FsEvent::Write(p) => Some(p@),
        FsEvent::Remove(p) => Some(p@),
        FsEvent::Rename(_, p) => Some(p@),
        FsEvent::Other => None,
    }
}

/// The paths the events `es` changed, in order.
pub open spec fn spec_event_paths(es: Seq<FsEvent>) -> Seq<Seq<char>>
    decreases es.len(),
{
    if es.len() == 0 {
        Seq::empty()
    } else {
        spec_event_paths(es.drop_last()) + match event_path(es.last()) {
            Some(p) => seq![p],
            None => Seq::empty(),
        }
    }
}

/// The paths the events `events` changed, in order.
pub fn event_paths(events: &Vec<FsEvent>) -> (r: Vec<String>)
    ensures
        r@.map_values(|s: String| s@) == spec_event_paths(events@),
{
    let mut r: Vec<String> = Vec::new();
    let mut k: usize = 0;
    while k < events.len()
        invariant
            k <= events@.len(),
            r@.map_values(|s: String| s@) == spec_event_paths(events@.subrange(0, k as int)),
        decreases events@.len() - k,
    {
        proof {
            let t = events@.subrange(0, k + 1);
            assert(t.drop_last() =~= events@.subrange(0, k as int));
            assert(t.last() == events@[k as int]);
        }
        let ghost before = r@.map_values(|s: String| s@);
        match &events[k] {
            FsEvent::Create(p) | FsEvent::Write(p) | FsEvent::Remove(p) | FsEvent::Rename(_, p) => {
                r.push(p.clone());
                assert(r@.map_values(|s: String| s@) =~= before + seq![p@]);
            },
            FsEvent::Other => {
                assert(r@.map_values(|s: String| s@) =~= before + Seq::<Seq<char>>::empty());
            },
        }
        k = k + 1;
    }
    assert(events@.subrange(0, events@.len() as int) =~= events@);
    r
}

/// Whether the file name of `path` is `SUMMARY.md`: the summary is written
/// by the build itself, so its changes are not the user's.
pub open spec fn is_summary(path: Seq<char>) -> bool {
    file_name(path) == Some("SUMMARY.md"@)
}

/// Whether the file name of `path` is `SUMMARY.md`.
pub fn summary_file(path: &str) -> (b: bool)
    ensures
        b == is_summary(path@),
{
    let s = chars_of(path);
    let cs = path_components(&s);
    let ghost cv = components(path@);
    if cs.len() == 0 {
        return false;
    }
    let last = cs.len() - 1;
    assert(cv.last() == comp_view(s@, cs@[last as int]));
    match cs[last].kind {
        CompKind::Normal => {
            assert(cs@[last as int].start <= cs@[last as int].end);
            assert(cs@[last as int].end <= s@.len());
            let name = crate::text::slice_range(&s, cs[last].start, cs[last].end);
            let summary = chars_of("SUMMARY.md");
            crate::text::chars_eq(&name, &summary)
        },
        _ => false,
    }
}

/// The paths of `paths` that make the book rebuild: all but summaries and
/// those that the book's `.gitignore` ignores (`ignored[i]` for the `i`th).
pub open spec fn kept_paths(paths: Seq<Seq<char>>, ignored: Seq<bool>) -> Seq<Seq<char>>
    decreases paths.len(),
{
    if paths.len() == 0 {
        Seq::empty()
    } else {
        let i = paths.len() - 1;
        kept_paths(paths.drop_last(), ignored) + if is_summary(paths[i]) || (i < ignored.len()
            && ignored[i]) {
            Seq::empty()
        } else {
            seq![paths[i]]
        }
    }
}

/// The paths of `paths` that make the book rebuild: summaries are left out,
/// and so are the paths flagged in `ignored` (which the book's `.gitignore`
/// ignores).
pub fn remove_ignored_files(paths: &Vec<String>, ignored: &Vec<bool>) -> (r: Vec<String>)
    ensures
        r@.map_values(|s: String| s@) == kept_paths(paths@.map_values(|s: String| s@), ignored@),
{
    let ghost pv = paths@.map_values(|s: String| s@);
    let mut r: Vec<String> = Vec::new();
    let mut k: usize = 0;
    while k < paths.len()
        invariant
            k <= paths@.len(),
            pv == paths@.map_values(|s: String| s@),
            r@.map_values(|s: String| s@) == kept_paths(pv.subrange(0, k as int), ignored@),
        decreases paths@.len() - k,
    {
        proof {
            let t = pv.subrange(0, k + 1);
            assert(t.drop_last() =~= pv.subrange(0, k as int));
            assert(t[k as int] == pv[k as int]);
        }
        let ghost before = r@.map_values(|s: String| s@);
        let skip = summary_file(paths[k].as_str()) || (k < ignored.len() && ignored[k]);
        if !skip {
            r.push(paths[k].clone());
            assert(r@.map_values(|s: String| s@) =~= before + seq![pv[k as int]]);
        } else {
            assert(r@.map_values(|s: String| s@) =~= before + Seq::<Seq<char>>::empty());
        }
        k = k + 1;
    }
    assert(pv.subrange(0, pv.len() as int) =~= pv);
    r
}

} // verus!
