//! Logging: a maximum level, and messages written line by line.
//!
//! The maximum levels are 0 (off), 1 (errors), 2 (warnings and successes),
//! 3 (information) and above 4 (debugging).

use vstd::prelude::*;
use crate::text::{chars_of, extend_chars, split_at_char, split_chars, string_of};

verus! {

/// Sets the maximum logging level kept in `store` to `level`.
pub fn set_max_level(store: &mut usize, level: usize)
    ensures
        *final(store) == level,
{
    *store = level;
}

/// The maximum logging level kept in `store`.
pub fn max_level(store: &usize) -> (r: usize)
    ensures
        r == *store,
{
    *store
}

/// Whether a message of level `level` is written when the maximum is `max`.
pub fn enabled(level: usize, max: usize) -> (b: bool)
    ensures
        b == (max >= level),
{
    max >= level
}

/// The kinds of log message.
#[derive(Clone, Copy, Debug, PartialEq, Eq, Structural)]
pub enum Level {
    Error,
    Warning,
    Success,
    Info,
    Debug,
}

/// The lowest maximum level at which messages of the kind `l` are written:
/// errors from 1, warnings and successes from 2, information from 3 and
/// debugging above 4.
pub open spec fn spec_threshold(l: Level) -> usize {
    match l {
        Level::Error => 1,
        Level::Warning => 2,
        Level::Success => 2,
        Level::Info => 3,
        Level::Debug => 5,
    }
}

/// The lowest maximum level at which messages of the kind `l` are written.
pub fn threshold(l: Level) -> (r: usize)
    ensures
        r == spec_threshold(l),
{
    match l {
        Level::Error => 1,
        Level::Warning => 2,
        Level::Success => 2,
        Level::Info => 3,
        Level::Debug => 5,
    }
}

/// Whether a message of the kind `l` is written when the maximum level is `max`.
pub fn level_enabled(l: Level, max: usize) -> (b: bool)
    ensures
        b == (max >= spec_threshold(l)),
{
    enabled(threshold(l), max)
}

/// `line` without one trailing carriage return.
pub open spec fn strip_cr(line: Seq<char>) -> Seq<char> {
    if line.len() > 0 && line.last() == '\r' {
        line.drop_last()
    } else {
        line
    }
}

/// The lines of `text` (what `str::lines` yields): split at line feeds, each
/// without a trailing carriage return, and no empty line after a final line
/// feed.
pub open spec fn lines_of(text: Seq<char>) -> Seq<Seq<char>> {
    let pieces = split_at_char(text, '\n');
    let kept = if pieces.last().len() == 0 {
        pieces.drop_last()
    } else {
        pieces
    };
    kept.map_values(|l: Seq<char>| strip_cr(l))
}

/// How a message is written: its first line after the icon, the others
/// indented by two spaces.
pub open spec fn message_lines(icon: Seq<char>, text: Seq<char>) -> Seq<Seq<char>> {
    let lines = lines_of(text);
    Seq::new(
        lines.len(),
        |i: int|
            if i == 0 {
                icon + seq![' '] + lines[0]
            } else {
                seq![' ', ' '] + lines[i]
            },
    )
}

/// The lines that a message `text` with the icon `icon` is written as.
pub fn message_lines_of(icon: &str, text: &str) -> (r: Vec<String>)
    ensures
        r@.map_values(|s: String| s@) == message_lines(icon@, text@),
{
    let t = chars_of(text);
    let pieces = split_chars(&t, '\n');
    let ghost ps = pieces@.map_values(|v: Vec<char>| v@);
    let last = pieces.len() - 1;
    assert(ps.last() == pieces@[last as int]@);
    let n = if pieces[last].len() == 0 {
        last
    } else {
        pieces.len()
    };
    let ghost kept = if ps.last().len() == 0 {
        ps.drop_last()
    } else {
        ps
    };
    assert(kept.len() == n);
    let mut out: Vec<String> = Vec::new();
    let mut k: usize = 0;
    while k < n
        invariant
            k <= n,
            n <= pieces@.len(),
            ps == pieces@.map_values(|v: Vec<char>| v@),
            kept.len() == n,
            forall|j: int| 0 <= j < n ==> kept[j] == ps[j],
            out@.map_values(|s: String| s@) == message_lines(icon@, text@).subrange(0, k as int),
            lines_of(text@) == kept.map_values(|l: Seq<char>| strip_cr(l)),
        decreases n - k,
    {
        let p = &pieces[k];
        assert(p@ == kept[k as int]);
        let len = if p.len() > 0 && p[p.len() - 1] == '\r' {
            p.len() - 1
        } else {
            p.len()
        };
        let line = crate::text::slice_range(p, 0, len);
        assert(line@ =~= strip_cr(p@));
        let mut s: Vec<char> = if k == 0 {
            let mut s = chars_of(icon);
            s.push(' ');
            s
        } else {
            vec![' ', ' ']
        };
        extend_chars(&mut s, &line);
        assert(lines_of(text@)[k as int] == strip_cr(kept[k as int]));
        assert(lines_of(text@).len() == n);
        assert(message_lines(icon@, text@)[k as int] == s@);
        let ghost before = out@.map_values(|s: String| s@);
        let st = string_of(&s);
        out.push(st);
        assert(out@.map_values(|s: String| s@) =~= before.push(s@));
        assert(message_lines(icon@, text@).subrange(0, k + 1) =~= message_lines(icon@, text@).subrange(0, k as int).push(s@));
        k = k + 1;
    }
    assert(message_lines(icon@, text@).subrange(0, n as int) =~= message_lines(icon@, text@));
    out
}

} // verus!
