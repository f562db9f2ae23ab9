//! Front matter of chapters: a block between `---` lines at the top of a
//! chapter that sets its title and date.  The block is removed from the
//! chapter; the title replaces the chapter's name and the date is shown at
//! the end of the chapter.

use vstd::prelude::*;
use crate::book::{Book, BookItem, Chapter};
use crate::text::{chars_of, extend_chars, is_whitespace, is_ws, slice_range, string_of};

verus! {

/// The first index at or after `i` that is not whitespace, or the length of `s`.
pub open spec fn ws_end(s: Seq<char>, i: int) -> int
    decreases s.len() - i,
{
    if i < 0 || i >= s.len() {
        i
    } else if is_ws(s[i]) {
        ws_end(s, i + 1)
    } else {
        i
    }
}

/// The last index in `lo..=t` that is the end of `s` or a line feed.
pub open spec fn line_end_back(s: Seq<char>, lo: int, t: int) -> Option<int>
    decreases t - lo + 1,
{
    if t < lo {
        None
    } else if t == s.len() || (0 <= t < s.len() && s[t] == '\n') {
        Some(t)
    } else {
        line_end_back(s, lo, t - 1)
    }
}

/// Where a front matter block that closes with the `---` at `q` ends: after
/// the whitespace that follows, as far as it can go to the end of a line.
pub open spec fn close_end(s: Seq<char>, q: int) -> Option<int> {
    if 0 <= q && q + 3 <= s.len() && s.subrange(q, q + 3) == seq!['-', '-', '-'] {
        line_end_back(s, q + 3, ws_end(s, q + 3))
    } else {
        None
    }
}

/// The last `---` in `lo..=q` that can close a front matter block, and the
/// block's end.
pub open spec fn last_close(s: Seq<char>, lo: int, q: int) -> Option<(int, int)>
    decreases q - lo + 1,
{
    if q < lo {
        None
    } else {
        match close_end(s, q) {
            Some(e) => Some((q, e)),
            None => last_close(s, lo, q - 1),
        }
    }
}

/// The end of the front matter block that starts at `p`, if one does: at
/// the start of a line, whitespace, `---`, anything, and the last `---` that
/// is followed by whitespace up to the end of a line.
pub open spec fn front_matter_at(s: Seq<char>, p: int) -> Option<int> {
    if 0 <= p <= s.len() && (p == 0 || s[p - 1] == '\n') {
        let j = ws_end(s, p);
        if j + 3 <= s.len() && s.subrange(j, j + 3) == seq!['-', '-', '-'] {
            match last_close(s, j + 3, s.len() - 3) {
                Some((q, e)) => Some(e),
                None => None,
            }
        } else {
            None
        }
    } else {
        None
    }
}

/// `s` from `pos` on with its front matter blocks (found from the left,
/// without overlapping) removed.
pub open spec fn strip_from(s: Seq<char>, pos: int) -> Seq<char>
    decreases s.len() - pos,
{
    if pos < 0 || pos >= s.len() {
        Seq::empty()
    } else {
        match front_matter_at(s, pos) {
            Some(e) => if pos < e <= s.len() {
                strip_from(s, e)
            } else {
                Seq::empty()
            },
            None => seq![s[pos]] + strip_from(s, pos + 1),
        }
    }
}

/// `content` without its front matter.
pub open spec fn spec_strip_front_matter(content: Seq<char>) -> Seq<char> {
    strip_from(content, 0)
}

proof fn lemma_ws_end(s: Seq<char>, i: int)
    requires
        0 <= i <= s.len(),
    ensures
        i <= ws_end(s, i) <= s.len(),
    decreases s.len() - i,
{
    if i < s.len() && is_ws(s[i]) {
        lemma_ws_end(s, i + 1);
    }
}

proof fn lemma_line_end_back(s: Seq<char>, lo: int, t: int)
    ensures
        line_end_back(s, lo, t) matches Some(e) ==> lo <= e <= t,
    decreases t - lo + 1,
{
    if t >= lo && !(t == s.len() || (0 <= t < s.len() && s[t] == '\n')) {
        lemma_line_end_back(s, lo, t - 1);
    }
}

proof fn lemma_last_close(s: Seq<char>, lo: int, q: int)
    requires
        0 <= lo,
    ensures
        last_close(s, lo, q) matches Some((c, e)) ==> lo <= c <= q && c + 3 <= e <= s.len(),
    decreases q - lo + 1,
{
    if q >= lo {
        match close_end(s, q) {
            Some(e) => {
                lemma_ws_end(s, q + 3);
                lemma_line_end_back(s, q + 3, ws_end(s, q + 3));
            },
            None => lemma_last_close(s, lo, q - 1),
        }
    }
}

fn ws_end_exec(s: &[char], i: usize) -> (r: usize)
    requires
        i <= s@.len(),
    ensures
        r as int == ws_end(s@, i as int),
{
    let mut j = i;
    while j < s.len() && is_whitespace(s[j])
        invariant
            i <= j <= s@.len(),
            ws_end(s@, i as int) == ws_end(s@, j as int),
        decreases s@.len() - j,
    {
        j = j + 1;
    }
    j
}

fn dashes_at(s: &[char], q: usize) -> (b: bool)
    ensures
        b == (q + 3 <= s@.len() && s@.subrange(q as int, q + 3) == seq!['-', '-', '-']),
{
    if q > s.len() || s.len() - q < 3 {
        return false;
    }
    let b = s[q] == '-' && s[q + 1] == '-' && s[q + 2] == '-';
    proof {
        let t = s@.subrange(q as int, q + 3);
        if b {
            assert(t =~= seq!['-', '-', '-']);
        }
        if t == seq!['-', '-', '-'] {
            assert(t[0] == s@[q as int] && t[1] == s@[q + 1] && t[2] == s@[q + 2]);
        }
    }
    b
}

fn close_end_exec(s: &[char], q: usize) -> (r: Option<usize>)
    ensures
        match r {
            Some(e) => close_end(s@, q as int) == Some(e as int),
            None => close_end(s@, q as int) is None,
        },
{
    let n = s.len();
    if !dashes_at(s, q) {
        return None;
    }
    assert(q + 3 <= n);
    proof {
        lemma_ws_end(s@, q + 3);
    }
    let w = ws_end_exec(s, q + 3);
    let mut t = w;
    loop
        invariant
            n == s@.len(),
            q + 3 <= t <= s@.len(),
            close_end(s@, q as int) == line_end_back(s@, q + 3, t as int),
        decreases t,
    {
        if t == s.len() || s[t] == '\n' {
            return Some(t);
        }
        if t == q + 3 {
            assert(line_end_back(s@, q + 3, t - 1) is None);
            return None;
        }
        t = t - 1;
    }
}

fn front_matter_at_exec(s: &[char], p: usize) -> (r: Option<usize>)
    requires
        p <= s@.len(),
    ensures
        match r {
            Some(e) => front_matter_at(s@, p as int) == Some(e as int),
            None => front_matter_at(s@, p as int) is None,
        },
{
    if !(p == 0 || s[p - 1] == '\n') {
        return None;
    }
    proof {
        lemma_ws_end(s@, p as int);
    }
    let n = s.len();
    let j = ws_end_exec(s, p);
    if !dashes_at(s, j) {
        return None;
    }
    assert(j + 3 <= n);
    let lo = j + 3;
    let mut q = n - 3;
    while q >= lo
        invariant
            n == s@.len(),
            lo <= n,
            q + 3 <= n,
            front_matter_at(s@, p as int) == match last_close(s@, lo as int, q as int) {
                Some((c, e)) => Some(e),
                None => None,
            },
        decreases q,
    {
        match close_end_exec(s, q) {
            Some(e) => {
                return Some(e);
            },
            None => {},
        }
        if q == 0 {
            assert(last_close(s@, lo as int, -1) is None);
            return None;
        }
        q = q - 1;
    }
    assert(last_close(s@, lo as int, q as int) is None);
    None
}

/// `content` without its front matter blocks: at the start of a line,
/// whitespace, `---`, and everything up to the last `---` that is followed
/// by whitespace to the end of a line.
pub fn strip_front_matter(content: &str) -> (r: String)
    ensures
        r@ == spec_strip_front_matter(content@),
{
    let s = chars_of(content);
    let mut out: Vec<char> = Vec::new();
    let mut pos: usize = 0;
    while pos < s.len()
        invariant
            pos <= s@.len(),
            s@ == content@,
            out@ + strip_from(s@, pos as int) == strip_from(s@, 0),
        decreases s@.len() - pos,
    {
        let ghost before = out@;
        match front_matter_at_exec(&s, pos) {
            Some(e) => {
                proof {
                    let j = ws_end(s@, pos as int);
                    lemma_ws_end(s@, pos as int);
                    lemma_last_close(s@, j + 3, s@.len() - 3);
                }
                assert(strip_from(s@, pos as int) == strip_from(s@, e as int));
                pos = e;
            },
            None => {
                out.push(s[pos]);
                assert(out@ + strip_from(s@, pos + 1) =~= before + strip_from(s@, pos as int));
                pos = pos + 1;
            },
        }
    }
    assert(strip_from(s@, pos as int) =~= Seq::<char>::empty());
    assert(out@ =~= strip_from(s@, 0));
    string_of(&out)
}

/// The fields of a chapter's front matter.
pub struct FrontMatterConfig {
    pub title: Option<String>,
    pub date: Option<String>,
}

/// The date shown for the date `d` when it reads as a date-time with an
/// offset (`chrono`'s `DateTime<FixedOffset>`), as `%H:%M %A %d %B %Y`.
pub uninterp spec fn offset_date_text(d: Seq<char>) -> Option<Seq<char>>;

/// How dates are shown.
const DATE_FORMAT: &'static str = "%H:%M %A %d %B %Y";

/// Parses `d` as a `chrono::DateTime<FixedOffset>` and formats it with
/// `DATE_FORMAT`.  Its contract claims only that the result is a function of
/// `d`.
#[verifier::external_body]
fn format_offset_date(d: &str) -> (r: Option<String>)
    ensures
        opt_text(r) == offset_date_text(d@),
{
    match d.parse::<chrono::DateTime<chrono::FixedOffset>>() {
        Ok(dt) => Some(dt.format(DATE_FORMAT).to_string()),
        Err(_) => None,
    }
}

#[verifier::external_type_specification]
#[verifier::external_body]
pub struct ExNaiveDateTime(chrono::NaiveDateTime);

/// Whether `d` reads as a `chrono::NaiveDateTime` by its `FromStr`.
pub uninterp spec fn naive_reading(d: Seq<char>) -> bool;

/// Whether `d` reads as a `chrono::NaiveDateTime` of the form `%Y-%m-%dT%H:%M`.
pub uninterp spec fn naive_minutes_reading(d: Seq<char>) -> bool;

/// Parses `d` with `str::parse::<chrono::NaiveDateTime>`.  Its contract
/// claims only that whether it succeeds is a function of `d` alone.
#[verifier::external_body]
fn parse_naive(d: &str) -> (r: Option<chrono::NaiveDateTime>)
    ensures
        r is Some == naive_reading(d@),
{
    d.parse::<chrono::NaiveDateTime>().ok()
}

/// Parses `d` with `chrono::NaiveDateTime::parse_from_str` and the format
/// `%Y-%m-%dT%H:%M`.  Its contract claims only that whether it succeeds is a
/// function of `d` alone.
#[verifier::external_body]
fn parse_naive_minutes(d: &str) -> (r: Option<chrono::NaiveDateTime>)
    ensures
        r is Some == naive_minutes_reading(d@),
{
    chrono::NaiveDateTime::parse_from_str(d, "%Y-%m-%dT%H:%M").ok()
}

/// Takes `n` in the machine's time zone (`chrono::Local::from_local_datetime`)
/// and formats it with `DATE_FORMAT`; none when that local time is ambiguous
/// or does not exist.  What it gives depends on the machine's time zone, so
/// its contract claims nothing.
#[verifier::external_body]
fn format_local(n: &chrono::NaiveDateTime) -> (r: Option<String>) {
    match chrono::TimeZone::from_local_datetime(&chrono::Local, n).single() {
        Some(dt) => Some(dt.format(DATE_FORMAT).to_string()),
        None => None,
    }
}

/// The text of a local date, or `Unknown date format` when the machine's time
/// zone gives that local time no single meaning.
pub fn local_or_unknown(text: Option<String>) -> (r: String)
    ensures
        r@ == match opt_text(text) {
            Some(t) => t,
            None => "Unknown date format"@,
        },
{
    match text {
        Some(t) => t,
        None => "Unknown date format".to_string(),
    }
}

/// An optional string as plain text.
pub open spec fn opt_text(o: Option<String>) -> Option<Seq<char>> {
    match o {
        Some(s) => Some(s@),
        None => None,
    }
}

/// The date text from the three ways of reading a date, tried in order.
pub open spec fn spec_pick_date(
    offset: Option<Seq<char>>,
    local: Option<Seq<char>>,
    local_minutes: Option<Seq<char>>,
) -> Seq<char> {
    match offset {
        Some(t) => t,
        None => match local {
            Some(t) => t,
            None => match local_minutes {
                Some(t) => t,
                None => "Unknown date format"@,
            },
        },
    }
}

/// The date text from the three ways of reading a date, tried in order:
/// with an offset, without one, without one and without seconds; or
/// `Unknown date format`.
pub fn pick_date(offset: Option<String>, local: Option<String>, local_minutes: Option<String>) -> (r:
    String)
    ensures
        r@ == spec_pick_date(opt_text(offset), opt_text(local), opt_text(local_minutes)),
{
    match offset {
        Some(t) => t,
        None => match local {
            Some(t) => t,
            None => match local_minutes {
                Some(t) => t,
                None => "Unknown date format".to_string(),
            },
        },
    }
}

/// How the date `d` of a front matter is shown.  A date with an offset is
/// shown at that offset; one without (with or without seconds) is taken in
/// the machine's time zone; a date that reads in none of these ways is shown
/// as `Unknown date format`.
pub fn format_date(d: &str) -> (r: String)
    ensures
        offset_date_text(d@) matches Some(t) ==> r@ == t,
        offset_date_text(d@) is None && !naive_reading(d@) && !naive_minutes_reading(d@) ==> r@
            == "Unknown date format"@,
{
    let offset = format_offset_date(d);
    if offset.is_some() {
        return pick_date(offset, None, None);
    }
    let local = match parse_naive(d) {
        Some(n) => Some(local_or_unknown(format_local(&n))),
        None => None,
    };
    if local.is_some() {
        return pick_date(offset, local, None);
    }
    let minutes = match parse_naive_minutes(d) {
        Some(n) => Some(local_or_unknown(format_local(&n))),
        None => None,
    };
    pick_date(offset, local, minutes)
}

/// The line that shows a chapter's date.
pub open spec fn date_div(date: Seq<char>) -> Seq<char> {
    "\n\n<div class=\"datetime\" style=\"text-align: center; color: gray; font-style: italic; font-size: 90%;\">"@
        + date + "</div>\n\n"@
}

/// A chapter with the front matter `config` taken into account: the front
/// matter is removed, the title becomes the chapter's name, and the date
/// text `date` is shown at the end.
pub open spec fn spec_apply_front_matter(
    before: Chapter,
    after: Chapter,
    config: FrontMatterConfig,
    date: Option<Seq<char>>,
) -> bool {
    &&& after.number == before.number
    &&& after.has_sub_items == before.has_sub_items
    &&& after.path == before.path
    &&& after.source_path == before.source_path
    &&& after.name@ == match config.title {
        Some(t) => t@,
        None => before.name@,
    }
    &&& after.content@ == spec_strip_front_matter(before.content@) + match date {
        Some(d) => date_div(d),
        None => Seq::empty(),
    }
}

/// Applies the front matter `config` of a chapter with the date shown as
/// `date` (the text of `config.date`, when it has one).
pub fn apply_front_matter_with(ch: &mut Chapter, config: FrontMatterConfig, date: Option<String>)
    ensures
        spec_apply_front_matter(*old(ch), *final(ch), config, opt_text(date)),
{
    let mut content = chars_of(strip_front_matter(ch.content.as_str()).as_str());
    match &date {
        Some(d) => {
            extend_chars(
                &mut content,
                &chars_of(
                    "\n\n<div class=\"datetime\" style=\"text-align: center; color: gray; font-style: italic; font-size: 90%;\">",
                ),
            );
            extend_chars(&mut content, &chars_of(d.as_str()));
            extend_chars(&mut content, &chars_of("</div>\n\n"));
            assert(content@ =~= spec_strip_front_matter(old(ch).content@) + date_div(d@));
        },
        None => {
            assert(content@ =~= spec_strip_front_matter(old(ch).content@) + Seq::<char>::empty());
        },
    }
    ch.content = string_of(&content);
    match config.title {
        Some(t) => {
            ch.name = t;
        },
        None => {},
    }
}

/// Whether `shown` is how the front matter date `date` is shown: nothing
/// when there is none, and its text at its offset when it has one.
pub open spec fn date_shown(date: Option<String>, shown: Option<Seq<char>>) -> bool {
    match date {
        Some(ds) => match offset_date_text(ds@) {
            Some(t) => shown == Some(t),
            None => shown is Some,
        },
        None => shown is None,
    }
}

/// Applies the front matter `config` of a chapter: removes it, sets the
/// title and shows the date.
pub fn apply_front_matter(ch: &mut Chapter, config: FrontMatterConfig)
    ensures
        exists|d: Option<Seq<char>>|
            #![trigger spec_apply_front_matter(*old(ch), *final(ch), config, d)]
            date_shown(config.date, d) && spec_apply_front_matter(*old(ch), *final(ch), config, d),
{
    let date = match &config.date {
        Some(d) => Some(format_date(d.as_str())),
        None => None,
    };
    let ghost dv = opt_text(date);
    let ghost cfg = config;
    apply_front_matter_with(ch, config, date);
    assert(date_shown(cfg.date, dv));
    assert(spec_apply_front_matter(*old(ch), *ch, cfg, dv));
}


/// A front matter with the text its date is shown as.
pub fn with_date_text(config: FrontMatterConfig) -> (r: (FrontMatterConfig, Option<String>))
    ensures
        r.0 == config,
        date_shown(config.date, opt_text(r.1)),
{
    let date = match &config.date {
        Some(d) => Some(format_date(d.as_str())),
        None => None,
    };
    (config, date)
}

/// The preprocessor that applies the front matter of each chapter.
pub struct FrontMatter;

/// The front matter given for the `i`th item, none past the end of `configs`.
pub open spec fn config_at(configs: Seq<Option<FrontMatterConfig>>, i: int) -> Option<FrontMatterConfig> {
    if 0 <= i < configs.len() {
        configs[i]
    } else {
        None
    }
}

/// Whether the item `after` is the item `before` with the front matter
/// `config` applied when it is a chapter that has one.
pub open spec fn front_matter_applied(before: BookItem, after: BookItem, config: Option<FrontMatterConfig>) -> bool {
    match before {
        BookItem::Chapter(c) => match config {
            Some(cfg) => after matches BookItem::Chapter(d) && exists|shown: Option<Seq<char>>|
                #![trigger spec_apply_front_matter(c, d, cfg, shown)]
                date_shown(cfg.date, shown) && spec_apply_front_matter(c, d, cfg, shown),
            None => after == before,
        },
        _ => after == before,
    }
}

impl FrontMatter {
    /// The name the preprocessor is known by.
    pub fn name(&self) -> (r: &'static str)
        ensures
            r@ == "front_matter"@,
    {
        "front_matter"
    }

    /// Applies to each chapter of `book` the front matter read from it
    /// (`configs[i]` for the `i`th item; none when it has none that reads):
    /// the block is removed, the title becomes the chapter's name and the
    /// date is shown at the end.
    pub fn run(&self, configs: Vec<Option<FrontMatterConfig>>, book: Book) -> (r: Book)
        ensures
            r.items@.len() == book.items@.len(),
            forall|i: int|
                0 <= i < book.items@.len() ==> front_matter_applied(
                    #[trigger] book.items@[i],
                    r.items@[i],
                    config_at(configs@, i),
                ),
    {
        let ghost before = book.items@;
        let ghost cfgs = configs@;
        let mut items = book.items;
        let mut configs = configs;
        let mut out: Vec<BookItem> = Vec::new();
        let mut k = items.len();
        if configs.len() > k {
            configs.truncate(k);
        }
        assert(items@ =~= before.subrange(0, k as int));
        while k > 0
            invariant
                k <= before.len(),
                items@ == before.subrange(0, k as int),
                configs@ == if cfgs.len() <= k { cfgs } else { cfgs.subrange(0, k as int) },
                out@.len() == before.len() - k,
                forall|t: int|
                    0 <= t < out@.len() ==> front_matter_applied(
                        #[trigger] before[k + t],
                        out@[t],
                        config_at(cfgs, k + t),
                    ),
            decreases k,
        {
            let item = items.pop().unwrap();
            let config = if configs.len() == k {
                configs.pop().unwrap()
            } else {
                None
            };
            k = k - 1;
            assert(item == before[k as int]);
            assert(config == config_at(cfgs, k as int));
            let new_item = match item {
                BookItem::Chapter(c) => match config {
                    Some(cfg) => {
                        let mut c = c;
                        apply_front_matter(&mut c, cfg);
                        BookItem::Chapter(c)
                    },
                    None => BookItem::Chapter(c),
                },
                other => other,
            };
            let ghost prev = out@;
            out.insert(0, new_item);
            assert forall|t: int| 0 <= t < out@.len() implies front_matter_applied(
                #[trigger] before[k + t],
                out@[t],
                config_at(cfgs, k + t),
            ) by {
                if t > 0 {
                    assert(out@[t] == prev[t - 1]);
                    assert(before[k + t] == before[(k + 1) + (t - 1)]);
                }
            }
            assert(items@ =~= before.subrange(0, k as int));
            proof {
                if cfgs.len() > k {
                    assert(configs@ =~= cfgs.subrange(0, k as int));
                }
            }
        }
        assert forall|i: int| 0 <= i < before.len() implies front_matter_applied(
            #[trigger] before[i],
            out@[i],
            config_at(cfgs, i),
        ) by {
            assert(before[0 + i] == before[i]);
        }
        Book { items: out }
    }
}

} // verus!
