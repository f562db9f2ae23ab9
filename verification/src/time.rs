//! Dates of notes.

use vstd::prelude::*;

verus! {

/// A calendar date and time of day at a fixed offset from UTC.
#[derive(Clone, Copy, Debug, PartialEq, Eq, Structural)]
pub struct DateTime {
    pub year: i32,
    /// 1 to 12.
    pub month: u8,
    pub day: u8,
    pub hour: u8,
    pub minute: u8,
    pub second: u8,
    pub nanosecond: u32,
    /// The offset from UTC: hours, minutes and seconds, of the same sign.
    pub offset_hours: i8,
    pub offset_minutes: i8,
    pub offset_seconds: i8,
}

/// A calendar date and time of day without an offset.
#[derive(Clone, Copy, Debug, PartialEq, Eq, Structural)]
pub struct LocalDateTime {
    pub year: i32,
    pub month: u8,
    pub day: u8,
    pub hour: u8,
    pub minute: u8,
    pub second: u8,
    pub nanosecond: u32,
}

/// An offset from UTC: hours, minutes and seconds, of the same sign.
#[derive(Clone, Copy, Debug, PartialEq, Eq, Structural)]
pub struct UtcOffset {
    pub hours: i8,
    pub minutes: i8,
    pub seconds: i8,
}

impl UtcOffset {
    /// No offset.
    pub fn utc() -> (r: UtcOffset)
        ensures
            r == (UtcOffset { hours: 0, minutes: 0, seconds: 0 }),
    {
        UtcOffset { hours: 0, minutes: 0, seconds: 0 }
    }
}

/// What RFC 3339 parsing (`time::OffsetDateTime::parse` with `Rfc3339`) gives for `s`.
pub uninterp spec fn rfc3339_of(s: Seq<char>) -> Option<DateTime>;

/// What `time::PrimitiveDateTime::parse` gives for `s` with the format description `format`.
pub uninterp spec fn local_datetime_of(s: Seq<char>, format: Seq<char>) -> Option<LocalDateTime>;

/// What `time::Date::parse` gives for `s` with the format description `format`,
/// as year, month and day.
pub uninterp spec fn date_of(s: Seq<char>, format: Seq<char>) -> Option<(i32, u8, u8)>;

/// Parses `s` as an RFC 3339 date-time with `time::OffsetDateTime::parse` and
/// reads its fields.  Its contract claims only that the result is a function of `s`.
#[verifier::external_body]
fn parse_rfc3339(s: &str) -> (r: Option<DateTime>)
    ensures
        r == rfc3339_of(s@),
{
    let d = time::OffsetDateTime::parse(s, &time::format_description::well_known::Rfc3339).ok()?;
    let (offset_hours, offset_minutes, offset_seconds) = d.offset().as_hms();
    Some(DateTime { year: d.year(), month: d.month() as u8, day: d.day(), hour: d.hour(),
        minute: d.minute(), second: d.second(), nanosecond: d.nanosecond(), offset_hours,
        offset_minutes, offset_seconds })
}

/// Parses `s` with `time::PrimitiveDateTime::parse` and the format description
/// `format` (read by `time::format_description::parse`).  Its contract claims
/// only that the result is a function of `s` and `format`.
#[verifier::external_body]
fn parse_local(s: &str, format: &str) -> (r: Option<LocalDateTime>)
    ensures
        r == local_datetime_of(s@, format@),
{
    let desc = time::format_description::parse(format).ok()?;
    let d = time::PrimitiveDateTime::parse(s, &desc).ok()?;
    Some(LocalDateTime { year: d.year(), month: d.month() as u8, day: d.day(), hour: d.hour(),
        minute: d.minute(), second: d.second(), nanosecond: d.nanosecond() })
}

/// Parses `s` with `time::Date::parse` and the format description `format`
/// (read by `time::format_description::parse`).  Its contract claims only that
/// the result is a function of `s` and `format`.
#[verifier::external_body]
fn parse_date(s: &str, format: &str) -> (r: Option<(i32, u8, u8)>)
    ensures
        r == date_of(s@, format@),
{
    let desc = time::format_description::parse(format).ok()?;
    let d = time::Date::parse(s, &desc).ok()?;
    Some((d.year(), d.month() as u8, d.day()))
}

/// `[year]-[month]-[day]`
pub open spec fn format_date() -> Seq<char> {
    "[year]-[month]-[day]"@
}

/// `[year]-[month]-[day] [hour]:[minute]`
pub open spec fn format_date_hm() -> Seq<char> {
    "[year]-[month]-[day] [hour]:[minute]"@
}

/// `[year]-[month]-[day] [hour]:[minute]:[second]`
pub open spec fn format_date_hms() -> Seq<char> {
    "[year]-[month]-[day] [hour]:[minute]:[second]"@
}

/// `17 May 1814`
pub open spec fn format_readable() -> Seq<char> {
    "[day padding:none] [month repr:long case_sensitive:false] [year]"@
}

/// `May 17 1814`
pub open spec fn format_readable_american() -> Seq<char> {
    "[month repr:long case_sensitive:false] [day padding:none] [year]"@
}

/// The local date-time `d` at the offset `offset`.
pub open spec fn assume_offset(d: LocalDateTime, offset: UtcOffset) -> DateTime {
    DateTime {
        year: d.year,
        month: d.month,
        day: d.day,
        hour: d.hour,
        minute: d.minute,
        second: d.second,
        nanosecond: d.nanosecond,
        offset_hours: offset.hours,
        offset_minutes: offset.minutes,
        offset_seconds: offset.seconds,
    }
}

/// Midnight of the date `d`.
pub open spec fn midnight(d: (i32, u8, u8)) -> LocalDateTime {
    LocalDateTime {
        year: d.0,
        month: d.1,
        day: d.2,
        hour: 0,
        minute: 0,
        second: 0,
        nanosecond: 0,
    }
}

/// The first of the date formats that `s` reads as, at midnight.
pub open spec fn spec_parse_date_only(s: Seq<char>) -> Option<LocalDateTime> {
    match date_of(s, format_date()) {
        Some(d) => Some(midnight(d)),
        None => match date_of(s, format_readable()) {
            Some(d) => Some(midnight(d)),
            None => match date_of(s, format_readable_american()) {
                Some(d) => Some(midnight(d)),
                None => None,
            },
        },
    }
}

/// How [`parse_datestring`] reads `s`: RFC 3339 first; then, at the offset
/// `local`, a date with time with seconds, a date with time without seconds,
/// and the date formats at midnight.
pub open spec fn spec_parse_datestring(s: Seq<char>, local: UtcOffset) -> Option<DateTime> {
    match rfc3339_of(s) {
        Some(d) => Some(d),
        None => {
            let local_dt = match local_datetime_of(s, format_date_hms()) {
                Some(d) => Some(d),
                None => match local_datetime_of(s, format_date_hm()) {
                    Some(d) => Some(d),
                    None => spec_parse_date_only(s),
                },
            };
            match local_dt {
                Some(d) => Some(assume_offset(d, local)),
                None => None,
            }
        },
    }
}

fn at_midnight(d: (i32, u8, u8)) -> (r: LocalDateTime)
    ensures
        r == midnight(d),
{
    LocalDateTime { year: d.0, month: d.1, day: d.2, hour: 0, minute: 0, second: 0, nanosecond: 0 }
}

/// Attempts to interpret `datestring` as a datetime or date, trying in order:
/// RFC 3339 (`1814-05-17T07:20:42.52+02:00`), naive datetimes
/// (`1814-05-17 07:20:42`), naive datetimes without seconds
/// (`1814-05-17 07:20`), dates (`1814-05-17`), readable dates (`17 May 1814`)
/// and American readable dates (`May 17 1814`).  Dates are taken at midnight;
/// whatever carries no offset is taken at the offset `local`.
pub fn parse_datestring(datestring: &str, local: UtcOffset) -> (r: Option<DateTime>)
    ensures
        r == spec_parse_datestring(datestring@, local),
{
    if let Some(d) = parse_rfc3339(datestring) {
        return Some(d);
    }
    let local_dt = if let Some(d) = parse_local(
        datestring,
        "[year]-[month]-[day] [hour]:[minute]:[second]",
    ) {
        Some(d)
    } else if let Some(d) = parse_local(datestring, "[year]-[month]-[day] [hour]:[minute]") {
        Some(d)
    } else if let Some(d) = parse_date(datestring, "[year]-[month]-[day]") {
        Some(at_midnight(d))
    } else if let Some(d) = parse_date(
        datestring,
        "[day padding:none] [month repr:long case_sensitive:false] [year]",
    ) {
        Some(at_midnight(d))
    } else if let Some(d) = parse_date(
        datestring,
        "[month repr:long case_sensitive:false] [day padding:none] [year]",
    ) {
        Some(at_midnight(d))
    } else {
        None
    };
    match local_dt {
        Some(d) => Some(
            DateTime {
                year: d.year,
                month: d.month,
                day: d.day,
                hour: d.hour,
                minute: d.minute,
                second: d.second,
                nanosecond: d.nanosecond,
                offset_hours: local.hours,
                offset_minutes: local.minutes,
                offset_seconds: local.seconds,
            },
        ),
        None => None,
    }
}


/// Whether `o` is an offset that `time` can hold: hours within 25,
/// minutes and seconds within 59, all of one sign.
pub open spec fn offset_valid(o: UtcOffset) -> bool {
    &&& -25 <= o.hours <= 25
    &&& -59 <= o.minutes <= 59
    &&& -59 <= o.seconds <= 59
    &&& (o.hours >= 0 && o.minutes >= 0 && o.seconds >= 0) || (o.hours <= 0 && o.minutes <= 0
        && o.seconds <= 0)
}

/// The offset of the machine's time zone now, by
/// `time::UtcOffset::current_local_offset` (none when it cannot be
/// determined, as when other threads run).  It depends on the machine and
/// the time, so its contract claims only what holds of every offset that
/// `time` gives: it is valid.
#[verifier::external_body]
fn current_local_offset() -> (r: Option<UtcOffset>)
    ensures
        r matches Some(o) ==> offset_valid(o),
{
    let (hours, minutes, seconds) = time::UtcOffset::current_local_offset().ok()?.as_hms();
    Some(UtcOffset { hours, minutes, seconds })
}

/// Finds the machine's time zone offset and keeps it in `store`; when it
/// cannot be found (as when other threads run), `store` falls back to UTC.
/// Which offset the machine gives depends on the machine and the time, so
/// this states what holds whatever it gives: `store` then holds a valid
/// offset, and [`store_offset`] states which.
pub fn store_timezone(store: &mut UtcOffset)
    ensures
        offset_valid(*final(store)),
{
    let found = current_local_offset();
    store_offset(store, found);
}

/// Keeps in `store` the time zone offset `found` of the machine, when one
/// was found; otherwise `store` falls back to UTC.
pub fn store_offset(store: &mut UtcOffset, found: Option<UtcOffset>)
    ensures
        *final(store) == match found {
            Some(o) => o,
            None => UtcOffset { hours: 0, minutes: 0, seconds: 0 },
        },
{
    match found {
        Some(o) => {
            *store = o;
        },
        None => {
            *store = UtcOffset::utc();
        },
    }
}

/// The offset kept in `store` by [`store_timezone`].
pub fn load_timezone(store: &UtcOffset) -> (r: UtcOffset)
    ensures
        r == *store,
{
    *store
}

/// The text that formatting the date-time `d` with the format description
/// `format` gives, if it formats.
pub uninterp spec fn formatted_datetime(d: DateTime, format: Seq<char>) -> Option<Seq<char>>;

/// The RFC 3339 text of the date-time `d`, if it has one.
pub uninterp spec fn rfc3339_text(d: DateTime) -> Option<Seq<char>>;

/// An optional string as optional text.
pub open spec fn opt_chars(o: Option<String>) -> Option<Seq<char>> {
    match o {
        Some(s) => Some(s@),
        None => None,
    }
}

/// Builds the `time::OffsetDateTime` of `d` (none when a field is out of its
/// range) and formats it with `OffsetDateTime::format` and the description
/// that `time::format_description::parse` reads from `format`.  Its contract
/// claims only that the result is a function of `d` and `format`.
#[verifier::external_body]
fn format_datetime(d: DateTime, format: &str) -> (r: Option<String>)
    ensures
        opt_chars(r) == formatted_datetime(d, format@),
{
    let date = time::Date::from_calendar_date(d.year, time::Month::try_from(d.month).ok()?, d.day).ok()?;
    let t = time::Time::from_hms_nano(d.hour, d.minute, d.second, d.nanosecond).ok()?;
    let off = time::UtcOffset::from_hms(d.offset_hours, d.offset_minutes, d.offset_seconds).ok()?;
    let desc = time::format_description::parse(format).ok()?;
    time::PrimitiveDateTime::new(date, t).assume_offset(off).format(&desc).ok()
}

/// Builds the `time::OffsetDateTime` of `d` (none when a field is out of its
/// range) and formats it with `OffsetDateTime::format` and
/// `well_known::Rfc3339`.  Its contract claims only that the result is a
/// function of `d`.
#[verifier::external_body]
fn format_rfc3339(d: DateTime) -> (r: Option<String>)
    ensures
        opt_chars(r) == rfc3339_text(d),
{
    let date = time::Date::from_calendar_date(d.year, time::Month::try_from(d.month).ok()?, d.day).ok()?;
    let t = time::Time::from_hms_nano(d.hour, d.minute, d.second, d.nanosecond).ok()?;
    let off = time::UtcOffset::from_hms(d.offset_hours, d.offset_minutes, d.offset_seconds).ok()?;
    let dt = time::PrimitiveDateTime::new(date, t).assume_offset(off);
    dt.format(&time::format_description::well_known::Rfc3339).ok()
}

/// `d` in RFC 3339, as notes' dates are written out: `1814-05-17T07:20:42+02:00`.
pub fn to_rfc3339(d: &DateTime) -> (r: Option<String>)
    ensures
        opt_chars(r) == rfc3339_text(*d),
{
    format_rfc3339(*d)
}

/// `d` as readable text, as pages show dates: `17 May 1814`.
pub fn to_readable(d: &DateTime) -> (r: Option<String>)
    ensures
        opt_chars(r) == formatted_datetime(*d, format_readable()),
{
    format_datetime(*d, "[day padding:none] [month repr:long case_sensitive:false] [year]")
}

} // verus!
