//! XMLTV listings: the channels and programmes of a listing, and the
//! programme start times in the XMLTV date format.

use chrono::Datelike;
use crate::text::str_equal;
use vstd::prelude::*;

verus! {

#[verifier::external_type_specification]
#[verifier::external_body]
pub struct ExParseError(chrono::ParseError);

/// An instant: whole seconds since the Unix epoch, and nanoseconds.
#[derive(Clone, Copy, Debug, PartialEq, Eq)]
pub struct Timestamp {
    pub seconds: i64,
    pub nanos: u32,
}

/// What `chrono::DateTime::parse_from_str` reads from the text `s` in the
/// format `fmt`: the instant (seconds since the epoch and nanoseconds) and
/// the UTC offset in seconds, or nothing where it fails.
pub uninterp spec fn chrono_parse_from_str(s: Seq<char>, fmt: Seq<char>) -> Option<(i64, u32, i32)>;

/// Calls `chrono::DateTime::parse_from_str`, which reads a date, a time and
/// a UTC offset from `s` as the strftime-style format `fmt` lays them out,
/// and takes the instant and the offset of the `DateTime<FixedOffset>` it
/// gives (`timestamp`, `timestamp_subsec_nanos`, `local_minus_utc`).
/// Claimed: the outcome depends on `s` and `fmt` alone.
#[verifier::external_body]
fn parse_from_str(s: &str, fmt: &str) -> (r: Result<(i64, u32, i32), chrono::ParseError>)
    ensures
        r matches Ok(v) ==> chrono_parse_from_str(s@, fmt@) == Some(v),
        r is Err ==> chrono_parse_from_str(s@, fmt@) is None,
{
    match chrono::DateTime::parse_from_str(s, fmt) {
        Ok(t) => Ok((t.timestamp(), t.timestamp_subsec_nanos(), t.offset().local_minus_utc())),
        Err(e) => Err(e),
    }
}

/// A day of the week.
#[derive(Clone, Copy, Debug, PartialEq, Eq)]
pub enum Weekday {
    Mon,
    Tue,
    Wed,
    Thu,
    Fri,
    Sat,
    Sun,
}

/// The day of the week of day `day` counted from the Unix epoch
/// (1970-01-01, a Thursday).
pub open spec fn weekday_of_day(day: int) -> Weekday {
    let r = day % 7;
    if r == 0 {
        Weekday::Thu
    } else if r == 1 {
        Weekday::Fri
    } else if r == 2 {
        Weekday::Sat
    } else if r == 3 {
        Weekday::Sun
    } else if r == 4 {
        Weekday::Mon
    } else if r == 5 {
        Weekday::Tue
    } else {
        Weekday::Wed
    }
}

/// An instant that chrono can represent for certain: whole nanoseconds
/// below a second, and within about 253,000 years of the epoch.
pub open spec fn in_clock_range(t: Timestamp) -> bool {
    &&& t.nanos < 1_000_000_000
    &&& -8_000_000_000_000 < t.seconds < 8_000_000_000_000
}

/// The day, counted from the epoch, of the second `seconds` shifted by a
/// UTC offset of `off` seconds.
pub open spec fn shifted_day(seconds: i64, off: int) -> int {
    (seconds + off) / 86400
}

/// `r` can be the local day of the week of `t` in some time zone: where
/// there is a day, it is the day of the instant shifted by a UTC offset of
/// less than a day either way; and there is a day wherever chrono can
/// represent the instant for certain.
pub open spec fn possible_local_weekday(t: Timestamp, r: Option<Weekday>) -> bool {
    &&& (r matches Some(d) ==> exists|off: int| -86400 < off < 86400 && d == weekday_of_day(#[trigger] shifted_day(t.seconds, off)))
    &&& (in_clock_range(t) ==> r is Some)
}

/// Calls `chrono::DateTime::from_timestamp`, `with_timezone(&chrono::Local)`
/// and `Datelike::weekday`: the day of the week of the instant in the
/// machine's local time zone, or nothing where chrono cannot represent the
/// instant. Claimed: chrono's local offsets are less than a day either way
/// (`FixedOffset` refuses any other), so the day is that of the instant
/// shifted by such an offset; and `from_timestamp` succeeds for whole
/// nanoseconds within about 253,000 years of the epoch. Which offset, is
/// not stated: it is the machine's time zone.
#[verifier::external_body]
fn local_weekday(t: Timestamp) -> (r: Option<Weekday>)
    ensures
        possible_local_weekday(t, r),
{
    match chrono::DateTime::from_timestamp(t.seconds, t.nanos) {
        Some(d) => Some(
            match d.with_timezone(&chrono::Local).weekday() {
                chrono::Weekday::Mon => Weekday::Mon,
                chrono::Weekday::Tue => Weekday::Tue,
                chrono::Weekday::Wed => Weekday::Wed,
                chrono::Weekday::Thu => Weekday::Thu,
                chrono::Weekday::Fri => Weekday::Fri,
                chrono::Weekday::Sat => Weekday::Sat,
                chrono::Weekday::Sun => Weekday::Sun,
            },
        ),
        None => None,
    }
}

/// A listing: its date, its channels and its programmes.
#[derive(Debug)]
pub struct Tv {
    pub date: String,
    pub channels: Vec<Channel>,
    pub programs: Vec<Program>,
}

/// A channel of a listing, with its three display names: the full name,
/// the callsign and the channel number.
#[derive(Debug)]
pub struct Channel {
    pub id: String,
    pub display_names: [String; 3],
}

/// A programme of a listing.
#[derive(Debug)]
pub struct Program {
    pub start: Timestamp,
    pub stop: String,
    pub channel: String,
    pub title: String,
    pub category: String,
}

/// The value of a `Channel`.
pub struct ChannelView {
    pub id: Seq<char>,
    pub display_names: Seq<Seq<char>>,
}

/// The value of a `Program`.
pub struct ProgramView {
    pub start: Timestamp,
    pub stop: Seq<char>,
    pub channel: Seq<char>,
    pub title: Seq<char>,
    pub category: Seq<char>,
}

impl View for Channel {
    type V = ChannelView;

    open spec fn view(&self) -> ChannelView {
        ChannelView {
            id: self.id@,
            display_names: self.display_names@.map_values(|n: String| n@),
        }
    }
}

impl View for Program {
    type V = ProgramView;

    open spec fn view(&self) -> ProgramView {
        ProgramView {
            start: self.start,
            stop: self.stop@,
            channel: self.channel@,
            title: self.title@,
            category: self.category@,
        }
    }
}

impl ChannelView {
    /// The callsign: the second display name.
    pub open spec fn callsign(self) -> Seq<char> {
        self.display_names[1]
    }
}

impl Channel {
    /// The full name: the first display name.
    pub fn full_name(&self) -> (name: &str)
        ensures
            name@ == self@.display_names[0],
    {
        self.display_names[0].as_str()
    }

    /// The callsign: the second display name.
    pub fn callsign(&self) -> (name: &str)
        ensures
            name@ == self@.display_names[1],
            name@ == self@.callsign(),
    {
        self.display_names[1].as_str()
    }

    /// The channel number: the third display name.
    pub fn channel_number(&self) -> (name: &str)
        ensures
            name@ == self@.display_names[2],
    {
        self.display_names[2].as_str()
    }
}

/// The format of XMLTV times, such as `20220326223000 +0000`.
pub open spec fn xmltv_datetime_format() -> Seq<char> {
    seq!['%', 'Y', '%', 'm', '%', 'd', '%', 'H', '%', 'M', '%', 'S', ' ', '%', 'z']
}

/// The instant of a parsed time, leaving out its UTC offset (the same
/// instant in any time zone).
pub fn instant_of(parsed: (i64, u32, i32)) -> (t: Timestamp)
    ensures
        t == (Timestamp { seconds: parsed.0, nanos: parsed.1 }),
{
    Timestamp { seconds: parsed.0, nanos: parsed.1 }
}

/// Reads an XMLTV time such as `20220326223000 +0000` (the format
/// `%Y%m%d%H%M%S %z`) and gives its instant, or chrono's error where the
/// text does not have that form.
pub fn deserialize_xmltv_datetime(s: &str) -> (r: Result<Timestamp, chrono::ParseError>)
    ensures
        r is Ok <==> chrono_parse_from_str(s@, xmltv_datetime_format()) is Some,
        r matches Ok(t) ==> t == instant_of_spec(chrono_parse_from_str(s@, xmltv_datetime_format())->0),
        // the instant is chrono's, whatever the UTC offset in the text
        r is Ok <==> chrono_parse_from_str(s@, "%Y%m%d%H%M%S %z"@) is Some,
        r matches Ok(t) ==> match chrono_parse_from_str(s@, "%Y%m%d%H%M%S %z"@) {
            Some((seconds, nanos, _offset)) => t.seconds == seconds && t.nanos == nanos,
            None => false,
        },
{
    let format = "%Y%m%d%H%M%S %z";
    proof {
        reveal_strlit("%Y%m%d%H%M%S %z");
        assert(format@ =~= xmltv_datetime_format());
    }
    match parse_from_str(s, format) {
        Ok(parsed) => Ok(instant_of(parsed)),
        Err(e) => Err(e),
    }
}

/// The instant of a parsed time.
pub open spec fn instant_of_spec(parsed: (i64, u32, i32)) -> Timestamp {
    Timestamp { seconds: parsed.0, nanos: parsed.1 }
}

/// The instant of an XMLTV time is the instant chrono read, whatever UTC
/// offset the text gives: its seconds and nanoseconds are those chrono
/// gives, and two texts that chrono reads as the same instant, at any two
/// offsets, give the same instant.
pub proof fn lemma_xmltv_instant_ignores_offset(s1: Seq<char>, s2: Seq<char>)
    requires
        chrono_parse_from_str(s1, "%Y%m%d%H%M%S %z"@) is Some,
    ensures
        instant_of_spec(chrono_parse_from_str(s1, xmltv_datetime_format())->0).seconds == (chrono_parse_from_str(s1, "%Y%m%d%H%M%S %z"@)->0).0,
        instant_of_spec(chrono_parse_from_str(s1, xmltv_datetime_format())->0).nanos == (chrono_parse_from_str(s1, "%Y%m%d%H%M%S %z"@)->0).1,
        chrono_parse_from_str(s2, "%Y%m%d%H%M%S %z"@) matches Some(p2) && p2.0 == (chrono_parse_from_str(s1, "%Y%m%d%H%M%S %z"@)->0).0
            && p2.1 == (chrono_parse_from_str(s1, "%Y%m%d%H%M%S %z"@)->0).1 ==> instant_of_spec(chrono_parse_from_str(s2, xmltv_datetime_format())->0)
            == instant_of_spec(chrono_parse_from_str(s1, xmltv_datetime_format())->0),
{
    reveal_strlit("%Y%m%d%H%M%S %z");
    assert("%Y%m%d%H%M%S %z"@ =~= xmltv_datetime_format());
}

/// A day of the week (if known) is a Saturday or a Sunday.
pub open spec fn weekend_day(day: Option<Weekday>) -> bool {
    day == Some(Weekday::Sat) || day == Some(Weekday::Sun)
}

/// `flag` can tell whether an instant is on a weekend in some time zone:
/// it is the weekend test of a possible local day of the week.
pub open spec fn possible_weekend_flag(t: Timestamp, flag: bool) -> bool {
    exists|r: Option<Weekday>| #[trigger] possible_local_weekday(t, r) && flag == weekend_day(r)
}

/// An instant at midnight UTC that starts a Sunday is on a weekend in every
/// time zone: whatever the local offset, the local day is a Saturday or a
/// Sunday.
pub proof fn lemma_sunday_midnight_is_weekend(t: Timestamp, flag: bool)
    requires
        in_clock_range(t),
        t.seconds % 86400 == 0,
        weekday_of_day(t.seconds / 86400) == Weekday::Sun,
        possible_weekend_flag(t, flag),
    ensures
        flag,
{
    let r = choose|r: Option<Weekday>| #[trigger] possible_local_weekday(t, r) && flag == weekend_day(r);
    let d = r->0;
    let off = choose|off: int| -86400 < off < 86400 && d == weekday_of_day(#[trigger] shifted_day(t.seconds, off));
    let day = t.seconds / 86400;
    assert(t.seconds == day * 86400);
    if off < 0 {
        assert((t.seconds + off) / 86400 == day - 1) by (nonlinear_arith)
            requires t.seconds == day * 86400, -86400 < off < 0;
        assert((day - 1) % 7 == 2) by (nonlinear_arith)
            requires day % 7 == 3;
    } else {
        assert((t.seconds + off) / 86400 == day) by (nonlinear_arith)
            requires t.seconds == day * 86400, 0 <= off < 86400;
    }
}

/// For each programme, whether it starts on a Saturday or a Sunday in the
/// machine's local time zone: for each, the weekend test of a day of the
/// week that its start can have in some time zone.
pub fn weekend_starts(programs: &[Program]) -> (flags: Vec<bool>)
    ensures
        flags@.len() == programs@.len(),
        forall|i: int| 0 <= i < programs@.len() ==> possible_weekend_flag(programs@[i].start, #[trigger] flags@[i]),
{
    let mut flags: Vec<bool> = Vec::new();
    let n = programs.len();
    let mut i: usize = 0;
    while i < n
        invariant
            n == programs@.len(),
            i <= n,
            flags@.len() == i,
            forall|j: int| 0 <= j < i ==> possible_weekend_flag(programs@[j].start, #[trigger] flags@[j]),
        decreases n - i,
    {
        let day = local_weekday(programs[i].start);
        let flag = is_weekend(day);
        proof {
            assert(possible_local_weekday(programs@[i as int].start, day) && flag == weekend_day(day));
        }
        flags.push(flag);
        i = i + 1;
    }
    flags
}

/// Whether a day (if known) is a Saturday or a Sunday.
pub fn is_weekend(day: Option<Weekday>) -> (b: bool)
    ensures
        b == weekend_day(day),
{
    match day {
        Some(Weekday::Sat) | Some(Weekday::Sun) => true,
        _ => false,
    }
}

/// Whether a line read from a saved HTTP response ends its headers: the
/// empty line `\r\n` (after it comes the listing itself).
pub fn ends_http_headers(line: &str) -> (b: bool)
    ensures
        b == (line@ == seq!['\r', '\n']),
{
    let blank = "\r\n";
    proof {
        reveal_strlit("\r\n");
        assert(blank@ =~= seq!['\r', '\n']);
    }
    str_equal(line, blank)
}

} // verus!
