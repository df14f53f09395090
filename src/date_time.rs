//! Calendar timestamps of the form `YYYY-M-D H:M:S`.
use crate::text::{
    all_digits, chars_of, decimal, is_digit, lacks, lemma_digits_lack, lemma_lacks_concat,
    lemma_numeral_nonneg, lemma_split_first, lemma_split_none, find, is_numeral, lemma_decimal, lemma_find, numeral_at_most, numeral_value,
    parse_numeral, pieces, push_decimal, split, split_ranges, string_of,
};
use std::cmp::Ordering;
use vstd::prelude::*;

verus! {

/// A date and time of day. Values made by `DateTime::parse` satisfy `in_range`;
/// the day is only bounded by 31, whatever the month.
#[derive(Debug, Clone, Copy, PartialEq, Eq, Structural, Ord)]
pub struct DateTime {
    pub year: u16,
    pub month: u8,
    pub day: u8,
    pub hour: u8,
    pub minute: u8,
    pub second: u8,
}

/// Why a timestamp was refused.
#[derive(Debug, Clone, Copy, PartialEq, Eq, Structural)]
pub enum TimestampError {
    /// No space between the date and the time.
    InvalidFormat,
    /// The date is not three non-empty fields separated by `-`.
    InvalidDate,
    /// The time is not three non-empty fields separated by `:`.
    InvalidTime,
    InvalidYear,
    InvalidMonth,
    InvalidDay,
    InvalidHour,
    InvalidMinute,
    InvalidSecond,
}

impl TimestampError {
    /// The description that `describe` gives.
    pub open spec fn text(self) -> Seq<char> {
        match self {
            TimestampError::InvalidFormat => "invalid format in date and time"@,
            TimestampError::InvalidDate => "invalid date format"@,
            TimestampError::InvalidTime => "invalid time format"@,
            TimestampError::InvalidYear => "invalid year"@,
            TimestampError::InvalidMonth => "invalid month"@,
            TimestampError::InvalidDay => "invalid day"@,
            TimestampError::InvalidHour => "invalid hour"@,
            TimestampError::InvalidMinute => "invalid minute"@,
            TimestampError::InvalidSecond => "invalid second"@,
        }
    }

    /// A short human-readable description.
    pub fn describe(&self) -> (r: &'static str)
        ensures
            r@ == self.text(),
    {
        match self {
            TimestampError::InvalidFormat => "invalid format in date and time",
            TimestampError::InvalidDate => "invalid date format",
            TimestampError::InvalidTime => "invalid time format",
            TimestampError::InvalidYear => "invalid year",
            TimestampError::InvalidMonth => "invalid month",
            TimestampError::InvalidDay => "invalid day",
            TimestampError::InvalidHour => "invalid hour",
            TimestampError::InvalidMinute => "invalid minute",
            TimestampError::InvalidSecond => "invalid second",
        }
    }
}

/// Three pieces, none of them empty.
pub open spec fn three_fields(p: Seq<Seq<char>>) -> bool {
    p.len() == 3 && p[0].len() > 0 && p[1].len() > 0 && p[2].len() > 0
}

/// The date part of a timestamp text: what precedes the first space.
pub open spec fn date_part(s: Seq<char>) -> Seq<char> {
    s.take(find(s, ' '))
}

/// The time part of a timestamp text: what follows the first space.
pub open spec fn time_part(s: Seq<char>) -> Seq<char> {
    s.skip(find(s, ' ') + 1)
}

/// The result of reading `s` as a timestamp. Each field must first read as
/// an unsigned integer of its width (16 bits for the year, 8 for the others);
/// then each must lie in its range.
#[verifier::opaque]
pub open spec fn timestamp_from(s: Seq<char>) -> Result<DateTime, TimestampError> {
    let d = split(date_part(s), '-');
    let t = split(time_part(s), ':');
    if find(s, ' ') < 0 {
        Err(TimestampError::InvalidFormat)
    } else if !three_fields(d) {
        Err(TimestampError::InvalidDate)
    } else if !three_fields(t) {
        Err(TimestampError::InvalidTime)
    } else if numeral_at_most(d[0], 65535) is None {
        Err(TimestampError::InvalidYear)
    } else if numeral_at_most(d[1], 255) is None {
        Err(TimestampError::InvalidMonth)
    } else if numeral_at_most(d[2], 255) is None {
        Err(TimestampError::InvalidDay)
    } else if numeral_at_most(t[0], 255) is None {
        Err(TimestampError::InvalidHour)
    } else if numeral_at_most(t[1], 255) is None {
        Err(TimestampError::InvalidMinute)
    } else if numeral_at_most(t[2], 255) is None {
        Err(TimestampError::InvalidSecond)
    } else {
        let year = numeral_value(d[0]);
        let month = numeral_value(d[1]);
        let day = numeral_value(d[2]);
        let hour = numeral_value(t[0]);
        let minute = numeral_value(t[1]);
        let second = numeral_value(t[2]);
        if !(1970 <= year <= 9999) {
            Err(TimestampError::InvalidYear)
        } else if !(1 <= month <= 12) {
            Err(TimestampError::InvalidMonth)
        } else if !(1 <= day <= 31) {
            Err(TimestampError::InvalidDay)
        } else if !(hour <= 23) {
            Err(TimestampError::InvalidHour)
        } else if !(minute <= 59) {
            Err(TimestampError::InvalidMinute)
        } else if !(second <= 59) {
            Err(TimestampError::InvalidSecond)
        } else {
            Ok(
                DateTime {
                    year: year as u16,
                    month: month as u8,
                    day: day as u8,
                    hour: hour as u8,
                    minute: minute as u8,
                    second: second as u8,
                },
            )
        }
    }
}

impl DateTime {
    /// Every field lies in its range.
    pub open spec fn in_range(self) -> bool {
        &&& 1970 <= self.year <= 9999
        &&& 1 <= self.month <= 12
        &&& 1 <= self.day <= 31
        &&& self.hour <= 23
        &&& self.minute <= 59
        &&& self.second <= 59
    }

    /// `self` comes strictly before `other`, comparing year, month, day, hour,
    /// minute and second in turn.
    pub open spec fn before(self, other: DateTime) -> bool {
        if self.year != other.year {
            self.year < other.year
        } else if self.month != other.month {
            self.month < other.month
        } else if self.day != other.day {
            self.day < other.day
        } else if self.hour != other.hour {
            self.hour < other.hour
        } else if self.minute != other.minute {
            self.minute < other.minute
        } else {
            self.second < other.second
        }
    }

    /// The text `Y-M-D h:m:s`, each field in decimal without padding.
    pub open spec fn rendered(self) -> Seq<char> {
        decimal(self.year as nat) + seq!['-'] + decimal(self.month as nat) + seq!['-'] + decimal(
            self.day as nat,
        ) + seq![' '] + decimal(self.hour as nat) + seq![':'] + decimal(self.minute as nat)
            + seq![':'] + decimal(self.second as nat)
    }

    /// Reads `s` as `Y-M-D h:m:s`: the date and the time are separated by the
    /// first space, the date fields by `-` and the time fields by `:`.
    pub fn parse(s: &str) -> (r: Result<DateTime, TimestampError>)
        ensures
            r == timestamp_from(s@),
            r matches Ok(dt) ==> dt.in_range(),
    {
        proof {
            reveal(timestamp_from);
        }
        let c = chars_of(s);
        let n = c.len();
        let mut i: usize = 0;
        while i < n && c[i] != ' '
            invariant
                i <= n == c@.len(),
                forall|j: int| 0 <= j < i ==> c@[j] != ' ',
            decreases n - i,
        {
            i = i + 1;
        }
        proof {
            lemma_find(c@, ' ', i as int);
        }
        if i == n {
            return Err(TimestampError::InvalidFormat);
        }
        let d = split_ranges(&c, 0, i, '-');
        let t = split_ranges(&c, i + 1, n, ':');
        let ghost dp = split(date_part(s@), '-');
        let ghost tp = split(time_part(s@), ':');
        proof {
            assert(c@.subrange(0, i as int) =~= date_part(s@));
            assert(c@.subrange(i + 1, n as int) =~= time_part(s@));
        }
        if !(d.len() == 3 && d[0].0 < d[0].1 && d[1].0 < d[1].1 && d[2].0 < d[2].1) {
            proof {
                if dp.len() == 3 {
                    assert(dp[0] == c@.subrange(d@[0].0 as int, d@[0].1 as int));
                    assert(dp[1] == c@.subrange(d@[1].0 as int, d@[1].1 as int));
                    assert(dp[2] == c@.subrange(d@[2].0 as int, d@[2].1 as int));
                }
            }
            return Err(TimestampError::InvalidDate);
        }
        if !(t.len() == 3 && t[0].0 < t[0].1 && t[1].0 < t[1].1 && t[2].0 < t[2].1) {
            proof {
                if tp.len() == 3 {
                    assert(tp[0] == c@.subrange(t@[0].0 as int, t@[0].1 as int));
                    assert(tp[1] == c@.subrange(t@[1].0 as int, t@[1].1 as int));
                    assert(tp[2] == c@.subrange(t@[2].0 as int, t@[2].1 as int));
                }
            }
            return Err(TimestampError::InvalidTime);
        }
        proof {
            assert(dp[0] == c@.subrange(d@[0].0 as int, d@[0].1 as int));
            assert(dp[1] == c@.subrange(d@[1].0 as int, d@[1].1 as int));
            assert(dp[2] == c@.subrange(d@[2].0 as int, d@[2].1 as int));
            assert(tp[0] == c@.subrange(t@[0].0 as int, t@[0].1 as int));
            assert(tp[1] == c@.subrange(t@[1].0 as int, t@[1].1 as int));
            assert(tp[2] == c@.subrange(t@[2].0 as int, t@[2].1 as int));
            assert(d@[0].0 <= d@[0].1 <= c@.len());
            assert(d@[1].0 <= d@[1].1 <= c@.len());
            assert(d@[2].0 <= d@[2].1 <= c@.len());
            assert(t@[0].0 <= t@[0].1 <= c@.len());
            assert(t@[1].0 <= t@[1].1 <= c@.len());
            assert(t@[2].0 <= t@[2].1 <= c@.len());
        }
        let year = match parse_numeral(&c, d[0].0, d[0].1, 65535) {
            Some(v) => v,
            None => return Err(TimestampError::InvalidYear),
        };
        let month = match parse_numeral(&c, d[1].0, d[1].1, 255) {
            Some(v) => v,
            None => return Err(TimestampError::InvalidMonth),
        };
        let day = match parse_numeral(&c, d[2].0, d[2].1, 255) {
            Some(v) => v,
            None => return Err(TimestampError::InvalidDay),
        };
        let hour = match parse_numeral(&c, t[0].0, t[0].1, 255) {
            Some(v) => v,
            None => return Err(TimestampError::InvalidHour),
        };
        let minute = match parse_numeral(&c, t[1].0, t[1].1, 255) {
            Some(v) => v,
            None => return Err(TimestampError::InvalidMinute),
        };
        let second = match parse_numeral(&c, t[2].0, t[2].1, 255) {
            Some(v) => v,
            None => return Err(TimestampError::InvalidSecond),
        };
        if year < 1970 || year > 9999 {
            return Err(TimestampError::InvalidYear);
        }
        if month < 1 || month > 12 {
            return Err(TimestampError::InvalidMonth);
        }
        if day < 1 || day > 31 {
            return Err(TimestampError::InvalidDay);
        }
        if hour > 23 {
            return Err(TimestampError::InvalidHour);
        }
        if minute > 59 {
            return Err(TimestampError::InvalidMinute);
        }
        if second > 59 {
            return Err(TimestampError::InvalidSecond);
        }
        Ok(
            DateTime {
                year: year as u16,
                month: month as u8,
                day: day as u8,
                hour: hour as u8,
                minute: minute as u8,
                second: second as u8,
            },
        )
    }

    /// Whether `self` comes strictly before `other`.
    pub fn is_before(&self, other: &DateTime) -> (r: bool)
        ensures
            r == self.before(*other),
    {
        if self.year != other.year {
            self.year < other.year
        } else if self.month != other.month {
            self.month < other.month
        } else if self.day != other.day {
            self.day < other.day
        } else if self.hour != other.hour {
            self.hour < other.hour
        } else if self.minute != other.minute {
            self.minute < other.minute
        } else {
            self.second < other.second
        }
    }

    /// Renders the timestamp as `Y-M-D h:m:s`.
    pub fn to_string(&self) -> (r: String)
        ensures
            r@ == self.rendered(),
    {
        let mut out: Vec<char> = Vec::new();
        push_decimal(&mut out, self.year as u32);
        out.push('-');
        push_decimal(&mut out, self.month as u32);
        out.push('-');
        push_decimal(&mut out, self.day as u32);
        out.push(' ');
        push_decimal(&mut out, self.hour as u32);
        out.push(':');
        push_decimal(&mut out, self.minute as u32);
        out.push(':');
        push_decimal(&mut out, self.second as u32);
        assert(out@ =~= self.rendered());
        string_of(out.as_slice())
    }
}

impl PartialOrd for DateTime {
    fn partial_cmp(&self, other: &DateTime) -> (r: Option<Ordering>) {
        if self.is_before(other) {
            Some(Ordering::Less)
        } else if *self == *other {
            Some(Ordering::Equal)
        } else {
            Some(Ordering::Greater)
        }
    }
}

impl vstd::std_specs::cmp::PartialOrdSpecImpl for DateTime {
    open spec fn obeys_partial_cmp_spec() -> bool {
        true
    }

    open spec fn partial_cmp_spec(&self, other: &DateTime) -> Option<Ordering> {
        if self.before(*other) {
            Some(Ordering::Less)
        } else if *self == *other {
            Some(Ordering::Equal)
        } else {
            Some(Ordering::Greater)
        }
    }
}

/// Three decimal fields joined by `sep`: the pieces of that text between
/// occurrences of `sep` are the three fields.
proof fn lemma_three_fields(a: nat, b: nat, c: nat, sep: char)
    requires
        !is_digit(sep),
    ensures
        lacks(decimal(a) + seq![sep] + decimal(b) + seq![sep] + decimal(c), ' ') || sep == ' ',
        split(decimal(a) + seq![sep] + decimal(b) + seq![sep] + decimal(c), sep) == seq![
            decimal(a),
            decimal(b),
            decimal(c),
        ],
{
    lemma_decimal(a);
    lemma_decimal(b);
    lemma_decimal(c);
    lemma_digits_lack(decimal(a), sep);
    lemma_digits_lack(decimal(b), sep);
    lemma_digits_lack(decimal(c), sep);
    let tail = decimal(b) + seq![sep] + decimal(c);
    assert(decimal(a) + seq![sep] + decimal(b) + seq![sep] + decimal(c) =~= decimal(a) + seq![sep]
        + tail);
    lemma_split_first(decimal(a), sep, tail);
    lemma_split_first(decimal(b), sep, decimal(c));
    lemma_split_none(decimal(c), sep);
    assert(seq![decimal(a)] + (seq![decimal(b)] + seq![decimal(c)]) =~= seq![
        decimal(a),
        decimal(b),
        decimal(c),
    ]);
    if sep != ' ' {
        lemma_digits_lack(decimal(a), ' ');
        lemma_digits_lack(decimal(b), ' ');
        lemma_digits_lack(decimal(c), ' ');
        assert(lacks(seq![sep], ' '));
        lemma_lacks_concat(decimal(a), seq![sep], ' ');
        lemma_lacks_concat(decimal(a) + seq![sep], decimal(b), ' ');
        lemma_lacks_concat(decimal(a) + seq![sep] + decimal(b), seq![sep], ' ');
        lemma_lacks_concat(decimal(a) + seq![sep] + decimal(b) + seq![sep], decimal(c), ' ');
    }
}

/// Reading back the rendering of a timestamp whose fields are in range gives
/// the same timestamp; so every timestamp that reads successfully survives a
/// rendering and a second reading unchanged.
pub proof fn lemma_round_trip(s: Seq<char>)
    ensures
        timestamp_from(s) matches Ok(dt) ==> dt.in_range() && timestamp_from(dt.rendered())
            == Ok::<DateTime, TimestampError>(dt),
{
    lemma_fields_in_range(s);
    if let Ok(dt) = timestamp_from(s) {
        lemma_rendered_reads_back(dt);
    }
}

/// The rendering of a timestamp whose fields are in range reads back as it.
pub proof fn lemma_rendered_reads_back(dt: DateTime)
    requires
        dt.in_range(),
    ensures
        timestamp_from(dt.rendered()) == Ok::<DateTime, TimestampError>(dt),
{
    reveal(timestamp_from);
    let date = decimal(dt.year as nat) + seq!['-'] + decimal(dt.month as nat) + seq!['-'] + decimal(
        dt.day as nat,
    );
    let time = decimal(dt.hour as nat) + seq![':'] + decimal(dt.minute as nat) + seq![':'] + decimal(
        dt.second as nat,
    );
    let r = dt.rendered();
    assert(r =~= date + seq![' '] + time);
    lemma_three_fields(dt.year as nat, dt.month as nat, dt.day as nat, '-');
    lemma_three_fields(dt.hour as nat, dt.minute as nat, dt.second as nat, ':');
    lemma_split_first(date, ' ', time);
    assert(date_part(r) == date);
    assert(time_part(r) == time);
    lemma_decimal(dt.year as nat);
    lemma_decimal(dt.month as nat);
    lemma_decimal(dt.day as nat);
    lemma_decimal(dt.hour as nat);
    lemma_decimal(dt.minute as nat);
    lemma_decimal(dt.second as nat);
}

/// A timestamp text reads successfully only if each field is a numeral
/// within its range, and the result holds the values of those numerals.
pub proof fn lemma_fields_in_range(s: Seq<char>)
    ensures
        timestamp_from(s) matches Ok(dt) ==> {
            let d = split(date_part(s), '-');
            let t = split(time_part(s), ':');
            &&& dt.in_range()
            &&& d.len() == 3 && t.len() == 3
            &&& is_numeral(d[0]) && dt.year == numeral_value(d[0])
            &&& is_numeral(d[1]) && dt.month == numeral_value(d[1])
            &&& is_numeral(d[2]) && dt.day == numeral_value(d[2])
            &&& is_numeral(t[0]) && dt.hour == numeral_value(t[0])
            &&& is_numeral(t[1]) && dt.minute == numeral_value(t[1])
            &&& is_numeral(t[2]) && dt.second == numeral_value(t[2])
        },
{
    reveal(timestamp_from);
    let t = split(time_part(s), ':');
    if timestamp_from(s) is Ok {
        lemma_numeral_nonneg(t[0]);
        lemma_numeral_nonneg(t[1]);
        lemma_numeral_nonneg(t[2]);
    }
}

/// Every text made of a date and a time, separated by a space, whose six
/// fields are numerals within their ranges reads as the timestamp of those
/// values (whatever zero-padding the numerals carry).
pub proof fn lemma_valid_text_reads(s: Seq<char>)
    requires
        find(s, ' ') >= 0,
        three_fields(split(date_part(s), '-')),
        three_fields(split(time_part(s), ':')),
        forall|k: int|
            0 <= k < 3 ==> is_numeral(#[trigger] split(date_part(s), '-')[k]) && is_numeral(
                split(time_part(s), ':')[k],
            ),
        1970 <= numeral_value(split(date_part(s), '-')[0]) <= 9999,
        1 <= numeral_value(split(date_part(s), '-')[1]) <= 12,
        1 <= numeral_value(split(date_part(s), '-')[2]) <= 31,
        numeral_value(split(time_part(s), ':')[0]) <= 23,
        numeral_value(split(time_part(s), ':')[1]) <= 59,
        numeral_value(split(time_part(s), ':')[2]) <= 59,
    ensures
        timestamp_from(s) == Ok::<DateTime, TimestampError>(
            DateTime {
                year: numeral_value(split(date_part(s), '-')[0]) as u16,
                month: numeral_value(split(date_part(s), '-')[1]) as u8,
                day: numeral_value(split(date_part(s), '-')[2]) as u8,
                hour: numeral_value(split(time_part(s), ':')[0]) as u8,
                minute: numeral_value(split(time_part(s), ':')[1]) as u8,
                second: numeral_value(split(time_part(s), ':')[2]) as u8,
            },
        ),
{
    reveal(timestamp_from);
    let d = split(date_part(s), '-');
    let t = split(time_part(s), ':');
    assert(is_numeral(d[0]) && is_numeral(t[0]));
    assert(is_numeral(d[1]) && is_numeral(t[1]));
    assert(is_numeral(d[2]) && is_numeral(t[2]));
    lemma_numeral_nonneg(t[0]);
    lemma_numeral_nonneg(t[1]);
    lemma_numeral_nonneg(t[2]);
}

/// A text whose date and time each have three fields, one of which is outside
/// its range (a month outside 1..=12, an hour above 23, and so on), does not
/// read as a timestamp.
pub proof fn lemma_out_of_range_fails(s: Seq<char>)
    requires
        split(date_part(s), '-').len() == 3,
        split(time_part(s), ':').len() == 3,
        !(1970 <= numeral_value(split(date_part(s), '-')[0]) <= 9999) || !(1 <= numeral_value(
            split(date_part(s), '-')[1],
        ) <= 12) || !(1 <= numeral_value(split(date_part(s), '-')[2]) <= 31) || numeral_value(
            split(time_part(s), ':')[0],
        ) > 23 || numeral_value(split(time_part(s), ':')[1]) > 59 || numeral_value(
            split(time_part(s), ':')[2],
        ) > 59,
    ensures
        timestamp_from(s) is Err,
{
    lemma_fields_in_range(s);
}

/// `before` is a strict total order: irreflexive, transitive, and of two
/// different timestamps exactly one comes before the other.
pub proof fn lemma_before_strict_total(a: DateTime, b: DateTime, c: DateTime)
    ensures
        !a.before(a),
        a.before(b) && b.before(c) ==> a.before(c),
        a != b ==> (a.before(b) || b.before(a)),
        !(a.before(b) && b.before(a)),
{
}

impl std::str::FromStr for DateTime {
    type Err = TimestampError;

    fn from_str(s: &str) -> (r: Result<DateTime, TimestampError>)
        ensures
            r == timestamp_from(s@),
            r matches Ok(dt) ==> dt.in_range(),
    {
        DateTime::parse(s)
    }
}

} // verus!
