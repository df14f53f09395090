//! The grammar of one log line:
//! `<date> <time> [<SEVERITY>] <component>: <message...>`.
use crate::date_time::{timestamp_from, DateTime, TimestampError};
use crate::log_level::{level_named, LogLevel};
use crate::text::{chars_of, char_is_whitespace, is_white, join, trim, trim_bounds, word_ranges, words};
use vstd::prelude::*;
use vstd::string::{StrSliceExecFns, StringExecFns};

verus! {

/// A field of a log line.
#[derive(Debug, Clone, Copy, PartialEq, Eq, Structural)]
pub enum Field {
    Date,
    Time,
    Level,
    Component,
    Message,
}

impl Field {
    /// The name that `describe` gives.
    pub open spec fn text(self) -> Seq<char> {
        match self {
            Field::Date => "date"@,
            Field::Time => "time"@,
            Field::Level => "log level"@,
            Field::Component => "component"@,
            Field::Message => "message"@,
        }
    }

    pub fn describe(&self) -> (r: &'static str)
        ensures
            r@ == self.text(),
    {
        match self {
            Field::Date => "date",
            Field::Time => "time",
            Field::Level => "log level",
            Field::Component => "component",
            Field::Message => "message",
        }
    }
}

/// Why a log line was refused.
#[derive(Debug, Clone, Copy, PartialEq, Eq, Structural)]
pub enum LineError {
    /// Nothing but whitespace.
    EmptyLine,
    /// Too few words for the field.
    MissingField(Field),
    /// The first two words do not form a timestamp.
    InvalidTimestamp(TimestampError),
    /// The third word is not enclosed in `[` and `]`.
    MalformedLevel,
    /// What the brackets enclose names no severity.
    InvalidSeverity,
    /// The fourth word does not end with `:`.
    MalformedComponent,
    /// The message holds nothing but whitespace.
    EmptyMessage,
}

/// A line that could not be read, with where it came from and why.
#[derive(Debug)]
pub struct ParseError {
    pub file: String,
    /// The line, without leading and trailing whitespace.
    pub content: String,
    pub line_number: usize,
    pub kind: LineError,
    /// The reason in words.
    pub reason: String,
}

/// One record read from a log line.
#[derive(Debug)]
pub struct LogEntry {
    pub timestamp: DateTime,
    pub level: LogLevel,
    pub component: String,
    pub message: String,
    pub source_file: String,
    pub line_number: usize,
}

/// The text that the severity word encloses: without its first and last character.
pub open spec fn inside_brackets(w: Seq<char>) -> Seq<char> {
    w.subrange(1, w.len() - 1)
}

pub open spec fn all_white(s: Seq<char>) -> bool {
    forall|i: int| 0 <= i < s.len() ==> is_white(#[trigger] s[i])
}

/// What a line reads as: its timestamp, severity, component and message, or
/// the first thing wrong with it. The line is trimmed and cut into words at
/// runs of whitespace.
pub open spec fn line_outcome(line: Seq<char>) -> Result<
    (DateTime, LogLevel, Seq<char>, Seq<char>),
    LineError,
> {
    let tl = trim(line);
    let w = words(tl);
    if tl.len() == 0 {
        Err(LineError::EmptyLine)
    } else if w.len() < 1 {
        Err(LineError::MissingField(Field::Date))
    } else if w.len() < 2 {
        Err(LineError::MissingField(Field::Time))
    } else {
        match timestamp_from(w[0] + seq![' '] + w[1]) {
            Err(e) => Err(LineError::InvalidTimestamp(e)),
            Ok(ts) => match fields_outcome(w) {
                Err(e) => Err(e),
                Ok((level, component, message)) => Ok((ts, level, component, message)),
            },
        }
    }
}

/// What the words after the timestamp read as: severity, component and message.
pub open spec fn fields_outcome(w: Seq<Seq<char>>) -> Result<
    (LogLevel, Seq<char>, Seq<char>),
    LineError,
> {
    if w.len() < 3 {
        Err(LineError::MissingField(Field::Level))
    } else if !(w[2].len() > 0 && w[2][0] == '[' && w[2].last() == ']') {
        Err(LineError::MalformedLevel)
    } else {
        match level_named(inside_brackets(w[2])) {
            None => Err(LineError::InvalidSeverity),
            Some(level) => if w.len() < 4 {
                Err(LineError::MissingField(Field::Component))
            } else if !(w[3].len() > 0 && w[3].last() == ':') {
                Err(LineError::MalformedComponent)
            } else if w.len() < 5 {
                Err(LineError::MissingField(Field::Message))
            } else if all_white(join(w.skip(4))) {
                Err(LineError::EmptyMessage)
            } else {
                Ok((level, w[3].drop_last(), join(w.skip(4))))
            },
        }
    }
}

/// How a line reads depends only on its words: lines that differ only in the
/// whitespace around and between their words read alike.
pub proof fn lemma_only_words_matter(s: Seq<char>, t: Seq<char>)
    requires
        words(s) == words(t),
    ensures
        line_outcome(s) == line_outcome(t),
{
    crate::text::lemma_words_trim(s);
    crate::text::lemma_words_trim(t);
}

/// The reason for `kind` in words; `word` is the offending word where the
/// reason names one.
pub open spec fn reason_of(kind: LineError, word: Seq<char>) -> Seq<char> {
    match kind {
        LineError::EmptyLine => "Empty line"@,
        LineError::MissingField(f) => "Missing required field: "@ + f.text(),
        LineError::InvalidTimestamp(e) => "Invalid timestamp: "@ + e.text(),
        LineError::MalformedLevel => "level must be in [LEVEL] format, got '"@ + word + "'"@,
        LineError::InvalidSeverity => "Invalid log level: "@ + word,
        LineError::MalformedComponent => "component must end with ':', got '"@ + word + "'"@,
        LineError::EmptyMessage => "Missing message field"@,
    }
}

/// The word that the reason for `kind` names, among the words `w` of a line:
/// the severity word, what its brackets enclose, or the component word.
pub open spec fn offending_word(w: Seq<Seq<char>>, kind: LineError) -> Seq<char> {
    match kind {
        LineError::MalformedLevel => w[2],
        LineError::InvalidSeverity => inside_brackets(w[2]),
        LineError::MalformedComponent => w[3],
        _ => seq![],
    }
}

fn reason_text(kind: LineError, word: &str) -> (r: String)
    ensures
        r@ == reason_of(kind, word@),
{
    match kind {
        LineError::EmptyLine => String::from_str("Empty line"),
        LineError::MissingField(f) => String::from_str("Missing required field: ").concat(
            f.describe(),
        ),
        LineError::InvalidTimestamp(e) => String::from_str("Invalid timestamp: ").concat(
            e.describe(),
        ),
        LineError::MalformedLevel => String::from_str("level must be in [LEVEL] format, got '")
            .concat(word).concat("'"),
        LineError::InvalidSeverity => String::from_str("Invalid log level: ").concat(word),
        LineError::MalformedComponent => String::from_str("component must end with ':', got '")
            .concat(word).concat("'"),
        LineError::EmptyMessage => String::from_str("Missing message field"),
    }
}

fn line_error(source_file: &str, content: &str, line_number: usize, kind: LineError, word: &str) -> (r:
    ParseError)
    ensures
        r.file@ == source_file@,
        r.content@ == content@,
        r.line_number == line_number,
        r.kind == kind,
        r.reason@ == reason_of(kind, word@),
{
    ParseError {
        file: String::from_str(source_file),
        content: String::from_str(content),
        line_number,
        kind,
        reason: reason_text(kind, word),
    }
}

/// The words of `tl` from the `from`-th on, one space between each two.
fn join_words(tl: &str, c: &Vec<char>, w: &Vec<(usize, usize)>, from: usize) -> (r: String)
    requires
        c@ == tl@,
        crate::text::ranges_in(c@, w@),
        from < w@.len(),
    ensures
        r@ == join(crate::text::pieces(c@, w@).skip(from as int)),
{
    let ghost ws = crate::text::pieces(c@, w@);
    let n = w.len();
    let (f0, f1) = w[from];
    proof {
        assert(f0 <= f1 <= c@.len());
        assert(ws.skip(from as int).take(1) =~= seq![ws[from as int]]);
        reveal_strlit(" ");
    }
    let mut message = String::from_str(tl.substring_char(f0, f1));
    let mut k: usize = from + 1;
    while k < w.len()
        invariant
            from < k <= w@.len() == ws.len(),
            c@ == tl@,
            crate::text::ranges_in(c@, w@),
            crate::text::pieces(c@, w@) == ws,
            message@ == join(ws.skip(from as int).take(k - from)),
        decreases w@.len() - k,
    {
        let (p0, p1) = w[k];
        proof {
            assert(p0 <= p1 <= c@.len());
        }
        let piece = tl.substring_char(p0, p1);
        proof {
            let t = ws.skip(from as int).take(k + 1 - from);
            assert(t.drop_last() =~= ws.skip(from as int).take(k - from));
            assert(t.last() == ws[k as int]);
            assert(piece@ == ws[k as int]);
            assert(join(t) == join(t.drop_last()) + seq![' '] + t.last());
            reveal_strlit(" ");
        }
        message.append(" ");
        message.append(piece);
        k = k + 1;
    }
    proof {
        assert(ws.skip(from as int).take(k - from) =~= ws.skip(from as int));
    }
    message
}

/// The failure of a line that lacks `field`.
fn missing_field_error(source_file: &str, line: &str, line_number: usize, field: Field) -> (r:
    ParseError)
    ensures
        r.file@ == source_file@,
        r.content@ == line@,
        r.line_number == line_number,
        r.kind == LineError::MissingField(field),
        r.reason@ == reason_of(LineError::MissingField(field), seq![]),
{
    line_error(source_file, line, line_number, LineError::MissingField(field), "")
}

/// Reads the severity, component and message from the words `w` of `tl`.
fn read_fields(
    tl: &str,
    c: &Vec<char>,
    w: &Vec<(usize, usize)>,
    source_file: &str,
    line_number: usize,
) -> (r: Result<(LogLevel, String, String), ParseError>)
    requires
        c@ == tl@,
        crate::text::ranges_in(c@, w@),
        forall|k: int| 0 <= k < w@.len() ==> (#[trigger] w@[k]).0 < w@[k].1,
    ensures
        match r {
            Ok((level, component, message)) => fields_outcome(crate::text::pieces(c@, w@))
                == Ok::<_, LineError>((level, component@, message@)),
            Err(e) => {
                &&& fields_outcome(crate::text::pieces(c@, w@)) == Err::<
                    (LogLevel, Seq<char>, Seq<char>),
                    _,
                >(e.kind)
                &&& e.reason@ == reason_of(e.kind, offending_word(crate::text::pieces(c@, w@), e.kind))
                &&& e.file@ == source_file@
                &&& e.content@ == tl@
                &&& e.line_number == line_number
            },
        },
{
    let ghost ws = crate::text::pieces(c@, w@);
    proof {
        reveal_strlit("");
    }
    if w.len() < 3 {
        return Err(missing_field_error(source_file, tl, line_number, Field::Level));
    }
    let (l0, l1) = w[2];
    proof {
        assert(ws[2] == c@.subrange(l0 as int, l1 as int));
        assert(l0 < l1 <= c@.len());
    }
    let level_word = tl.substring_char(l0, l1);
    if !(c[l0] == '[' && c[l1 - 1] == ']') {
        return Err(line_error(source_file, tl, line_number, LineError::MalformedLevel, level_word));
    }
    let inner = tl.substring_char(l0 + 1, l1 - 1);
    proof {
        assert(inner@ =~= inside_brackets(ws[2]));
    }
    let level = match LogLevel::parse(inner) {
        Ok(l) => l,
        Err(_) => {
            return Err(
                line_error(source_file, tl, line_number, LineError::InvalidSeverity, inner),
            );
        },
    };
    if w.len() < 4 {
        return Err(missing_field_error(source_file, tl, line_number, Field::Component));
    }
    let (k0, k1) = w[3];
    proof {
        assert(ws[3] == c@.subrange(k0 as int, k1 as int));
        assert(k0 < k1 <= c@.len());
    }
    if c[k1 - 1] != ':' {
        let comp_word = tl.substring_char(k0, k1);
        return Err(
            line_error(source_file, tl, line_number, LineError::MalformedComponent, comp_word),
        );
    }
    let component = String::from_str(tl.substring_char(k0, k1 - 1));
    proof {
        assert(component@ =~= ws[3].drop_last());
    }
    if w.len() < 5 {
        return Err(missing_field_error(source_file, tl, line_number, Field::Message));
    }
    let message = join_words(tl, &c, &w, 4);
    let mc = chars_of(message.as_str());
    let mut j: usize = 0;
    while j < mc.len() && char_is_whitespace(mc[j])
        invariant
            j <= mc@.len(),
            forall|i: int| 0 <= i < j ==> is_white(#[trigger] mc@[i]),
        decreases mc@.len() - j,
    {
        j = j + 1;
    }
    if j == mc.len() {
        return Err(line_error(source_file, tl, line_number, LineError::EmptyMessage, ""));
    }
    Ok((level, component, message))
}

/// Reads one line of a log into a record, or says what is wrong with it.
/// `source_file` and `line_number` tell where the line came from.
pub fn parse_log_line(line: &str, source_file: &str, line_number: usize) -> (r: Result<
    LogEntry,
    ParseError,
>)
    ensures
        match r {
            Ok(e) => {
                &&& line_outcome(line@) == Ok::<_, LineError>(
                    (e.timestamp, e.level, e.component@, e.message@),
                )
                &&& e.source_file@ == source_file@
                &&& e.line_number == line_number
            },
            Err(e) => {
                &&& line_outcome(line@) == Err::<(DateTime, LogLevel, Seq<char>, Seq<char>), _>(
                    e.kind,
                )
                &&& e.reason@ == reason_of(e.kind, offending_word(words(trim(line@)), e.kind))
                &&& e.file@ == source_file@
                &&& e.content@ == trim(line@)
                &&& e.line_number == line_number
            },
        },
{
    let all = chars_of(line);
    let (a, b) = trim_bounds(&all);
    let tl: &str = line.substring_char(a, b);
    let c = chars_of(tl);
    let w = word_ranges(&c);
    let ghost ws = words(c@);
    proof {
        assert(c@ == trim(line@));
        reveal_strlit(" ");
        reveal_strlit("");
    }
    if c.len() == 0 {
        return Err(line_error(source_file, tl, line_number, LineError::EmptyLine, ""));
    }
    if w.len() < 1 {
        return Err(missing_field_error(source_file, tl, line_number, Field::Date));
    }
    if w.len() < 2 {
        return Err(missing_field_error(source_file, tl, line_number, Field::Time));
    }
    proof {
        assert(ws[0] == c@.subrange(w@[0].0 as int, w@[0].1 as int));
        assert(ws[1] == c@.subrange(w@[1].0 as int, w@[1].1 as int));
        assert(w@[0].0 <= w@[0].1 <= c@.len());
        assert(w@[1].0 <= w@[1].1 <= c@.len());
    }
    let date = tl.substring_char(w[0].0, w[0].1);
    let time = tl.substring_char(w[1].0, w[1].1);
    let stamp = String::from_str(date).concat(" ").concat(time);
    proof {
        assert(stamp@ == ws[0] + seq![' '] + ws[1]);
    }
    let timestamp = match DateTime::parse(stamp.as_str()) {
        Ok(t) => t,
        Err(e) => {
            return Err(
                line_error(source_file, tl, line_number, LineError::InvalidTimestamp(e), ""),
            );
        },
    };
    let (level, component, message) = match read_fields(tl, &c, &w, source_file, line_number) {
        Ok(f) => f,
        Err(e) => {
            return Err(e);
        },
    };
    Ok(
        LogEntry {
            timestamp,
            level,
            component,
            message,
            source_file: String::from_str(source_file),
            line_number,
        },
    )
}

} // verus!
