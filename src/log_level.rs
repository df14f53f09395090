//! Log severities, read case-insensitively and ordered by rank.
use crate::text::chars_of;
use std::cmp::Ordering;
use vstd::prelude::*;
use vstd::std_specs::cmp::PartialOrdSpec;

verus! {

/// The severity of a log record, from least to most severe.
#[derive(Debug, Clone, Copy, Eq, Hash, Ord)]
pub enum LogLevel {
    Trace,
    Debug,
    Info,
    Warn,
    Error,
    Fatal,
}

/// A severity token that names none of the six severities.
#[derive(Debug)]
pub struct InvalidSeverity {
    pub token: String,
}

/// `c` with an ASCII capital letter replaced by its small letter.
pub open spec fn ascii_lower(c: char) -> char {
    if 'A' <= c && c <= 'Z' {
        ((c as u32) + 32) as char
    } else {
        c
    }
}

pub open spec fn lower_seq(s: Seq<char>) -> Seq<char> {
    s.map_values(|c: char| ascii_lower(c))
}

/// The severity that `s` names, ignoring the case of ASCII letters (other
/// characters must match exactly).
pub open spec fn level_named(s: Seq<char>) -> Option<LogLevel> {
    let l = lower_seq(s);
    if l == LogLevel::Trace.name() {
        Some(LogLevel::Trace)
    } else if l == LogLevel::Debug.name() {
        Some(LogLevel::Debug)
    } else if l == LogLevel::Info.name() {
        Some(LogLevel::Info)
    } else if l == LogLevel::Warn.name() {
        Some(LogLevel::Warn)
    } else if l == LogLevel::Error.name() {
        Some(LogLevel::Error)
    } else if l == LogLevel::Fatal.name() {
        Some(LogLevel::Fatal)
    } else {
        None
    }
}

impl LogLevel {
    /// Position in the order Trace < Debug < Info < Warn < Error < Fatal.
    pub open spec fn rank(self) -> nat {
        match self {
            LogLevel::Trace => 0,
            LogLevel::Debug => 1,
            LogLevel::Info => 2,
            LogLevel::Warn => 3,
            LogLevel::Error => 4,
            LogLevel::Fatal => 5,
        }
    }

    /// The name in small letters.
    pub open spec fn name(self) -> Seq<char> {
        match self {
            LogLevel::Trace => seq!['t', 'r', 'a', 'c', 'e'],
            LogLevel::Debug => seq!['d', 'e', 'b', 'u', 'g'],
            LogLevel::Info => seq!['i', 'n', 'f', 'o'],
            LogLevel::Warn => seq!['w', 'a', 'r', 'n'],
            LogLevel::Error => seq!['e', 'r', 'r', 'o', 'r'],
            LogLevel::Fatal => seq!['f', 'a', 't', 'a', 'l'],
        }
    }

    /// The canonical, capitalised name.
    pub open spec fn title(self) -> Seq<char> {
        match self {
            LogLevel::Trace => seq!['T', 'r', 'a', 'c', 'e'],
            LogLevel::Debug => seq!['D', 'e', 'b', 'u', 'g'],
            LogLevel::Info => seq!['I', 'n', 'f', 'o'],
            LogLevel::Warn => seq!['W', 'a', 'r', 'n'],
            LogLevel::Error => seq!['E', 'r', 'r', 'o', 'r'],
            LogLevel::Fatal => seq!['F', 'a', 't', 'a', 'l'],
        }
    }

    /// Error and Fatal count as errors in the statistics.
    pub open spec fn is_error_class(self) -> bool {
        self == LogLevel::Error || self == LogLevel::Fatal
    }

    /// Whether this severity counts as an error.
    pub fn is_error(&self) -> (r: bool)
        ensures
            r == self.is_error_class(),
    {
        match self {
            LogLevel::Error | LogLevel::Fatal => true,
            _ => false,
        }
    }

    pub fn rank_of(&self) -> (r: u8)
        ensures
            r as nat == self.rank(),
    {
        match self {
            LogLevel::Trace => 0,
            LogLevel::Debug => 1,
            LogLevel::Info => 2,
            LogLevel::Warn => 3,
            LogLevel::Error => 4,
            LogLevel::Fatal => 5,
        }
    }

    fn name_chars(&self) -> (r: Vec<char>)
        ensures
            r@ == self.name(),
    {
        match self {
            LogLevel::Trace => vec!['t', 'r', 'a', 'c', 'e'],
            LogLevel::Debug => vec!['d', 'e', 'b', 'u', 'g'],
            LogLevel::Info => vec!['i', 'n', 'f', 'o'],
            LogLevel::Warn => vec!['w', 'a', 'r', 'n'],
            LogLevel::Error => vec!['e', 'r', 'r', 'o', 'r'],
            LogLevel::Fatal => vec!['f', 'a', 't', 'a', 'l'],
        }
    }

    /// The canonical name, such as `Info`.
    pub fn to_string(&self) -> (r: String)
        ensures
            r@ == self.title(),
    {
        proof {
            reveal_strlit("Trace");
            reveal_strlit("Debug");
            reveal_strlit("Info");
            reveal_strlit("Warn");
            reveal_strlit("Error");
            reveal_strlit("Fatal");
        }
        match self {
            LogLevel::Trace => String::from_str("Trace"),
            LogLevel::Debug => String::from_str("Debug"),
            LogLevel::Info => String::from_str("Info"),
            LogLevel::Warn => String::from_str("Warn"),
            LogLevel::Error => String::from_str("Error"),
            LogLevel::Fatal => String::from_str("Fatal"),
        }
    }

    /// Reads a severity name, ignoring case.
    pub fn parse(s: &str) -> (r: Result<LogLevel, InvalidSeverity>)
        ensures
            match r {
                Ok(l) => level_named(s@) == Some(l),
                Err(e) => level_named(s@) is None && e.token@ == s@,
            },
    {
        let c = chars_of(s);
        let low = lower_chars(&c);
        if same_chars(&low, &LogLevel::Trace.name_chars()) {
            Ok(LogLevel::Trace)
        } else if same_chars(&low, &LogLevel::Debug.name_chars()) {
            Ok(LogLevel::Debug)
        } else if same_chars(&low, &LogLevel::Info.name_chars()) {
            Ok(LogLevel::Info)
        } else if same_chars(&low, &LogLevel::Warn.name_chars()) {
            Ok(LogLevel::Warn)
        } else if same_chars(&low, &LogLevel::Error.name_chars()) {
            Ok(LogLevel::Error)
        } else if same_chars(&low, &LogLevel::Fatal.name_chars()) {
            Ok(LogLevel::Fatal)
        } else {
            Err(InvalidSeverity { token: String::from_str(s) })
        }
    }
}

fn lower_chars(s: &Vec<char>) -> (r: Vec<char>)
    ensures
        r@ == lower_seq(s@),
{
    let mut out: Vec<char> = Vec::new();
    let mut i: usize = 0;
    while i < s.len()
        invariant
            i <= s@.len(),
            out@ == lower_seq(s@.take(i as int)),
        decreases s@.len() - i,
    {
        let c = s[i];
        let l = if 'A' <= c && c <= 'Z' {
            ((c as u8) + 32) as char
        } else {
            c
        };
        out.push(l);
        i = i + 1;
        assert(out@ =~= lower_seq(s@.take(i as int)));
    }
    assert(s@.take(i as int) =~= s@);
    out
}

fn same_chars(a: &Vec<char>, b: &Vec<char>) -> (r: bool)
    ensures
        r == (a@ == b@),
{
    if a.len() != b.len() {
        return false;
    }
    let mut i: usize = 0;
    while i < a.len()
        invariant
            i <= a@.len() == b@.len(),
            forall|j: int| 0 <= j < i ==> a@[j] == b@[j],
        decreases a@.len() - i,
    {
        if a[i] != b[i] {
            return false;
        }
        i = i + 1;
    }
    assert(a@ =~= b@);
    true
}

/// Severity names are read without regard to case: texts that differ only in
/// the case of ASCII letters name the same severity, a text names `l` exactly
/// when its small-letter form is `l`'s name, and both the small and the
/// canonical name of each severity are read back as it.
pub proof fn lemma_names_ignore_case(s: Seq<char>, t: Seq<char>, l: LogLevel)
    ensures
        lower_seq(s) == lower_seq(t) ==> level_named(s) == level_named(t),
        level_named(s) == Some(l) <==> lower_seq(s) == l.name(),
        level_named(l.name()) == Some(l),
        level_named(l.title()) == Some(l),
{
    assert(lower_seq(l.name()) =~= l.name());
    assert(lower_seq(l.title()) =~= l.name());
    assert(LogLevel::Trace.name()[0] != LogLevel::Debug.name()[0]);
    assert(LogLevel::Info.name() != LogLevel::Error.name()) by {
        assert(LogLevel::Info.name()[0] != LogLevel::Error.name()[0]);
    }
}

/// Severities are ordered by rank: Trace < Debug < Info < Warn < Error < Fatal,
/// and `<` on severities compares ranks.
pub proof fn lemma_rank_order(a: LogLevel, b: LogLevel)
    ensures
        LogLevel::Trace.rank() < LogLevel::Debug.rank(),
        LogLevel::Debug.rank() < LogLevel::Info.rank(),
        LogLevel::Info.rank() < LogLevel::Warn.rank(),
        LogLevel::Warn.rank() < LogLevel::Error.rank(),
        LogLevel::Error.rank() < LogLevel::Fatal.rank(),
        (a.partial_cmp_spec(&b) == Some(Ordering::Less)) <==> a.rank() < b.rank(),
        (a.partial_cmp_spec(&b) == Some(Ordering::Equal)) <==> a == b,
{
}

impl PartialEq for LogLevel {
    fn eq(&self, other: &LogLevel) -> (r: bool) {
        self.rank_of() == other.rank_of()
    }
}

impl vstd::std_specs::cmp::PartialEqSpecImpl for LogLevel {
    open spec fn obeys_eq_spec() -> bool {
        true
    }

    open spec fn eq_spec(&self, other: &LogLevel) -> bool {
        *self == *other
    }
}

impl PartialOrd for LogLevel {
    fn partial_cmp(&self, other: &LogLevel) -> (r: Option<Ordering>) {
        let a = self.rank_of();
        let b = other.rank_of();
        if a < b {
            Some(Ordering::Less)
        } else if a == b {
            Some(Ordering::Equal)
        } else {
            Some(Ordering::Greater)
        }
    }
}

impl vstd::std_specs::cmp::PartialOrdSpecImpl for LogLevel {
    open spec fn obeys_partial_cmp_spec() -> bool {
        true
    }

    open spec fn partial_cmp_spec(&self, other: &LogLevel) -> Option<Ordering> {
        if self.rank() < other.rank() {
            Some(Ordering::Less)
        } else if self.rank() == other.rank() {
            Some(Ordering::Equal)
        } else {
            Some(Ordering::Greater)
        }
    }
}

impl std::str::FromStr for LogLevel {
    type Err = InvalidSeverity;

    fn from_str(s: &str) -> (r: Result<LogLevel, InvalidSeverity>)
        ensures
            match r {
                Ok(l) => level_named(s@) == Some(l),
                Err(e) => level_named(s@) is None && e.token@ == s@,
            },
    {
        LogLevel::parse(s)
    }
}

} // verus!
