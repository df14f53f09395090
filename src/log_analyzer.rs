//! Collects the records and the failures of the lines of several log texts.
use crate::log_entry::{
    line_outcome, offending_word, parse_log_line, reason_of, LineError, LogEntry, ParseError,
};
use crate::statistics_aggregator::Statistics;
use crate::text::{chars_of, split, split_ranges, trim, words};
use vstd::prelude::*;
use vstd::string::StrSliceExecFns;

verus! {

/// Why a path could not be analysed.
#[derive(Debug)]
pub enum AnalyzerError {
    /// Reading failed; `message` is what the system reported.
    IoError { path: String, message: String },
    /// A directory held no log file.
    NoFilesFound { path: String },
    /// The path does not exist or is not of the expected kind.
    InvalidPath { path: String, reason: String },
}

/// The records read so far, and the lines that could not be read.
pub struct LogAnalyzer {
    entries: Vec<LogEntry>,
    errors: Vec<ParseError>,
}

/// The lines of a text: the pieces between line feeds, without an empty last
/// piece after a final line feed. A carriage return before a line feed stays
/// in its line, where it is trailing whitespace.
pub open spec fn lines_of(t: Seq<char>) -> Seq<Seq<char>> {
    let p = split(t, '\n');
    if p.len() > 0 && p.last().len() == 0 {
        p.drop_last()
    } else {
        p
    }
}

/// How many of `lines` read as records.
pub open spec fn ok_count(lines: Seq<Seq<char>>) -> nat
    decreases lines.len(),
{
    if lines.len() == 0 {
        0
    } else {
        ok_count(lines.drop_last()) + if line_outcome(lines.last()) is Ok {
            1nat
        } else {
            0nat
        }
    }
}

/// `e` is the record that `line`, line `n` of `src`, reads as.
pub open spec fn entry_from(e: LogEntry, line: Seq<char>, src: Seq<char>, n: int) -> bool {
    &&& line_outcome(line) == Ok::<_, LineError>((e.timestamp, e.level, e.component@, e.message@))
    &&& e.source_file@ == src
    &&& e.line_number == n
}

/// `e` is the failure that `line`, line `n` of `src`, reads as.
pub open spec fn error_from(e: ParseError, line: Seq<char>, src: Seq<char>, n: int) -> bool {
    &&& line_outcome(line) is Err
    &&& line_outcome(line)->Err_0 == e.kind
    &&& e.file@ == src
    &&& e.content@ == trim(line)
    &&& e.reason@ == reason_of(e.kind, offending_word(words(trim(line)), e.kind))
    &&& e.line_number == n
}

/// After reading `lines` of `src` on top of `e0` and `f0`: the records `e`
/// and the failures `f` hold, in order, one item for each line.
pub open spec fn read_lines(
    e0: Seq<LogEntry>,
    f0: Seq<ParseError>,
    e: Seq<LogEntry>,
    f: Seq<ParseError>,
    lines: Seq<Seq<char>>,
    src: Seq<char>,
) -> bool {
    &&& e.len() == e0.len() + ok_count(lines)
    &&& f.len() == f0.len() + lines.len() - ok_count(lines)
    &&& e.take(e0.len() as int) == e0
    &&& f.take(f0.len() as int) == f0
    &&& forall|k: int|
        0 <= k < lines.len() ==> {
            let before = ok_count(#[trigger] lines.take(k));
            if line_outcome(lines[k]) is Ok {
                entry_from(e[e0.len() + before as int], lines[k], src, k + 1)
            } else {
                error_from(f[f0.len() + k - before as int], lines[k], src, k + 1)
            }
        }
}

pub proof fn lemma_ok_count_bound(lines: Seq<Seq<char>>)
    ensures
        ok_count(lines) <= lines.len(),
    decreases lines.len(),
{
    if lines.len() > 0 {
        lemma_ok_count_bound(lines.drop_last());
    }
}

proof fn lemma_ok_count_prefix(ls: Seq<Seq<char>>, j: int)
    requires
        0 <= j < ls.len(),
    ensures
        line_outcome(ls[j]) is Ok ==> ok_count(ls.take(j)) < ok_count(ls),
        !(line_outcome(ls[j]) is Ok) ==> j - ok_count(ls.take(j)) < ls.len() - ok_count(ls),
    decreases ls.len(),
{
    let d = ls.drop_last();
    lemma_ok_count_bound(ls.take(j));
    if j == ls.len() - 1 {
        assert(ls.take(j) =~= d);
    } else {
        assert(d.take(j) =~= ls.take(j));
        assert(d[j] == ls[j]);
        lemma_ok_count_prefix(d, j);
    }
}

proof fn lemma_read_nothing(e0: Seq<LogEntry>, f0: Seq<ParseError>, src: Seq<char>)
    ensures
        read_lines(e0, f0, e0, f0, seq![], src),
{
    assert(e0.take(e0.len() as int) =~= e0);
    assert(f0.take(f0.len() as int) =~= f0);
}

proof fn lemma_read_one_more(
    e0: Seq<LogEntry>,
    f0: Seq<ParseError>,
    e: Seq<LogEntry>,
    f: Seq<ParseError>,
    ls: Seq<Seq<char>>,
    src: Seq<char>,
    line: Seq<char>,
    x: Result<LogEntry, ParseError>,
)
    requires
        read_lines(e0, f0, e, f, ls, src),
        match x {
            Ok(v) => entry_from(v, line, src, ls.len() as int + 1),
            Err(v) => error_from(v, line, src, ls.len() as int + 1),
        },
        (x is Ok) == (line_outcome(line) is Ok),
    ensures
        match x {
            Ok(v) => read_lines(e0, f0, e.push(v), f, ls.push(line), src),
            Err(v) => read_lines(e0, f0, e, f.push(v), ls.push(line), src),
        },
{
    let t = ls.push(line);
    assert(t.drop_last() =~= ls);
    assert(t.take(ls.len() as int) =~= ls);
    lemma_ok_count_bound(ls);
    let (e2, f2) = match x {
        Ok(v) => (e.push(v), f),
        Err(v) => (e, f.push(v)),
    };
    assert(e2.take(e0.len() as int) =~= e.take(e0.len() as int));
    assert(f2.take(f0.len() as int) =~= f.take(f0.len() as int));
    assert forall|k: int| 0 <= k < t.len() implies {
        let before = ok_count(#[trigger] t.take(k));
        if line_outcome(t[k]) is Ok {
            entry_from(e2[e0.len() + before as int], t[k], src, k + 1)
        } else {
            error_from(f2[f0.len() + k - before as int], t[k], src, k + 1)
        }
    } by {
        if k < ls.len() {
            assert(t.take(k) =~= ls.take(k));
            assert(t[k] == ls[k]);
            let before = ok_count(ls.take(k));
            lemma_ok_count_prefix(ls, k);
            lemma_ok_count_bound(ls.take(k));
            assert(ls.take(k).len() == k);
            if line_outcome(ls[k]) is Ok {
                assert(entry_from(e[e0.len() + before as int], ls[k], src, k + 1));
                assert(e2[e0.len() + before as int] == e[e0.len() + before as int]);
            } else {
                assert(error_from(f[f0.len() + k - before as int], ls[k], src, k + 1));
                assert(f2[f0.len() + k - before as int] == f[f0.len() + k - before as int]);
            }
        } else {
            assert(t.take(k) == ls);
            assert(t[k] == line);
        }
    }
}

impl LogAnalyzer {
    pub closed spec fn recorded(&self) -> Seq<LogEntry> {
        self.entries@
    }

    pub closed spec fn failures(&self) -> Seq<ParseError> {
        self.errors@
    }

    pub fn new() -> (r: LogAnalyzer)
        ensures
            r.recorded().len() == 0,
            r.failures().len() == 0,
    {
        LogAnalyzer { entries: Vec::new(), errors: Vec::new() }
    }

    pub fn entries(&self) -> (r: &[LogEntry])
        ensures
            r@ == self.recorded(),
    {
        self.entries.as_slice()
    }

    pub fn parse_errors(&self) -> (r: &[ParseError])
        ensures
            r@ == self.failures(),
    {
        self.errors.as_slice()
    }

    /// The statistics of the records read so far.
    pub fn statistics(&self) -> (r: Statistics)
        ensures
            r.summarizes(self.recorded()),
    {
        Statistics::from_entries(self.entries.as_slice())
    }

    /// Reads every line of `text`, the contents of `source`: each line that
    /// reads as a record is added to the records, each other one to the
    /// failures. Line numbers start at 1. Returns how many records were added.
    pub fn process_text(&mut self, text: &str, source: &str) -> (r: usize)
        ensures
            read_lines(
                old(self).recorded(),
                old(self).failures(),
                final(self).recorded(),
                final(self).failures(),
                lines_of(text@),
                source@,
            ),
            r == ok_count(lines_of(text@)),
    {
        let ghost e0 = self.entries@;
        let ghost f0 = self.errors@;
        let c = chars_of(text);
        let pieces = split_ranges(&c, 0, c.len(), '\n');
        let ghost lines = lines_of(text@);
        proof {
            assert(c@.subrange(0, c@.len() as int) =~= text@);
        }
        let mut count: usize = pieces.len();
        if count > 0 && pieces[count - 1].0 == pieces[count - 1].1 {
            count = count - 1;
        }
        proof {
            let p = split(text@, '\n');
            assert(p.len() == pieces@.len());
            if pieces@.len() > 0 {
                assert(p.last() == c@.subrange(
                    pieces@[pieces@.len() - 1].0 as int,
                    pieces@[pieces@.len() - 1].1 as int,
                ));
                assert(pieces@[pieces@.len() - 1].0 <= pieces@[pieces@.len() - 1].1);
            }
            assert(lines.len() == count);
            assert forall|k: int| 0 <= k < count implies #[trigger] lines[k] == c@.subrange(
                pieces@[k].0 as int,
                pieces@[k].1 as int,
            ) by {}
        }
        proof {
            lemma_read_nothing(e0, f0, source@);
            assert(lines.take(0) =~= Seq::<Seq<char>>::empty());
        }
        let mut added: usize = 0;
        let mut k: usize = 0;
        while k < count
            invariant
                k <= count == lines.len() <= pieces@.len(),
                c@ == text@,
                crate::text::ranges_in(c@, pieces@),
                forall|j: int| 0 <= j < count ==> #[trigger] lines[j] == c@.subrange(
                    pieces@[j].0 as int,
                    pieces@[j].1 as int,
                ),
                added == ok_count(lines.take(k as int)),
                read_lines(e0, f0, self.entries@, self.errors@, lines.take(k as int), source@),
            decreases count - k,
        {
            let (a, b) = pieces[k];
            proof {
                assert(a <= b <= c@.len());
            }
            let line = text.substring_char(a, b);
            let res = parse_log_line(line, source, k + 1);
            proof {
                assert(lines.take(k + 1) =~= lines.take(k as int).push(lines[k as int]));
                assert(lines.take(k + 1).drop_last() =~= lines.take(k as int));
                assert(line@ == lines[k as int]);
                lemma_ok_count_bound(lines.take(k as int));
                lemma_read_one_more(
                    e0,
                    f0,
                    self.entries@,
                    self.errors@,
                    lines.take(k as int),
                    source@,
                    lines[k as int],
                    res,
                );
            }
            match res {
                Ok(e) => {
                    self.entries.push(e);
                    added = added + 1;
                },
                Err(e) => {
                    self.errors.push(e);
                },
            }
            k = k + 1;
        }
        proof {
            assert(lines.take(count as int) =~= lines);
        }
        added
    }
}

} // verus!
