//! Summary statistics over a sequence of log records.
use crate::date_time::DateTime;
use crate::log_entry::LogEntry;
use crate::log_level::LogLevel;
use crate::tally::{
    first_seen, is_first_max, lemma_first_seen, lemma_tally_bump, lemma_tally_new_row,
    lemma_tie_goes_to_first_seen, occurrences, tally,
};
use vstd::laws_eq::obeys_concrete_eq;
use vstd::prelude::*;

verus! {

/// A frequency table with machine counts, seen as one with natural counts.
pub open spec fn counted<K>(t: Seq<(K, usize)>) -> Seq<(K, nat)> {
    t.map_values(|p: (K, usize)| (p.0, p.1 as nat))
}

/// A frequency table keyed by strings, seen through the strings' characters.
pub open spec fn counted_text(t: Seq<(String, usize)>) -> Seq<(Seq<char>, nat)> {
    t.map_values(|p: (String, usize)| (p.0@, p.1 as nat))
}

/// Adds one occurrence of `k` to `table`, the tally of `s`.
fn bump<K: Copy + PartialEq>(table: &mut Vec<(K, usize)>, k: K, Ghost(s): Ghost<Seq<K>>)
    requires
        obeys_concrete_eq::<K>(),
        counted(old(table)@) == tally(s),
        s.len() < usize::MAX,
    ensures
        counted(final(table)@) == tally(s.push(k)),
{
    proof {
        reveal(obeys_concrete_eq);
    }
    let n = table.len();
    let mut j: usize = 0;
    while j < n
        invariant
            j <= n == table@.len(),
            counted(table@) == tally(s),
            s.len() < usize::MAX,
            obeys_concrete_eq::<K>(),
            forall|i: int| 0 <= i < j ==> tally(s)[i].0 != k,
        decreases n - j,
    {
        proof {
            reveal(obeys_concrete_eq);
        }
        let found = table[j].0 == k;
        if found {
            let c = table[j].1;
            proof {
                assert(counted(table@)[j as int] == (k, c as nat));
                lemma_tally_bump(s, k, j as int);
            }
            table[j] = (k, c + 1);
            assert(counted(table@) =~= tally(s.push(k)));
            return;
        }
        assert(counted(table@)[j as int].0 == table@[j as int].0);
        j = j + 1;
    }
    proof {
        lemma_tally_new_row(s, k);
    }
    table.push((k, 1));
    assert(counted(table@) =~= tally(s.push(k)));
}

fn bump_component(table: &mut Vec<(String, usize)>, k: &String, Ghost(s): Ghost<Seq<Seq<char>>>)
    requires
        counted_text(old(table)@) == tally(s),
        s.len() < usize::MAX,
    ensures
        counted_text(final(table)@) == tally(s.push(k@)),
{
    let n = table.len();
    let mut j: usize = 0;
    while j < n
        invariant
            j <= n == table@.len(),
            counted_text(table@) == tally(s),
            s.len() < usize::MAX,
            forall|i: int| 0 <= i < j ==> tally(s)[i].0 != k@,
        decreases n - j,
    {
        if table[j].0 == *k {
            let c = table[j].1;
            proof {
                assert(counted_text(table@)[j as int] == (k@, c as nat));
                lemma_tally_bump(s, k@, j as int);
            }
            table[j] = (k.clone(), c + 1);
            assert(counted_text(table@) =~= tally(s.push(k@)));
            return;
        }
        assert(counted_text(table@)[j as int].0 == table@[j as int].0@);
        j = j + 1;
    }
    proof {
        lemma_tally_new_row(s, k@);
    }
    table.push((k.clone(), 1));
    assert(counted_text(table@) =~= tally(s.push(k@)));
}

/// A snapshot of statistics over a sequence of records. Each frequency table
/// lists the values that occur, once each, in the order of their first
/// occurrence, with their counts.
#[derive(Debug)]
pub struct Statistics {
    pub total_entries: usize,
    pub entries_by_level: Vec<(LogLevel, usize)>,
    pub entries_by_component: Vec<(String, usize)>,
    pub entries_by_hour: Vec<(u8, usize)>,
    /// Records of severity Error or Fatal.
    pub error_count: usize,
    pub most_active_component: Option<String>,
    pub peak_hour: Option<u8>,
    pub first_entry: Option<DateTime>,
    pub last_entry: Option<DateTime>,
}

pub open spec fn levels_of(es: Seq<LogEntry>) -> Seq<LogLevel> {
    es.map_values(|e: LogEntry| e.level)
}

pub open spec fn components_of(es: Seq<LogEntry>) -> Seq<Seq<char>> {
    es.map_values(|e: LogEntry| e.component@)
}

pub open spec fn hours_of(es: Seq<LogEntry>) -> Seq<u8> {
    es.map_values(|e: LogEntry| e.timestamp.hour)
}

pub open spec fn stamps_of(es: Seq<LogEntry>) -> Seq<DateTime> {
    es.map_values(|e: LogEntry| e.timestamp)
}

/// How many severities of `ls` count as errors.
pub open spec fn error_total(ls: Seq<LogLevel>) -> nat
    decreases ls.len(),
{
    if ls.len() == 0 {
        0
    } else {
        error_total(ls.drop_last()) + if ls.last().is_error_class() {
            1nat
        } else {
            0nat
        }
    }
}

/// `t` occurs in `ts` and nothing in `ts` comes before it.
pub open spec fn is_earliest(ts: Seq<DateTime>, t: DateTime) -> bool {
    ts.contains(t) && forall|i: int| 0 <= i < ts.len() ==> !(#[trigger] ts[i]).before(t)
}

/// `t` occurs in `ts` and nothing in `ts` comes after it.
pub open spec fn is_latest(ts: Seq<DateTime>, t: DateTime) -> bool {
    ts.contains(t) && forall|i: int| 0 <= i < ts.len() ==> !t.before(#[trigger] ts[i])
}

/// `k` is the key of the winning row of `t`: the greatest count, the
/// earliest row among equal counts.
pub open spec fn leads<K>(t: Seq<(K, nat)>, k: K) -> bool {
    exists|i: int| is_first_max(t, i) && t[i].0 == k
}

/// The index of the winning row of `table`, if it has rows.
fn first_max_row<K>(table: &Vec<(K, usize)>) -> (r: Option<usize>)
    ensures
        r is None <==> table@.len() == 0,
        r matches Some(i) ==> is_first_max(counted(table@), i as int),
{
    let ghost t = counted(table@);
    let mut best: Option<usize> = None;
    let mut best_count: usize = 0;
    let mut k: usize = 0;
    while k < table.len()
        invariant
            k <= table@.len(),
            t == counted(table@),
            best is None <==> k == 0,
            best matches Some(i) ==> i < k && best_count == t[i as int].1 && is_first_max(
                t.take(k as int),
                i as int,
            ),
        decreases table@.len() - k,
    {
        let c = table[k].1;
        if best.is_none() || c > best_count {
            best_count = c;
            best = Some(k);
        }
        k = k + 1;
        proof {
            assert(t.take(k as int).len() == k);
            assert forall|j: int| 0 <= j < k implies t.take(k as int)[j] == t[j] by {}
        }
    }
    proof {
        assert(t.take(k as int) =~= t);
    }
    best
}

fn leading_component(table: &Vec<(String, usize)>) -> (r: Option<String>)
    ensures
        r is None <==> table@.len() == 0,
        r matches Some(c) ==> leads(counted_text(table@), c@),
{
    match first_max_row(table) {
        None => None,
        Some(i) => {
            proof {
                let t = counted_text(table@);
                assert forall|j: int| 0 <= j < t.len() implies #[trigger] t[j].1 == counted(
                    table@,
                )[j].1 by {}
                assert(is_first_max(t, i as int));
            }
            Some(table[i].0.clone())
        },
    }
}

fn peak_of(table: &Vec<(u8, usize)>) -> (r: Option<u8>)
    ensures
        r is None <==> table@.len() == 0,
        r matches Some(h) ==> leads(counted(table@), h),
{
    match first_max_row(table) {
        None => None,
        Some(i) => Some(table[i].0),
    }
}

/// A key that occurs in `s` has a row in its tally, holding its count.
proof fn lemma_row_of<K>(s: Seq<K>, p: int) -> (j: int)
    requires
        0 <= p < s.len(),
    ensures
        0 <= j < tally(s).len(),
        tally(s)[j] == (s[p], occurrences(s, s[p])),
{
    lemma_first_seen(s);
    assert(s.contains(s[p]));
    choose|j: int| 0 <= j < first_seen(s).len() && first_seen(s)[j] == s[p]
}

/// No hour has more records than the peak hour, and no component more than
/// the most active component.
pub proof fn lemma_leaders_most_frequent(st: Statistics, es: Seq<LogEntry>, p: int)
    requires
        st.summarizes(es),
        0 <= p < es.len(),
    ensures
        st.peak_hour is Some && occurrences(hours_of(es), es[p].timestamp.hour) <= occurrences(
            hours_of(es),
            st.peak_hour->0,
        ),
        st.most_active_component is Some && occurrences(components_of(es), es[p].component@)
            <= occurrences(components_of(es), st.most_active_component->0@),
{
    let hs = hours_of(es);
    let h = st.peak_hour->0;
    let i = choose|i: int| is_first_max(tally(hs), i) && tally(hs)[i].0 == h;
    assert(tally(hs)[i].1 == occurrences(hs, h));
    let j = lemma_row_of(hs, p);
    assert(tally(hs)[j].1 <= tally(hs)[i].1);
    let cs = components_of(es);
    let c = st.most_active_component->0@;
    let ci = choose|i: int| is_first_max(tally(cs), i) && tally(cs)[i].0 == c;
    assert(tally(cs)[ci].1 == occurrences(cs, c));
    let cj = lemma_row_of(cs, p);
    assert(tally(cs)[cj].1 <= tally(cs)[ci].1);
}

/// Ties for the peak hour go to the hour seen first: if the record at `p`
/// has another hour with as many records as the peak hour, a record of the
/// peak hour comes before it.
pub proof fn lemma_peak_hour_tie(st: Statistics, es: Seq<LogEntry>, p: int)
    requires
        st.summarizes(es),
        st.peak_hour is Some,
        0 <= p < es.len(),
        es[p].timestamp.hour != st.peak_hour->0,
        occurrences(hours_of(es), es[p].timestamp.hour) == occurrences(
            hours_of(es),
            st.peak_hour->0,
        ),
    ensures
        exists|q: int| 0 <= q < p && es[q].timestamp.hour == st.peak_hour->0,
{
    let hs = hours_of(es);
    let h = st.peak_hour->0;
    let i = choose|i: int| is_first_max(tally(hs), i) && tally(hs)[i].0 == h;
    assert(tally(hs)[i].1 == occurrences(hs, h));
    let j = lemma_row_of(hs, p);
    lemma_tie_goes_to_first_seen(hs, i, j, p);
    let q = choose|q: int| 0 <= q < p && hs[q] == h;
    assert(es[q].timestamp.hour == hs[q]);
}

/// Ties for the most active component go to the component seen first: if
/// the record at `p` has another component with as many records, a record of
/// the most active component comes before it.
pub proof fn lemma_most_active_tie(st: Statistics, es: Seq<LogEntry>, p: int)
    requires
        st.summarizes(es),
        st.most_active_component is Some,
        0 <= p < es.len(),
        es[p].component@ != st.most_active_component->0@,
        occurrences(components_of(es), es[p].component@) == occurrences(
            components_of(es),
            st.most_active_component->0@,
        ),
    ensures
        exists|q: int| 0 <= q < p && es[q].component@ == st.most_active_component->0@,
{
    let cs = components_of(es);
    let c = st.most_active_component->0@;
    let i = choose|i: int| is_first_max(tally(cs), i) && tally(cs)[i].0 == c;
    assert(tally(cs)[i].1 == occurrences(cs, c));
    let j = lemma_row_of(cs, p);
    lemma_tie_goes_to_first_seen(cs, i, j, p);
    let q = choose|q: int| 0 <= q < p && cs[q] == c;
    assert(es[q].component@ == cs[q]);
}

impl Statistics {
    /// `self` holds the statistics of the records `es`.
    pub open spec fn summarizes(self, es: Seq<LogEntry>) -> bool {
        &&& self.total_entries == es.len()
        &&& counted(self.entries_by_level@) == tally(levels_of(es))
        &&& counted_text(self.entries_by_component@) == tally(components_of(es))
        &&& counted(self.entries_by_hour@) == tally(hours_of(es))
        &&& self.error_count == error_total(levels_of(es))
        &&& (self.most_active_component is None <==> es.len() == 0)
        &&& (self.most_active_component matches Some(c) ==> leads(tally(components_of(es)), c@))
        &&& (self.peak_hour is None <==> es.len() == 0)
        &&& (self.peak_hour matches Some(h) ==> leads(tally(hours_of(es)), h))
        &&& (self.first_entry is None <==> es.len() == 0)
        &&& (self.first_entry matches Some(t) ==> is_earliest(stamps_of(es), t))
        &&& (self.last_entry is None <==> es.len() == 0)
        &&& (self.last_entry matches Some(t) ==> is_latest(stamps_of(es), t))
    }

    /// Computes the statistics of `entries` in one pass over them.
    pub fn from_entries(entries: &[LogEntry]) -> (r: Statistics)
        ensures
            r.summarizes(entries@),
    {
        let n = entries.len();
        let mut by_level: Vec<(LogLevel, usize)> = Vec::new();
        let mut by_component: Vec<(String, usize)> = Vec::new();
        let mut by_hour: Vec<(u8, usize)> = Vec::new();
        let mut error_count: usize = 0;
        let mut first: Option<DateTime> = None;
        let mut last: Option<DateTime> = None;
        let ghost es = entries@;
        proof {
            reveal(obeys_concrete_eq);
            assert(obeys_concrete_eq::<u8>());
            assert(obeys_concrete_eq::<LogLevel>());
            assert(levels_of(es.take(0)) =~= Seq::<LogLevel>::empty());
            assert(components_of(es.take(0)) =~= Seq::<Seq<char>>::empty());
            assert(hours_of(es.take(0)) =~= Seq::<u8>::empty());
            assert(counted(by_level@) =~= tally(levels_of(es.take(0))));
            assert(counted_text(by_component@) =~= tally(components_of(es.take(0))));
            assert(counted(by_hour@) =~= tally(hours_of(es.take(0))));
        }
        let mut i: usize = 0;
        while i < n
            invariant
                i <= n == es.len(),
                es == entries@,
                obeys_concrete_eq::<u8>(),
                obeys_concrete_eq::<LogLevel>(),
                counted(by_level@) == tally(levels_of(es.take(i as int))),
                counted_text(by_component@) == tally(components_of(es.take(i as int))),
                counted(by_hour@) == tally(hours_of(es.take(i as int))),
                error_count == error_total(levels_of(es.take(i as int))),
                error_count <= i,
                first is None <==> i == 0,
                first matches Some(t) ==> is_earliest(stamps_of(es.take(i as int)), t),
                last is None <==> i == 0,
                last matches Some(t) ==> is_latest(stamps_of(es.take(i as int)), t),
            decreases n - i,
        {
            let e = &entries[i];
            let ghost p = es.take(i as int);
            let ghost q = es.take(i + 1);
            proof {
                assert(q =~= p.push(*e));
                assert(levels_of(q) =~= levels_of(p).push(e.level));
                assert(components_of(q) =~= components_of(p).push(e.component@));
                assert(hours_of(q) =~= hours_of(p).push(e.timestamp.hour));
                assert(stamps_of(q) =~= stamps_of(p).push(e.timestamp));
                assert(levels_of(q).drop_last() =~= levels_of(p));
            }
            bump(&mut by_level, e.level, Ghost(levels_of(p)));
            bump_component(&mut by_component, &e.component, Ghost(components_of(p)));
            bump(&mut by_hour, e.timestamp.hour, Ghost(hours_of(p)));
            if e.level.is_error() {
                error_count = error_count + 1;
            }
            let ts = e.timestamp;
            proof {
                let sq = stamps_of(q);
                assert(sq[i as int] == ts);
                assert forall|j: int| 0 <= j < i implies sq[j] == stamps_of(p)[j] by {}
            }
            first = match first {
                None => Some(ts),
                Some(cur) => {
                    if ts.is_before(&cur) {
                        proof {
                            let sq = stamps_of(q);
                            assert forall|j: int| 0 <= j < sq.len() implies !(
                            #[trigger] sq[j]).before(ts) by {
                                if j < i {
                                    assert(!stamps_of(p)[j].before(cur));
                                    crate::date_time::lemma_before_strict_total(sq[j], ts, cur);
                                } else {
                                    crate::date_time::lemma_before_strict_total(ts, ts, ts);
                                }
                            }
                        }
                        Some(ts)
                    } else {
                        proof {
                            let sq = stamps_of(q);
                            let m = choose|m: int| 0 <= m < stamps_of(p).len() && stamps_of(p)[m] == cur;
                            assert(sq[m] == cur);
                            assert forall|j: int| 0 <= j < sq.len() implies !(
                            #[trigger] sq[j]).before(cur) by {
                                if j < i {
                                    assert(!stamps_of(p)[j].before(cur));
                                }
                            }
                        }
                        Some(cur)
                    }
                },
            };
            last = match last {
                None => Some(ts),
                Some(cur) => {
                    if cur.is_before(&ts) {
                        proof {
                            let sq = stamps_of(q);
                            assert forall|j: int| 0 <= j < sq.len() implies !ts.before(
                                #[trigger] sq[j],
                            ) by {
                                if j < i {
                                    assert(!cur.before(stamps_of(p)[j]));
                                    crate::date_time::lemma_before_strict_total(cur, ts, sq[j]);
                                } else {
                                    crate::date_time::lemma_before_strict_total(ts, ts, ts);
                                }
                            }
                        }
                        Some(ts)
                    } else {
                        proof {
                            let sq = stamps_of(q);
                            let m = choose|m: int| 0 <= m < stamps_of(p).len() && stamps_of(p)[m] == cur;
                            assert(sq[m] == cur);
                            assert forall|j: int| 0 <= j < sq.len() implies !cur.before(
                                #[trigger] sq[j],
                            ) by {
                                if j < i {
                                    assert(!cur.before(stamps_of(p)[j]));
                                }
                            }
                        }
                        Some(cur)
                    }
                },
            };
            i = i + 1;
        }
        proof {
            assert(es.take(n as int) =~= es);
            crate::tally::lemma_first_seen(components_of(es));
            crate::tally::lemma_first_seen(hours_of(es));
        }
        let most_active_component = leading_component(&by_component);
        let peak_hour = peak_of(&by_hour);
        Statistics {
            total_entries: n,
            entries_by_level: by_level,
            entries_by_component: by_component,
            entries_by_hour: by_hour,
            error_count,
            most_active_component,
            peak_hour,
            first_entry: first,
            last_entry: last,
        }
    }
}

} // verus!
