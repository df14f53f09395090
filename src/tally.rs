//! Frequency tables kept in order of first appearance.
use vstd::prelude::*;

verus! {

/// How many times `k` occurs in `s`.
pub open spec fn occurrences<K>(s: Seq<K>, k: K) -> nat
    decreases s.len(),
{
    if s.len() == 0 {
        0
    } else {
        occurrences(s.drop_last(), k) + if s.last() == k {
            1nat
        } else {
            0nat
        }
    }
}

/// The distinct values of `s`, in the order of their first occurrence.
pub open spec fn first_seen<K>(s: Seq<K>) -> Seq<K>
    decreases s.len(),
{
    if s.len() == 0 {
        seq![]
    } else if s.drop_last().contains(s.last()) {
        first_seen(s.drop_last())
    } else {
        first_seen(s.drop_last()).push(s.last())
    }
}

/// Each distinct value of `s` with its number of occurrences, in the order
/// of first occurrence.
pub open spec fn tally<K>(s: Seq<K>) -> Seq<(K, nat)> {
    first_seen(s).map_values(|k: K| (k, occurrences(s, k)))
}

/// The row at `i` has the greatest count of `t`, and every row before it has
/// a smaller one: among rows with equal counts the first one wins.
pub open spec fn is_first_max<K>(t: Seq<(K, nat)>, i: int) -> bool {
    &&& 0 <= i < t.len()
    &&& forall|j: int| 0 <= j < t.len() ==> #[trigger] t[j].1 <= t[i].1
    &&& forall|j: int| 0 <= j < i ==> #[trigger] t[j].1 < t[i].1
}

pub proof fn lemma_occurrences_bound<K>(s: Seq<K>, k: K)
    ensures
        occurrences(s, k) <= s.len(),
    decreases s.len(),
{
    if s.len() > 0 {
        lemma_occurrences_bound(s.drop_last(), k);
    }
}

pub proof fn lemma_first_seen<K>(s: Seq<K>)
    ensures
        forall|x: K| first_seen(s).contains(x) <==> s.contains(x),
        first_seen(s).no_duplicates(),
        s.len() > 0 ==> first_seen(s).len() > 0,
    decreases s.len(),
{
    if s.len() > 0 {
        let p = s.drop_last();
        lemma_first_seen(p);
        assert forall|x: K| s.contains(x) <==> (p.contains(x) || x == s.last()) by {
            if s.contains(x) {
                let i = choose|i: int| 0 <= i < s.len() && s[i] == x;
                if i < s.len() - 1 {
                    assert(p[i] == x);
                }
            }
            if p.contains(x) {
                let i = choose|i: int| 0 <= i < p.len() && p[i] == x;
                assert(s[i] == x);
            }
            if x == s.last() {
                assert(s[s.len() - 1] == x);
            }
        }
        if !p.contains(s.last()) {
            let d = first_seen(p);
            assert forall|x: K| d.push(s.last()).contains(x) <==> (d.contains(x) || x == s.last()) by {
                if d.push(s.last()).contains(x) {
                    let i = choose|i: int| 0 <= i < d.len() + 1 && d.push(s.last())[i] == x;
                    if i < d.len() {
                        assert(d[i] == x);
                    }
                }
                if d.contains(x) {
                    let i = choose|i: int| 0 <= i < d.len() && d[i] == x;
                    assert(d.push(s.last())[i] == x);
                }
                if x == s.last() {
                    assert(d.push(s.last())[d.len() as int] == x);
                }
            }
            assert(d.push(s.last()).no_duplicates()) by {
                assert forall|i: int, j: int|
                    0 <= i < d.len() + 1 && 0 <= j < d.len() + 1 && i != j implies d.push(
                    s.last(),
                )[i] != d.push(s.last())[j] by {
                    if i < d.len() && j < d.len() {
                        assert(d[i] != d[j]);
                    } else if i < d.len() {
                        assert(d.contains(d[i]));
                    } else {
                        assert(d.contains(d[j]));
                    }
                }
            }
        }
    }
}

/// Adding a value to the sequence adds one to its row, or appends a new row.
pub proof fn lemma_tally_push<K>(s: Seq<K>, k: K)
    ensures
        s.contains(k) ==> exists|j: int|
            0 <= j < tally(s).len() && tally(s)[j].0 == k && tally(s.push(k)) == tally(s).update(
                j,
                (k, tally(s)[j].1 + 1),
            ),
        !s.contains(k) ==> tally(s.push(k)) == tally(s).push((k, 1nat)),
{
    let t = s.push(k);
    assert(t.drop_last() =~= s);
    lemma_first_seen(s);
    assert forall|x: K| occurrences(t, x) == occurrences(s, x) + if x == k {
        1nat
    } else {
        0nat
    } by {}
    if s.contains(k) {
        let d = first_seen(s);
        assert(d.contains(k));
        let j = choose|j: int| 0 <= j < d.len() && d[j] == k;
        assert(tally(t) =~= tally(s).update(j, (k, tally(s)[j].1 + 1))) by {
            assert forall|i: int| 0 <= i < d.len() && i != j implies d[i] != k by {}
        }
    } else {
        assert(occurrences(s, k) == 0) by {
            lemma_occurrences_absent(s, k);
        }
        assert(tally(t) =~= tally(s).push((k, 1nat))) by {
            assert forall|i: int| 0 <= i < first_seen(s).len() implies first_seen(s)[i] != k by {
                assert(first_seen(s).contains(first_seen(s)[i]));
            }
        }
    }
}

pub proof fn lemma_occurrences_absent<K>(s: Seq<K>, k: K)
    requires
        !s.contains(k),
    ensures
        occurrences(s, k) == 0,
    decreases s.len(),
{
    if s.len() > 0 {
        assert(s[s.len() - 1] == s.last());
        assert(!s.drop_last().contains(k)) by {
            if s.drop_last().contains(k) {
                let i = choose|i: int| 0 <= i < s.len() - 1 && s.drop_last()[i] == k;
                assert(s[i] == k);
            }
        }
        lemma_occurrences_absent(s.drop_last(), k);
    }
}

/// Adding a value that has row `j` adds one to that row's count, which was
/// at most the length of the sequence.
pub proof fn lemma_tally_bump<K>(s: Seq<K>, k: K, j: int)
    requires
        0 <= j < tally(s).len(),
        tally(s)[j].0 == k,
    ensures
        tally(s)[j].1 <= s.len(),
        tally(s.push(k)) == tally(s).update(j, (k, tally(s)[j].1 + 1)),
{
    lemma_first_seen(s);
    lemma_tally_push(s, k);
    lemma_occurrences_bound(s, k);
    assert(first_seen(s)[j] == k);
    assert(first_seen(s).contains(k));
    let j2 = choose|j2: int|
        0 <= j2 < tally(s).len() && tally(s)[j2].0 == k && tally(s.push(k)) == tally(s).update(
            j2,
            (k, tally(s)[j2].1 + 1),
        );
    assert(first_seen(s)[j2] == k);
}

/// Adding a value that has no row appends a row with count 1.
pub proof fn lemma_tally_new_row<K>(s: Seq<K>, k: K)
    requires
        forall|i: int| 0 <= i < tally(s).len() ==> tally(s)[i].0 != k,
    ensures
        tally(s.push(k)) == tally(s).push((k, 1nat)),
{
    lemma_first_seen(s);
    lemma_tally_push(s, k);
    if s.contains(k) {
        assert(first_seen(s).contains(k));
        let i = choose|i: int| 0 <= i < first_seen(s).len() && first_seen(s)[i] == k;
        assert(tally(s)[i].0 == k);
    }
}

/// Rows come in the order of first occurrence: wherever the key of a later
/// row occurs in `s`, the key of an earlier row has occurred before.
pub proof fn lemma_rows_in_first_occurrence_order<K>(s: Seq<K>, i: int, j: int, p: int)
    requires
        0 <= i < j < first_seen(s).len(),
        0 <= p < s.len(),
        s[p] == first_seen(s)[j],
    ensures
        exists|q: int| 0 <= q < p && s[q] == first_seen(s)[i],
    decreases s.len(),
{
    let d = s.drop_last();
    let last = s.len() - 1;
    lemma_first_seen(d);
    if d.contains(s.last()) {
        assert(first_seen(s) == first_seen(d));
        if p < last {
            assert(d[p] == s[p]);
            lemma_rows_in_first_occurrence_order(d, i, j, p);
            let q = choose|q: int| 0 <= q < p && d[q] == first_seen(d)[i];
            assert(s[q] == d[q]);
        } else {
            let p2 = choose|p2: int| 0 <= p2 < d.len() && d[p2] == s.last();
            lemma_rows_in_first_occurrence_order(d, i, j, p2);
            let q = choose|q: int| 0 <= q < p2 && d[q] == first_seen(d)[i];
            assert(s[q] == d[q]);
        }
    } else if j < first_seen(d).len() {
        assert(first_seen(s) == first_seen(d).push(s.last()));
        assert(first_seen(s)[j] == first_seen(d)[j]);
        assert(first_seen(s)[i] == first_seen(d)[i]);
        if p < last {
            assert(d[p] == s[p]);
            lemma_rows_in_first_occurrence_order(d, i, j, p);
            let q = choose|q: int| 0 <= q < p && d[q] == first_seen(d)[i];
            assert(s[q] == d[q]);
        } else {
            assert(first_seen(d).contains(first_seen(d)[j]));
        }
    } else {
        assert(first_seen(s)[i] == first_seen(d)[i]);
        assert(first_seen(s) == first_seen(d).push(s.last()));
        assert(first_seen(d).contains(first_seen(d)[i]));
        assert(d.contains(first_seen(d)[i]));
        let q = choose|q: int| 0 <= q < d.len() && d[q] == first_seen(d)[i];
        assert(s[q] == d[q]);
        if p < last {
            assert(d[p] == s[p]);
            assert(d.contains(s.last()));
        }
    }
}

/// Among keys with the greatest count, the winning row is the key that occurs
/// first: wherever another key with the same count occurs, the winner has
/// occurred before.
pub proof fn lemma_tie_goes_to_first_seen<K>(s: Seq<K>, i: int, j: int, p: int)
    requires
        is_first_max(tally(s), i),
        0 <= j < tally(s).len(),
        j != i,
        tally(s)[j].1 == tally(s)[i].1,
        0 <= p < s.len(),
        s[p] == tally(s)[j].0,
    ensures
        exists|q: int| 0 <= q < p && s[q] == tally(s)[i].0,
{
    if j < i {
        assert(tally(s)[j].1 < tally(s)[i].1);
    }
    lemma_rows_in_first_occurrence_order(s, i, j, p);
}

} // verus!
