//! Character-level helpers shared by the timestamp and line grammars:
//! decimal numerals, splitting on a separator, whitespace tokens and trimming.
use vstd::prelude::*;

verus! {

/// The characters with the Unicode `White_Space` property.
pub open spec fn is_white(c: char) -> bool {
    let u = c as u32;
    ||| 0x09 <= u <= 0x0d
    ||| u == 0x20
    ||| u == 0x85
    ||| u == 0xa0
    ||| u == 0x1680
    ||| 0x2000 <= u <= 0x200a
    ||| u == 0x2028
    ||| u == 0x2029
    ||| u == 0x202f
    ||| u == 0x205f
    ||| u == 0x3000
}

/// Whether `c` has the Unicode `White_Space` property (as `char::is_whitespace`).
pub fn char_is_whitespace(c: char) -> (r: bool)
    ensures
        r == is_white(c),
{
    let u = c as u32;
    (0x09 <= u && u <= 0x0d) || u == 0x20 || u == 0x85 || u == 0xa0 || u == 0x1680 || (0x2000
        <= u && u <= 0x200a) || u == 0x2028 || u == 0x2029 || u == 0x202f || u == 0x205f || u
        == 0x3000
}

/// The characters of `s`, in order.
pub(crate) fn chars_of(s: &str) -> (r: Vec<char>)
    ensures
        r@ == s@,
{
    broadcast use vstd::string::group_string_axioms;

    let mut out: Vec<char> = Vec::new();
    for c in it: s.chars()
        invariant
            it.seq() == s@,
            out@ == it.seq().take(it.index() as int),
        ensures
            out@ == s@,
    {
        proof {
            assert(it.seq().take(it.index() + 1) =~= it.seq().take(it.index() as int).push(c));
        }
        out.push(c);
    }
    out
}

/// Relies on collecting a slice of `char` into a `String` (`FromIterator<&char>`).
#[verifier::external_body]
pub(crate) fn string_of(v: &[char]) -> (r: String)
    ensures
        r@ == v@,
{
    v.iter().collect()
}

pub open spec fn is_digit(c: char) -> bool {
    '0' <= c && c <= '9'
}

pub open spec fn digit_value(c: char) -> int {
    (c as int) - ('0' as int)
}

pub open spec fn digit_char(d: int) -> char {
    ((d + ('0' as int)) as u32) as char
}

pub open spec fn all_digits(s: Seq<char>) -> bool {
    forall|i: int| 0 <= i < s.len() ==> is_digit(#[trigger] s[i])
}

/// The value of a string of decimal digits, most significant first.
pub open spec fn digits_value(s: Seq<char>) -> int
    decreases s.len(),
{
    if s.len() == 0 {
        0
    } else {
        digits_value(s.drop_last()) * 10 + digit_value(s.last())
    }
}

pub proof fn lemma_digits_value_nonneg(s: Seq<char>)
    requires
        all_digits(s),
    ensures
        digits_value(s) >= 0,
    decreases s.len(),
{
    if s.len() > 0 {
        assert(all_digits(s.drop_last())) by {
            assert forall|i: int| 0 <= i < s.len() - 1 implies is_digit(#[trigger] s.drop_last()[i]) by {
                assert(s.drop_last()[i] == s[i]);
            }
        }
        lemma_digits_value_nonneg(s.drop_last());
        assert(is_digit(s[s.len() - 1]));
    }
}

/// A numeral never has a negative value.
pub proof fn lemma_numeral_nonneg(s: Seq<char>)
    requires
        is_numeral(s),
    ensures
        numeral_value(s) >= 0,
{
    lemma_digits_value_nonneg(s);
}

/// An unsigned decimal numeral: one or more digits, and nothing else.
pub open spec fn is_numeral(s: Seq<char>) -> bool {
    s.len() > 0 && all_digits(s)
}

pub open spec fn numeral_value(s: Seq<char>) -> int {
    digits_value(s)
}

/// The value of `s` as an unsigned integer no greater than `max`, if it is one.
pub open spec fn numeral_at_most(s: Seq<char>, max: int) -> Option<int> {
    if is_numeral(s) && numeral_value(s) <= max {
        Some(numeral_value(s))
    } else {
        None
    }
}

/// Reads `s[start..end]` as an unsigned numeral whose value is at most `max`.
pub fn parse_numeral(s: &Vec<char>, start: usize, end: usize, max: u32) -> (r: Option<u32>)
    requires
        start <= end <= s@.len(),
        max <= 65535,
    ensures
        match r {
            Some(v) => numeral_at_most(s@.subrange(start as int, end as int), max as int)
                == Some(v as int),
            None => numeral_at_most(s@.subrange(start as int, end as int), max as int) is None,
        },
{
    let ghost sub = s@.subrange(start as int, end as int);
    let mut i: usize = start;
    let body_start: usize = start;
    if i == end {
        return None;
    }
    let mut acc: u32 = 0;
    let mut over: bool = false;
    while i < end
        invariant
            start <= body_start <= i <= end <= s@.len(),
            max <= 65535,
            body_start == start,
            sub == s@.subrange(start as int, end as int),
            all_digits(s@.subrange(body_start as int, i as int)),
            !over ==> acc as int == digits_value(s@.subrange(body_start as int, i as int))
                && acc <= max,
            over ==> digits_value(s@.subrange(body_start as int, i as int)) > max,
        decreases end - i,
    {
        let c = s[i];
        if !('0' <= c && c <= '9') {
            proof {
                let b = s@.subrange(body_start as int, end as int);
                assert(b[i - body_start] == c);
                assert(!all_digits(b));
            }
            return None;
        }
        let d: u32 = (c as u32) - ('0' as u32);
        proof {
            let p = s@.subrange(body_start as int, i + 1);
            assert(p.drop_last() =~= s@.subrange(body_start as int, i as int));
            assert(p.last() == c);
            assert(digits_value(p) == digits_value(p.drop_last()) * 10 + d);
            assert forall|j: int| 0 <= j < p.len() implies is_digit(#[trigger] p[j]) by {
                if j < p.len() - 1 {
                    assert(p[j] == s@.subrange(body_start as int, i as int)[j]);
                }
            }
        }
        if !over {
            let v: u32 = acc * 10 + d;
            if v > max {
                over = true;
            } else {
                acc = v;
            }
        }
        i = i + 1;
    }
    if over {
        None
    } else {
        Some(acc)
    }
}

/// The decimal representation of `n`, without leading zeros.
pub open spec fn decimal(n: nat) -> Seq<char>
    decreases n,
{
    if n < 10 {
        seq![digit_char(n as int)]
    } else {
        decimal(n / 10).push(digit_char((n % 10) as int))
    }
}

pub proof fn lemma_decimal(n: nat)
    ensures
        decimal(n).len() > 0,
        all_digits(decimal(n)),
        digits_value(decimal(n)) == n,
        is_numeral(decimal(n)),
        numeral_value(decimal(n)) == n,
    decreases n,
{
    if n >= 10 {
        lemma_decimal(n / 10);
        let d = decimal(n);
        assert(d.drop_last() =~= decimal(n / 10));
        assert(digit_value(digit_char((n % 10) as int)) == n % 10);
        assert(digits_value(d) == digits_value(decimal(n / 10)) * 10 + (n % 10));
        assert(n == (n / 10) * 10 + n % 10);
        assert forall|i: int| 0 <= i < d.len() implies is_digit(#[trigger] d[i]) by {
            if i < d.len() - 1 {
                assert(d[i] == decimal(n / 10)[i]);
            }
        }
    }
    else {
        let d = decimal(n);
        assert(digit_value(digit_char(n as int)) == n);
        assert(d.drop_last() =~= Seq::<char>::empty());
        assert(digits_value(d) == digits_value(d.drop_last()) * 10 + digit_value(d.last()));
    }
}

/// Appends the decimal representation of `n` to `out`.
pub fn push_decimal(out: &mut Vec<char>, n: u32)
    ensures
        final(out)@ == old(out)@ + decimal(n as nat),
    decreases n,
{
    if n >= 10 {
        push_decimal(out, n / 10);
    }
    let d: u8 = (n % 10) as u8;
    let c: char = (d + 48u8) as char;
    out.push(c);
    proof {
        if n >= 10 {
            assert(decimal(n as nat) == decimal((n / 10) as nat).push(digit_char((n % 10) as int)));
        }
    }
    assert(final(out)@ =~= old(out)@ + decimal(n as nat));
}

/// The index of the first `c` in `s`, or -1 when there is none.
pub open spec fn find(s: Seq<char>, c: char) -> int
    decreases s.len(),
{
    if s.len() == 0 {
        -1
    } else if s[0] == c {
        0
    } else if find(s.drop_first(), c) < 0 {
        -1
    } else {
        find(s.drop_first(), c) + 1
    }
}

pub proof fn lemma_find(s: Seq<char>, c: char, i: int)
    requires
        0 <= i <= s.len(),
        forall|j: int| 0 <= j < i ==> s[j] != c,
        i < s.len() ==> s[i] == c,
    ensures
        find(s, c) == if i < s.len() { i } else { -1 },
    decreases i,
{
    if i > 0 {
        assert forall|j: int| 0 <= j < i - 1 implies s.drop_first()[j] != c by {
            assert(s.drop_first()[j] == s[j + 1]);
        }
        lemma_find(s.drop_first(), c, i - 1);
    }
}

/// The pieces of `s` between occurrences of `c` (as `str::split` with a `char`).
pub open spec fn split(s: Seq<char>, c: char) -> Seq<Seq<char>>
    decreases s.len(),
{
    let i = find(s, c);
    if i < 0 || i >= s.len() {
        seq![s]
    } else {
        seq![s.take(i)] + split(s.skip(i + 1), c)
    }
}

pub open spec fn ranges_in(s: Seq<char>, rs: Seq<(usize, usize)>) -> bool {
    forall|k: int| 0 <= k < rs.len() ==> #[trigger] rs[k].0 <= rs[k].1 && rs[k].1 <= s.len()
}

/// The pieces of `s` that the ranges `rs` select.
pub open spec fn pieces(s: Seq<char>, rs: Seq<(usize, usize)>) -> Seq<Seq<char>> {
    rs.map_values(|r: (usize, usize)| s.subrange(r.0 as int, r.1 as int))
}

/// The ranges of the pieces of `s[start..end]` between occurrences of `c`.
pub fn split_ranges(s: &Vec<char>, start: usize, end: usize, c: char) -> (r: Vec<(usize, usize)>)
    requires
        start <= end <= s@.len(),
    ensures
        ranges_in(s@, r@),
        pieces(s@, r@) == split(s@.subrange(start as int, end as int), c),
{
    let mut parts: Vec<(usize, usize)> = Vec::new();
    let mut seg: usize = start;
    let mut i: usize = start;
    while i < end
        invariant
            start <= seg <= i <= end <= s@.len(),
            ranges_in(s@, parts@),
            forall|j: int| seg <= j < i ==> s@[j] != c,
            split(s@.subrange(start as int, end as int), c) == pieces(s@, parts@) + split(
                s@.subrange(seg as int, end as int),
                c,
            ),
        decreases end - i,
    {
        if s[i] == c {
            proof {
                let t = s@.subrange(seg as int, end as int);
                assert forall|j: int| 0 <= j < i - seg implies t[j] != c by {
                    assert(t[j] == s@[seg + j]);
                }
                lemma_find(t, c, i - seg);
                assert(t.take(i - seg) =~= s@.subrange(seg as int, i as int));
                assert(t.skip(i - seg + 1) =~= s@.subrange(i + 1, end as int));
                assert(pieces(s@, parts@.push((seg, i))) =~= pieces(s@, parts@).push(
                    s@.subrange(seg as int, i as int),
                ));
                assert(split(t, c) == seq![t.take(i - seg)] + split(t.skip(i - seg + 1), c));
                assert(pieces(s@, parts@) + split(t, c) =~= pieces(s@, parts@.push((seg, i)))
                    + split(s@.subrange(i + 1, end as int), c));
            }
            parts.push((seg, i));
            seg = i + 1;
        }
        i = i + 1;
    }
    proof {
        let t = s@.subrange(seg as int, end as int);
        assert forall|j: int| 0 <= j < t.len() implies t[j] != c by {
            assert(t[j] == s@[seg + j]);
        }
        lemma_find(t, c, t.len() as int);
        assert(pieces(s@, parts@.push((seg, end))) =~= pieces(s@, parts@).push(t));
        assert(pieces(s@, parts@) + split(t, c) =~= pieces(s@, parts@.push((seg, end))));
    }
    parts.push((seg, end));
    parts
}

/// The maximal runs of non-whitespace characters of `s` (as `str::split_whitespace`).
pub open spec fn words(s: Seq<char>) -> Seq<Seq<char>>
    decreases s.len(),
{
    if s.len() == 0 {
        seq![]
    } else {
        let w = words(s.drop_last());
        let c = s.last();
        if is_white(c) {
            w
        } else if s.len() >= 2 && !is_white(s[s.len() - 2]) {
            w.update(w.len() - 1, w.last().push(c))
        } else {
            w.push(seq![c])
        }
    }
}

/// The ranges of the whitespace-separated words of `s`; none is empty.
pub fn word_ranges(s: &Vec<char>) -> (r: Vec<(usize, usize)>)
    ensures
        ranges_in(s@, r@),
        forall|k: int| 0 <= k < r@.len() ==> (#[trigger] r@[k]).0 < r@[k].1,
        pieces(s@, r@) == words(s@),
{
    let mut done: Vec<(usize, usize)> = Vec::new();
    let mut cur: usize = 0;
    let mut in_word: bool = false;
    let mut i: usize = 0;
    while i < s.len()
        invariant
            0 <= i <= s@.len(),
            ranges_in(s@, done@),
            forall|k: int| 0 <= k < done@.len() ==> (#[trigger] done@[k]).0 < done@[k].1,
            in_word == (i > 0 && !is_white(s@[i - 1])),
            in_word ==> cur < i && words(s@.take(i as int)) == pieces(s@, done@).push(
                s@.subrange(cur as int, i as int),
            ),
            !in_word ==> words(s@.take(i as int)) == pieces(s@, done@),
        decreases s@.len() - i,
    {
        let c = s[i];
        let white = char_is_whitespace(c);
        let ghost p = s@.take(i + 1);
        proof {
            assert(p.drop_last() =~= s@.take(i as int));
            assert(p.last() == c);
        }
        if white {
            if in_word {
                proof {
                    assert(pieces(s@, done@.push((cur, i))) =~= pieces(s@, done@).push(
                        s@.subrange(cur as int, i as int),
                    ));
                }
                done.push((cur, i));
            }
            in_word = false;
        } else {
            if in_word {
                proof {
                    assert(p[p.len() - 2] == s@[i - 1]);
                    assert(s@.subrange(cur as int, i + 1) =~= s@.subrange(cur as int, i as int).push(c));
                    assert(words(p) =~= pieces(s@, done@).push(s@.subrange(cur as int, i + 1)));
                }
            } else {
                proof {
                    if i > 0 {
                        assert(p[p.len() - 2] == s@[i - 1]);
                    }
                    assert(s@.subrange(i as int, i + 1) =~= seq![c]);
                }
                cur = i;
            }
            in_word = true;
        }
        i = i + 1;
    }
    proof {
        assert(s@.take(s@.len() as int) =~= s@);
    }
    if in_word {
        proof {
            assert(pieces(s@, done@.push((cur, i))) =~= pieces(s@, done@).push(
                s@.subrange(cur as int, i as int),
            ));
        }
        done.push((cur, i));
    }
    done
}

/// `s` without its leading whitespace.
pub open spec fn trim_start(s: Seq<char>) -> Seq<char>
    decreases s.len(),
{
    if s.len() > 0 && is_white(s[0]) {
        trim_start(s.drop_first())
    } else {
        s
    }
}

/// `s` without its trailing whitespace.
pub open spec fn trim_end(s: Seq<char>) -> Seq<char>
    decreases s.len(),
{
    if s.len() > 0 && is_white(s.last()) {
        trim_end(s.drop_last())
    } else {
        s
    }
}

/// `s` without leading and trailing whitespace (as `str::trim`).
pub open spec fn trim(s: Seq<char>) -> Seq<char> {
    trim_end(trim_start(s))
}

/// The bounds of `trim(s)` within `s`.
pub fn trim_bounds(s: &Vec<char>) -> (r: (usize, usize))
    ensures
        r.0 <= r.1 <= s@.len(),
        s@.subrange(r.0 as int, r.1 as int) == trim(s@),
{
    let n = s.len();
    let mut a: usize = 0;
    proof {
        assert(s@.subrange(0, n as int) =~= s@);
    }
    while a < n && char_is_whitespace(s[a])
        invariant
            a <= n == s@.len(),
            trim_start(s@) == trim_start(s@.subrange(a as int, n as int)),
        decreases n - a,
    {
        proof {
            assert(s@.subrange(a as int, n as int).drop_first() =~= s@.subrange(a + 1, n as int));
        }
        a = a + 1;
    }
    let mut b: usize = n;
    while b > a && char_is_whitespace(s[b - 1])
        invariant
            a <= b <= n == s@.len(),
            trim(s@) == trim_end(s@.subrange(a as int, b as int)),
        decreases b,
    {
        proof {
            assert(s@.subrange(a as int, b as int).drop_last() =~= s@.subrange(a as int, b - 1));
        }
        b = b - 1;
    }
    (a, b)
}

/// The words of `ws` with one space between each two.
pub open spec fn join(ws: Seq<Seq<char>>) -> Seq<char>
    decreases ws.len(),
{
    if ws.len() == 0 {
        seq![]
    } else if ws.len() == 1 {
        ws[0]
    } else {
        join(ws.drop_last()) + seq![' '] + ws.last()
    }
}

/// No character of `s` is `c`.
pub open spec fn lacks(s: Seq<char>, c: char) -> bool {
    forall|i: int| 0 <= i < s.len() ==> s[i] != c
}

pub proof fn lemma_lacks_concat(a: Seq<char>, b: Seq<char>, c: char)
    requires
        lacks(a, c),
        lacks(b, c),
    ensures
        lacks(a + b, c),
{
    assert forall|i: int| 0 <= i < (a + b).len() implies (a + b)[i] != c by {
        if i >= a.len() {
            assert((a + b)[i] == b[i - a.len()]);
        }
    }
}

pub proof fn lemma_digits_lack(a: Seq<char>, c: char)
    requires
        all_digits(a),
        !is_digit(c),
    ensures
        lacks(a, c),
{
    assert forall|i: int| 0 <= i < a.len() implies a[i] != c by {
        assert(is_digit(a[i]));
    }
}

/// Splitting a text with no separator gives the text itself.
pub proof fn lemma_split_none(a: Seq<char>, c: char)
    requires
        lacks(a, c),
    ensures
        split(a, c) == seq![a],
{
    lemma_find(a, c, a.len() as int);
}

/// A separator right after a piece with no separator ends that piece.
pub proof fn lemma_split_first(a: Seq<char>, c: char, rest: Seq<char>)
    requires
        lacks(a, c),
    ensures
        find(a + seq![c] + rest, c) == a.len(),
        (a + seq![c] + rest).take(a.len() as int) == a,
        (a + seq![c] + rest).skip(a.len() as int + 1) == rest,
        split(a + seq![c] + rest, c) == seq![a] + split(rest, c),
{
    let x = a + seq![c] + rest;
    assert forall|j: int| 0 <= j < a.len() implies x[j] != c by {
        assert(x[j] == a[j]);
    }
    lemma_find(x, c, a.len() as int);
    assert(x.take(a.len() as int) =~= a);
    assert(x.skip(a.len() as int + 1) =~= rest);
}

/// Whitespace in front of a text adds no word.
pub proof fn lemma_words_white_front(c: char, s: Seq<char>)
    requires
        is_white(c),
    ensures
        words(seq![c] + s) == words(s),
    decreases s.len(),
{
    let x = seq![c] + s;
    if s.len() == 0 {
        assert(x.drop_last() =~= Seq::<char>::empty());
        assert(words(x.drop_last()) == Seq::<Seq<char>>::empty());
        assert(x.last() == c);
    } else {
        assert(x.drop_last() =~= seq![c] + s.drop_last());
        lemma_words_white_front(c, s.drop_last());
        assert(words(x.drop_last()) == words(s.drop_last()));
        assert(x.last() == s.last());
        if s.len() >= 2 {
            assert(x[x.len() - 2] == s[s.len() - 2]);
        } else {
            assert(x[x.len() - 2] == c);
        }
    }
}

pub proof fn lemma_words_trim_start(s: Seq<char>)
    ensures
        words(trim_start(s)) == words(s),
    decreases s.len(),
{
    if s.len() > 0 && is_white(s[0]) {
        lemma_words_trim_start(s.drop_first());
        assert(s =~= seq![s[0]] + s.drop_first());
        lemma_words_white_front(s[0], s.drop_first());
    }
}

pub proof fn lemma_words_trim_end(s: Seq<char>)
    ensures
        words(trim_end(s)) == words(s),
        trim_end(s).len() == 0 || !is_white(trim_end(s).last()),
    decreases s.len(),
{
    if s.len() > 0 && is_white(s.last()) {
        lemma_words_trim_end(s.drop_last());
    }
}

/// A text that ends in a non-whitespace character has a word.
pub proof fn lemma_words_nonempty(s: Seq<char>)
    requires
        s.len() > 0,
        !is_white(s.last()),
    ensures
        words(s).len() > 0,
    decreases s.len(),
{
    if s.len() >= 2 && !is_white(s[s.len() - 2]) {
        assert(s.drop_last().last() == s[s.len() - 2]);
        lemma_words_nonempty(s.drop_last());
    }
}

/// Trimming keeps the words of a text, and leaves nothing exactly when the
/// text has no word.
pub proof fn lemma_words_trim(s: Seq<char>)
    ensures
        words(trim(s)) == words(s),
        trim(s).len() == 0 <==> words(s).len() == 0,
{
    lemma_words_trim_start(s);
    lemma_words_trim_end(trim_start(s));
    if trim(s).len() > 0 {
        lemma_words_nonempty(trim(s));
    }
}

} // verus!
