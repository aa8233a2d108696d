//! Mathematical model of the coverage analysis: the normalized document,
//! the per-byte coverage marks, and the sentence statistics, together with
//! the laws that hold of them.

use vstd::prelude::*;

verus! {

/// The sentence terminator: the ASCII `.` byte.
pub const TERMINATOR: u8 = 46;

/// The ASCII carriage-return byte, stripped during normalization.
pub const CARRIAGE_RETURN: u8 = 13;

/// `s` with every carriage-return byte removed.
pub open spec fn strip_cr(s: Seq<u8>) -> Seq<u8>
    decreases s.len(),
{
    if s.len() == 0 {
        Seq::empty()
    } else if s.last() == CARRIAGE_RETURN {
        strip_cr(s.drop_last())
    } else {
        strip_cr(s.drop_last()).push(s.last())
    }
}

/// The number of terminator bytes in `text`.
pub open spec fn count_terminators(text: Seq<u8>) -> int
    decreases text.len(),
{
    if text.len() == 0 {
        0
    } else {
        (if text[0] == TERMINATOR {
            1int
        } else {
            0int
        }) + count_terminators(text.drop_first())
    }
}

/// The pair (total sentences, covered sentences) produced by scanning
/// `text` and `cov` in lockstep, carrying the latch state `flag` in: a
/// covered position latches the current sentence as covered, a terminator
/// closes the sentence and resets the latch, and a trailing run with no
/// terminator counts as no sentence.
pub open spec fn scan_counts(text: Seq<u8>, cov: Seq<bool>, flag: bool) -> (int, int)
    recommends
        cov.len() == text.len(),
    decreases text.len(),
{
    if text.len() == 0 {
        (0int, 0int)
    } else {
        let latched = flag || cov[0];
        if text[0] == TERMINATOR {
            let rest = scan_counts(text.drop_first(), cov.drop_first(), false);
            (rest.0 + 1, rest.1 + if latched {
                1int
            } else {
                0int
            })
        } else {
            scan_counts(text.drop_first(), cov.drop_first(), latched)
        }
    }
}

/// The sentence statistics of a document with its coverage marks: the scan
/// started with an unlatched state.
pub open spec fn sentence_data(text: Seq<u8>, cov: Seq<bool>) -> (int, int) {
    scan_counts(text, cov, false)
}

/// The segment `seg` occurs in `text` at offset `i`.
pub open spec fn matches_at(text: Seq<u8>, seg: Seq<u8>, i: int) -> bool {
    &&& 0 <= i
    &&& i + seg.len() <= text.len()
    &&& text.subrange(i, i + seg.len() as int) == seg
}

/// The segment `seg` occurs somewhere in `text`.
pub open spec fn occurs(text: Seq<u8>, seg: Seq<u8>) -> bool {
    exists|i: int| matches_at(text, seg, i)
}

/// Offset `i` is the first (lowest) occurrence of `seg` in `text`.
pub open spec fn is_first_match(text: Seq<u8>, seg: Seq<u8>, i: int) -> bool {
    &&& matches_at(text, seg, i)
    &&& forall|k: int| 0 <= k < i ==> !matches_at(text, seg, k)
}

/// The offset of the first occurrence of `seg` in `text`; meaningful only
/// when `occurs(text, seg)` holds.
pub open spec fn first_match(text: Seq<u8>, seg: Seq<u8>) -> int {
    choose|i: int| is_first_match(text, seg, i)
}

/// `cov` with every position in `[start, end)` set, all others unchanged.
pub open spec fn mark_range(cov: Seq<bool>, start: int, end: int) -> Seq<bool> {
    Seq::new(cov.len(), |i: int| cov[i] || (start <= i < end))
}

/// The coverage marks after marking segment `seg`: the first occurrence of
/// `seg` in `text` is marked; when `seg` does not occur the marks are
/// unchanged.
pub open spec fn mark_model(text: Seq<u8>, cov: Seq<bool>, seg: Seq<u8>) -> Seq<bool> {
    if occurs(text, seg) {
        mark_range(cov, first_match(text, seg), first_match(text, seg) + seg.len())
    } else {
        cov
    }
}

proof fn lemma_first_match_below(text: Seq<u8>, seg: Seq<u8>, i: int)
    requires
        matches_at(text, seg, i),
    ensures
        exists|j: int| is_first_match(text, seg, j),
    decreases i,
{
    if exists|k: int| 0 <= k < i && matches_at(text, seg, k) {
        let k = choose|k: int| 0 <= k < i && matches_at(text, seg, k);
        lemma_first_match_below(text, seg, k);
    } else {
        assert(is_first_match(text, seg, i));
    }
}

/// When offset `s` is the first occurrence of `seg`, it is the offset that
/// `first_match` denotes: the first occurrence is unique.
pub proof fn lemma_first_match_is(text: Seq<u8>, seg: Seq<u8>, s: int)
    requires
        is_first_match(text, seg, s),
    ensures
        occurs(text, seg),
        first_match(text, seg) == s,
{
    assert(matches_at(text, seg, s));
    lemma_first_match_below(text, seg, s);
    let j = first_match(text, seg);
    assert(is_first_match(text, seg, j));
    if j < s {
        assert(!matches_at(text, seg, j));
        assert(false);
    }
    if j > s {
        assert(!matches_at(text, seg, s));
        assert(false);
    }
}

proof fn lemma_uncovered_scan(text: Seq<u8>, cov: Seq<bool>)
    requires
        cov.len() == text.len(),
        forall|i: int| 0 <= i < cov.len() ==> !cov[i],
    ensures
        scan_counts(text, cov, false) == (count_terminators(text), 0int),
    decreases text.len(),
{
    if text.len() > 0 {
        assert(!cov[0]);
        lemma_uncovered_scan(text.drop_first(), cov.drop_first());
    }
}

/// With no position covered, no sentence counts as covered and the total
/// equals the number of terminator bytes in the text.
pub proof fn lemma_no_coverage(text: Seq<u8>, cov: Seq<bool>)
    requires
        cov.len() == text.len(),
        forall|i: int| 0 <= i < cov.len() ==> !cov[i],
    ensures
        sentence_data(text, cov).0 == count_terminators(text),
        sentence_data(text, cov).1 == 0,
{
    lemma_uncovered_scan(text, cov);
}

proof fn lemma_scan_le(text: Seq<u8>, cov: Seq<bool>, flag: bool)
    ensures
        0 <= scan_counts(text, cov, flag).1 <= scan_counts(text, cov, flag).0,
    decreases text.len(),
{
    if text.len() > 0 {
        let latched = flag || cov[0];
        if text[0] == TERMINATOR {
            lemma_scan_le(text.drop_first(), cov.drop_first(), false);
        } else {
            lemma_scan_le(text.drop_first(), cov.drop_first(), latched);
        }
    }
}

/// The number of covered sentences never exceeds the number of sentences.
pub proof fn lemma_covered_le_total(text: Seq<u8>, cov: Seq<bool>)
    ensures
        0 <= sentence_data(text, cov).1 <= sentence_data(text, cov).0,
{
    lemma_scan_le(text, cov, false);
}

proof fn lemma_latched_scan(text: Seq<u8>, cov: Seq<bool>, j: int)
    requires
        cov.len() == text.len(),
        0 <= j < text.len(),
        text[j] == TERMINATOR,
        forall|k: int| 0 <= k < j ==> text[k] != TERMINATOR,
        forall|k: int| j < k < cov.len() ==> !cov[k],
    ensures
        scan_counts(text, cov, true) == (count_terminators(text), 1int),
    decreases j,
{
    if j == 0 {
        assert(forall|k: int| 0 <= k < cov.drop_first().len() ==> !cov.drop_first()[k]);
        lemma_uncovered_scan(text.drop_first(), cov.drop_first());
    } else {
        assert(text[0] != TERMINATOR);
        assert(text.drop_first()[j - 1] == TERMINATOR);
        lemma_latched_scan(text.drop_first(), cov.drop_first(), j - 1);
    }
}

proof fn lemma_single_mark_scan(text: Seq<u8>, cov: Seq<bool>, s: int, e: int, j: int)
    requires
        cov.len() == text.len(),
        0 <= s < e <= j < text.len(),
        text[j] == TERMINATOR,
        forall|k: int| s <= k < j ==> text[k] != TERMINATOR,
        forall|k: int| 0 <= k < cov.len() ==> (cov[k] <==> s <= k < e),
    ensures
        scan_counts(text, cov, false) == (count_terminators(text), 1int),
    decreases s,
{
    if s == 0 {
        assert(cov[0]);
        assert(text[0] != TERMINATOR);
        assert(text.drop_first()[j - 1] == TERMINATOR);
        assert(forall|k: int|
            j - 1 < k < cov.drop_first().len() ==> !(#[trigger] cov.drop_first()[k])) by {
            assert(forall|k: int| j - 1 < k < cov.len() - 1 ==> !(#[trigger] cov[k + 1]));
        }
        lemma_latched_scan(text.drop_first(), cov.drop_first(), j - 1);
    } else {
        assert(!cov[0]);
        assert(forall|k: int|
            0 <= k < cov.drop_first().len() ==> (cov.drop_first()[k] <==> s - 1 <= k < e - 1));
        lemma_single_mark_scan(text.drop_first(), cov.drop_first(), s - 1, e - 1, j - 1);
    }
}

/// Covering exactly the positions of one segment that lies strictly inside a
/// single terminator-delimited sentence yields exactly one covered sentence,
/// with the total unchanged from the uncovered case: relative to marking
/// nothing, the covered count rises by exactly one.
pub proof fn lemma_mark_one_sentence(text: Seq<u8>, cov: Seq<bool>, s: int, e: int, j: int)
    requires
        cov.len() == text.len(),
        0 <= s < e <= j < text.len(),
        text[j] == TERMINATOR,
        forall|k: int| s <= k < j ==> text[k] != TERMINATOR,
        forall|k: int| 0 <= k < cov.len() ==> (cov[k] <==> s <= k < e),
    ensures
        sentence_data(text, cov).0 == count_terminators(text),
        sentence_data(text, cov).1 == 1,
{
    lemma_single_mark_scan(text, cov, s, e, j);
}

/// Marking a segment whose first occurrence lies strictly inside one
/// terminator-delimited sentence, on a bitmap with nothing covered yet,
/// yields exactly one covered sentence, with the total the number of
/// terminators: relative to marking nothing, the covered count rises by
/// exactly one.
pub proof fn lemma_mark_segment_one_sentence(
    text: Seq<u8>,
    cov: Seq<bool>,
    seg: Seq<u8>,
    j: int,
)
    requires
        cov.len() == text.len(),
        forall|k: int| 0 <= k < cov.len() ==> !cov[k],
        occurs(text, seg),
        seg.len() > 0,
        first_match(text, seg) + seg.len() <= j < text.len(),
        text[j] == TERMINATOR,
        forall|k: int| first_match(text, seg) <= k < j ==> text[k] != TERMINATOR,
    ensures
        sentence_data(text, mark_model(text, cov, seg)).0 == count_terminators(text),
        sentence_data(text, mark_model(text, cov, seg)).1 == 1,
{
    let s = first_match(text, seg);
    let w = choose|i: int| matches_at(text, seg, i);
    assert(matches_at(text, seg, w));
    lemma_first_match_below(text, seg, w);
    assert(is_first_match(text, seg, s));
    let marked = mark_model(text, cov, seg);
    assert(forall|k: int|
        0 <= k < marked.len() ==> (#[trigger] marked[k] <==> s <= k < s + seg.len()));
    lemma_mark_one_sentence(text, marked, s, s + seg.len() as int, j);
}

/// Coverage is monotonic: marking a segment never clears a mark, and never
/// changes the bitmap's length.
pub proof fn lemma_mark_monotone(text: Seq<u8>, cov: Seq<bool>, seg: Seq<u8>)
    ensures
        mark_model(text, cov, seg).len() == cov.len(),
        forall|k: int|
            0 <= k < cov.len() && cov[k] ==> #[trigger] mark_model(text, cov, seg)[k],
{
}

/// Marking the same segment a second time changes nothing: the coverage
/// marks, and hence the sentence statistics, are those after the first
/// marking.
pub proof fn lemma_mark_idempotent(text: Seq<u8>, cov: Seq<bool>, seg: Seq<u8>)
    requires
        cov.len() == text.len(),
    ensures
        mark_model(text, mark_model(text, cov, seg), seg) == mark_model(text, cov, seg),
{
    if occurs(text, seg) {
        let s = first_match(text, seg);
        let once = mark_range(cov, s, s + seg.len());
        assert(mark_range(once, s, s + seg.len()) =~= once);
    }
}

} // verus!
