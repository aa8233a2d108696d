//! The coverage analyzer: a document with a parallel per-byte bitmap of
//! coverage marks, filled by literal-substring matching.

use vstd::prelude::*;

use crate::model::{
    is_first_match, lemma_covered_le_total, lemma_first_match_is, mark_model, mark_range,
    matches_at, occurs, scan_counts, sentence_data, strip_cr, CARRIAGE_RETURN, TERMINATOR,
};

verus! {

/// Whether `seg` occurs in `text` at offset `s`, by comparing the bytes.
fn is_match_at(text: &Vec<u8>, seg: &[u8], s: usize) -> (r: bool)
    requires
        s + seg@.len() <= text@.len(),
    ensures
        r == matches_at(text@, seg@, s as int),
{
    let n = text.len();
    let m = seg.len();
    let mut j: usize = 0;
    while j < m
        invariant
            n == text@.len(),
            m == seg@.len(),
            s + m <= n,
            0 <= j <= m,
            forall|k: int| 0 <= k < j ==> text@[s + k] == seg@[k],
        decreases m - j,
    {
        if text[s + j] != seg[j] {
            proof {
                assert(text@.subrange(s as int, s + m as int)[j as int] == text@[s + j]);
                assert(text@.subrange(s as int, s + m as int) != seg@);
            }
            return false;
        }
        j = j + 1;
    }
    proof {
        assert(text@.subrange(s as int, s + m as int) =~= seg@);
    }
    true
}

/// The offset of the first occurrence of `seg` in `text`, by linear search,
/// or `None` when `seg` does not occur at all.
pub fn find_first(text: &Vec<u8>, seg: &[u8]) -> (r: Option<usize>)
    ensures
        r is Some <==> occurs(text@, seg@),
        r matches Some(s) ==> is_first_match(text@, seg@, s as int),
{
    let n = text.len();
    let m = seg.len();
    if m == 0 {
        proof {
            assert(text@.subrange(0, 0) =~= seg@);
            assert(matches_at(text@, seg@, 0));
        }
        return Some(0);
    }
    if m > n {
        proof {
            assert forall|i: int| !matches_at(text@, seg@, i) by {}
        }
        return None;
    }
    let mut s: usize = 0;
    while s <= n - m
        invariant
            n == text@.len(),
            m == seg@.len(),
            0 < m <= n,
            0 <= s <= n - m + 1,
            forall|k: int| 0 <= k < s ==> !matches_at(text@, seg@, k),
        decreases n - s,
    {
        if is_match_at(text, seg, s) {
            return Some(s);
        }
        s = s + 1;
    }
    proof {
        assert forall|i: int| !matches_at(text@, seg@, i) by {
            if 0 <= i < s {
                assert(!matches_at(text@, seg@, i));
            }
        }
    }
    None
}

/// The sentence statistics of `text` under the marks `covered`: one scan in
/// lockstep, latching coverage within the current sentence and closing a
/// sentence at each terminator byte.
pub fn count_sentence_data(text: &Vec<u8>, covered: &Vec<bool>) -> (r: (usize, usize))
    requires
        covered@.len() == text@.len(),
    ensures
        r.0 == sentence_data(text@, covered@).0,
        r.1 == sentence_data(text@, covered@).1,
        r.1 <= r.0,
{
    let n = text.len();
    let mut total: usize = 0;
    let mut encoded: usize = 0;
    let mut latched: bool = false;
    let mut i: usize = 0;
    proof {
        assert(text@.skip(0) =~= text@);
        assert(covered@.skip(0) =~= covered@);
    }
    while i < n
        invariant
            n == text@.len(),
            covered@.len() == text@.len(),
            0 <= i <= n,
            total <= i,
            encoded <= total,
            sentence_data(text@, covered@).0 == total + scan_counts(
                text@.skip(i as int),
                covered@.skip(i as int),
                latched,
            ).0,
            sentence_data(text@, covered@).1 == encoded + scan_counts(
                text@.skip(i as int),
                covered@.skip(i as int),
                latched,
            ).1,
        decreases n - i,
    {
        proof {
            lemma_covered_le_total(text@.skip(i as int), covered@.skip(i as int));
            assert(text@.skip(i as int).drop_first() =~= text@.skip(i as int + 1));
            assert(covered@.skip(i as int).drop_first() =~= covered@.skip(i as int + 1));
            assert(text@.skip(i as int)[0] == text@[i as int]);
            assert(covered@.skip(i as int)[0] == covered@[i as int]);
        }
        let here = latched || covered[i];
        if text[i] == TERMINATOR {
            total = total + 1;
            if here {
                encoded = encoded + 1;
            }
            latched = false;
        } else {
            latched = here;
        }
        i = i + 1;
    }
    proof {
        assert(text@.skip(n as int) =~= Seq::<u8>::empty());
        assert(covered@.skip(n as int) =~= Seq::<bool>::empty());
    }
    (total, encoded)
}

/// The covered share of sentences as a whole-number percentage, rounded
/// down.  A document with no sentences counts as zero percent covered.
pub fn coverage_percent(total: usize, encoded: usize) -> (p: usize)
    requires
        encoded <= total,
    ensures
        total == 0 ==> p == 0,
        total > 0 ==> p == 100 * (encoded as int) / (total as int),
        p <= 100,
{
    if total == 0 {
        return 0;
    }
    let wide: u128 = 100u128 * (encoded as u128) / (total as u128);
    proof {
        assert(100 * (encoded as int) / (total as int) <= 100) by (nonlinear_arith)
            requires
                0 < total,
                0 <= encoded <= total,
        ;
    }
    wide as usize
}

/// A document with its coverage bitmap.
///
/// The document is normalized at construction by stripping carriage
/// returns; the bitmap has exactly one mark per document byte, never grows
/// or shrinks, and marks are only ever set, never cleared.
pub struct Analyzer {
    text: Vec<u8>,
    covered: Vec<bool>,
}

impl Analyzer {
    /// The normalized document bytes.
    pub closed spec fn doc(&self) -> Seq<u8> {
        self.text@
    }

    /// The coverage marks, one per document byte.
    pub closed spec fn marks(&self) -> Seq<bool> {
        self.covered@
    }

    /// The bitmap always has exactly the document's length.
    pub closed spec fn wf(&self) -> bool {
        self.covered@.len() == self.text@.len()
    }

    /// Builds an analyzer from raw document bytes: every carriage return is
    /// stripped, and no position starts out covered.
    pub fn from_text(raw: &[u8]) -> (a: Analyzer)
        ensures
            a.wf(),
            a.doc() == strip_cr(raw@),
            forall|i: int| 0 <= i < a.marks().len() ==> !a.marks()[i],
    {
        let mut text: Vec<u8> = Vec::new();
        let mut i: usize = 0;
        while i < raw.len()
            invariant
                0 <= i <= raw@.len(),
                text@ == strip_cr(raw@.take(i as int)),
            decreases raw@.len() - i,
        {
            proof {
                assert(raw@.take(i as int + 1).drop_last() =~= raw@.take(i as int));
                assert(raw@.take(i as int + 1).last() == raw@[i as int]);
            }
            let b = raw[i];
            if b != CARRIAGE_RETURN {
                text.push(b);
            }
            i = i + 1;
        }
        proof {
            assert(raw@.take(raw@.len() as int) =~= raw@);
        }
        let mut covered: Vec<bool> = Vec::new();
        let mut j: usize = 0;
        while j < text.len()
            invariant
                covered@.len() == j,
                0 <= j <= text@.len(),
                forall|k: int| 0 <= k < j ==> !covered@[k],
            decreases text@.len() - j,
        {
            covered.push(false);
            j = j + 1;
        }
        Analyzer { text, covered }
    }

    /// The length of the normalized document (and of the bitmap).
    pub fn text_len(&self) -> (n: usize)
        requires
            self.wf(),
        ensures
            n == self.doc().len(),
    {
        self.text.len()
    }

    /// The normalized document bytes.
    pub fn text_bytes(&self) -> (t: &Vec<u8>)
        ensures
            t@ == self.doc(),
    {
        &self.text
    }

    /// Marks the first occurrence of `seg` in the document as covered and
    /// reports whether one was found.  When `seg` does not occur, the marks
    /// are left unchanged and `false` reports the miss; the miss is
    /// recoverable by design, so the caller can go on with later segments.
    pub fn mark_segment(&mut self, seg: &[u8]) -> (found: bool)
        requires
            old(self).wf(),
        ensures
            final(self).wf(),
            final(self).doc() == old(self).doc(),
            found == occurs(old(self).doc(), seg@),
            final(self).marks() == mark_model(old(self).doc(), old(self).marks(), seg@),
    {
        match find_first(&self.text, seg) {
            None => false,
            Some(s) => {
                proof {
                    lemma_first_match_is(self.text@, seg@, s as int);
                }
                let m = seg.len();
                let n = self.covered.len();
                proof {
                    assert(matches_at(self.text@, seg@, s as int));
                    assert(s + m <= n);
                }
                let ghost old_cov = self.covered@;
                let mut i: usize = s;
                while i < s + m
                    invariant
                        n == self.covered@.len(),
                        s + m <= n,
                        s <= i <= s + m,
                        self.text@ == old(self).text@,
                        self.covered@.len() == old_cov.len(),
                        forall|k: int|
                            0 <= k < self.covered@.len() ==> self.covered@[k] == (old_cov[k] || (
                            s <= k < i)),
                    decreases s + m - i,
                {
                    self.covered[i] = true;
                    i = i + 1;
                }
                proof {
                    assert(i == s + m);
                    assert(forall|k: int|
                        0 <= k < self.covered@.len() ==> self.covered@[k] == (old_cov[k] || (s <= k
                            < s + m)));
                    assert(self.covered@ =~= mark_range(old_cov, s as int, (s + m) as int));
                }
                true
            },
        }
    }

    /// The pair (total sentences, covered sentences) of the document under
    /// the current marks.
    pub fn get_sentence_data(&self) -> (r: (usize, usize))
        requires
            self.wf(),
        ensures
            r.0 == sentence_data(self.doc(), self.marks()).0,
            r.1 == sentence_data(self.doc(), self.marks()).1,
            r.1 <= r.0,
    {
        count_sentence_data(&self.text, &self.covered)
    }
}

} // verus!

