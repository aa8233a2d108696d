//! The position-exact mode: a page of a paginated document, marked through
//! explicit page-relative offsets instead of substring search.
//!
//! A page is cut out of an export whose text ends in a citation marker of
//! the shape `<text> (<citation>, S. <page>: <offset>)`: the page's body,
//! then a space and an opening parenthesis, any citation text, the literal
//! `, S. `, the page number, the literal `: `, the page's starting offset
//! in document-wide coordinates, and a closing parenthesis that ends the
//! input.  The body is maximal: the marker starts at the last ` (` before
//! the `, S. `.

use vstd::prelude::*;

use crate::analyzer::count_sentence_data;
use crate::model::{mark_range, sentence_data};
use crate::parse::{all_digits, dec_value, is_digit, parse_decimal, Position, COLON, SPACE};
use crate::CoverageError;

verus! {

/// The ASCII `(` byte.
pub const LPAREN: u8 = 40;

/// The ASCII `)` byte.
pub const RPAREN: u8 = 41;

/// The ASCII `,` byte.
pub const COMMA: u8 = 44;

/// The ASCII `S` byte of the marker's page label.
pub const LETTER_S: u8 = 83;

/// The ASCII `.` byte inside the marker's page label.
pub const PERIOD: u8 = 46;

/// The bytes of `s` split as `<text> (<citation>, S. <page>: <offset>)`:
/// the marker's ` (` starts at `p` and is the last one before the comma of
/// `, S. ` at `m`, the page digits run from `m + 5` to the colon at `a`,
/// and the offset digits run from `a + 2` to the closing parenthesis that
/// ends the input.
pub open spec fn marker_split_at(s: Seq<u8>, p: int, m: int, a: int) -> bool {
    let n = s.len() as int;
    &&& 0 <= p
    &&& p + 2 <= m
    &&& m + 5 < a
    &&& a + 2 < n - 1
    &&& s[n - 1] == RPAREN
    &&& s[p] == SPACE
    &&& s[p + 1] == LPAREN
    &&& s[m] == COMMA
    &&& s[m + 1] == SPACE
    &&& s[m + 2] == LETTER_S
    &&& s[m + 3] == PERIOD
    &&& s[m + 4] == SPACE
    &&& all_digits(s.subrange(m + 5, a))
    &&& s[a] == COLON
    &&& s[a + 1] == SPACE
    &&& all_digits(s.subrange(a + 2, n - 1))
    &&& forall|q: int| p < q <= m - 2 ==> !((#[trigger] s[q]) == SPACE && s[q + 1] == LPAREN)
}

/// The marker splits `s` at `(p, m, a)` and both numbers fit in `usize`.
pub open spec fn marker_parse_at(s: Seq<u8>, p: int, m: int, a: int) -> bool {
    &&& marker_split_at(s, p, m, a)
    &&& dec_value(s.subrange(m + 5, a)) <= usize::MAX
    &&& dec_value(s.subrange(a + 2, s.len() - 1)) <= usize::MAX
}

/// A marker splits the input in at most one way, so the contract of
/// `Page::from_segment` pins the page's fields.
pub proof fn lemma_marker_split_unique(
    s: Seq<u8>,
    p1: int,
    m1: int,
    a1: int,
    p2: int,
    m2: int,
    a2: int,
)
    requires
        marker_split_at(s, p1, m1, a1),
        marker_split_at(s, p2, m2, a2),
    ensures
        p1 == p2,
        m1 == m2,
        a1 == a2,
{
    let n = s.len() as int;
    if a1 < a2 {
        if a2 == a1 + 1 {
            assert(false);
        } else {
            assert(is_digit(s.subrange(a1 + 2, n - 1)[a2 - a1 - 2]));
            assert(false);
        }
    }
    if a2 < a1 {
        if a1 == a2 + 1 {
            assert(false);
        } else {
            assert(is_digit(s.subrange(a2 + 2, n - 1)[a1 - a2 - 2]));
            assert(false);
        }
    }
    if m1 < m2 {
        if m2 >= m1 + 5 {
            assert(is_digit(s.subrange(m1 + 5, a1)[m2 - m1 - 5]));
            assert(false);
        } else {
            assert(false);
        }
    }
    if m2 < m1 {
        if m1 >= m2 + 5 {
            assert(is_digit(s.subrange(m2 + 5, a2)[m1 - m2 - 5]));
            assert(false);
        } else {
            assert(false);
        }
    }
    if p1 < p2 {
        assert(!(s[p2] == SPACE && s[p2 + 1] == LPAREN));
        assert(false);
    }
    if p2 < p1 {
        assert(!(s[p1] == SPACE && s[p1 + 1] == LPAREN));
        assert(false);
    }
}

/// Any marker's colon index is pinned by the maximal digit run that ends
/// just before the closing parenthesis: `j` is the start of that run.
proof fn lemma_forced_colon(s: Seq<u8>, j: int, p: int, m: int, a: int)
    requires
        marker_split_at(s, p, m, a),
        0 <= j <= s.len() - 1,
        forall|x: int| j <= x < s.len() - 1 ==> is_digit(s[x]),
        j == 0 || !is_digit(s[j - 1]),
    ensures
        a + 2 == j,
{
    let n = s.len() as int;
    if a + 2 < j {
        assert(is_digit(s.subrange(a + 2, n - 1)[j - 1 - (a + 2)]));
        assert(false);
    }
    if a + 2 > j {
        assert(is_digit(s[a + 1]));
        assert(false);
    }
}

/// Any marker's `, S. ` index is pinned by the maximal digit run that ends
/// just before the colon: `k` is the start of that run.
proof fn lemma_forced_comma(s: Seq<u8>, k: int, p: int, m: int, a: int)
    requires
        marker_split_at(s, p, m, a),
        0 <= k <= a,
        forall|x: int| k <= x < a ==> is_digit(s[x]),
        k == 0 || !is_digit(s[k - 1]),
    ensures
        m + 5 == k,
{
    if m + 5 < k {
        assert(is_digit(s.subrange(m + 5, a)[k - 1 - (m + 5)]));
        assert(false);
    }
    if m + 5 > k {
        assert(is_digit(s[m + 4]));
        assert(false);
    }
}

/// A page of the document: its number and starting offset as the export's
/// marker states them, its body text, and one coverage mark per body byte.
pub struct Page {
    number: usize,
    offset: usize,
    text: Vec<u8>,
    encoded: Vec<bool>,
}

impl Page {
    /// The page number the marker named.
    pub closed spec fn page_no(&self) -> usize {
        self.number
    }

    /// The page's starting offset in document-wide coordinates.
    pub closed spec fn page_offset(&self) -> usize {
        self.offset
    }

    /// The page's body bytes.
    pub closed spec fn doc(&self) -> Seq<u8> {
        self.text@
    }

    /// The coverage marks, one per body byte.
    pub closed spec fn marks(&self) -> Seq<bool> {
        self.encoded@
    }

    /// The bitmap always has exactly the body's length.
    pub closed spec fn wf(&self) -> bool {
        self.encoded@.len() == self.text@.len()
    }

    /// Cuts one page out of an export segment by reading the trailing
    /// citation marker.  The parse succeeds exactly when the segment ends
    /// in a well-formed marker whose numbers fit in `usize`; any failure is
    /// a recoverable malformed record.
    pub fn from_segment(s: &[u8]) -> (r: Result<Page, CoverageError>)
        ensures
            r is Ok <==> exists|p: int, m: int, a: int| marker_parse_at(s@, p, m, a),
            r matches Ok(page) ==> {
                &&& page.wf()
                &&& forall|x: int| 0 <= x < page.marks().len() ==> !page.marks()[x]
                &&& exists|p: int, m: int, a: int|
                    #[trigger] marker_parse_at(s@, p, m, a) && page.page_no() == dec_value(
                        s@.subrange(m + 5, a),
                    ) && page.page_offset() == dec_value(s@.subrange(a + 2, s@.len() - 1))
                        && page.doc() == s@.subrange(0, p)
            },
            r is Err ==> r == Err::<Page, CoverageError>(CoverageError::MalformedRecord),
    {
        let n = s.len();
        if n == 0 || s[n - 1] != RPAREN {
            return Err(CoverageError::MalformedRecord);
        }
        // The offset digits: the maximal digit run ending just before the
        // closing parenthesis.
        let mut j: usize = n - 1;
        while j > 0 && 48 <= s[j - 1] && s[j - 1] <= 57
            invariant
                n == s@.len(),
                0 <= j <= n - 1,
                forall|x: int| j <= x < n - 1 ==> is_digit(s@[x]),
            decreases j,
        {
            j = j - 1;
        }
        if j >= n - 1 || j < 2 || s[j - 1] != SPACE || s[j - 2] != COLON {
            proof {
                assert forall|pp: int, mm: int, aa: int|
                    !marker_split_at(s@, pp, mm, aa) by {
                    if marker_split_at(s@, pp, mm, aa) {
                        lemma_forced_colon(s@, j as int, pp, mm, aa);
                        assert(false);
                    }
                }
            }
            return Err(CoverageError::MalformedRecord);
        }
        let a = j - 2;
        // The page digits: the maximal digit run ending just before the
        // colon.
        let mut k: usize = a;
        while k > 0 && 48 <= s[k - 1] && s[k - 1] <= 57
            invariant
                n == s@.len(),
                a <= n,
                0 <= k <= a,
                forall|x: int| k <= x < a ==> is_digit(s@[x]),
            decreases k,
        {
            k = k - 1;
        }
        if k >= a || k < 5 || s[k - 1] != SPACE || s[k - 2] != PERIOD || s[k - 3] != LETTER_S || s[k
            - 4] != SPACE || s[k - 5] != COMMA {
            proof {
                assert forall|pp: int, mm: int, aa: int|
                    !marker_split_at(s@, pp, mm, aa) by {
                    if marker_split_at(s@, pp, mm, aa) {
                        lemma_forced_colon(s@, j as int, pp, mm, aa);
                        lemma_forced_comma(s@, k as int, pp, mm, aa);
                        assert(false);
                    }
                }
            }
            return Err(CoverageError::MalformedRecord);
        }
        let m = k - 5;
        if m < 2 {
            proof {
                assert forall|pp: int, mm: int, aa: int|
                    !marker_split_at(s@, pp, mm, aa) by {
                    if marker_split_at(s@, pp, mm, aa) {
                        lemma_forced_colon(s@, j as int, pp, mm, aa);
                        lemma_forced_comma(s@, k as int, pp, mm, aa);
                        assert(false);
                    }
                }
            }
            return Err(CoverageError::MalformedRecord);
        }
        // The marker's ` (`: the last occurrence before the `, S. `.
        let mut q: usize = m - 2;
        while q > 0 && !(s[q] == SPACE && s[q + 1] == LPAREN)
            invariant
                n == s@.len(),
                m + 5 <= n,
                0 <= q <= m - 2,
                forall|t: int|
                    q < t <= m - 2 ==> !((#[trigger] s@[t]) == SPACE && s@[t + 1] == LPAREN),
            decreases q,
        {
            q = q - 1;
        }
        if !(s[q] == SPACE && s[q + 1] == LPAREN) {
            proof {
                assert forall|pp: int, mm: int, aa: int|
                    !marker_split_at(s@, pp, mm, aa) by {
                    if marker_split_at(s@, pp, mm, aa) {
                        lemma_forced_colon(s@, j as int, pp, mm, aa);
                        lemma_forced_comma(s@, k as int, pp, mm, aa);
                        assert(pp <= m - 2);
                        assert(s@[pp] == SPACE && s@[pp + 1] == LPAREN);
                        assert(false);
                    }
                }
            }
            return Err(CoverageError::MalformedRecord);
        }
        let p = q;
        proof {
            assert forall|x: int| 0 <= x < s@.subrange(k as int, a as int).len() implies is_digit(
                s@.subrange(k as int, a as int)[x],
            ) by {
                assert(is_digit(s@[k + x]));
            }
            assert forall|x: int| 0 <= x < s@.subrange(j as int, n - 1).len() implies is_digit(
                #[trigger] s@.subrange(j as int, n - 1)[x],
            ) by {
                assert(is_digit(s@[j + x]));
            }
            assert(marker_split_at(s@, p as int, m as int, a as int));
        }
        let number = match parse_decimal(s, k, a) {
            Some(v) => v,
            None => {
                proof {
                    assert forall|pp: int, mm: int, aa: int|
                        !marker_parse_at(s@, pp, mm, aa) by {
                        if marker_split_at(s@, pp, mm, aa) {
                            lemma_marker_split_unique(
                                s@,
                                pp,
                                mm,
                                aa,
                                p as int,
                                m as int,
                                a as int,
                            );
                        }
                    }
                }
                return Err(CoverageError::MalformedRecord);
            },
        };
        let offset = match parse_decimal(s, j, n - 1) {
            Some(v) => v,
            None => {
                proof {
                    assert forall|pp: int, mm: int, aa: int|
                        !marker_parse_at(s@, pp, mm, aa) by {
                        if marker_split_at(s@, pp, mm, aa) {
                            lemma_marker_split_unique(
                                s@,
                                pp,
                                mm,
                                aa,
                                p as int,
                                m as int,
                                a as int,
                            );
                        }
                    }
                }
                return Err(CoverageError::MalformedRecord);
            },
        };
        let mut text: Vec<u8> = Vec::new();
        let mut t: usize = 0;
        while t < p
            invariant
                n == s@.len(),
                p < n,
                0 <= t <= p,
                text@ == s@.subrange(0, t as int),
            decreases p - t,
        {
            proof {
                assert(s@.subrange(0, t as int + 1) =~= s@.subrange(0, t as int).push(
                    s@[t as int],
                ));
            }
            text.push(s[t]);
            t = t + 1;
        }
        let mut encoded: Vec<bool> = Vec::new();
        let mut e: usize = 0;
        while e < text.len()
            invariant
                encoded@.len() == e,
                0 <= e <= text@.len(),
                forall|x: int| 0 <= x < e ==> !encoded@[x],
            decreases text@.len() - e,
        {
            encoded.push(false);
            e = e + 1;
        }
        proof {
            assert(marker_parse_at(s@, p as int, m as int, a as int));
        }
        Ok(Page { number, offset, text, encoded })
    }

    /// The page number the marker named.
    pub fn number(&self) -> (v: usize)
        ensures
            v == self.page_no(),
    {
        self.number
    }

    /// The page's starting offset in document-wide coordinates.
    pub fn start_offset(&self) -> (v: usize)
        ensures
            v == self.page_offset(),
    {
        self.offset
    }

    /// The page's body bytes.
    pub fn text_bytes(&self) -> (t: &Vec<u8>)
        ensures
            t@ == self.doc(),
    {
        &self.text
    }

    /// Marks the inclusive range of document-wide offsets `[start.offset,
    /// end.offset]` as covered.  The record is rejected whole when its page
    /// numbers disagree with this page, or when its offsets do not fall
    /// inside the page's body; either rejection leaves the marks unchanged
    /// and is recoverable.
    pub fn set_encoded_range(&mut self, start: Position, end: Position) -> (r: Result<
        (),
        CoverageError,
    >)
        requires
            old(self).wf(),
        ensures
            final(self).wf(),
            final(self).doc() == old(self).doc(),
            final(self).page_no() == old(self).page_no(),
            final(self).page_offset() == old(self).page_offset(),
            r is Ok <==> {
                &&& start.page == old(self).page_no()
                &&& end.page == old(self).page_no()
                &&& old(self).page_offset() <= start.offset
                &&& start.offset <= end.offset
                &&& end.offset - old(self).page_offset() < old(self).doc().len()
            },
            r is Ok ==> final(self).marks() == mark_range(
                old(self).marks(),
                start.offset - old(self).page_offset(),
                end.offset - old(self).page_offset() + 1,
            ),
            r is Err ==> final(self).marks() == old(self).marks(),
            (start.page != old(self).page_no() || end.page != old(self).page_no()) <==> r
                == Err::<(), CoverageError>(CoverageError::PositionInconsistent),
            r is Err ==> (r == Err::<(), CoverageError>(CoverageError::PositionInconsistent) || r
                == Err::<(), CoverageError>(CoverageError::OffsetOutOfRange)),
    {
        if start.page != self.number || end.page != self.number {
            return Err(CoverageError::PositionInconsistent);
        }
        if start.offset < self.offset || end.offset < start.offset {
            return Err(CoverageError::OffsetOutOfRange);
        }
        let lo = start.offset - self.offset;
        let hi = end.offset - self.offset;
        if hi >= self.encoded.len() {
            return Err(CoverageError::OffsetOutOfRange);
        }
        let len = self.encoded.len();
        let ghost old_cov = self.encoded@;
        let mut i: usize = lo;
        while i <= hi
            invariant
                len == self.encoded@.len(),
                hi < len,
                lo <= i <= hi + 1,
                self.number == old(self).number,
                self.offset == old(self).offset,
                self.text@ == old(self).text@,
                self.encoded@.len() == old_cov.len(),
                forall|x: int|
                    0 <= x < self.encoded@.len() ==> self.encoded@[x] == (old_cov[x] || (lo <= x
                        < i)),
            decreases hi + 1 - i,
        {
            self.encoded[i] = true;
            i = i + 1;
        }
        proof {
            let target = mark_range(old_cov, lo as int, (hi + 1) as int);
            assert(self.encoded@.len() == target.len());
            assert forall|x: int| 0 <= x < self.encoded@.len() implies self.encoded@[x]
                == target[x] by {
                assert(self.encoded@[x] == (old_cov[x] || (lo <= x < i)));
            }
            assert(self.encoded@ =~= target);
        }
        Ok(())
    }

    /// The pair (total sentences, covered sentences) of the page's body
    /// under the current marks.
    pub fn get_sentence_data(&self) -> (r: (usize, usize))
        requires
            self.wf(),
        ensures
            r.0 == sentence_data(self.doc(), self.marks()).0,
            r.1 == sentence_data(self.doc(), self.marks()).1,
            r.1 <= r.0,
    {
        count_sentence_data(&self.text, &self.encoded)
    }
}

} // verus!
