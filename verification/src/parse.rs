//! Verified parsers for the numeric position strings and the page marker
//! format carried by annotation exports.
//!
//! A position string has the exact shape `<page>: <offset>` with two
//! non-empty decimal digit runs.  A malformed string, or a number that does
//! not fit in `usize`, is reported as a malformed record rather than
//! aborting the batch.

use vstd::prelude::*;

use crate::CoverageError;

verus! {

/// The ASCII colon byte, separating page from offset.
pub const COLON: u8 = 58;

/// The ASCII space byte.
pub const SPACE: u8 = 32;

/// `b` is an ASCII decimal digit.
pub open spec fn is_digit(b: u8) -> bool {
    48 <= b <= 57
}

/// Every byte of `s` is an ASCII decimal digit.
pub open spec fn all_digits(s: Seq<u8>) -> bool {
    forall|i: int| 0 <= i < s.len() ==> is_digit(s[i])
}

/// The value of a run of decimal digit bytes, most significant first.
pub open spec fn dec_value(s: Seq<u8>) -> nat
    recommends
        all_digits(s),
    decreases s.len(),
{
    if s.len() == 0 {
        0
    } else {
        dec_value(s.drop_last()) * 10 + (s.last() - 48) as nat
    }
}

/// The value of a digit run is at least the value of any of its prefixes.
proof fn lemma_dec_value_prefix(s: Seq<u8>, i: int)
    requires
        all_digits(s),
        0 <= i <= s.len(),
    ensures
        dec_value(s) >= dec_value(s.take(i)),
    decreases s.len() - i,
{
    if i < s.len() {
        assert(s.take(i + 1).drop_last() =~= s.take(i));
        assert(s.take(i + 1).last() == s[i]);
        assert(dec_value(s.take(i + 1)) >= dec_value(s.take(i)));
        lemma_dec_value_prefix(s, i + 1);
    } else {
        assert(s.take(i) =~= s);
    }
}

/// Reads the decimal value of the digit run `s[lo..hi]`, or `None` when the
/// value does not fit in `usize`.
pub fn parse_decimal(s: &[u8], lo: usize, hi: usize) -> (r: Option<usize>)
    requires
        lo <= hi <= s@.len(),
        all_digits(s@.subrange(lo as int, hi as int)),
    ensures
        r matches Some(v) ==> v == dec_value(s@.subrange(lo as int, hi as int)),
        r is None <==> dec_value(s@.subrange(lo as int, hi as int)) > usize::MAX,
{
    let ghost run = s@.subrange(lo as int, hi as int);
    let mut acc: usize = 0;
    let mut k: usize = lo;
    proof {
        assert(run.take(0) =~= Seq::<u8>::empty());
    }
    while k < hi
        invariant
            lo <= k <= hi <= s@.len(),
            run == s@.subrange(lo as int, hi as int),
            all_digits(run),
            acc == dec_value(run.take(k - lo)),
        decreases hi - k,
    {
        proof {
            assert(run.take(k - lo + 1).drop_last() =~= run.take(k - lo));
            assert(run.take(k - lo + 1).last() == run[k - lo]);
            assert(run[k - lo] == s@[k as int]);
            assert(is_digit(run[k - lo]));
        }
        let d = s[k] - 48;
        if acc > (usize::MAX - d as usize) / 10 {
            proof {
                assert(dec_value(run.take(k - lo + 1)) == acc * 10 + d);
                assert(acc * 10 + d > usize::MAX) by (nonlinear_arith)
                    requires
                        acc > (usize::MAX - d as usize) / 10,
                        0 <= d <= 9,
                ;
                lemma_dec_value_prefix(run, k - lo + 1);
            }
            return None;
        }
        proof {
            assert(acc * 10 + d <= usize::MAX) by (nonlinear_arith)
                requires
                    acc <= (usize::MAX - d as usize) / 10,
                    0 <= d <= 9,
            ;
        }
        acc = acc * 10 + d as usize;
        k = k + 1;
    }
    proof {
        assert(run.take(hi - lo) =~= run);
    }
    Some(acc)
}

/// One `<page>: <offset>` coordinate of an annotation record.
#[derive(Clone, Copy, Debug, PartialEq, Eq, Structural)]
pub struct Position {
    /// The page number named by the record.
    pub page: usize,
    /// The character offset, in the export's document-wide coordinates.
    pub offset: usize,
}

/// The bytes of `s` split as `<page>: <offset>` with the colon at `i`: a
/// non-empty digit run, then `": "`, then a non-empty digit run to the end.
pub open spec fn position_split_at(s: Seq<u8>, i: int) -> bool {
    &&& 1 <= i
    &&& i + 3 <= s.len()
    &&& all_digits(s.subrange(0, i))
    &&& s[i] == COLON
    &&& s[i + 1] == SPACE
    &&& all_digits(s.subrange(i + 2, s.len() as int))
}

/// Parses a `<page>: <offset>` position string.  The split is unique (the
/// colon index is the first non-digit byte), so the contract pins both
/// numbers.  The parse succeeds exactly
/// when the string has that shape and both numbers fit in `usize`; any
/// failure is a recoverable malformed record.
pub fn parse_position(s: &[u8]) -> (r: Result<Position, CoverageError>)
    ensures
        r is Ok <==> exists|i: int|
            position_split_at(s@, i) && dec_value(s@.subrange(0, i)) <= usize::MAX && dec_value(
                s@.subrange(i + 2, s@.len() as int),
            ) <= usize::MAX,
        r matches Ok(p) ==> exists|i: int|
            position_split_at(s@, i) && p.page == dec_value(s@.subrange(0, i)) && p.offset
                == dec_value(s@.subrange(i + 2, s@.len() as int)),
        r is Err ==> r == Err::<Position, CoverageError>(CoverageError::MalformedRecord),
{
    let n = s.len();
    let mut i: usize = 0;
    while i < n && 48 <= s[i] && s[i] <= 57
        invariant
            n == s@.len(),
            0 <= i <= n,
            forall|k: int| 0 <= k < i ==> is_digit(s@[k]),
        decreases n - i,
    {
        i = i + 1;
    }
    // i is the first non-digit index (or n).
    proof {
        assert(i < n ==> !is_digit(s@[i as int]));
        assert forall|j: int| position_split_at(s@, j) implies j == i by {
            if j < i {
                assert(is_digit(s@[j]));
                assert(false);
            }
            if j > i {
                assert(i < n);
                assert(is_digit(s@.subrange(0, j)[i as int]));
                assert(false);
            }
        }
    }
    if i < 1 || n - i < 3 || s[i] != COLON || s[i + 1] != SPACE {
        return Err(CoverageError::MalformedRecord);
    }
    let mut j: usize = i + 2;
    while j < n && 48 <= s[j] && s[j] <= 57
        invariant
            n == s@.len(),
            i + 2 <= j <= n,
            forall|k: int| i + 2 <= k < j ==> is_digit(s@[k]),
        decreases n - j,
    {
        j = j + 1;
    }
    if j < n {
        // A non-digit byte sits inside the offset run.
        proof {
            assert forall|k: int| !position_split_at(s@, k) by {
                if position_split_at(s@, k) {
                    assert(k == i);
                    assert(is_digit(s@.subrange(i + 2, n as int)[j - i - 2]));
                    assert(false);
                }
            }
        }
        return Err(CoverageError::MalformedRecord);
    }
    proof {
        assert(all_digits(s@.subrange(0, i as int)));
        assert(all_digits(s@.subrange(i + 2, n as int)));
        assert(position_split_at(s@, i as int));
    }
    let page = match parse_decimal(s, 0, i) {
        Some(v) => v,
        None => {
            return Err(CoverageError::MalformedRecord);
        },
    };
    let offset = match parse_decimal(s, i + 2, n) {
        Some(v) => v,
        None => {
            return Err(CoverageError::MalformedRecord);
        },
    };
    Ok(Position { page, offset })
}

} // verus!
