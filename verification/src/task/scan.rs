//! Finding where a surface form stands in one line of a text.
//!
//! A text is a sequence of bytes in UTF-8. A search runs from left to right
//! and, after a match, resumes behind it, so the matches of one surface form
//! never overlap.

use crate::casing::Casing;
use crate::record::{Record, Records};
use vstd::prelude::*;
use vstd::utf8::is_continuation_byte;

verus! {

/// A character begins at index `i` of `line`, or `i` is the end of `line`.
pub open spec fn at_boundary(line: Seq<u8>, i: int) -> bool {
    0 <= i <= line.len() && (i == line.len() || !is_continuation_byte(line[i]))
}

/// `pat` stands in `line` at index `i`. The empty form stands at every
/// character boundary, and nowhere else.
pub open spec fn occurs_at(line: Seq<u8>, pat: Seq<u8>, i: int) -> bool {
    &&& 0 <= i
    &&& i + pat.len() <= line.len()
    &&& line.subrange(i, i + pat.len()) == pat
    &&& pat.len() == 0 ==> at_boundary(line, i)
}

/// How far behind the start of a match the search resumes.
pub open spec fn stride(pat: Seq<u8>) -> int {
    if pat.len() == 0 {
        1
    } else {
        pat.len() as int
    }
}

/// Whether a search of `line` for `pat` that sets out at index `from`
/// reports a match at `i`.
pub open spec fn matched_from(line: Seq<u8>, pat: Seq<u8>, from: int, i: int) -> bool
    decreases line.len() - from + 1,
{
    if from < 0 || from + pat.len() > line.len() {
        false
    } else if occurs_at(line, pat, from) {
        i == from || matched_from(line, pat, from + stride(pat), i)
    } else {
        matched_from(line, pat, from + 1, i)
    }
}

/// Whether a search of the whole of `line` for `pat` reports a match at `i`.
pub open spec fn matched(line: Seq<u8>, pat: Seq<u8>, i: int) -> bool {
    matched_from(line, pat, 0, i)
}

/// The store `found` after the matches of `pat` in `line` have been offered
/// to it, each at its position in the text and tagged `casing`. `off` is the
/// position at which `line` begins in the text. A position that `found`
/// holds already keeps its record.
pub open spec fn with_matches(
    found: Map<usize, Record>,
    line: Seq<u8>,
    pat: Seq<u8>,
    off: int,
    casing: Casing,
) -> Map<usize, Record> {
    Map::new(
        |p: usize| found.contains_key(p) || matched(line, pat, p - off),
        |p: usize|
            if found.contains_key(p) {
                found[p]
            } else {
                Record { pos: p, len: pat.len() as usize, casing }
            },
    )
}

/// As [`with_matches`], of the matches before index `upto` alone.
spec fn with_matches_before(
    found: Map<usize, Record>,
    line: Seq<u8>,
    pat: Seq<u8>,
    off: int,
    casing: Casing,
    upto: int,
) -> Map<usize, Record> {
    Map::new(
        |p: usize| found.contains_key(p) || (p - off < upto && matched(line, pat, p - off)),
        |p: usize|
            if found.contains_key(p) {
                found[p]
            } else {
                Record { pos: p, len: pat.len() as usize, casing }
            },
    )
}

/// A match lies at or behind the index the search set out at, and within
/// the line.
pub(crate) proof fn lemma_matched_from_bounds(line: Seq<u8>, pat: Seq<u8>, from: int, i: int)
    requires
        matched_from(line, pat, from, i),
    ensures
        0 <= from <= i,
        i + pat.len() <= line.len(),
        occurs_at(line, pat, i),
    decreases line.len() - from + 1,
{
    if occurs_at(line, pat, from) {
        if i != from {
            lemma_matched_from_bounds(line, pat, from + stride(pat), i);
        }
    } else {
        lemma_matched_from_bounds(line, pat, from + 1, i);
    }
}

/// Two matches of a search that sets out at `from` lie a stride apart.
proof fn lemma_matched_from_apart(line: Seq<u8>, pat: Seq<u8>, from: int, i: int, j: int)
    requires
        matched_from(line, pat, from, i),
        matched_from(line, pat, from, j),
        i < j,
    ensures
        i + stride(pat) <= j,
    decreases line.len() - from + 1,
{
    if occurs_at(line, pat, from) {
        if i == from {
            lemma_matched_from_bounds(line, pat, from + stride(pat), j);
        } else {
            lemma_matched_from_bounds(line, pat, from + stride(pat), i);
            lemma_matched_from_apart(line, pat, from + stride(pat), i, j);
        }
    } else {
        lemma_matched_from_apart(line, pat, from + 1, i, j);
    }
}

/// A search that sets out at or before an occurrence reports a match that
/// covers the place where the occurrence begins.
proof fn lemma_matched_from_covers(line: Seq<u8>, pat: Seq<u8>, from: int, i: int) -> (j: int)
    requires
        occurs_at(line, pat, i),
        0 <= from <= i,
    ensures
        matched_from(line, pat, from, j),
        j <= i < j + stride(pat),
    decreases i - from,
{
    if occurs_at(line, pat, from) {
        if i < from + stride(pat) {
            from
        } else {
            lemma_matched_from_covers(line, pat, from + stride(pat), i)
        }
    } else {
        lemma_matched_from_covers(line, pat, from + 1, i)
    }
}

/// The matches of a form do not overlap: of two, the later begins at or
/// behind the end of the earlier, and behind its start.
pub proof fn lemma_matches_apart(line: Seq<u8>, pat: Seq<u8>, i: int, j: int)
    requires
        matched(line, pat, i),
        matched(line, pat, j),
        i < j,
    ensures
        i + pat.len() <= j,
{
    lemma_matched_from_apart(line, pat, 0, i, j);
}

/// The matches of a form are its occurrences from left to right: each match
/// is an occurrence, and an occurrence is a match unless a match that begins
/// before it reaches into it.
pub proof fn lemma_matches_are_leftmost(line: Seq<u8>, pat: Seq<u8>, i: int)
    ensures
        matched(line, pat, i) ==> occurs_at(line, pat, i),
        occurs_at(line, pat, i) ==> matched(line, pat, i) || exists|j: int|
            #[trigger] matched(line, pat, j) && j < i < j + pat.len(),
{
    if matched(line, pat, i) {
        lemma_matched_from_bounds(line, pat, 0, i);
    }
    if occurs_at(line, pat, i) {
        let j = lemma_matched_from_covers(line, pat, 0, i);
        if j < i {
            assert(matched(line, pat, j) && j < i < j + pat.len());
        }
    }
}

/// Whether a character begins at index `i` of `text`, or `text` ends there.
pub(crate) fn starts_character(text: &[u8], i: usize) -> (r: bool)
    requires
        i <= text@.len(),
    ensures
        r == at_boundary(text@, i as int),
{
    if i == text.len() {
        true
    } else {
        let b = text[i];
        assert(((b & 0xc0) != 0x80) == !(0x80 <= b <= 0xbf)) by (bit_vector);
        (b & 0xc0) != 0x80
    }
}

/// Whether `pat` stands in `text` at index `at`, byte for byte.
fn equal_at(text: &[u8], at: usize, pat: &[u8]) -> (r: bool)
    requires
        at + pat@.len() <= text@.len(),
    ensures
        r == (text@.subrange(at as int, at + pat@.len()) == pat@),
{
    let n = pat.len();
    let size = text.len();
    let mut k: usize = 0;
    while k < n
        invariant
            n == pat@.len(),
            size == text@.len(),
            at + n <= size,
            k <= n,
            forall|j: int| 0 <= j < k ==> text@[at + j] == pat@[j],
        decreases n - k,
    {
        if text[at + k] != pat[k] {
            assert(text@.subrange(at as int, at + n)[k as int] != pat@[k as int]);
            return false;
        }
        k += 1;
    }
    assert(text@.subrange(at as int, at + n) =~= pat@);
    true
}

/// Offers to `records` every match of `pat` in the line that `text` holds
/// from `start` up to `stop`, each at its position in `text`.
#[verifier::rlimit(30)]
pub(crate) fn scan_pattern(
    records: &mut Records,
    text: &[u8],
    start: usize,
    stop: usize,
    pat: &[u8],
    casing: Casing,
)
    requires
        start <= stop <= text@.len(),
        old(records).wf(),
    ensures
        final(records).wf(),
        final(records)@ == with_matches(
            old(records)@,
            text@.subrange(start as int, stop as int),
            pat@,
            start as int,
            casing,
        ),
{
    let ghost line = text@.subrange(start as int, stop as int);
    let ghost found = records@;
    let llen = stop - start;
    let plen = pat.len();
    if plen > llen {
        assert(records@ =~= with_matches(found, line, pat@, start as int, casing));
        return ;
    }
    let last = llen - plen;
    let mut from: usize = 0;
    assert(records@ =~= with_matches_before(found, line, pat@, start as int, casing, 0)) by {
        assert forall|i: int| matched(line, pat@, i) implies i >= 0 by {
            lemma_matched_from_bounds(line, pat@, 0, i);
        }
    }
    let size = text.len();
    loop
        invariant_except_break
            records@ == with_matches_before(found, line, pat@, start as int, casing, from as int),
            forall|i: int|
                i >= from ==> matched(line, pat@, i) == matched_from(line, pat@, from as int, i),
        invariant
            start <= stop <= size,
            size == text@.len(),
                line == text@.subrange(start as int, stop as int),
            llen == stop - start,
            plen == pat@.len(),
            last == llen - plen,
            from <= last,
            records.wf(),
        ensures
            records.wf(),
            records@ == with_matches(found, line, pat@, start as int, casing),
        decreases last - from,
    {
        let hit = if plen == 0 {
            from == llen || starts_character(text, start + from)
        } else {
            equal_at(text, start + from, pat)
        };
        proof {
            assert(line.subrange(from as int, from + plen) =~= text@.subrange(
                start + from,
                start + from + plen,
            ));
            if plen == 0 {
                assert(line.subrange(from as int, from as int) =~= pat@);
                if from < llen {
                    assert(line[from as int] == text@[start + from]);
                }
            }
            assert(hit == occurs_at(line, pat@, from as int));
        }
        let step: usize = if !hit || plen == 0 {
            1
        } else {
            plen
        };
        let ghost before = records@;
        if hit {
            let _ = records.try_insert(start + from, plen, casing);
        }
        proof {
            let next = from + step;
            assert forall|i: int| i >= next implies matched(line, pat@, i) == matched_from(
                line,
                pat@,
                next,
                i,
            ) by {}
            assert forall|i: int| from < i < next implies !matched(line, pat@, i) by {
                if matched_from(line, pat@, next, i) {
                    lemma_matched_from_bounds(line, pat@, next, i);
                }
            }
            assert(matched(line, pat@, from as int) == hit) by {
                if matched_from(line, pat@, from + 1, from as int) {
                    lemma_matched_from_bounds(line, pat@, from + 1, from as int);
                }
            }
            assert(records@ =~= with_matches_before(found, line, pat@, start as int, casing, next));
            if step > last - from {
                assert forall|i: int| i >= next implies !matched(line, pat@, i) by {}
                assert(records@ =~= with_matches(found, line, pat@, start as int, casing));
            }
        }
        if step > last - from {
            break ;
        }
        from = from + step;
    }
}

} // verus!
