//! What a scan of a whole text for a token finds.
//!
//! The text is taken line by line. In each line the token is searched for
//! in every convention in which it can be rendered, in a fixed order, and
//! each match is offered to the store at its position in the text.

use crate::casing::Casing;
use crate::record::Record;
use crate::task::scan::{at_boundary, lemma_matched_from_bounds, with_matches};
use crate::token::rendered;
use vstd::prelude::*;
use vstd::utf8::{
    encode_utf8, is_char_boundary, length_of_first_scalar, pop_first_scalar, valid_utf8,
};

verus! {

/// The conventions in the order in which a scan searches for them. Where two
/// of them give one surface form, the earlier tags the match.
pub open spec fn scan_order() -> Seq<Casing> {
    seq![
        Casing::Lower,
        Casing::Pascal,
        Casing::Camel,
        Casing::Snake,
        Casing::Upper,
        Casing::UpperSnake,
        Casing::Kebab,
        Casing::UpperKebab,
    ]
}

/// The store `found` after the token has been searched for in `line` in the
/// first `n` conventions of [`scan_order`]. `off` is the position at which
/// `line` begins in the text. A convention in which the token cannot be
/// rendered is passed over.
pub open spec fn line_found(
    found: Map<usize, Record>,
    line: Seq<u8>,
    off: int,
    token: Seq<char>,
    n: nat,
) -> Map<usize, Record>
    decreases n,
{
    if n == 0 {
        found
    } else {
        let prev = line_found(found, line, off, token, (n - 1) as nat);
        let casing = scan_order()[n - 1];
        match rendered(token, casing) {
            Ok(form) => with_matches(prev, line, encode_utf8(form), off, casing),
            Err(_) => prev,
        }
    }
}

/// The index of the first line feed of `text` at or behind `from`, or the
/// length of `text` where there is none.
pub open spec fn line_end(text: Seq<u8>, from: int) -> int
    decreases text.len() - from,
{
    if from < 0 || from >= text.len() {
        text.len() as int
    } else if text[from] == 0x0a {
        from
    } else {
        line_end(text, from + 1)
    }
}

/// Where the line that begins at `start` stops: at its line feed, or at the
/// carriage return just before that line feed, or at the end of `text`.
pub open spec fn line_stop(text: Seq<u8>, start: int) -> int {
    let end = line_end(text, start);
    if end < text.len() && start < end && text[end - 1] == 0x0d {
        end - 1
    } else {
        end
    }
}

/// The store `found` after the lines of `text` from index `start` on have
/// been searched. A match is reported at its position in `text`: the index
/// at which its line begins, and its index in the line.
pub open spec fn text_found(
    text: Seq<u8>,
    token: Seq<char>,
    start: int,
    found: Map<usize, Record>,
) -> Map<usize, Record>
    decreases text.len() - start,
    via text_found_decreases
{
    if start < 0 || start >= text.len() {
        found
    } else {
        let end = line_end(text, start);
        let stop = line_stop(text, start);
        let here = line_found(found, text.subrange(start, stop), start, token, 8);
        if end < text.len() {
            text_found(text, token, end + 1, here)
        } else {
            here
        }
    }
}

#[via_fn]
proof fn text_found_decreases(
    text: Seq<u8>,
    token: Seq<char>,
    start: int,
    found: Map<usize, Record>,
) {
    if 0 <= start < text.len() {
        lemma_line_end_bounds(text, start);
    }
}

/// A line ends at or behind its start, within the text; and it stops at or
/// before its end.
pub(crate) proof fn lemma_line_end_bounds(text: Seq<u8>, start: int)
    requires
        0 <= start <= text.len(),
    ensures
        start <= line_stop(text, start) <= line_end(text, start) <= text.len(),
    decreases text.len() - start,
{
    if start < text.len() && text[start] != 0x0a {
        lemma_line_end_bounds(text, start + 1);
    }
}

/// The records of a scan of `text` for `token`.
pub open spec fn found_in(text: Seq<u8>, token: Seq<char>) -> Map<usize, Record> {
    text_found(text, token, 0, Map::empty())
}

/// The record `r`, filed under `p`, marks a place where the token stands in
/// the text: it is filed under its own position, it is tagged with a
/// convention in which the token can be rendered, and the bytes of the text
/// from its position on, as many as its length says, are that rendering.
pub open spec fn marks(text: Seq<u8>, token: Seq<char>, p: usize, r: Record) -> bool {
    &&& r.pos == p
    &&& r.pos + r.len <= text.len()
    &&& rendered(token, r.casing) matches Ok(form) && r.len == encode_utf8(form).len()
        && text.subrange(r.pos as int, r.pos + r.len) == encode_utf8(form)
}

/// The record `r` begins and ends at a character boundary of the text.
pub open spec fn on_boundaries(text: Seq<u8>, r: Record) -> bool {
    at_boundary(text, r.pos as int) && at_boundary(text, r.pos + r.len)
}

/// What holds of a record filed under `p` while a scan is under way. With
/// `whole`, the text is valid UTF-8 and the record lies between character
/// boundaries.
spec fn kept(text: Seq<u8>, token: Seq<char>, whole: bool, p: usize, r: Record) -> bool {
    marks(text, token, p, r) && (whole ==> on_boundaries(text, r))
}

/// Valid UTF-8 that begins with valid UTF-8 has a character boundary where
/// the latter ends.
proof fn lemma_prefix_ends_at_boundary(a: Seq<u8>, b: Seq<u8>)
    requires
        valid_utf8(a),
        valid_utf8(b),
        a.len() <= b.len(),
        b.subrange(0, a.len() as int) == a,
    ensures
        is_char_boundary(b, a.len() as int),
    decreases a.len(),
{
    reveal_with_fuel(is_char_boundary, 2);
    if a.len() > 0 {
        assert(a[0] == b.subrange(0, a.len() as int)[0]);
        let width = length_of_first_scalar(a);
        assert(width == length_of_first_scalar(b));
        assert(1 <= width <= a.len());
        let rest = pop_first_scalar(a);
        let more = pop_first_scalar(b);
        assert(more.subrange(0, rest.len() as int) =~= rest) by {
            assert forall|i: int| 0 <= i < rest.len() implies more[i] == rest[i] by {
                assert(b.subrange(0, a.len() as int)[width + i] == a[width + i]);
            }
        }
        lemma_prefix_ends_at_boundary(rest, more);
    }
}

/// In valid UTF-8, where a valid UTF-8 form stands, it stands between
/// character boundaries.
proof fn lemma_form_between_boundaries(text: Seq<u8>, pat: Seq<u8>, p: int)
    requires
        valid_utf8(text),
        valid_utf8(pat),
        pat.len() > 0,
        0 <= p,
        p + pat.len() <= text.len(),
        text.subrange(p, p + pat.len()) == pat,
    ensures
        at_boundary(text, p),
        at_boundary(text, p + pat.len()),
{
    reveal_with_fuel(is_char_boundary, 2);
    assert(text.subrange(p, p + pat.len())[0] == text[p]);
    vstd::utf8::is_char_boundary_iff_not_is_continuation_byte(pat, 0);
    vstd::utf8::is_char_boundary_iff_not_is_continuation_byte(text, p);
    if p + pat.len() < text.len() {
        let tail = text.subrange(p, text.len() as int);
        vstd::utf8::valid_utf8_split(text, p);
        assert(tail.subrange(0, pat.len() as int) =~= pat);
        lemma_prefix_ends_at_boundary(pat, tail);
        vstd::utf8::is_char_boundary_iff_not_is_continuation_byte(tail, pat.len() as int);
        assert(tail[pat.len() as int] == text[p + pat.len()]);
    }
}

proof fn lemma_line_found_kept(
    text: Seq<u8>,
    token: Seq<char>,
    whole: bool,
    found: Map<usize, Record>,
    start: int,
    stop: int,
    n: nat,
)
    requires
        text.len() <= usize::MAX,
        0 <= start <= stop <= text.len(),
        n <= 8,
        whole ==> valid_utf8(text) && at_boundary(text, stop),
        forall|p: usize| found.contains_key(p) ==> kept(text, token, whole, p, found[p]),
    ensures
        forall|p: usize|
            line_found(found, text.subrange(start, stop), start, token, n).contains_key(p)
                ==> kept(
                text,
                token,
                whole,
                p,
                #[trigger] line_found(found, text.subrange(start, stop), start, token, n)[p],
            ),
    decreases n,
{
    if n > 0 {
        let line = text.subrange(start, stop);
        let prev = line_found(found, line, start, token, (n - 1) as nat);
        let casing = scan_order()[n - 1];
        lemma_line_found_kept(text, token, whole, found, start, stop, (n - 1) as nat);
        match rendered(token, casing) {
            Ok(form) => {
                let pat = encode_utf8(form);
                let now = with_matches(prev, line, pat, start, casing);
                assert forall|p: usize| now.contains_key(p) implies kept(
                    text,
                    token,
                    whole,
                    p,
                    #[trigger] now[p],
                ) by {
                    if !prev.contains_key(p) {
                        let i = p - start;
                        lemma_matched_from_bounds(line, pat, 0, i);
                        assert(line.subrange(i, i + pat.len()) =~= text.subrange(
                            start + i,
                            start + i + pat.len(),
                        ));
                        if whole {
                            if pat.len() > 0 {
                                vstd::utf8::encode_utf8_valid_utf8(form);
                                lemma_form_between_boundaries(text, pat, p as int);
                            } else if i < line.len() {
                                assert(line[i] == text[start + i]);
                            }
                        }
                    }
                }
            },
            Err(_) => {},
        }
    }
}

/// A line that ends before the end of the text ends at a line feed.
proof fn lemma_line_end_is_feed(text: Seq<u8>, start: int)
    requires
        0 <= start <= text.len(),
        line_end(text, start) < text.len(),
    ensures
        text[line_end(text, start)] == 0x0a,
    decreases text.len() - start,
{
    if start < text.len() && text[start] != 0x0a {
        lemma_line_end_is_feed(text, start + 1);
    }
}

proof fn lemma_text_found_kept(
    text: Seq<u8>,
    token: Seq<char>,
    whole: bool,
    start: int,
    found: Map<usize, Record>,
)
    requires
        text.len() <= usize::MAX,
        0 <= start,
        whole ==> valid_utf8(text),
        forall|p: usize| found.contains_key(p) ==> kept(text, token, whole, p, found[p]),
    ensures
        forall|p: usize|
            text_found(text, token, start, found).contains_key(p) ==> kept(
                text,
                token,
                whole,
                p,
                #[trigger] text_found(text, token, start, found)[p],
            ),
    decreases text.len() - start,
{
    if start < text.len() {
        lemma_line_end_bounds(text, start);
        let end = line_end(text, start);
        let stop = line_stop(text, start);
        let here = line_found(found, text.subrange(start, stop), start, token, 8);
        if end < text.len() {
            lemma_line_end_is_feed(text, start);
        }
        lemma_line_found_kept(text, token, whole, found, start, stop, 8);
        if end < text.len() {
            lemma_text_found_kept(text, token, whole, end + 1, here);
            assert(text_found(text, token, start, found) == text_found(
                text,
                token,
                end + 1,
                here,
            ));
        } else {
            assert(text_found(text, token, start, found) == here);
        }
    } else {
        assert(text_found(text, token, start, found) == found);
    }
}

/// Every record of a scan marks a place where the token stands in the text,
/// rendered in the record's convention.
pub proof fn lemma_found_is_sound(text: Seq<u8>, token: Seq<char>)
    requires
        text.len() <= usize::MAX,
    ensures
        forall|p: usize|
            found_in(text, token).contains_key(p) ==> marks(
                text,
                token,
                p,
                #[trigger] found_in(text, token)[p],
            ),
{
    lemma_text_found_kept(text, token, false, 0, Map::empty());
}

/// In a text of valid UTF-8, every record of a scan begins and ends at a
/// character boundary.
pub proof fn lemma_found_on_boundaries(text: Seq<u8>, token: Seq<char>)
    requires
        text.len() <= usize::MAX,
        valid_utf8(text),
    ensures
        forall|p: usize|
            found_in(text, token).contains_key(p) ==> on_boundaries(
                text,
                #[trigger] found_in(text, token)[p],
            ),
{
    lemma_text_found_kept(text, token, true, 0, Map::empty());
}

} // verus!
