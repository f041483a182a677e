//! What a text becomes when the occurrences recorded in it are replaced.
//!
//! The records are taken in ascending order of position and may not overlap.
//! Each is cut out of the text and its replacement put in; what lies between
//! two records, before the first and behind the last, stays.

use crate::casing::Casing;
use crate::record::Record;
use crate::task::scan::at_boundary;
use vstd::prelude::*;

verus! {

/// The index in the text just behind the last of `recs`; 0 where there is
/// none.
pub open spec fn reach(recs: Seq<Record>) -> int {
    if recs.len() == 0 {
        0
    } else {
        recs.last().pos + recs.last().len
    }
}

/// The rewritten text up to and with the replacement of the last of `recs`.
/// `put` gives the replacement for a convention.
pub open spec fn front(text: Seq<u8>, recs: Seq<Record>, put: spec_fn(Casing) -> Seq<u8>) -> Seq<
    u8,
>
    decreases recs.len(),
{
    if recs.len() == 0 {
        seq![]
    } else {
        let before = recs.drop_last();
        front(text, before, put) + text.subrange(reach(before), recs.last().pos as int) + put(
            recs.last().casing,
        )
    }
}

/// The text with every one of `recs` replaced.
pub open spec fn rewritten(text: Seq<u8>, recs: Seq<Record>, put: spec_fn(Casing) -> Seq<u8>) -> Seq<
    u8,
> {
    front(text, recs, put) + text.subrange(reach(recs), text.len() as int)
}

/// The net growth of the text by the replacement of `recs`: the sum, over
/// the records, of the replacement's length less the record's.
pub open spec fn net_growth(recs: Seq<Record>, put: spec_fn(Casing) -> Seq<u8>) -> int
    decreases recs.len(),
{
    if recs.len() == 0 {
        0
    } else {
        net_growth(recs.drop_last(), put) + put(recs.last().casing).len() - recs.last().len
    }
}

/// The records lie in the text one behind the other, in ascending order of
/// position and without overlap.
pub open spec fn apart(text: Seq<u8>, recs: Seq<Record>) -> bool {
    &&& forall|k: int| 0 <= k < recs.len() ==> (#[trigger] recs[k]).pos + recs[k].len <= text.len()
    &&& forall|j: int, k: int|
        0 <= j < k < recs.len() ==> (#[trigger] recs[j]).pos + recs[j].len <= (
        #[trigger] recs[k]).pos
}

/// The records lie in the text one behind the other without overlap, and
/// each begins and ends at a character boundary.
pub open spec fn fits(text: Seq<u8>, recs: Seq<Record>) -> bool {
    &&& apart(text, recs)
    &&& forall|k: int|
        0 <= k < recs.len() ==> {
            let r = #[trigger] recs[k];
            &&& at_boundary(text, r.pos as int)
            &&& at_boundary(text, r.pos + r.len)
        }
}

/// A prefix of records that lie apart lies apart, and the next record
/// begins at or behind its reach.
pub(crate) proof fn lemma_apart_prefix(text: Seq<u8>, recs: Seq<Record>, k: int)
    requires
        apart(text, recs),
        0 <= k <= recs.len(),
    ensures
        apart(text, recs.take(k)),
        0 <= reach(recs.take(k)) <= text.len(),
        k < recs.len() ==> reach(recs.take(k)) <= recs[k].pos,
{
    let head = recs.take(k);
    if k > 0 {
        assert(head.last() == recs[k - 1]);
    }
}

/// A prefix of fitting records fits, and the next record begins at or
/// behind its reach.
pub(crate) proof fn lemma_fits_prefix(text: Seq<u8>, recs: Seq<Record>, k: int)
    requires
        fits(text, recs),
        0 <= k <= recs.len(),
    ensures
        fits(text, recs.take(k)),
        0 <= reach(recs.take(k)) <= text.len(),
        k < recs.len() ==> reach(recs.take(k)) <= recs[k].pos,
{
    lemma_apart_prefix(text, recs, k);
    let head = recs.take(k);
    assert forall|j: int| 0 <= j < head.len() implies {
        let r = #[trigger] head[j];
        &&& at_boundary(text, r.pos as int)
        &&& at_boundary(text, r.pos + r.len)
    } by {
        assert(head[j] == recs[j]);
    }
}

/// The front of the rewritten text is as long as the stretch of the text
/// that it stands for, and the net growth.
pub(crate) proof fn lemma_front_len(text: Seq<u8>, recs: Seq<Record>, put: spec_fn(Casing) -> Seq<u8>)
    requires
        apart(text, recs),
    ensures
        front(text, recs, put).len() == reach(recs) + net_growth(recs, put),
    decreases recs.len(),
{
    if recs.len() > 0 {
        let before = recs.drop_last();
        assert(before == recs.take(recs.len() - 1));
        lemma_apart_prefix(text, recs, recs.len() - 1);
        lemma_front_len(text, before, put);
    }
}

/// The front grows with every record.
pub(crate) proof fn lemma_front_grows(
    text: Seq<u8>,
    recs: Seq<Record>,
    put: spec_fn(Casing) -> Seq<u8>,
    k: int,
)
    requires
        apart(text, recs),
        0 <= k <= recs.len(),
    ensures
        front(text, recs.take(k), put).len() <= front(text, recs, put).len(),
    decreases recs.len() - k,
{
    if k < recs.len() {
        lemma_front_grows(text, recs, put, k + 1);
        let next = recs.take(k + 1);
        assert(next.drop_last() == recs.take(k));
        lemma_apart_prefix(text, recs, k);
    } else {
        assert(recs.take(k) == recs);
    }
}

/// What the first `k` records give is the beginning of what all of them
/// give.
pub(crate) proof fn lemma_front_prefix(
    text: Seq<u8>,
    recs: Seq<Record>,
    put: spec_fn(Casing) -> Seq<u8>,
    k: int,
)
    requires
        apart(text, recs),
        0 <= k <= recs.len(),
    ensures
        front(text, recs.take(k), put).len() <= front(text, recs, put).len(),
        front(text, recs, put).subrange(0, front(text, recs.take(k), put).len() as int) == front(
            text,
            recs.take(k),
            put,
        ),
    decreases recs.len() - k,
{
    let whole = front(text, recs, put);
    let head = front(text, recs.take(k), put);
    if k < recs.len() {
        lemma_front_prefix(text, recs, put, k + 1);
        let next = recs.take(k + 1);
        assert(next.drop_last() == recs.take(k));
        lemma_apart_prefix(text, recs, k);
        let more = front(text, next, put);
        assert(more.subrange(0, head.len() as int) =~= head);
        assert(whole.subrange(0, head.len() as int) =~= whole.subrange(
            0,
            more.len() as int,
        ).subrange(0, head.len() as int));
    } else {
        assert(recs.take(k) == recs);
        assert(whole.subrange(0, whole.len() as int) =~= whole);
    }
}

/// The first `k + 1` records fit exactly when the first `k` fit and the
/// next one lies behind them, within the text and between character
/// boundaries. The front then grows by what is kept before that record and
/// by its replacement.
pub(crate) proof fn lemma_fits_next(
    text: Seq<u8>,
    recs: Seq<Record>,
    put: spec_fn(Casing) -> Seq<u8>,
    k: int,
)
    requires
        0 <= k < recs.len(),
        fits(text, recs.take(k)),
    ensures
        fits(text, recs.take(k + 1)) <==> {
            &&& reach(recs.take(k)) <= recs[k].pos
            &&& recs[k].pos + recs[k].len <= text.len()
            &&& at_boundary(text, recs[k].pos as int)
            &&& at_boundary(text, recs[k].pos + recs[k].len)
        },
        fits(text, recs) ==> fits(text, recs.take(k + 1)),
        reach(recs.take(k + 1)) == recs[k].pos + recs[k].len,
        fits(text, recs.take(k + 1)) ==> front(text, recs.take(k + 1), put).len() == front(
            text,
            recs.take(k),
            put,
        ).len() + (recs[k].pos - reach(recs.take(k))) + put(recs[k].casing).len(),
        fits(text, recs) ==> front(text, recs.take(k + 1), put).len() <= rewritten(
            text,
            recs,
            put,
        ).len(),
{
    let head = recs.take(k);
    let next = recs.take(k + 1);
    assert(next.drop_last() == head);
    assert(next.last() == recs[k]);
    assert(next[k] == recs[k]);
    if k > 0 {
        assert(head.last() == head[k - 1]);
        assert(next[k - 1] == head[k - 1]);
    }
    assert forall|j: int| 0 <= j < k implies next[j] == head[j] by {}
    if fits(text, next) {
        if k > 0 {
            assert(next[k - 1].pos + next[k - 1].len <= next[k].pos);
        }
    }
    if reach(head) <= recs[k].pos && recs[k].pos + recs[k].len <= text.len() && at_boundary(
        text,
        recs[k].pos as int,
    ) && at_boundary(text, recs[k].pos + recs[k].len) {
        assert forall|i: int, j: int| 0 <= i < j < next.len() implies (#[trigger] next[i]).pos
            + next[i].len <= (#[trigger] next[j]).pos by {
            if j < k {
                assert(head[i].pos + head[i].len <= head[j].pos);
            } else if i < k - 1 {
                assert(head[i].pos + head[i].len <= head[k - 1].pos);
            }
        }
        assert(fits(text, next));
    }
    if fits(text, recs) {
        lemma_fits_prefix(text, recs, k + 1);
        lemma_front_grows(text, recs, put, k + 1);
    }
}

/// One step of rewriting in place. `cur` is the text after the first `k`
/// records have been replaced. The next record lies in it where it lay in
/// the text, moved by the growth so far; both its ends are character
/// boundaries there; and replacing it gives the text after `k + 1` records.
pub(crate) proof fn lemma_step(
    text: Seq<u8>,
    recs: Seq<Record>,
    put: spec_fn(Casing) -> Seq<u8>,
    k: int,
    cur: Seq<u8>,
)
    requires
        fits(text, recs),
        0 <= k < recs.len(),
        cur == front(text, recs.take(k), put) + text.subrange(
            reach(recs.take(k)),
            text.len() as int,
        ),
    ensures
        ({
            let shift = front(text, recs.take(k), put).len() - reach(recs.take(k));
            let start = recs[k].pos + shift;
            let end = recs[k].pos + recs[k].len + shift;
            let new = put(recs[k].casing);
            &&& 0 <= reach(recs.take(k)) <= recs[k].pos
            &&& recs[k].pos + recs[k].len <= text.len()
            &&& 0 <= start <= end <= cur.len()
            &&& at_boundary(cur, start)
            &&& at_boundary(cur, end)
            &&& cur.subrange(0, start) + new + cur.subrange(end, cur.len() as int) == front(
                text,
                recs.take(k + 1),
                put,
            ) + text.subrange(reach(recs.take(k + 1)), text.len() as int)
            &&& front(text, recs.take(k + 1), put).len() - reach(recs.take(k + 1)) == shift
                + new.len() - recs[k].len
            &&& front(text, recs.take(k + 1), put).len() <= rewritten(text, recs, put).len()
            &&& front(text, recs.take(k), put).len() <= rewritten(text, recs, put).len()
        }),
{
    let head = front(text, recs.take(k), put);
    let at = reach(recs.take(k));
    let rec = recs[k];
    let next = recs.take(k + 1);
    let new = put(rec.casing);
    let start = head.len() + rec.pos - at;
    let end = start + rec.len;
    lemma_fits_prefix(text, recs, k);
    lemma_front_grows(text, recs, put, k);
    lemma_front_grows(text, recs, put, k + 1);
    assert(next.drop_last() == recs.take(k));
    assert(next.last() == rec);
    assert(at_boundary(text, rec.pos as int));
    assert(at_boundary(text, rec.pos + rec.len));
    if start < cur.len() {
        assert(cur[start] == text[rec.pos as int]);
    }
    if end < cur.len() {
        assert(cur[end] == text[rec.pos + rec.len]);
    }
    assert(cur.subrange(0, start) =~= head + text.subrange(at, rec.pos as int));
    assert(cur.subrange(end, cur.len() as int) =~= text.subrange(
        rec.pos + rec.len,
        text.len() as int,
    ));
}

/// Where the records lie apart, every replacement stands in the rewritten
/// text where its record stood in the text, moved by the net growth of the
/// replacements before it:
/// forward where they were longer in sum than what they replaced, back where
/// they were shorter.
pub proof fn lemma_replacement_position(
    text: Seq<u8>,
    recs: Seq<Record>,
    put: spec_fn(Casing) -> Seq<u8>,
    k: int,
)
    requires
        apart(text, recs),
        0 <= k < recs.len(),
    ensures
        0 <= recs[k].pos + net_growth(recs.take(k), put),
        recs[k].pos + net_growth(recs.take(k), put) + put(recs[k].casing).len() <= rewritten(
            text,
            recs,
            put,
        ).len(),
        rewritten(text, recs, put).subrange(
            recs[k].pos + net_growth(recs.take(k), put),
            recs[k].pos + net_growth(recs.take(k), put) + put(recs[k].casing).len(),
        ) == put(recs[k].casing),
{
    let head = front(text, recs.take(k), put);
    let next = recs.take(k + 1);
    let more = front(text, next, put);
    let whole = front(text, recs, put);
    let at = recs[k].pos + net_growth(recs.take(k), put);
    let new = put(recs[k].casing);
    lemma_apart_prefix(text, recs, k);
    lemma_front_len(text, recs.take(k), put);
    lemma_front_prefix(text, recs, put, k + 1);
    assert(next.drop_last() == recs.take(k));
    assert(next.last() == recs[k]);
    assert(more.subrange(at, at + new.len()) =~= new);
    assert(rewritten(text, recs, put).subrange(at, at + new.len()) =~= whole.subrange(
        0,
        more.len() as int,
    ).subrange(at, at + new.len()));
}

/// The rewritten text differs in length from the text by the net growth of
/// all the replacements.
pub proof fn lemma_rewritten_len(text: Seq<u8>, recs: Seq<Record>, put: spec_fn(Casing) -> Seq<u8>)
    requires
        apart(text, recs),
    ensures
        rewritten(text, recs, put).len() == text.len() + net_growth(recs, put),
{
    lemma_front_len(text, recs, put);
    assert(recs.take(recs.len() as int) == recs);
    lemma_apart_prefix(text, recs, recs.len() as int);
}

} // verus!
