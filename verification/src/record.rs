//! The occurrences found in a text, kept by position.

use crate::casing::Casing;
use std::collections::btree_map::Iter;
use std::collections::BTreeMap;
use vstd::prelude::*;
use vstd::std_specs::cmp::OrdSpec;
use vstd::std_specs::iter::IteratorSpec;

verus! {

/// One occurrence: where it starts in the text as scanned, how many bytes it
/// covers, and the convention it is written in.
#[derive(Debug, Clone, Copy, PartialEq, Eq, Structural)]
pub struct Record {
    pub pos: usize,
    pub len: usize,
    pub casing: Casing,
}

/// The occurrences of one scan, at most one for each position, walked in
/// ascending order of position.
#[derive(Debug)]
pub struct Records {
    pub map: BTreeMap<usize, Record>,
}

/// `m` with `r` entered at its position, unless that position is taken.
pub open spec fn admitted(m: Map<usize, Record>, r: Record) -> Map<usize, Record> {
    if m.contains_key(r.pos) {
        m
    } else {
        m.insert(r.pos, r)
    }
}

/// The records of `m` at a position below `n`, in ascending order of
/// position.
pub open spec fn below(m: Map<usize, Record>, n: nat) -> Seq<Record>
    decreases n,
{
    if n == 0 {
        seq![]
    } else {
        let prev = below(m, (n - 1) as nat);
        if n - 1 <= usize::MAX && m.contains_key((n - 1) as usize) {
            prev.push(m[(n - 1) as usize])
        } else {
            prev
        }
    }
}

/// The records of `m` in ascending order of position.
pub open spec fn ascending(m: Map<usize, Record>) -> Seq<Record> {
    below(m, (usize::MAX + 1) as nat)
}

/// Where `keys` lists the positions of `m` in strictly ascending order and
/// `vals` the records at them, the records below `n` are a prefix of `vals`:
/// the lemma returns its length.
proof fn lemma_below_prefix(m: Map<usize, Record>, keys: Seq<usize>, vals: Seq<Record>, n: nat) -> (j:
    int)
    requires
        keys.len() == vals.len(),
        forall|a: int, b: int| 0 <= a < b < keys.len() ==> keys[a] < keys[b],
        forall|i: int|
            0 <= i < keys.len() ==> m.contains_key(#[trigger] keys[i]) && m[keys[i]] == vals[i],
        forall|k: usize| m.contains_key(k) ==> keys.contains(k),
    ensures
        0 <= j <= keys.len(),
        forall|i: int| 0 <= i < j ==> #[trigger] keys[i] < n,
        forall|i: int| j <= i < keys.len() ==> #[trigger] keys[i] >= n,
        below(m, n) == vals.take(j),
    decreases n,
{
    if n == 0 {
        assert(vals.take(0) =~= Seq::<Record>::empty());
        0
    } else {
        let j = lemma_below_prefix(m, keys, vals, (n - 1) as nat);
        if n - 1 <= usize::MAX && m.contains_key((n - 1) as usize) {
            let k = (n - 1) as usize;
            assert(keys.contains(k));
            let i = choose|i: int| 0 <= i < keys.len() && keys[i] == k;
            assert(i >= j);
            if i > j {
                assert(keys[j] < keys[i]);
            }
            assert(vals.take(j + 1) =~= vals.take(j).push(vals[j]));
            j + 1
        } else {
            assert forall|i: int| j <= i < keys.len() implies #[trigger] keys[i] >= n by {
                if keys[i] == n - 1 {
                    assert(m.contains_key(keys[i]));
                }
            }
            j
        }
    }
}

/// A strictly ascending list of the positions of `m`, with the records at
/// them, lists the records as [`ascending`] does.
pub proof fn lemma_ascending_is(m: Map<usize, Record>, keys: Seq<usize>, vals: Seq<Record>)
    requires
        keys.len() == vals.len(),
        forall|a: int, b: int| 0 <= a < b < keys.len() ==> keys[a] < keys[b],
        forall|i: int|
            0 <= i < keys.len() ==> m.contains_key(#[trigger] keys[i]) && m[keys[i]] == vals[i],
        forall|k: usize| m.contains_key(k) ==> keys.contains(k),
    ensures
        ascending(m) == vals,
{
    let j = lemma_below_prefix(m, keys, vals, (usize::MAX + 1) as nat);
    if j < keys.len() {
        assert(keys[j] >= usize::MAX + 1);
    }
    assert(vals.take(vals.len() as int) =~= vals);
}

/// `m` holds the record `r` at some position.
pub open spec fn holds(m: Map<usize, Record>, r: Record) -> bool {
    exists|p: usize| m.contains_key(p) && m[p] == r
}

proof fn lemma_below_members(m: Map<usize, Record>, n: nat)
    ensures
        forall|i: int| 0 <= i < below(m, n).len() ==> holds(m, #[trigger] below(m, n)[i]),
    decreases n,
{
    if n > 0 {
        lemma_below_members(m, (n - 1) as nat);
        let prev = below(m, (n - 1) as nat);
        if n - 1 <= usize::MAX && m.contains_key((n - 1) as usize) {
            let p = (n - 1) as usize;
            assert forall|i: int| 0 <= i < below(m, n).len() implies holds(
                m,
                #[trigger] below(m, n)[i],
            ) by {
                if i < prev.len() {
                    assert(below(m, n)[i] == prev[i]);
                } else {
                    assert(m.contains_key(p) && m[p] == below(m, n)[i]);
                }
            }
        }
    }
}

/// Every record that [`ascending`] lists is one that the store holds.
pub proof fn lemma_ascending_members(m: Map<usize, Record>)
    ensures
        forall|i: int| 0 <= i < ascending(m).len() ==> holds(m, #[trigger] ascending(m)[i]),
{
    lemma_below_members(m, (usize::MAX + 1) as nat);
}

/// Of two records offered one after the other at one position, the first
/// stays and the second changes nothing; offered at two positions, be they
/// next to each other, both are held afterwards, and a free position takes
/// the record offered to it.
pub proof fn lemma_first_record_stays(m: Map<usize, Record>, a: Record, b: Record)
    ensures
        a.pos == b.pos ==> admitted(admitted(m, a), b) == admitted(m, a),
        admitted(admitted(m, a), b).contains_key(a.pos),
        admitted(admitted(m, a), b).contains_key(b.pos),
        admitted(admitted(m, a), b)[a.pos] == admitted(m, a)[a.pos],
        !m.contains_key(a.pos) ==> admitted(admitted(m, a), b)[a.pos] == a,
        !m.contains_key(b.pos) && a.pos != b.pos ==> admitted(admitted(m, a), b)[b.pos] == b,
        forall|k: usize|
            k != a.pos && k != b.pos ==> (admitted(admitted(m, a), b).contains_key(k)
                <==> m.contains_key(k)),
{
}

impl View for Records {
    type V = Map<usize, Record>;

    open spec fn view(&self) -> Map<usize, Record> {
        self.map@
    }
}

impl Records {
    /// Every record is filed under its own position.
    pub open spec fn wf(&self) -> bool {
        forall|k: usize| #[trigger] self@.contains_key(k) ==> self@[k].pos == k
    }

    /// An empty store.
    pub fn new() -> (r: Self)
        ensures
            r@ == Map::<usize, Record>::empty(),
            r.wf(),
    {
        Self { map: BTreeMap::new() }
    }

    /// Files an occurrence under `pos`. The first record at a position stays:
    /// a later one is dropped and the store is left as it was. Neither is
    /// an error.
    pub fn try_insert(&mut self, pos: usize, len: usize, casing: Casing) -> (r: Result<
        (),
        String,
    >)
        ensures
            final(self)@ == admitted(old(self)@, Record { pos, len, casing }),
            old(self).wf() ==> final(self).wf(),
            r is Ok,
    {
        broadcast use vstd::std_specs::btree::group_btree_axioms;
        broadcast use vstd::laws_cmp::group_laws_cmp;

        if self.map.contains_key(&pos) {
            return Ok(());
        }
        self.map.insert(pos, Record { pos, len, casing });
        Ok(())
    }

    /// The records in ascending order of position, as a list.
    pub fn entries(&self) -> (r: Vec<Record>)
        ensures
            r@ == ascending(self@),
    {
        broadcast use vstd::std_specs::btree::group_btree_axioms;
        broadcast use vstd::laws_cmp::group_laws_cmp;

        let mut out: Vec<Record> = Vec::new();
        for pair in it: self.iter()
            invariant
                it.seq() == self.map.iter().remaining(),
                vstd::std_specs::btree::increasing_seq(
                    it.seq().map_values(|kv: (&usize, &Record)| *kv.0),
                ),
                out@.len() == it.index(),
                forall|i: int| 0 <= i < it.index() ==> out@[i] == *(#[trigger] it.seq()[i]).1,
        {
            out.push(*pair.1);
        }
        proof {
            let seq = self.map.iter().remaining();
            let keys = Seq::new(seq.len(), |i: int| *seq[i].0);
            assert(keys =~= seq.map_values(|kv: (&usize, &Record)| *kv.0));
            vstd::std_specs::btree::axiom_increasing_seq_meaning(keys);
            assert forall|a: int, b: int| 0 <= a < b < keys.len() implies keys[a] < keys[b] by {
                assert(keys[a].cmp_spec(&keys[b]) is Less);
            }
            assert forall|k: usize| self@.contains_key(k) implies keys.contains(k) by {
                assert(seq.contains((&k, &self@[k])));
                let i = choose|i: int| 0 <= i < seq.len() && seq[i] == (&k, &self@[k]);
                assert(keys[i] == k);
            }
            lemma_ascending_is(self@, keys, out@);
        }
        out
    }

    /// The records in ascending order of position.
    pub fn iter(&self) -> (r: Iter<'_, usize, Record>)
        ensures
            r == self.map.iter(),
            r.remaining().no_duplicates(),
            IteratorSpec::decrease(&r) is Some,
            IteratorSpec::initial_value_relation(&r, &r),
            vstd::std_specs::btree::increasing_seq(
                r.remaining().map_values(|kv: (&usize, &Record)| *kv.0),
            ),
    {
        broadcast use vstd::std_specs::btree::group_btree_axioms;
        broadcast use vstd::laws_cmp::group_laws_cmp;

        self.map.iter()
    }
}

} // verus!
