//! Counting the senders whose recorded value satisfies a predicate.

use std::collections::BTreeMap;
use vstd::prelude::*;
use vstd::std_specs::iter::IteratorSpec;
use crate::netinfo::NodeUid;

verus! {

/// The senders of `m` whose recorded value satisfies `p`.
pub open spec fn matching<V>(m: Map<NodeUid, V>, p: spec_fn(V) -> bool) -> Set<NodeUid> {
    Set::new(|s: NodeUid| m.contains_key(s) && p(m[s]))
}

/// The number of senders of `m` whose recorded value satisfies `p`.
pub open spec fn tally<V>(m: Map<NodeUid, V>, p: spec_fn(V) -> bool) -> nat {
    matching(m, p).len()
}

/// The number of positions of `vs` whose value satisfies `p`.
pub open spec fn count_in<V>(vs: Seq<V>, p: spec_fn(V) -> bool) -> nat
    decreases vs.len(),
{
    if vs.len() == 0 {
        0
    } else {
        count_in(vs.drop_last(), p) + if p(vs.last()) {
            1nat
        } else {
            0nat
        }
    }
}

/// `vs` lists the values of `m`, one for each sender.
pub open spec fn enumerates<V>(m: Map<NodeUid, V>, vs: Seq<V>) -> bool {
    exists|ks: Seq<NodeUid>| listed_by(m, ks, vs)
}

/// `ks` lists the senders of `m` without repetition, and `vs` their values in the same order.
pub open spec fn listed_by<V>(m: Map<NodeUid, V>, ks: Seq<NodeUid>, vs: Seq<V>) -> bool {
    &&& ks.no_duplicates()
    &&& ks.len() == vs.len()
    &&& forall|s: NodeUid|
        #![trigger m.contains_key(s)]
        #![trigger ks.contains(s)]
        m.contains_key(s) <==> ks.contains(s)
    &&& forall|i: int| 0 <= i < ks.len() ==> vs[i] == m[#[trigger] ks[i]]
}

/// A list of the senders of a map and of their values gives the same count
/// as the map.
proof fn lemma_tally_listed<V>(
    m: Map<NodeUid, V>,
    ks: Seq<NodeUid>,
    vs: Seq<V>,
    p: spec_fn(V) -> bool,
)
    requires
        listed_by(m, ks, vs),
    ensures
        matching(m, p).finite(),
        tally(m, p) == count_in(vs, p),
        tally(m, p) <= vs.len(),
    decreases ks.len(),
{
    if ks.len() == 0 {
        assert(matching(m, p) =~= Set::empty());
    } else {
        let k = ks.last();
        let m1 = m.remove(k);
        let ks1 = ks.drop_last();
        let vs1 = vs.drop_last();
        assert(ks[ks.len() - 1] == k);
        assert forall|s: NodeUid|
            #![trigger m1.contains_key(s)]
            #![trigger ks1.contains(s)]
            m1.contains_key(s) <==> ks1.contains(s) by {
            if m1.contains_key(s) {
                assert(m.contains_key(s));
                assert(ks.contains(s));
                let i = choose|i: int| 0 <= i < ks.len() && ks[i] == s;
                assert(ks1[i] == s);
            }
            if ks1.contains(s) {
                let i = choose|i: int| 0 <= i < ks1.len() && ks1[i] == s;
                assert(ks[i] == s);
            }
        }
        assert forall|i: int| 0 <= i < ks1.len() implies vs1[i] == m1[#[trigger] ks1[i]] by {
            assert(ks[i] == ks1[i]);
        }
        lemma_tally_listed(m1, ks1, vs1, p);
        assert(m.contains_key(k));
        assert(vs.last() == m[k]);
        if p(m[k]) {
            assert(matching(m, p) =~= matching(m1, p).insert(k));
        } else {
            assert(matching(m, p) =~= matching(m1, p));
        }
    }
}

/// A list of the values of a map gives the same count as the map.
pub proof fn lemma_tally<V>(m: Map<NodeUid, V>, vs: Seq<V>, p: spec_fn(V) -> bool)
    requires
        enumerates(m, vs),
    ensures
        tally(m, p) == count_in(vs, p),
        tally(m, p) <= vs.len(),
{
    let ks = choose|ks: Seq<NodeUid>| listed_by(m, ks, vs);
    lemma_tally_listed(m, ks, vs, p);
}

/// What a count owes to one sender: the count is that of the other senders,
/// and one more if the value of the sender satisfies the predicate.
pub proof fn lemma_tally_sender<V>(m: Map<NodeUid, V>, k: NodeUid, p: spec_fn(V) -> bool)
    requires
        m.dom().finite(),
    ensures
        matching(m, p).finite(),
        tally(m, p) == tally(m.remove(k), p) + if m.contains_key(k) && p(m[k]) {
            1nat
        } else {
            0nat
        },
{
    vstd::set_lib::lemma_len_subset(matching(m, p), m.dom());
    vstd::set_lib::lemma_len_subset(matching(m.remove(k), p), m.dom());
    if m.contains_key(k) && p(m[k]) {
        assert(matching(m, p) =~= matching(m.remove(k), p).insert(k));
    } else {
        assert(matching(m, p) =~= matching(m.remove(k), p));
    }
}

/// Without senders every count is zero.
pub proof fn lemma_tally_empty<V>(p: spec_fn(V) -> bool)
    ensures
        tally(Map::<NodeUid, V>::empty(), p) == 0,
{
    assert(matching(Map::<NodeUid, V>::empty(), p) =~= Set::empty());
}

/// Where a map has at most the sender `only`, no count is above one.
pub proof fn lemma_tally_single<V>(m: Map<NodeUid, V>, p: spec_fn(V) -> bool, only: NodeUid)
    requires
        forall|s: NodeUid| #[trigger] m.contains_key(s) ==> s == only,
    ensures
        tally(m, p) <= 1,
{
    let one = Set::<NodeUid>::empty().insert(only);
    assert(matching(m, p).subset_of(one));
    vstd::set_lib::lemma_len_subset(matching(m, p), one);
}

/// Counting one position more.
pub proof fn lemma_count_step<V>(vs: Seq<V>, i: int, p: spec_fn(V) -> bool)
    requires
        0 <= i < vs.len(),
    ensures
        count_in(vs.take(i + 1), p) == count_in(vs.take(i), p) + if p(vs[i]) {
            1nat
        } else {
            0nat
        },
{
    assert(vs.take(i + 1).drop_last() == vs.take(i));
    assert(vs.take(i + 1).last() == vs[i]);
}

/// Whether `v` is the value of some sender of `m`.
pub open spec fn occurs<V>(m: Map<NodeUid, V>, v: V) -> bool {
    exists|s: NodeUid| #[trigger] m.contains_key(s) && m[s] == v
}

/// A list of the values of a map holds the value of each sender, and no other.
pub proof fn lemma_enumerates_members<V>(m: Map<NodeUid, V>, vs: Seq<V>)
    requires
        enumerates(m, vs),
    ensures
        forall|i: int| 0 <= i < vs.len() ==> occurs(m, #[trigger] vs[i]),
        forall|s: NodeUid| #[trigger] m.contains_key(s) ==> vs.contains(m[s]),
{
    let ks = choose|ks: Seq<NodeUid>| listed_by(m, ks, vs);
    assert forall|i: int| 0 <= i < vs.len() implies occurs(m, #[trigger] vs[i]) by {
        assert(ks.contains(ks[i]));
        assert(m.contains_key(ks[i]) && m[ks[i]] == vs[i]);
    }
    assert forall|s: NodeUid| #[trigger] m.contains_key(s) implies vs.contains(m[s]) by {
        assert(ks.contains(s));
        let i = choose|i: int| 0 <= i < ks.len() && ks[i] == s;
        assert(vs[i] == m[ks[i]]);
    }
}

/// The values of the map, one for each sender.
pub fn values_of<V: Copy>(m: &BTreeMap<NodeUid, V>) -> (vs: Vec<V>)
    ensures
        enumerates(m@, vs@),
{
    broadcast use vstd::laws_cmp::group_laws_cmp;
    let mut vs: Vec<V> = Vec::new();
    let entries = m.iter();
    let ghost all = entries.remaining();
    for kv in it: entries
        invariant
            it.seq() == all,
            vs@.len() == it.index(),
            forall|i: int| 0 <= i < it.index() ==> vs@[i] == *(#[trigger] all[i]).1,
    {
        vs.push(*kv.1);
    }
    proof {
        let ks = Seq::new(all.len(), |i: int| *all[i].0);
        assert(all.len() == m@.dom().len());
        assert forall|i: int, j: int| 0 <= i < j < ks.len() implies ks[i] != ks[j] by {
            assert(m@[*all[i].0] == *all[i].1);
            assert(m@[*all[j].0] == *all[j].1);
            if ks[i] == ks[j] {
                assert(all[i] == all[j]);
            }
        }
        assert forall|s: NodeUid|
            #![trigger m@.contains_key(s)]
            #![trigger ks.contains(s)]
            m@.contains_key(s) <==> ks.contains(s) by {
            if m@.contains_key(s) {
                assert(all.contains((&s, &m@[s])));
                let i = choose|i: int| 0 <= i < all.len() && all[i] == (&s, &m@[s]);
                assert(ks[i] == s);
            }
            if ks.contains(s) {
                let i = choose|i: int| 0 <= i < ks.len() && ks[i] == s;
                assert(m@.contains_key(*all[i].0));
            }
        }
        assert forall|i: int| 0 <= i < ks.len() implies vs@[i] == m@[#[trigger] ks[i]] by {
            assert(m@[*all[i].0] == *all[i].1);
        }
        assert(listed_by(m@, ks, vs@));
    }
    vs
}

} // verus!
