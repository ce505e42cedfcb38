//! Subsets of `{false, true}`.

use std::cmp::Ordering;
use vstd::prelude::*;

verus! {

/// How two positions in an order compare.
pub open spec fn order_of(a: nat, b: nat) -> Ordering {
    if a < b {
        Ordering::Less
    } else if a > b {
        Ordering::Greater
    } else {
        Ordering::Equal
    }
}

/// How two positions in an order compare.
pub fn compare_positions(a: u8, b: u8) -> (r: Ordering)
    ensures
        a < b ==> r == Ordering::Less,
        a > b ==> r == Ordering::Greater,
        a == b ==> r == Ordering::Equal,
{
    if a < b {
        Ordering::Less
    } else if a > b {
        Ordering::Greater
    } else {
        Ordering::Equal
    }
}

/// A set of binary values. The sets are ordered: the empty set, the set of
/// `false`, the set of `true`, the set of both.
#[derive(Clone, Copy, Debug, PartialEq, Eq, Ord, Hash, Structural)]
pub enum BinValues {
    /// The empty set.
    Neither,
    /// The set holding only `false`.
    False,
    /// The set holding only `true`.
    True,
    /// The set holding both values.
    Both,
}

impl View for BinValues {
    type V = Set<bool>;

    open spec fn view(&self) -> Set<bool> {
        match *self {
            BinValues::Neither => Set::empty(),
            BinValues::False => Set::empty().insert(false),
            BinValues::True => Set::empty().insert(true),
            BinValues::Both => Set::empty().insert(false).insert(true),
        }
    }
}

impl PartialOrd for BinValues {
    fn partial_cmp(&self, other: &BinValues) -> (r: Option<Ordering>) {
        Some(compare_positions(self.position(), other.position()))
    }
}

impl vstd::std_specs::cmp::PartialOrdSpecImpl for BinValues {
    open spec fn obeys_partial_cmp_spec() -> bool {
        true
    }

    open spec fn partial_cmp_spec(&self, other: &BinValues) -> Option<Ordering> {
        Some(order_of(self.rank(), other.rank()))
    }
}

impl BinValues {
    /// The position of the set in the order of the four sets.
    pub open spec fn rank(self) -> nat {
        match self {
            BinValues::Neither => 0,
            BinValues::False => 1,
            BinValues::True => 2,
            BinValues::Both => 3,
        }
    }

    /// The position of the set in the order of the four sets.
    pub fn position(&self) -> (r: u8)
        ensures
            r == self.rank(),
    {
        match *self {
            BinValues::Neither => 0,
            BinValues::False => 1,
            BinValues::True => 2,
            BinValues::Both => 3,
        }
    }

    /// Membership.
    pub open spec fn has(self, b: bool) -> bool {
        match self {
            BinValues::Neither => false,
            BinValues::False => !b,
            BinValues::True => b,
            BinValues::Both => true,
        }
    }

    /// The set holding exactly `b`.
    pub open spec fn only(b: bool) -> BinValues {
        if b {
            BinValues::True
        } else {
            BinValues::False
        }
    }

    /// The set with `b` added.
    pub open spec fn with(self, b: bool) -> BinValues {
        match self {
            BinValues::Neither => BinValues::only(b),
            BinValues::False => if b { BinValues::Both } else { BinValues::False },
            BinValues::True => if b { BinValues::True } else { BinValues::Both },
            BinValues::Both => BinValues::Both,
        }
    }

    /// The union of two sets.
    pub open spec fn join(self, other: BinValues) -> BinValues {
        match other {
            BinValues::Neither => self,
            BinValues::False => self.with(false),
            BinValues::True => self.with(true),
            BinValues::Both => BinValues::Both,
        }
    }

    /// Inclusion: every member of `self` is a member of `other`.
    pub open spec fn within(self, other: BinValues) -> bool {
        match self {
            BinValues::Neither => true,
            BinValues::False => other.has(false),
            BinValues::True => other.has(true),
            BinValues::Both => other == BinValues::Both,
        }
    }

    /// The single member of a singleton, nothing for the empty and the full set.
    pub open spec fn sole(self) -> Option<bool> {
        match self {
            BinValues::Neither => None,
            BinValues::False => Some(false),
            BinValues::True => Some(true),
            BinValues::Both => None,
        }
    }

    /// How many of the two values are missing from the set.
    pub open spec fn missing(self) -> nat {
        match self {
            BinValues::Neither => 2,
            BinValues::False => 1,
            BinValues::True => 1,
            BinValues::Both => 0,
        }
    }

    /// The set that holds `false` where `has_false` and `true` where `has_true`.
    pub open spec fn of(has_false: bool, has_true: bool) -> BinValues {
        if has_false {
            if has_true {
                BinValues::Both
            } else {
                BinValues::False
            }
        } else {
            if has_true {
                BinValues::True
            } else {
                BinValues::Neither
            }
        }
    }

    /// The union of all the sets of a sequence.
    pub open spec fn join_all(values: Seq<BinValues>) -> BinValues
        decreases values.len(),
    {
        if values.len() == 0 {
            BinValues::Neither
        } else {
            BinValues::join_all(values.drop_last()).join(values.last())
        }
    }

    /// The operations on the four values are those of sets of booleans.
    pub proof fn lemma_view(self, other: BinValues, b: bool)
        ensures
            self.has(b) <==> self@.contains(b),
            self.with(b)@ == self@.insert(b),
            self.join(other)@ == self@.union(other@),
            self.within(other) <==> self@.subset_of(other@),
            self.sole() == Some(b) <==> self@ == Set::<bool>::empty().insert(b),
            self.missing() == 2 - self@.len(),
            self@.finite(),
            self@ == other@ <==> self == other,
            BinValues::only(b)@ == Set::<bool>::empty().insert(b),
    {
        let e = Set::<bool>::empty();
        assert(e.insert(false).contains(false));
        assert(e.insert(true).contains(true));
        assert(e.insert(false).insert(true).contains(false));
        assert(e.insert(false).insert(true).contains(true));
        assert(e.insert(b).insert(b) =~= e.insert(b));
        assert(e.insert(true).insert(false) =~= e.insert(false).insert(true));
        assert(e.insert(false).insert(true).insert(b) =~= e.insert(false).insert(true));
        assert(self.join(other)@ =~= self@.union(other@));
        assert(self.with(b)@ =~= self@.insert(b));
        if self@ == e.insert(b) {
            assert(self@.contains(b));
            assert(!self@.contains(!b));
        }
        if self@ == other@ {
            assert(self@.contains(true) == other@.contains(true));
            assert(self@.contains(false) == other@.contains(false));
        }
    }

    /// A union holds a value where one of the sets holds it.
    pub proof fn lemma_join_all_has(values: Seq<BinValues>, b: bool)
        ensures
            BinValues::join_all(values).has(b) <==> exists|i: int|
                0 <= i < values.len() && (#[trigger] values[i]).has(b),
        decreases values.len(),
    {
        if values.len() > 0 {
            let front = values.drop_last();
            BinValues::lemma_join_all_has(front, b);
            if BinValues::join_all(values).has(b) {
                if values.last().has(b) {
                    assert(values[values.len() - 1].has(b));
                } else {
                    let i = choose|i: int| 0 <= i < front.len() && (#[trigger] front[i]).has(b);
                    assert(values[i].has(b));
                }
            }
            if exists|i: int| 0 <= i < values.len() && (#[trigger] values[i]).has(b) {
                let i = choose|i: int| 0 <= i < values.len() && (#[trigger] values[i]).has(b);
                if i < front.len() {
                    assert(front[i].has(b));
                }
            }
        }
    }

    /// The union of subsets of one set is a subset of that set.
    pub proof fn lemma_join_all_within(values: Seq<BinValues>, bound: BinValues)
        requires
            forall|i: int| 0 <= i < values.len() ==> (#[trigger] values[i]).within(bound),
        ensures
            BinValues::join_all(values).within(bound),
            BinValues::join_all(values)@.subset_of(bound@),
        decreases values.len(),
    {
        if values.len() > 0 {
            let front = values.drop_last();
            assert forall|i: int| 0 <= i < front.len() implies (#[trigger] front[i]).within(
                bound,
            ) by {
                assert(values[i].within(bound));
            }
            BinValues::lemma_join_all_within(front, bound);
            assert(values[values.len() - 1].within(bound));
        }
        BinValues::join_all(values).lemma_view(bound, true);
    }

    /// The empty set.
    pub fn new() -> (v: BinValues)
        ensures
            v == BinValues::Neither,
            v@ == Set::<bool>::empty(),
    {
        BinValues::Neither
    }

    /// Empties the set.
    pub fn clear(&mut self)
        ensures
            *final(self) == BinValues::Neither,
            final(self)@ == Set::<bool>::empty(),
    {
        *self = BinValues::Neither;
    }

    /// The singleton of `b`.
    pub fn from_bool(b: bool) -> (v: BinValues)
        ensures
            v == BinValues::only(b),
            v@ == Set::<bool>::empty().insert(b),
    {
        if b {
            BinValues::True
        } else {
            BinValues::False
        }
    }

    /// Adds `b` and tells whether the set changed.
    pub fn insert(&mut self, b: bool) -> (changed: bool)
        ensures
            *final(self) == old(self).with(b),
            final(self)@ == old(self)@.insert(b),
            changed == !old(self)@.contains(b),
            changed == (*final(self) != *old(self)),
    {
        proof {
            self.lemma_view(*self, b);
        }
        match *self {
            BinValues::Neither => {
                *self = BinValues::from_bool(b);
                true
            },
            BinValues::False => {
                if b {
                    *self = BinValues::Both;
                }
                b
            },
            BinValues::True => {
                if !b {
                    *self = BinValues::Both;
                }
                !b
            },
            BinValues::Both => false,
        }
    }

    /// Adds every member of `other`.
    pub fn union(&mut self, other: BinValues)
        ensures
            *final(self) == old(self).join(other),
            final(self)@ == old(self)@.union(other@),
    {
        proof {
            self.lemma_view(other, true);
        }
        match other {
            BinValues::Neither => {},
            BinValues::False => {
                self.insert(false);
            },
            BinValues::True => {
                self.insert(true);
            },
            BinValues::Both => {
                *self = BinValues::Both;
            },
        }
    }

    /// The union of all the sets in `values`.
    pub fn collect(values: &Vec<BinValues>) -> (v: BinValues)
        ensures
            v == BinValues::join_all(values@),
            forall|b: bool|
                v@.contains(b) <==> exists|i: int|
                    0 <= i < values.len() && (#[trigger] values[i])@.contains(b),
    {
        let mut v = BinValues::Neither;
        let mut i: usize = 0;
        while i < values.len()
            invariant
                i <= values.len(),
                v == BinValues::join_all(values@.take(i as int)),
            decreases values.len() - i,
        {
            proof {
                assert(values@.take(i + 1).drop_last() == values@.take(i as int));
            }
            v.union(values[i]);
            i = i + 1;
        }
        proof {
            assert(values@.take(i as int) == values@);
            assert forall|b: bool|
                v@.contains(b) <==> exists|i: int|
                    0 <= i < values.len() && (#[trigger] values[i])@.contains(b) by {
                BinValues::lemma_join_all_has(values@, b);
                v.lemma_view(v, b);
                if v.has(b) {
                    let i = choose|i: int| 0 <= i < values.len() && (#[trigger] values[i]).has(b);
                    values[i].lemma_view(v, b);
                }
                if exists|i: int| 0 <= i < values.len() && (#[trigger] values[i])@.contains(b) {
                    let i = choose|i: int|
                        0 <= i < values.len() && (#[trigger] values[i])@.contains(b);
                    values[i].lemma_view(v, b);
                    assert(values[i].has(b));
                }
            }
        }
        v
    }

    /// Membership test.
    pub fn contains(&self, b: bool) -> (r: bool)
        ensures
            r == self.has(b),
            r == self@.contains(b),
    {
        proof {
            self.lemma_view(*self, b);
        }
        match *self {
            BinValues::Neither => false,
            BinValues::False => !b,
            BinValues::True => b,
            BinValues::Both => true,
        }
    }

    /// Subset test.
    pub fn is_subset(&self, other: BinValues) -> (r: bool)
        ensures
            r == self.within(other),
            r == self@.subset_of(other@),
    {
        proof {
            self.lemma_view(other, true);
        }
        match *self {
            BinValues::Neither => true,
            BinValues::False => other.contains(false),
            BinValues::True => other.contains(true),
            BinValues::Both => other == BinValues::Both,
        }
    }

    /// The member of a singleton.
    pub fn definite(&self) -> (r: Option<bool>)
        ensures
            r == self.sole(),
            forall|b: bool| r == Some(b) <==> self@ == Set::<bool>::empty().insert(b),
    {
        proof {
            self.lemma_view(*self, true);
            self.lemma_view(*self, false);
        }
        match *self {
            BinValues::Neither => None,
            BinValues::False => Some(false),
            BinValues::True => Some(true),
            BinValues::Both => None,
        }
    }
}

} // verus!
