//! The store of pending reminders: a bag of alarms that always hands out
//! one that is due soonest.

use vstd::prelude::*;
use vstd::multiset::Multiset;

use crate::alarm::{Alarm, AlarmView};

verus! {

/// The views of the alarms in a sequence, in order.
pub open spec fn alarm_views(s: Seq<Alarm>) -> Seq<AlarmView> {
    s.map_values(|a: Alarm| a@)
}

/// A bag of pending alarms. `pop` and `peek` always pick an alarm whose
/// due time is least; alarms due at the same second come out in no
/// particular order.
pub struct AlarmHeap {
    entries: Vec<Alarm>,
}

impl View for AlarmHeap {
    type V = Multiset<AlarmView>;

    closed spec fn view(&self) -> Multiset<AlarmView> {
        alarm_views(self.entries@).to_multiset()
    }
}

impl Default for AlarmHeap {
    /// An empty bag.
    fn default() -> (r: AlarmHeap)
        ensures
            r@ == Multiset::<AlarmView>::empty(),
    {
        let r = AlarmHeap { entries: Vec::new() };
        proof {
            broadcast use vstd::seq_lib::group_to_multiset_ensures;

            lemma_empty_views(r.entries@);
        }
        r
    }
}

/// An empty entry list denotes the empty bag.
proof fn lemma_empty_views(s: Seq<Alarm>)
    requires
        s.len() == 0,
    ensures
        alarm_views(s).to_multiset() == Multiset::<AlarmView>::empty(),
{
    broadcast use vstd::seq_lib::group_to_multiset_ensures;

    let m = alarm_views(s).to_multiset();
    assert forall|x: AlarmView| m.count(x) == Multiset::<AlarmView>::empty().count(x) by {
        if m.count(x) > 0 {
            assert(alarm_views(s).contains(x));
        }
    }
    assert(m =~= Multiset::<AlarmView>::empty());
}

impl AlarmHeap {
    /// Puts an alarm into the bag.
    pub fn push(&mut self, alarm: Alarm)
        ensures
            final(self)@ == old(self)@.insert(alarm@),
    {
        proof {
            broadcast use vstd::seq_lib::group_to_multiset_ensures;

            assert(alarm_views(self.entries@.push(alarm)) =~= alarm_views(self.entries@).push(
                alarm@,
            ));
        }
        self.entries.push(alarm);
    }

    /// Takes an alarm with the least due time out of the bag, or `None`
    /// when the bag is empty.
    pub fn pop(&mut self) -> (r: Option<Alarm>)
        ensures
            match r {
                Some(a) => old(self)@.contains(a@) && final(self)@ == old(self)@.remove(a@)
                    && (forall|x: AlarmView| old(self)@.contains(x) ==> a@.when <= x.when),
                None => old(self)@ == Multiset::<AlarmView>::empty() && *final(self) == *old(
                    self,
                ),
            },
    {
        proof {
            broadcast use vstd::seq_lib::group_to_multiset_ensures;
        }
        let n = self.entries.len();
        if n == 0 {
            proof {
                lemma_empty_views(self.entries@);
            }
            return None;
        }
        let best = self.min_index();
        let ghost s0 = self.entries@;
        let a = self.entries.remove(best);
        proof {
            broadcast use vstd::seq_lib::group_to_multiset_ensures;

            assert(alarm_views(s0)[best as int] == a@);
            assert(alarm_views(s0.remove(best as int)) =~= alarm_views(s0).remove(best as int));
            assert forall|x: AlarmView| old(self)@.contains(x) implies a@.when <= x.when by {
                assert(alarm_views(s0).contains(x));
                let j = choose|j: int|
                    0 <= j < alarm_views(s0).len() && alarm_views(s0)[j] == x;
                assert(x.when == s0[j]@.when);
            }
            assert(alarm_views(s0).contains(a@));
        }
        Some(a)
    }

    /// A look at an alarm with the least due time, or `None` when the
    /// bag is empty.
    pub fn peek(&self) -> (r: Option<&Alarm>)
        ensures
            match r {
                Some(a) => self@.contains(a@) && (forall|x: AlarmView|
                    self@.contains(x) ==> a@.when <= x.when),
                None => self@ == Multiset::<AlarmView>::empty(),
            },
    {
        proof {
            broadcast use vstd::seq_lib::group_to_multiset_ensures;
        }
        if self.entries.len() == 0 {
            proof {
                lemma_empty_views(self.entries@);
            }
            return None;
        }
        let best = self.min_index();
        let a = &self.entries[best];
        proof {
            broadcast use vstd::seq_lib::group_to_multiset_ensures;

            assert(alarm_views(self.entries@)[best as int] == a@);
            assert(alarm_views(self.entries@).contains(a@));
            assert forall|x: AlarmView| self@.contains(x) implies a@.when <= x.when by {
                assert(alarm_views(self.entries@).contains(x));
                let j = choose|j: int|
                    0 <= j < alarm_views(self.entries@).len() && alarm_views(self.entries@)[j]
                        == x;
                assert(x.when == self.entries@[j]@.when);
            }
        }
        Some(a)
    }

    /// The position of an alarm whose due time is least.
    fn min_index(&self) -> (best: usize)
        requires
            self.entries@.len() > 0,
        ensures
            0 <= best < self.entries@.len(),
            forall|j: int|
                0 <= j < self.entries@.len() ==> self.entries@[best as int].when
                    <= self.entries@[j].when,
    {
        let n = self.entries.len();
        let mut best: usize = 0;
        let mut i: usize = 1;
        while i < n
            invariant
                0 <= best < i <= n,
                n == self.entries@.len(),
                forall|j: int|
                    0 <= j < i ==> self.entries@[best as int].when <= self.entries@[j].when,
            decreases n - i,
        {
            if self.entries[i].when < self.entries[best].when {
                best = i;
            }
            i += 1;
        }
        best
    }
}

} // verus!
