//! Collecting the outcomes of a fan-out in destination order, whatever
//! order the calls complete in.

use vstd::prelude::*;

use crate::outcome::OutboundOutcome;

verus! {

/// One slot per destination of a fan-out, filled as the calls complete, in
/// whatever order they complete.
pub struct OutcomeSlots {
    slots: Vec<Option<OutboundOutcome>>,
}

impl View for OutcomeSlots {
    type V = Seq<Option<OutboundOutcome>>;

    closed spec fn view(&self) -> Seq<Option<OutboundOutcome>> {
        self.slots@
    }
}

/// The slots after the calls listed in `order` (destination indices) have
/// completed, one after the other, starting from `start`.
pub open spec fn after_completions(
    start: Seq<Option<OutboundOutcome>>,
    order: Seq<int>,
    outs: Seq<OutboundOutcome>,
) -> Seq<Option<OutboundOutcome>>
    decreases order.len(),
{
    if order.len() == 0 {
        start
    } else {
        after_completions(start, order.drop_last(), outs).update(
            order.last(),
            Some(outs[order.last()]),
        )
    }
}

pub open spec fn all_filled(s: Seq<Option<OutboundOutcome>>) -> bool {
    forall|i: int| 0 <= i < s.len() ==> #[trigger] s[i] is Some
}

pub open spec fn empty_slots(n: nat) -> Seq<Option<OutboundOutcome>> {
    Seq::new(n, |i: int| None)
}

/// `order` lists each of the destination indices `0..n` exactly once.
pub open spec fn is_completion_order(order: Seq<int>, n: nat) -> bool {
    &&& order.len() == n
    &&& order.no_duplicates()
    &&& forall|k: int| 0 <= k < order.len() ==> 0 <= #[trigger] order[k] < n
}

proof fn lemma_after_prefix(n: nat, order: Seq<int>, outs: Seq<OutboundOutcome>)
    requires
        outs.len() == n,
        order.no_duplicates(),
        forall|k: int| 0 <= k < order.len() ==> 0 <= #[trigger] order[k] < n,
    ensures
        after_completions(empty_slots(n), order, outs).len() == n,
        forall|j: int|
            0 <= j < n ==> #[trigger] after_completions(empty_slots(n), order, outs)[j] == if order.contains(j) {
                Some(outs[j])
            } else {
                None
            },
    decreases order.len(),
{
    if order.len() > 0 {
        let prefix = order.drop_last();
        assert forall|a: int, b: int| 0 <= a < b < prefix.len() implies prefix[a] != prefix[b] by {
            assert(prefix[a] == order[a] && prefix[b] == order[b]);
        }
        assert forall|k: int| 0 <= k < prefix.len() implies 0 <= #[trigger] prefix[k] < n by {
            assert(prefix[k] == order[k]);
        }
        lemma_after_prefix(n, prefix, outs);
        assert forall|j: int| 0 <= j < n implies #[trigger] after_completions(
            empty_slots(n),
            order,
            outs,
        )[j] == if order.contains(j) {
            Some(outs[j])
        } else {
            None
        } by {
            if j != order.last() {
                if order.contains(j) {
                    let k = choose|k: int| 0 <= k < order.len() && order[k] == j;
                    assert(k != order.len() - 1);
                    assert(prefix[k] == j);
                }
                if prefix.contains(j) {
                    let k = choose|k: int| 0 <= k < prefix.len() && prefix[k] == j;
                    assert(order[k] == j);
                }
            } else {
                assert(order[order.len() - 1] == j);
            }
        }
    }
}

/// Whatever order the calls of a fan-out complete in, once each has been
/// recorded, the outcomes stand in destination order: slot `i` holds the
/// outcome of destination `i`, and there are as many as destinations.
pub proof fn lemma_completion_order_irrelevant(
    n: nat,
    order: Seq<int>,
    outs: Seq<OutboundOutcome>,
)
    requires
        outs.len() == n,
        is_completion_order(order, n),
    ensures
        after_completions(empty_slots(n), order, outs) == Seq::new(
            n,
            |i: int| Some(outs[i]),
        ),
{
    lemma_after_prefix(n, order, outs);
    assert forall|j: int| 0 <= j < n implies order.contains(j) by {
        let covered = order.to_set();
        order.unique_seq_to_set();
        let range = Set::new(|i: int| 0 <= i < n);
        assert(covered.subset_of(range));
        vstd::set_lib::lemma_int_range(0, n as int);
        assert(range =~= vstd::set_lib::set_int_range(0, n as int));
        vstd::set_lib::lemma_subset_equality(covered, range);
        assert(range.contains(j));
    }
    assert(after_completions(empty_slots(n), order, outs) =~= Seq::new(n, |i: int| Some(outs[i])));
}

impl OutcomeSlots {
    /// Slots for `n` destinations, none completed yet.
    pub fn new(n: usize) -> (r: OutcomeSlots)
        ensures
            r@ == empty_slots(n as nat),
    {
        let mut slots: Vec<Option<OutboundOutcome>> = Vec::new();
        let mut i: usize = 0;
        while i < n
            invariant
                i <= n,
                slots@ == empty_slots(i as nat),
            decreases n - i,
        {
            slots.push(None);
            i += 1;
            assert(slots@ =~= empty_slots(i as nat));
        }
        OutcomeSlots { slots }
    }

    pub fn len(&self) -> (r: usize)
        ensures
            r == self@.len(),
    {
        self.slots.len()
    }

    /// Records the outcome of destination `index`.
    pub fn record(&mut self, index: usize, outcome: OutboundOutcome)
        requires
            index < old(self)@.len(),
        ensures
            final(self)@ == old(self)@.update(index as int, Some(outcome)),
    {
        self.slots.set(index, Some(outcome));
    }

    /// Whether every destination has an outcome.
    pub fn is_complete(&self) -> (r: bool)
        ensures
            r == all_filled(self@),
    {
        let mut i: usize = 0;
        while i < self.slots.len()
            invariant
                i <= self@.len(),
                forall|j: int| 0 <= j < i ==> #[trigger] self@[j] is Some,
            decreases self@.len() - i,
        {
            if self.slots[i].is_none() {
                return false;
            }
            i += 1;
        }
        true
    }

    /// The outcomes in destination order, once every destination has one;
    /// `None` while one is missing.
    pub fn into_outcomes(self) -> (r: Option<Vec<OutboundOutcome>>)
        ensures
            r is Some <==> all_filled(self@),
            r is Some ==> r->0@.len() == self@.len(),
            r is Some ==> forall|i: int|
                0 <= i < self@.len() ==> self@[i] == Some(#[trigger] r->0@[i]),
    {
        if !self.is_complete() {
            return None;
        }
        let ghost all = self@;
        let mut rest = self.slots;
        let mut out: Vec<OutboundOutcome> = Vec::new();
        while rest.len() > 0
            invariant
                all_filled(all),
                out@.len() + rest@.len() == all.len(),
                rest@ == all.skip(out@.len() as int),
                forall|i: int| 0 <= i < out@.len() ==> all[i] == Some(#[trigger] out@[i]),
            decreases rest@.len(),
        {
            let ghost k = out@.len() as int;
            let slot = rest.remove(0);
            assert(slot == all[k]);
            assert(all[k] is Some);
            match slot {
                Some(o) => {
                    out.push(o);
                },
                None => {},
            }
            assert(rest@ =~= all.skip(out@.len() as int));
        }
        Some(out)
    }
}

} // verus!
