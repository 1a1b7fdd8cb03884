use vstd::prelude::*;

verus! {

/// Issues tensor ids: each one greater than every id issued before it.
pub struct UniqueIds {
    next: usize,
    issued: Ghost<Set<usize>>,
}

impl UniqueIds {
    /// The id that will be issued next.
    pub closed spec fn next_value(&self) -> usize {
        self.next
    }

    /// The ids issued so far.
    pub closed spec fn issued(&self) -> Set<usize> {
        self.issued@
    }

    pub closed spec fn wf(&self) -> bool {
        forall|x: usize| self.issued@.contains(x) ==> x < self.next
    }

    /// A counter that has issued nothing.
    pub fn new() -> (r: UniqueIds)
        ensures
            r.wf(),
            r.next_value() == 0,
            r.issued() == Set::<usize>::empty(),
    {
        UniqueIds { next: 0, issued: Ghost(Set::empty()) }
    }

    /// Issues a fresh id, greater than every id issued before.
    pub fn next_id(&mut self) -> (r: usize)
        requires
            old(self).wf(),
            old(self).next_value() < usize::MAX,
        ensures
            final(self).wf(),
            r == old(self).next_value(),
            final(self).next_value() == old(self).next_value() + 1,
            forall|x: usize| old(self).issued().contains(x) ==> x < r,
            !old(self).issued().contains(r),
            final(self).issued() == old(self).issued().insert(r),
    {
        let r = self.next;
        self.next = self.next + 1;
        self.issued = Ghost(self.issued@.insert(r));
        r
    }
}

/// `ids` are the ids issued by successive `next_id` calls, `states[i]` being the
/// counter before call `i` and `states[i + 1]` the counter after it.
pub open spec fn issued_in_turn(states: Seq<UniqueIds>, ids: Seq<usize>) -> bool {
    &&& states.len() == ids.len() + 1
    &&& forall|i: int|
        0 <= i < ids.len() ==> {
            &&& #[trigger] ids[i] == states[i].next_value()
            &&& states[i + 1].next_value() == states[i].next_value() + 1
            &&& states[i + 1].issued() == states[i].issued().insert(ids[i])
        }
}

/// Across any number of constructions from one counter, the issued ids are
/// pairwise distinct, and none was issued before the first of them.
pub proof fn lemma_ids_distinct(states: Seq<UniqueIds>, ids: Seq<usize>)
    requires
        issued_in_turn(states, ids),
        states[0].wf(),
    ensures
        forall|i: int, j: int| 0 <= i < j < ids.len() ==> #[trigger] ids[i] != #[trigger] ids[j],
        forall|i: int| 0 <= i < ids.len() ==> !states[0].issued().contains(#[trigger] ids[i]),
{
    assert forall|i: int| 0 <= i < ids.len() implies #[trigger] ids[i] == states[0].next_value() + i by {
        lemma_issued_offset(states, ids, i);
    }
}

proof fn lemma_issued_offset(states: Seq<UniqueIds>, ids: Seq<usize>, i: int)
    requires
        issued_in_turn(states, ids),
        0 <= i < ids.len(),
    ensures
        ids[i] == states[0].next_value() + i,
    decreases i,
{
    if i > 0 {
        lemma_issued_offset(states, ids, i - 1);
        assert(ids[i - 1] == states[i - 1].next_value());
    }
}

} // verus!
