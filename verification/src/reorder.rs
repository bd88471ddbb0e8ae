//! The writer's ordering of runs that the workers finish out of order.

use crate::types::MessageBlock;
use std::collections::HashMap;
use vstd::prelude::*;

verus! {

broadcast use vstd::std_specs::hash::group_hash_axioms;

/// Runs `1..` of `ready` are the held runs that follow `start` without a gap.
pub open spec fn released_in_order(ready: Seq<MessageBlock>, pending: Map<usize, MessageBlock>, start: nat) -> bool {
    forall|key: usize|
        start < key < start + ready.len() ==> #[trigger] pending.contains_key(key) && ready[key - start]
            == pending[key]
}

proof fn lemma_released_push(
    ready: Seq<MessageBlock>,
    pending: Map<usize, MessageBlock>,
    start: nat,
    next: MessageBlock,
)
    requires
        released_in_order(ready, pending, start),
        start + ready.len() <= usize::MAX,
        pending.contains_key((start + ready.len()) as usize),
        next == pending[(start + ready.len()) as usize],
    ensures
        released_in_order(ready.push(next), pending, start),
{
    let longer = ready.push(next);
    assert forall|key: usize| start < key < start + longer.len() implies #[trigger] pending.contains_key(
        key,
    ) && longer[key - start] == pending[key] by {
        if key < start + ready.len() {
            assert(longer[key - start] == ready[key - start]);
        }
    }
}

/// Holds runs that arrive before their turn and releases every run in `id`
/// order, each exactly once.
pub struct ReorderBuffer {
    expected_id: usize,
    pending: HashMap<usize, MessageBlock>,
}

impl ReorderBuffer {
    /// The `id` of the next run to release.
    pub closed spec fn expected(&self) -> nat {
        self.expected_id as nat
    }

    /// The runs held back, by `id`.
    pub closed spec fn pending(&self) -> Map<usize, MessageBlock> {
        self.pending@
    }

    /// The run whose turn it is is never held back, and every held run is
    /// filed under its own `id`.
    pub closed spec fn wf(&self) -> bool {
        &&& !self.pending@.contains_key(self.expected_id)
        &&& forall|key: usize| #[trigger] self.pending@.contains_key(key) ==> self.pending@[key].id == key
    }

    /// A buffer that expects run `0` first.
    pub fn new() -> (buffer: Self)
        ensures
            buffer.wf(),
            buffer.expected() == 0,
            buffer.pending() == Map::<usize, MessageBlock>::empty(),
    {
        ReorderBuffer { expected_id: 0, pending: HashMap::new() }
    }

    /// The `id` of the next run to release.
    pub fn next_expected(&self) -> (id: usize)
        ensures
            id == self.expected(),
    {
        self.expected_id
    }

    /// The number of runs held back.
    pub fn held(&self) -> (count: usize)
        ensures
            count == self.pending().len(),
    {
        self.pending.len()
    }

    /// Takes a finished run. If it is the expected one, returns it followed by
    /// the held-back runs that continue it without a gap, and expects the run
    /// after them; otherwise holds it back (replacing a held run with the same
    /// `id`) and returns nothing.
    pub fn push(&mut self, block: MessageBlock) -> (ready: Vec<MessageBlock>)
        requires
            old(self).wf(),
            old(self).expected() + old(self).pending().len() < usize::MAX,
        ensures
            final(self).wf(),
            block.id != old(self).expected() ==> {
                &&& ready@.len() == 0
                &&& final(self).expected() == old(self).expected()
                &&& final(self).pending() == old(self).pending().insert(block.id, block)
            },
            block.id == old(self).expected() ==> {
                &&& ready@.len() >= 1
                &&& ready@[0] == block
                &&& final(self).expected() == old(self).expected() + ready@.len()
                &&& released_in_order(ready@, old(self).pending(), old(self).expected())
                &&& !old(self).pending().contains_key((old(self).expected() + ready@.len()) as usize)
                &&& final(self).pending() == old(self).pending().remove_keys(
                    Set::new(
                        |key: usize|
                            old(self).expected() < key < old(self).expected() + ready@.len(),
                    ),
                )
            },
            forall|k: int| 0 <= k < ready@.len() ==> (#[trigger] ready@[k]).id == old(self).expected() + k,
    {
        let mut ready: Vec<MessageBlock> = Vec::new();
        if block.id != self.expected_id {
            self.pending.insert(block.id, block);
            return ready;
        }
        let ghost start = self.expected_id as nat;
        let ghost start_pending = self.pending@;
        ready.push(block);
        self.expected_id = self.expected_id + 1;
        proof {
            assert(start_pending.remove_keys(
                Set::new(|key: usize| start < key < start + 1),
            ) =~= start_pending);
        }
        loop
            invariant
                self.expected_id as nat == start + ready@.len(),
                1 <= ready@.len(),
                ready@[0] == block,
                block.id == start,
                !start_pending.contains_key(start as usize),
                start + start_pending.len() < usize::MAX,
                start_pending.dom().finite(),
                forall|key: usize| #[trigger] start_pending.contains_key(key) ==> start_pending[key].id == key,
                released_in_order(ready@, start_pending, start),
                forall|k: int| 0 <= k < ready@.len() ==> (#[trigger] ready@[k]).id == start + k,
                self.pending@ == start_pending.remove_keys(
                    Set::new(|key: usize| start < key < start + ready@.len()),
                ),
                self.pending@.len() + ready@.len() == start_pending.len() + 1,
            ensures
                !self.pending@.contains_key(self.expected_id),
                self.expected_id as nat == start + ready@.len(),
                released_in_order(ready@, start_pending, start),
                forall|k: int| 0 <= k < ready@.len() ==> (#[trigger] ready@[k]).id == start + k,
                self.pending@ == start_pending.remove_keys(
                    Set::new(|key: usize| start < key < start + ready@.len()),
                ),
                ready@[0] == block,
            decreases self.pending@.len(),
        {
            let id = self.expected_id;
            match self.pending.remove(&id) {
                Some(next) => {
                    let ghost before = ready@;
                    let ghost before_pending = self.pending@;
                    proof {
                        let n = ready@.len();
                        assert(start_pending.contains_key(id));
                        assert(next == start_pending[id]);
                        assert(next.id == id);
                    }
                    ready.push(next);
                    self.expected_id = self.expected_id + 1;
                    proof {
                        let n = before.len();
                        assert(ready@ =~= before.push(next));
                        lemma_released_push(before, start_pending, start, next);
                        assert forall|k: int| 0 <= k < ready@.len() implies (#[trigger] ready@[k]).id
                            == start + k by {
                            if k < n {
                                assert(ready@[k] == before[k]);
                            }
                        }
                        assert(self.pending@ =~= start_pending.remove_keys(
                            Set::new(|key: usize| start < key < start + ready@.len()),
                        ));
                    }
                },
                None => {
                    break ;
                },
            }
        }
        ready
    }
}

} // verus!
