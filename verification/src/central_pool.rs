use vstd::multiset::Multiset;
use vstd::prelude::*;

use crate::blocks;
use crate::blocks::Region;
use crate::class_cache;
use crate::class_pool;
use crate::class_pool::{CentralRefill, ClassPool, SlabState, SweepRequest};
use crate::free_list::Batch;
use crate::header;
use crate::local_slab;
use crate::memory::Memory;
use crate::size_class::{SizeClass, NUM_CLASSES};

verus! {

/// Per-class slab registry and batch exchange between thread caches.
pub struct CentralPool {
    /// One pool per size class, in class order.
    pub lists: [ClassPool; NUM_CLASSES],
}

impl CentralPool {
    /// The pool of `class`.
    pub open spec fn pool(self, class: SizeClass) -> ClassPool {
        self.lists@[class.position()]
    }

    /// Every class pool is in order.
    pub open spec fn wf(self) -> bool {
        forall|class: SizeClass| #[trigger] self.pool(class).wf()
    }

    /// The blocks that can leave without their whole slab are linked, and their headers are in
    /// place.
    pub open spec fn ready(self, memory: Memory) -> bool {
        forall|class: SizeClass| #[trigger] self.pool(class).ready(memory, class)
    }

    /// No block belongs to two classes.
    pub open spec fn classes_apart(self) -> bool {
        forall|one: SizeClass, other: SizeClass, block: usize|
            one != other && #[trigger] self.pool(one).knows(block) ==> !(#[trigger] self.pool(
                other,
            ).knows(block))
    }

    /// Every slab lies in `memory` and can hold headers.
    pub open spec fn slabs_fit(self, memory: Memory) -> bool {
        forall|class: SizeClass, region: Region| #[trigger]
            self.pool(class).registered(region) ==> local_slab::region_fits(memory, region)
    }

    /// Central pool and memory belong together.
    pub open spec fn in_step(self, memory: Memory) -> bool {
        &&& memory.wf()
        &&& self.wf()
        &&& self.classes_apart()
        &&& self.slabs_fit(memory)
        &&& self.ready(memory)
    }

    /// Every class pool can count at least `count` more changes.
    pub open spec fn epochs_left(self, count: int) -> bool {
        forall|class: SizeClass| (#[trigger] self.pool(class)).epoch + count <= u64::MAX
    }

    /// All class pools but that of `class` are the same.
    pub open spec fn same_but(self, other: Self, class: SizeClass) -> bool {
        forall|at: SizeClass| at != class ==> #[trigger] self.pool(at) == other.pool(at)
    }

    /// A header can be written at every block of a slab.
    pub proof fn known_blocks_fit(self, memory: Memory, class: SizeClass)
        requires
            self.in_step(memory),
        ensures
            forall|block: usize| #[trigger]
                self.pool(class).knows(block) ==> header::header_fits(memory, block as int),
            header::headers_fit(memory, self.pool(class).held()),
            forall|block: usize| #[trigger]
                self.pool(class).held().count(block) > 0 ==> self.pool(class).knows(block),
    {
        let pool = self.pool(class);
        assert(pool.wf());
        pool.held_facts();
        assert forall|block: usize| #[trigger] pool.knows(block) implies header::header_fits(
            memory,
            block as int,
        ) by {
            let index = choose|index: int|
                0 <= index < pool.slabs@.len() && (#[trigger] pool.slabs@[index]).region().has(
                    block as int,
                );
            assert(pool.registered(pool.slabs@[index].region()));
        }
    }

    /// Creates an empty central pool for a system with pages of `page_size` bytes.
    #[must_use]
    pub fn new(page_size: usize) -> (central: Self)
        requires
            page_size > 0,
        ensures
            central.wf(),
            forall|class: SizeClass|
                #![trigger central.pool(class)]
                central.pool(class).slabs@.len() == 0 && central.pool(class).held() == Multiset::<
                    usize,
                >::empty() && central.pool(class).epoch == 0 && central.pool(class).page_size
                    == page_size,
            forall|memory: Memory| central.ready(memory),
    {
        CentralPool {
            lists: [
                ClassPool::new(page_size),
                ClassPool::new(page_size),
                ClassPool::new(page_size),
                ClassPool::new(page_size),
                ClassPool::new(page_size),
                ClassPool::new(page_size),
                ClassPool::new(page_size),
                ClassPool::new(page_size),
                ClassPool::new(page_size),
                ClassPool::new(page_size),
                ClassPool::new(page_size),
                ClassPool::new(page_size),
            ],
        }
    }

    /// Records a slab all of whose blocks a thread cache took.
    pub fn register_slab(
        &mut self,
        class: SizeClass,
        start: usize,
        block_size: usize,
        capacity: usize,
    )
        requires
            old(self).pool(class).wf(),
            old(self).pool(class).epoch < u64::MAX,
            class_cache::slab_region(start, block_size, capacity).valid(),
            forall|index: int|
                0 <= index < old(self).pool(class).slabs@.len() ==> ((#[trigger] old(self).pool(
                    class,
                ).slabs@[index]).region() == class_cache::slab_region(start, block_size, capacity)
                    && old(self).pool(class).slabs@[index].state == SlabState::Loaned) || old(self).pool(class).slabs@[index].region().apart(
                    class_cache::slab_region(start, block_size, capacity),
                ),
        ensures
            final(self).same_but(*old(self), class),
            final(self).pool(class).wf(),
            final(self).pool(class).held() == old(self).pool(class).held(),
            final(self).pool(class).epoch == old(self).pool(class).epoch + 1,
            final(self).pool(class).inbox == old(self).pool(class).inbox,
            exists|place: int| #[trigger]
                final(self).pool(class).recorded(
                    old(self).pool(class),
                    place,
                    class_cache::slab_region(start, block_size, capacity),
                ),
            exists|middle: ClassPool| #[trigger]
                final(self).pool(class).swept(middle) && middle.sweep_cursor == old(self).pool(
                    class,
                ).sweep_cursor && middle.pending_sweeps == old(self).pool(class).pending_sweeps
                    && middle.epoch == old(self).pool(class).epoch + 1,
            forall|region: Region| #[trigger]
                final(self).pool(class).registered(region) <==> old(self).pool(class).registered(
                    region,
                ) || region == class_cache::slab_region(start, block_size, capacity),
            forall|memory: Memory|
                #![trigger final(self).pool(class).ready(memory, class)]
                #![trigger old(self).pool(class).ready(memory, class)]
                old(self).pool(class).ready(memory, class) ==> final(self).pool(class).ready(
                    memory,
                    class,
                ),
    {
        self.lists[class.index()].register_slab(start, block_size, capacity);
    }

    /// Takes blocks of `class` out of the pool, once the blocks of its inbox are back in their
    /// slabs.
    #[must_use]
    #[verifier::rlimit(60)]
    #[verifier::spinoff_prover]
    pub fn take_refill(&mut self, class: SizeClass, max: usize, memory: &mut Memory) -> (refill:
        CentralRefill)
        requires
            old(self).pool(class).wf(),
            old(self).pool(class).epoch + 2 <= u64::MAX,
            old(memory).wf(),
            old(self).pool(class).ready(*old(memory), class),
        ensures
            final(self).pool(class).ready(*final(memory), class),
            refill matches CentralRefill::Batch(batch) ==> batch.linked(*final(memory)),
            refill matches CentralRefill::Batch(batch) ==> forall|block: usize| #[trigger]
                batch.held().count(block) > 0 ==> header::prepared(
                    *final(memory),
                    block as int,
                    class,
                ),
            final(memory).wf(),
            header::changes(
                *final(memory),
                *old(memory),
                Multiset::empty(),
                old(self).pool(class).held(),
            ),
            old(self).pool(class).held().len() == 0 ==> *final(memory) == *old(memory),
            final(self).same_but(*old(self), class),
            final(self).pool(class).wf(),
            final(self).pool(class).same_slabs(old(self).pool(class)),
            old(self).pool(class).held() == final(self).pool(class).held().add(refill.held()),
            old(self).pool(class).epoch <= final(self).pool(class).epoch <= old(self).pool(
                class,
            ).epoch + 2,
            class_pool::gives(old(self).pool(class), max as int, refill),
            final(self).pool(class).gave_out(old(self).pool(class), max as int, refill),
            refill is Empty <==> max == 0 || old(self).pool(class).held().len() == 0,
            refill matches CentralRefill::Slab { start, block_size, capacity } ==> old(self).pool(
                class,
            ).registered(class_cache::slab_region(start, block_size, capacity)),
            refill matches CentralRefill::Batch(batch) ==> 0 < batch@.len() <= max,
    {
        let index: usize = class.index();
        self.lists[index].drain_inbox(memory);
        let ghost drained = self.lists@[index as int];
        let ghost middle = *memory;
        proof {
            drained.nothing_listed_means_empty();
            old(self).pool(class).held_facts();
            drained.slabs_are_kept(old(self).pool(class));
            drained.listed_slabs_are_there();
        }
        let refill = self.lists[index].take_refill(max, memory);
        proof {
            old(self).pool(class).links_are_held(
                *memory,
                middle,
                *old(memory),
                refill.held(),
            );
            assert(old(self).pool(class).drains_to(drained));
            assert(class_pool::refill_is(drained, max as int, refill));
            assert(self.pool(class).left_by_refill(drained, max as int));
            if let CentralRefill::Slab { start, block_size, capacity } = refill {
                let slot = if drained.full_hot_slabs@.len() > 0 {
                    drained.full_hot_slabs@.last() as int
                } else {
                    drained.full_cold_slabs@.last() as int
                };
                assert(drained.slabs@[slot].region() == class_cache::slab_region(
                    start,
                    block_size,
                    capacity,
                ));
            }
        }
        refill
    }

    /// Returns a batch of blocks of `class` to the pool, after the blocks of its inbox.
    pub fn return_batch(&mut self, class: SizeClass, batch: Batch, memory: &mut Memory)
        requires
            old(memory).wf(),
            old(self).pool(class).ready(*old(memory), class),
            batch.linked(*old(memory)),
            forall|block: usize| #[trigger]
                batch.held().count(block) > 0 ==> header::prepared(
                    *old(memory),
                    block as int,
                    class,
                ),
            old(self).pool(class).wf(),
            old(self).pool(class).epoch + 2 <= u64::MAX,
            forall|block: usize| #[trigger]
                batch.held().count(block) > 0 ==> old(self).pool(class).knows(block),
            blocks::distinct(old(self).pool(class).held().add(batch.held())),
        ensures
            final(self).same_but(*old(self), class),
            final(self).pool(class).wf(),
            final(self).pool(class).same_slabs(old(self).pool(class)),
            final(self).pool(class).held() == old(self).pool(class).held().add(batch.held()),
            final(self).pool(class).inbox@.len() == 0,
            old(self).pool(class).epoch <= final(self).pool(class).epoch <= old(self).pool(
                class,
            ).epoch + 2,
            final(self).pool(class).took_in(old(self).pool(class), batch@),
            final(self).pool(class).ready(*final(memory), class),
            final(memory).wf(),
            header::changes(
                *final(memory),
                *old(memory),
                Multiset::empty(),
                old(self).pool(class).held().add(batch.held()),
            ),
    {
        let index: usize = class.index();
        self.lists[index].drain_inbox(memory);
        let ghost drained = self.lists@[index as int];
        let ghost middle = *memory;
        proof {
            drained.slabs_are_kept(old(self).pool(class));
            assert(old(self).pool(class).drains_to(drained));
            old(self).pool(class).batch_is_spared(batch, middle, *old(memory), class);
        }
        self.lists[index].return_batch(batch, memory);
        proof {
            old(self).pool(class).links_are_held(
                *memory,
                middle,
                *old(memory),
                batch.held(),
            );
        }
    }

    /// Accepts blocks of `class` freed by caches that do not own them.
    pub fn publish_remote_batch(&mut self, class: SizeClass, batch: Batch, memory: &mut Memory)
        requires
            old(memory).wf(),
            old(self).pool(class).ready(*old(memory), class),
            batch.linked(*old(memory)),
            forall|block: usize| #[trigger]
                batch.held().count(block) > 0 ==> header::prepared(
                    *old(memory),
                    block as int,
                    class,
                ),
            old(self).pool(class).wf(),
            forall|block: usize| #[trigger]
                batch.held().count(block) > 0 ==> old(self).pool(class).knows(block),
            blocks::distinct(old(self).pool(class).held().add(batch.held())),
        ensures
            final(self).same_but(*old(self), class),
            final(self).pool(class).wf(),
            final(self).pool(class) == (ClassPool {
                inbox: final(self).pool(class).inbox,
                ..old(self).pool(class)
            }),
            final(self).pool(class).inbox@ == old(self).pool(class).inbox@ + batch@,
            final(self).pool(class).held() == old(self).pool(class).held().add(batch.held()),
            final(self).pool(class).ready(*final(memory), class),
            final(memory).wf(),
            header::changes(*final(memory), *old(memory), Multiset::empty(), batch.held()),
    {
        self.lists[class.index()].publish_remote_batch(batch, memory);
    }

    /// Returns whether every class pool can count at least `count` more changes.
    #[must_use]
    pub fn can_count(&self, count: u64) -> (result: bool)
        ensures
            result == self.epochs_left(count as int),
    {
        let mut index: usize = 0;
        while index < NUM_CLASSES
            invariant
                index <= NUM_CLASSES,
                forall|class: SizeClass|
                    #![trigger self.pool(class)]
                    class.position() < index ==> self.pool(class).epoch + count <= u64::MAX,
            decreases NUM_CLASSES - index,
        {
            if self.lists[index].epoch > u64::MAX - count {
                proof {
                    let class = SizeClass::ALL[index as int];
                    assert(self.pool(class) == self.lists@[index as int]);
                }
                return false;
            }
            index = index + 1;
        }
        true
    }

    /// Returns the number of blocks that the pool holds, per class.
    #[must_use]
    pub fn block_counts(&self) -> (counts: [usize; NUM_CLASSES])
        requires
            self.wf(),
        ensures
            forall|class: SizeClass|
                #![trigger self.pool(class)]
                counts@[class.position()] == self.pool(class).held().len(),
    {
        let mut counts: [usize; NUM_CLASSES] = [0;12];
        let mut index: usize = 0;
        while index < NUM_CLASSES
            invariant
                self.wf(),
                index <= NUM_CLASSES,
                forall|at: int|
                    0 <= at < index ==> #[trigger] counts@[at] == self.lists@[at].held().len(),
            decreases NUM_CLASSES - index,
        {
            assert(self.pool(SizeClass::ALL[index as int]).wf());
            counts[index] = self.lists[index].central_block_count();
            index = index + 1;
        }
        counts
    }

    /// Takes the request to give back the pages of an idle slab of `class`, if there is one and
    /// the slab is still idle.
    #[must_use]
    pub fn take_sweep_request(&mut self, class: SizeClass) -> (request: Option<SweepRequest>)
        requires
            old(self).pool(class).wf(),
        ensures
            final(self).same_but(*old(self), class),
            final(self).pool(class).handed_over(old(self).pool(class), request),
            final(self).pool(class).wf(),
            final(self).pool(class).held() == old(self).pool(class).held(),
            forall|memory: Memory|
                #![trigger final(self).pool(class).ready(memory, class)]
                #![trigger old(self).pool(class).ready(memory, class)]
                final(self).pool(class).ready(memory, class) == old(self).pool(class).ready(
                    memory,
                    class,
                ),
    {
        self.lists[class.index()].take_sweep_request()
    }

    /// Records that the system took the pages of the slab of `class` at `slab_start`.
    pub fn complete_sweep(&mut self, class: SizeClass, slab_start: usize, advised: bool) -> (cooled:
        bool)
        requires
            old(self).pool(class).wf(),
        ensures
            final(self).same_but(*old(self), class),
            final(self).pool(class).wf(),
            final(self).pool(class).same_slabs(old(self).pool(class)),
            final(self).pool(class).held() == old(self).pool(class).held(),
            final(self).pool(class).epoch == old(self).pool(class).epoch,
            cooled == (advised && exists|index: int|
                0 <= index < old(self).pool(class).slabs@.len() && (#[trigger] old(self).pool(
                    class,
                ).slabs@[index]).start == slab_start && old(self).pool(
                    class,
                ).slabs@[index].sweepable(old(self).pool(class).epoch)),
            !cooled ==> final(self).pool(class) == old(self).pool(class),
            cooled ==> final(self).pool(class).cooled_down(old(self).pool(class), slab_start),
            forall|memory: Memory|
                #![trigger final(self).pool(class).ready(memory, class)]
                #![trigger old(self).pool(class).ready(memory, class)]
                old(self).pool(class).ready(memory, class) ==> final(self).pool(class).ready(
                    memory,
                    class,
                ),
    {
        self.lists[class.index()].complete_sweep(slab_start, advised)
    }

    /// Declares the slab of `class` that became full last idle and its pages given back.
    pub fn force_first_full_hot_to_cold_for_test(&mut self, class: SizeClass) -> (cooled: bool)
        requires
            old(self).pool(class).wf(),
        ensures
            final(self).same_but(*old(self), class),
            final(self).pool(class).wf(),
            final(self).pool(class).same_slabs(old(self).pool(class)),
            final(self).pool(class).held() == old(self).pool(class).held(),
            final(self).pool(class).forced_cold(old(self).pool(class), cooled),
            forall|memory: Memory|
                #![trigger final(self).pool(class).ready(memory, class)]
                #![trigger old(self).pool(class).ready(memory, class)]
                old(self).pool(class).ready(memory, class) ==> final(self).pool(class).ready(
                    memory,
                    class,
                ),
    {
        self.lists[class.index()].force_first_full_hot_to_cold_for_test()
    }
}

} // verus!
