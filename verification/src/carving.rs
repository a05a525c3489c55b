//! How an allocator carves chunks.
use crate::accounts::{
    calm, chunks_left, counts, evolves, failed, has_nothing, has_tables, holds, is_set_up,
    lemma_alike, lemma_broke_after, lemma_carries, lemma_counts, lemma_has_nothing, lemma_holds,
    lemma_lift, lemma_served_after, lemma_set_up_same, lemma_spare, lemma_spared, lemma_step, ready,
    served, spared, step, took_chunk, turned_down,
};
use crate::blocks::run_of_blocks;
use crate::chunks::refused_region;
use crate::failures::PanicCause;
use crate::incoming::{
    brought_back, has_room_for_incoming, knows_senders, lemma_nothing_incoming,
    lemma_room_for_nothing, lemma_untouched, lemma_untouched_vectors, untouched,
};
use crate::inner::{elem_weight, ThreadLocalAllocatorInner, FIRST_CHUNKS};
use crate::non_local_ptr_manager::{offset_of_class, NonLocalPtrManager, OffsetToSlotInTable};
use crate::os::{ChunkMetadata, Environment};
use crate::ownership::{
    lemma_carved_after, lemma_passes, lemma_passes_carved, lemma_taken_and_carved, passes,
    passes_chunk,
};
use crate::region::{
    init_metadata_for_common_chunk, init_metadata_for_large_chunk, is_metadata_key, metadata_of,
    metadata_or_zero, only_metadata_changed,
};
use crate::sizes::{
    chunk_size_of_class, class_size, lemma_class, size_of_class, slots_in_chunk, slots_of_class,
    COMMON_SIZE_TABLE_LEN,
};
use crate::state::{can_take_region, State};
use crate::steps::{
    lemma_carved, lemma_dropped, lemma_gave_up, lemma_given_too, lemma_listed, lemma_listed_in_vain,
    lemma_metadata_written, lemma_more_given, lemma_more_held, lemma_noted_given_up, lemma_popped,
    lemma_tallies, lemma_with_state,
};
use crate::thread_local_allocator::ThreadLocalAllocator;
use crate::vec_in_os::made_room;
use crate::vectors::{only_elems_changed, table_exists, took_last, Reserved};
use vstd::prelude::*;

verus! {

/// The vector of chunks that a chunk of the class is taken from.
pub open spec fn source_of(class: int) -> int {
    if class < 128 {
        432
    } else {
        433
    }
}

/// Whether a chunk of the class can be carved without more memory.
pub open spec fn can_carve<N: NonLocalPtrManager>(a: ThreadLocalAllocator<N>, class: int) -> bool {
    &&& a.inner.manager_ptr != 0
    &&& table_exists(a, 216 + class)
    &&& a.len_of(216 + class) < a.cap_of(216 + class)
    &&& a.len_of(class) + slots_of_class(class) - 1 <= a.cap_of(class)
}

/// Whether a free chunk is carved next for an object of the class: no object is free, none has
/// come back, and the chunk can be carved without more memory.
pub open spec fn carves_next<N: NonLocalPtrManager>(
    a: ThreadLocalAllocator<N>,
    class: int,
) -> bool {
    &&& a.len_of(class) == 0
    &&& a.incoming().len() == 0
    &&& a.len_of(source_of(class)) > 0
    &&& can_carve(a, class)
}

/// Whether there may be no chunk to carve for an object of the class: none is free, or an object
/// of the class is, or may have come back.
pub open spec fn no_chunk_to_carve<N: NonLocalPtrManager>(
    a: ThreadLocalAllocator<N>,
    class: int,
) -> bool {
    a.len_of(class) > 0 || a.incoming().len() > 0 || a.len_of(source_of(class)) == 0
}

/// The free objects of a class after all that has come in was taken.
pub open spec fn objects_after_incoming<N: NonLocalPtrManager>(
    a: ThreadLocalAllocator<N>,
    class: int,
) -> Seq<usize> {
    a.inner.vectors@[class]@ + brought_back(a.incoming().reverse(), class)
}

/// Whether an object of the class has come back that can be taken without more memory: the vectors
/// have room for all that has come in.
pub open spec fn has_come_back<N: NonLocalPtrManager>(
    a: ThreadLocalAllocator<N>,
    class: int,
) -> bool {
    &&& has_room_for_incoming(a)
    &&& knows_senders(a)
    &&& objects_after_incoming(a, class).len() > 0
}

/// What taking an object that has come back does: all that has come in is taken, and the object
/// that is then the last one of its class is handed out. No chunk is carved.
pub open spec fn took_what_came_back<N: NonLocalPtrManager>(
    a0: ThreadLocalAllocator<N>,
    a1: ThreadLocalAllocator<N>,
    class: int,
    r: Result<Option<usize>, PanicCause>,
) -> bool {
    &&& r == Ok::<Option<usize>, PanicCause>(Some(objects_after_incoming(a0, class).last()))
    &&& a1.incoming().len() == 0
    &&& forall|slot: int|
        0 <= slot < 435 ==> (#[trigger] a1.inner.vectors@[slot])@ == if slot == class {
            objects_after_incoming(a0, class).drop_last()
        } else {
            a0.inner.vectors@[slot]@ + brought_back(a0.incoming().reverse(), slot)
        }
}

/// Whether an allocator has nothing that an object of the class could be taken from: no object is
/// free, none has come back, and no chunk is free that could be carved or split.
pub open spec fn cache_is_empty<N: NonLocalPtrManager>(
    a: ThreadLocalAllocator<N>,
    class: int,
) -> bool {
    &&& a.len_of(class) == 0
    &&& a.incoming().len() == 0
    &&& class < 128 ==> a.len_of(432) == 0
    &&& a.len_of(433) == 0
}

/// The last object of a chunk that is carved for a class.
pub open spec fn last_object(class: int, chunk: int) -> int {
    chunk + (slots_of_class(class) - 1) * class_size(class)
}

/// What a vector holds after a chunk was carved for a class; `source` is the vector that the chunk
/// was taken from.
pub open spec fn after_carving<N: NonLocalPtrManager>(
    a: ThreadLocalAllocator<N>,
    class: int,
    chunk: usize,
    source: int,
    slot: int,
) -> Seq<usize> {
    let elems = a.inner.vectors@[slot]@;
    if slot == source {
        elems.drop_last()
    } else if slot == class {
        elems + run_of_blocks(chunk as int, class_size(class), slots_of_class(class) - 1)
    } else if slot == 216 + class {
        elems.push(chunk)
    } else {
        elems
    }
}

/// What carving a chunk for a class does where no more memory is needed for it: the chunk is
/// listed, its objects are free but for the last one, and its owner is noted.
pub open spec fn carved<N: NonLocalPtrManager>(
    a0: ThreadLocalAllocator<N>,
    a1: ThreadLocalAllocator<N>,
    class: int,
    chunk: usize,
    source: int,
    manager: usize,
) -> bool {
    &&& a1.inner == (ThreadLocalAllocatorInner {
        vectors: a1.inner.vectors,
        env: a1.inner.env,
        ..a0.inner
    })
    &&& a1.incoming() == a0.incoming()
    &&& forall|slot: int|
        0 <= slot < 435 ==> (#[trigger] a1.inner.vectors@[slot])@ == after_carving(
            a0,
            class,
            chunk,
            source,
            slot,
        )
    &&& forall|slot: int| 0 <= slot < 435 ==> #[trigger] a1.cap_of(slot) == a0.cap_of(slot)
    &&& a1.inner.env == (Environment {
        metadata: a1.inner.env.metadata,
        outbox: a1.inner.env.outbox,
        ..a0.inner.env
    })
    &&& a1.inner.env.outbox@ == a0.inner.env.outbox@
    &&& forall|key: usize| #[trigger]
        metadata_or_zero(a1.inner.env, key) == metadata_after(
            a0.inner.env,
            class,
            chunk as int,
            manager,
            key,
        )
}

/// What carving the next free chunk for an object of a class does, and that the object is its last
/// one.
pub open spec fn carved_next<N: NonLocalPtrManager>(
    a0: ThreadLocalAllocator<N>,
    a1: ThreadLocalAllocator<N>,
    class: int,
    r: Result<Option<usize>, PanicCause>,
) -> bool {
    let chunk = a0.inner.vectors@[source_of(class)]@.last();
    let last = last_object(class, chunk as int) as usize;
    &&& r == Ok::<Option<usize>, PanicCause>(Some(last))
    &&& carved(a0, a1, class, chunk, source_of(class), a0.inner.manager_ptr)
}

/// Whether the owner of all common chunks that a chunk of the class has is noted.
pub open spec fn has_owner<N: NonLocalPtrManager>(
    a: ThreadLocalAllocator<N>,
    class: int,
    chunk: int,
    manager: usize,
) -> bool {
    let start = metadata_of(a.inner.env.region_size as int, chunk);
    let n = if class < 128 {
        1int
    } else {
        8
    };
    forall|key: usize|
        is_metadata_key(start, n, key as int) ==> #[trigger] metadata_or_zero(a.inner.env, key)
            == Some(
            ChunkMetadata {
                non_local_ptr_manager: manager,
                offset_to_slot_in_table: offset_of_class(class),
            },
        )
}

/// What noting the owner of a chunk does.
pub open spec fn noted_owner<N: NonLocalPtrManager>(
    a0: ThreadLocalAllocator<N>,
    a1: ThreadLocalAllocator<N>,
    class: int,
    chunk: int,
    manager: usize,
) -> bool {
    &&& a1.inner == (ThreadLocalAllocatorInner { env: a1.inner.env, ..a0.inner })
    &&& a1.non_local_ptr_manager == a0.non_local_ptr_manager
    &&& only_metadata_changed(a0.inner.env, a1.inner.env)
    &&& forall|key: usize| #[trigger]
        metadata_or_zero(a1.inner.env, key) == metadata_after(
            a0.inner.env,
            class,
            chunk,
            manager,
            key,
        )
}

/// The metadata at a place after the owner of a chunk was noted, for as many common chunks as a
/// chunk of the class has.
pub open spec fn metadata_after(
    env: Environment,
    class: int,
    chunk: int,
    manager: usize,
    key: usize,
) -> Option<ChunkMetadata> {
    let n = if class < 128 {
        1int
    } else {
        8
    };
    if is_metadata_key(metadata_of(env.region_size as int, chunk), n, key as int) {
        Some(
            ChunkMetadata {
                non_local_ptr_manager: manager,
                offset_to_slot_in_table: offset_of_class(class),
            },
        )
    } else {
        metadata_or_zero(env, key)
    }
}

/// A chunk that is carved step by step: it is listed, its objects are made free, and its owner is
/// noted.
proof fn lemma_carved_exactly<N: NonLocalPtrManager>(
    a0: ThreadLocalAllocator<N>,
    a1: ThreadLocalAllocator<N>,
    a2: ThreadLocalAllocator<N>,
    a3: ThreadLocalAllocator<N>,
    class: int,
    chunk: usize,
    manager: usize,
)
    requires
        0 <= class < 216,
        a0.wf(),
        only_elems_changed(a0, a1),
        a1.inner.vectors@ == a0.inner.vectors@.update(216 + class, a1.inner.vectors@[216 + class]),
        a1.inner.vectors@[216 + class]@ == a0.inner.vectors@[216 + class]@.push(chunk),
        only_elems_changed(a1, a2),
        a2.inner.vectors@ == a1.inner.vectors@.update(class, a2.inner.vectors@[class]),
        a2.inner.vectors@[class]@ == a1.inner.vectors@[class]@ + run_of_blocks(
            chunk as int,
            class_size(class),
            slots_of_class(class) - 1,
        ),
        noted_owner(a2, a3, class, chunk as int, manager),
    ensures
        carved(a0, a3, class, chunk, -1, manager),
{
    assert(a0.inner.vectors@.len() == 435);
    assert forall|slot: int| 0 <= slot < 435 implies (#[trigger] a3.inner.vectors@[slot])@
        == after_carving(a0, class, chunk, -1, slot) by {
        assert(a2.inner.vectors@[slot] == if slot == class {
            a2.inner.vectors@[class]
        } else {
            a1.inner.vectors@[slot]
        });
    }
    assert forall|slot: int| 0 <= slot < 435 implies #[trigger] a3.cap_of(slot) == a0.cap_of(
        slot,
    ) by {
        assert(a2.cap_of(slot) == a1.cap_of(slot));
        assert(a1.cap_of(slot) == a0.cap_of(slot));
    }
}

/// A chunk that is taken after incoming pointers were looked for, and then carved.
proof fn lemma_carved_next<N: NonLocalPtrManager>(
    a0: ThreadLocalAllocator<N>,
    a1: ThreadLocalAllocator<N>,
    a2: ThreadLocalAllocator<N>,
    a3: ThreadLocalAllocator<N>,
    class: int,
    chunk: usize,
    manager: usize,
)
    requires
        0 <= class < 216,
        a0.wf(),
        a1.wf(),
        untouched(a0, a1),
        took_last(a1, a2, source_of(class)),
        carved(a2, a3, class, chunk, -1, manager),
    ensures
        carved(a0, a3, class, chunk, source_of(class), manager),
{
    let source = source_of(class);
    lemma_untouched_vectors(a0, a1);
    assert(a0.inner.vectors@.len() == 435);
    assert forall|slot: int| 0 <= slot < 435 implies (#[trigger] a3.inner.vectors@[slot])@
        == after_carving(a0, class, chunk, source, slot) by {
        assert(a3.inner.vectors@[slot]@ == after_carving(a2, class, chunk, -1, slot));
        assert(a1.inner.vectors@[slot]@ == a0.inner.vectors@[slot]@);
        if slot == source {
            assert(a2.inner.vectors@[slot]@ == a1.inner.vectors@[slot]@.drop_last());
        } else {
            assert(a2.inner.vectors@[slot] == a1.inner.vectors@[slot]);
        }
    }
    assert forall|slot: int| 0 <= slot < 435 implies #[trigger] a3.cap_of(slot) == a0.cap_of(
        slot,
    ) by {
        assert(a2.cap_of(slot) == a1.cap_of(slot));
        assert(a1.cap_of(slot) == a0.cap_of(slot));
    }
    assert(a2.incoming() == a1.incoming());
    assert forall|key: usize| #[trigger]
        metadata_or_zero(a2.inner.env, key) == metadata_or_zero(a0.inner.env, key) by {}
}

/// A chunk can be carved after it was taken where it could be carved before.
proof fn lemma_can_carve_after<N: NonLocalPtrManager>(
    a0: ThreadLocalAllocator<N>,
    a1: ThreadLocalAllocator<N>,
    a2: ThreadLocalAllocator<N>,
    class: int,
)
    requires
        0 <= class < 216,
        a0.wf(),
        a1.wf(),
        untouched(a0, a1),
        took_last(a1, a2, source_of(class)),
        can_carve(a0, class),
    ensures
        can_carve(a2, class),
        a2.inner.manager_ptr == a0.inner.manager_ptr,
        a2.len_of(class) == a0.len_of(class),
{
    lemma_untouched_vectors(a0, a1);
    assert(a0.inner.vectors@.len() == 435);
    assert(a1.inner.vectors@[class]@ == a0.inner.vectors@[class]@);
    assert(a1.inner.vectors@[216 + class]@ == a0.inner.vectors@[216 + class]@);
    assert(a2.inner.vectors@[class] == a1.inner.vectors@[class]);
    assert(a2.inner.vectors@[216 + class] == a1.inner.vectors@[216 + class]);
    assert(a1.cap_of(class) == a0.cap_of(class));
    assert(a1.cap_of(216 + class) == a0.cap_of(216 + class));
}

impl<N: NonLocalPtrManager> ThreadLocalAllocator<N> {
    /// Looks for incoming pointers, and takes a free object of the class if there is one now.
    pub(crate) fn check_and_pop(&mut self, class: usize) -> (r: Result<Option<usize>, PanicCause>)
        requires
            old(self).wf(),
            class < 216,
        ensures
            served(*old(self), None, *final(self), None, class_size(class as int), r, false),
            r is Ok ==> calm(*old(self), None, *final(self), None),
            r == Ok::<Option<usize>, PanicCause>(None) ==> final(self).len_of(class as int) == 0,
            has_come_back(*old(self), class as int) ==> took_what_came_back(
                *old(self),
                *final(self),
                class as int,
                r,
            ),
            old(self).incoming().len() == 0 && old(self).len_of(class as int) == 0 ==> r == Ok::<
                Option<usize>,
                PanicCause,
            >(None) && untouched(*old(self), *final(self)) && final(self).inner == old(self).inner,
        decreases
                old(self).unread(),
                chunks_left(*old(self), None),
                old(self).incoming().len(),
                old(self).spare(),
                21int,
    {
        let ghost a0 = *self;
        proof {
            lemma_spare(a0, a0);
        }
        proof {
            if a0.incoming().len() == 0 {
                lemma_room_for_nothing(a0);
            }
        }
        match self.check_non_local_ptrs() {
            Ok(()) => {},
            Err(cause) => {
                return Err(cause);
            },
        }
        let ghost a1 = *self;
        proof {
            if a0.incoming().len() == 0 {
                lemma_nothing_incoming(a0, a1);
                assert(a1.inner.vectors@[class as int]@ == a0.inner.vectors@[class as int]@);
            }
        }
        let r: Result<Option<usize>, PanicCause> = Ok(self.pop(class));
        proof {
            if has_come_back(a0, class as int) {
                assert(a1.inner.vectors@[class as int]@ == objects_after_incoming(
                    a0,
                    class as int,
                ));
                assert(a1.inner.vectors@.len() == 435);
            }
            if let Ok(Some(ptr)) = r {
                lemma_popped(a1, None, *self, class as int, ptr);
                lemma_served_after(
                    a0,
                    None,
                    a1,
                    None,
                    *self,
                    None,
                    class_size(class as int),
                    r,
                    false,
                );
            }
        }
        r
    }

    /// Takes a chunk that is not carved yet; where `full` is set, one of a fresh region if need
    /// be.
    pub(crate) fn take_chunk(&mut self, full: bool, is_common: bool) -> (r: Result<
        Option<usize>,
        PanicCause,
    >)
        requires
            old(self).wf(),
        ensures
            took_chunk(
                *old(self),
                None,
                *final(self),
                None,
                if is_common {
                    65536
                } else {
                    524288
                },
                r,
                full,
            ),
            ({
                let source = if is_common {
                    432int
                } else {
                    433
                };
                old(self).len_of(source) > 0 ==> r == Ok::<Option<usize>, PanicCause>(
                    Some(old(self).inner.vectors@[source]@.last()),
                ) && took_last(*old(self), *final(self), source)
            }),
            (is_common ==> old(self).len_of(432) == 0) && old(self).len_of(433) == 0 && (!full
                || !can_take_region(old(self).inner.env, true)) ==> r == Ok::<
                Option<usize>,
                PanicCause,
            >(None) && refused_region(*old(self), *final(self), full),
            old(self).len_of(432) == 0 && old(self).len_of(433) == 0 && (r is Ok && r->Ok_0 is Some)
                ==> has_tables(*final(self)),
            is_set_up(*old(self)) && full && r is Ok ==> is_set_up(*final(self)),
        decreases
                old(self).unread(),
                chunks_left(*old(self), None),
                old(self).incoming().len(),
                old(self).spare(),
                25int,
    {
        proof {
            lemma_spare(*self, *self);
        }
        if !full {
            Ok(self.try_get_chunk(is_common))
        } else if is_common {
            self.get_common_chunk()
        } else {
            self.get_large_chunk()
        }
    }

    /// Takes a free object of the class if there is one now, and gives the chunk up.
    pub(crate) fn pop_instead(&mut self, class: usize, chunk: usize) -> (r: Option<usize>)
        requires
            old(self).wf(),
            class < 216,
        ensures
            match r {
                Some(ptr) => {
                    &&& evolves(*old(self), None, *final(self), None)
                    &&& holds(
                        *old(self),
                        None,
                        *final(self),
                        None,
                        chunk as int,
                        chunk_size_of_class(class as int),
                        ptr as int,
                        class_size(class as int),
                    )
                    &&& counts(
                        *old(self),
                        None,
                        *final(self),
                        None,
                        -elem_weight(216 + class),
                        class_size(class as int),
                    )
                    &&& passes(
                        *old(self),
                        None,
                        *final(self),
                        None,
                        (0, 0, ptr as int, class_size(class as int)),
                    )
                    &&& ptr > 0
                    &&& ptr + class_size(class as int) <= usize::MAX
                },
                None => *final(self) == *old(self),
            },
            r is Some <==> old(self).len_of(class as int) > 0,
    {
        let ghost a0 = *self;
        let ptr: usize = match self.pop(class) {
            Some(ptr) => ptr,
            None => {
                return None;
            },
        };
        let ghost a1 = *self;
        if class < COMMON_SIZE_TABLE_LEN {
            self.inner.free_common(chunk);
        } else {
            self.inner.free_large(chunk);
        }
        let ghost a2 = *self;
        self.inner.note_given_up();
        proof {
            let size = class_size(class as int);
            lemma_popped(a0, None, a1, class as int, ptr);
            lemma_gave_up(a1, None, a2);
            lemma_step(
                a0,
                None,
                a1,
                None,
                a2,
                None,
                (0, 0, ptr as int, size),
                (0, 0, 0, 0),
            );
            lemma_class(class as int);
            lemma_noted_given_up(a2, *self, -elem_weight(216 + class));
            lemma_carries(a0, None, a2, None, *self, None);
            lemma_holds(
                a0,
                None,
                a2,
                None,
                *self,
                None,
                (0, 0, ptr as int, size),
                (0, 0, 0, 0),
            );
            lemma_passes(
                a0,
                None,
                a2,
                None,
                *self,
                None,
                (0, 0, ptr as int, size),
                (0, 0, 0, 0),
            );
            lemma_given_too(a0, a2, *self, size, -elem_weight(216 + class));
            lemma_more_held(
                a0,
                *self,
                (chunk as int, chunk_size_of_class(class as int)),
                (ptr as int, size),
            );
        }
        Some(ptr)
    }

    /// Carves a chunk of the class, and takes its last object. The chunk is one that is not carved
    /// yet; `full` tells whether a fresh region may be taken for it. Incoming pointers are looked
    /// for first, unless the manager itself is being allocated.
    #[verifier::rlimit(60)]
    pub(crate) fn alloc_slow(
        &mut self,
        is_allocating_manager: bool,
        full: bool,
        class: usize,
        state: &mut Option<State>,
    ) -> (r: Result<Option<usize>, PanicCause>)
        requires
            ready(*old(self), *old(state)),
            class < 216,
        ensures
            served(
                *old(self),
                *old(state),
                *final(self),
                *final(state),
                class_size(class as int),
                r,
                full,
            ),
            r is Ok ==> calm(*old(self), *old(state), *final(self), *final(state)),
            !is_allocating_manager && N::auto_check_spec() && has_come_back(
                *old(self),
                class as int,
            ) ==> *final(state) == *old(state) && took_what_came_back(
                *old(self),
                *final(self),
                class as int,
                r,
            ),
            carves_next(*old(self), class as int) ==> *final(state) == *old(state) && carved_next(
                *old(self),
                *final(self),
                class as int,
                r,
            ),
            r == Ok::<Option<usize>, PanicCause>(None) ==> no_chunk_to_carve(
                *old(self),
                class as int,
            ) || turned_down(*old(self), *final(self)),
            cache_is_empty(*old(self), class as int) && (!full || !can_take_region(
                old(self).inner.env,
                true,
            )) ==> r == Ok::<Option<usize>, PanicCause>(None) && *final(state) == *old(state)
                && refused_region(*old(self), *final(self), full),
            is_set_up(*old(self)) && (r is Ok && r->Ok_0 is Some) ==> has_tables(*final(self)),
            is_set_up(*old(self)) && r is Ok ==> is_set_up(*final(self)),
        decreases
                old(self).unread(),
                chunks_left(*old(self), *old(state)),
                old(self).incoming().len(),
                old(self).spare(),
                26int,
    {
        let ghost a0 = *self;
        let ghost s0 = *state;
        let ghost size = class_size(class as int);
        proof {
            lemma_spare(a0, a0);
            lemma_alike(a0, s0, s0);
            lemma_class(class as int);
            if has_nothing(a0) {
                lemma_has_nothing(a0);
                assert(a0.len_of(432) == 0 && a0.len_of(433) == 0);
            }
        }
        if !is_allocating_manager && N::should_auto_check_for_incoming_non_local_ptrs() {
            let r = self.check_and_pop(class);
            proof {
                lemma_with_state(a0, *self, s0, size, r, false);
            }
            match r {
                Ok(None) => {},
                _ => {
                    return r;
                },
            }
        }
        let ghost a1 = *self;
        proof {
            if has_nothing(a0) {
                assert(a1.inner == a0.inner);
                lemma_set_up_same(a0, a1);
            }
        }
        let ghost chunk_size = chunk_size_of_class(class as int);
        let ghost exact = carves_next(a0, class as int);
        proof {
            lemma_spare(a0, a1);
            if a1 == a0 {
                lemma_untouched(a0);
            }
            if !no_chunk_to_carve(a0, class as int) {
                assert(untouched(a0, a1));
                lemma_untouched_vectors(a0, a1);
                assert(a1.inner.vectors@[source_of(class as int)]@
                    == a0.inner.vectors@[source_of(class as int)]@);
            }
        }
        let is_common: bool = class < COMMON_SIZE_TABLE_LEN;
        let taken = self.take_chunk(full, is_common);
        let ghost a2 = *self;
        proof {
            lemma_lift(a1, a2, s0, (0, 0, 0, 0));
        }
        let chunk: usize = match taken {
            Ok(Some(chunk)) => chunk,
            Ok(None) => {
                proof {
                    if full {
                        lemma_step(a0, s0, a1, s0, a2, s0, (0, 0, 0, 0), (0, 0, 0, 0));
                    }
                }
                return Ok(None);
            },
            Err(cause) => {
                proof {
                    lemma_broke_after(a0, s0, a1, s0, a2, (0, 0, 0, 0), (0, 0));
                }
                return Err(cause);
            },
        };
        let ghost start = chunk as int;
        let ghost mark = -elem_weight(216 + class);
        proof {
            assert(mark == -(chunk_size / 65536));
            lemma_lift(a1, a2, s0, (0, 0, start, chunk_size));
            lemma_carries(a0, s0, a1, s0, a2, s0);
            lemma_holds(
                a0,
                s0,
                a1,
                s0,
                a2,
                s0,
                (0, 0, 0, 0),
                (0, 0, start, chunk_size),
            );
            lemma_lift(a1, a2, s0, (0, 0, 0, mark));
            lemma_counts(a0, s0, a1, s0, a2, s0, (0, 0), (0, mark));
            lemma_passes(a0, s0, a1, s0, a2, s0, (0, 0, 0, 0), (0, 0, 0, 0));
            lemma_spare(a0, a2);
            if exact {
                lemma_can_carve_after(a0, a1, a2, class as int);
            }
        }
        match self.pop_instead(class, chunk) {
            Some(ptr) => {
                proof {
                    lemma_lift(a2, *self, s0, (start, chunk_size, ptr as int, size));
                    lemma_lift(a2, *self, s0, (0, 0, ptr as int, size));
                    lemma_carries(a0, s0, a2, s0, *self, s0);
                    lemma_holds(
                        a0,
                        s0,
                        a2,
                        s0,
                        *self,
                        s0,
                        (0, 0, start, chunk_size),
                        (start, chunk_size, ptr as int, size),
                    );
                    lemma_lift(a2, *self, s0, (0, mark, 0, size));
                    lemma_counts(a0, s0, a2, s0, *self, s0, (0, mark), (mark, size));
                    lemma_passes(
                        a0,
                        s0,
                        a2,
                        s0,
                        *self,
                        s0,
                        (0, 0, 0, 0),
                        (0, 0, ptr as int, size),
                    );
                }
                return Ok(Some(ptr));
            },
            None => {},
        }
        let r = self.carve(class, chunk, state);
        proof {
            if exact {
                lemma_carved_next(
                    a0,
                    a1,
                    a2,
                    *self,
                    class as int,
                    chunk,
                    a2.inner.manager_ptr,
                );
            }
            match r {
                Ok(Some(ptr)) => {
                    lemma_carries(a0, s0, a2, s0, *self, *state);
                    lemma_holds(
                        a0,
                        s0,
                        a2,
                        s0,
                        *self,
                        *state,
                        (0, 0, start, chunk_size),
                        (start, chunk_size, ptr as int, size),
                    );
                    lemma_counts(a0, s0, a2, s0, *self, *state, (0, mark), (mark, size));
                    lemma_taken_and_carved(
                        a1,
                        a2,
                        s0,
                        *self,
                        *state,
                        start,
                        chunk_size,
                        ptr as int,
                        size,
                    );
                    lemma_passes(
                        a0,
                        s0,
                        a1,
                        s0,
                        *self,
                        *state,
                        (0, 0, 0, 0),
                        (0, 0, ptr as int, size),
                    );
                },
                Ok(None) => {
                    lemma_carries(a0, s0, a2, s0, *self, *state);
                    lemma_holds(
                        a0,
                        s0,
                        a2,
                        s0,
                        *self,
                        *state,
                        (0, 0, start, chunk_size),
                        (0, 0, 0, 0),
                    );
                    lemma_dropped(a0, s0, *self, *state, start, chunk_size);
                    lemma_counts(a0, s0, a2, s0, *self, *state, (0, mark), (mark, 0));
                    lemma_passes(a0, s0, a2, s0, *self, *state, (0, 0, 0, 0), (0, 0, 0, 0));
                },
                Err(_) => {
                    lemma_broke_after(
                        a0,
                        s0,
                        a2,
                        s0,
                        *self,
                        (0, 0, start, chunk_size),
                        (start, chunk_size),
                    );
                },
            }
        }
        r
    }

    /// Notes that the manager owns a chunk of the class.
    pub(crate) fn note_owner(&mut self, class: usize, chunk: usize)
        requires
            old(self).wf(),
            old(self).inner.manager_ptr != 0,
            class < 216,
            chunk + 192 <= usize::MAX || class < 128,
        ensures
            noted_owner(
                *old(self),
                *final(self),
                class as int,
                chunk as int,
                old(self).inner.manager_ptr,
            ),
            final(self).inner.env.wf(),
            has_owner(*final(self), class as int, chunk as int, old(self).inner.manager_ptr),
    {
        let manager: usize = self.inner.manager_ptr;
        let offset = OffsetToSlotInTable::new_for_class(class);
        if class < COMMON_SIZE_TABLE_LEN {
            init_metadata_for_common_chunk(&mut self.inner.env, manager, offset, chunk);
        } else {
            init_metadata_for_large_chunk(&mut self.inner.env, manager, offset, chunk);
        }
    }

    /// Carves a chunk of the class, and takes its last object.
    #[verifier::rlimit(60)]
    pub(crate) fn carve(
        &mut self,
        class: usize,
        chunk: usize,
        state: &mut Option<State>,
    ) -> (r: Result<Option<usize>, PanicCause>)
        requires
            ready(*old(self), *old(state)),
            old(self).inner.manager_ptr != 0,
            class < 216,
            chunk > 0,
            chunk + chunk_size_of_class(class as int) <= usize::MAX,
        ensures
            match r {
                Ok(Some(ptr)) => {
                    &&& evolves(*old(self), *old(state), *final(self), *final(state))
                    &&& holds(
                        *old(self),
                        *old(state),
                        *final(self),
                        *final(state),
                        chunk as int,
                        chunk_size_of_class(class as int),
                        ptr as int,
                        class_size(class as int),
                    )
                    &&& counts(
                        *old(self),
                        *old(state),
                        *final(self),
                        *final(state),
                        -elem_weight(216 + class),
                        class_size(class as int),
                    )
                    &&& ptr > 0
                    &&& ptr + class_size(class as int) <= usize::MAX
                    &&& ptr == last_object(class as int, chunk as int)
                    &&& has_owner(
                        *final(self),
                        class as int,
                        chunk as int,
                        final(self).inner.manager_ptr,
                    )
                    &&& passes_chunk(
                        *old(self),
                        *old(state),
                        *final(self),
                        *final(state),
                        chunk as int,
                        chunk_size_of_class(class as int),
                        ptr as int,
                    )
                },
                Ok(None) => {
                    &&& evolves(*old(self), *old(state), *final(self), *final(state))
                    &&& holds(*old(self), *old(state), *final(self), *final(state), 0, 0, 0, 0)
                    &&& counts(
                        *old(self),
                        *old(state),
                        *final(self),
                        *final(state),
                        -elem_weight(216 + class),
                        0,
                    )
                    &&& passes(*old(self), *old(state), *final(self), *final(state), (0, 0, 0, 0))
                    &&& turned_down(*old(self), *final(self))
                },
                Err(cause) => failed(
                    *old(self),
                    *old(state),
                    *final(self),
                    chunk as int,
                    chunk_size_of_class(class as int),
                    cause,
                ),
            },
            can_carve(*old(self), class as int) ==> {
                &&& r == Ok::<Option<usize>, PanicCause>(
                    Some(last_object(class as int, chunk as int) as usize),
                )
                &&& *final(state) == *old(state)
                &&& carved(
                    *old(self),
                    *final(self),
                    class as int,
                    chunk,
                    -1,
                    old(self).inner.manager_ptr,
                )
            },
        decreases
                old(self).unread(),
                chunks_left(*old(self), *old(state)),
                old(self).incoming().len(),
                old(self).spare(),
                55int,
    {
        let ghost a0 = *self;
        let ghost s0 = *state;
        let ghost size = class_size(class as int);
        let ghost chunk_size = chunk_size_of_class(class as int);
        let ghost start = chunk as int;
        proof {
            lemma_spare(a0, a0);
            lemma_class(class as int);
        }
        let is_common: bool = class < COMMON_SIZE_TABLE_LEN;
        let made = if is_common {
            self.make_common_chunk_table(state)
        } else {
            self.make_large_chunk_table(state)
        };
        let ghost a3 = *self;
        let ghost s3 = *state;
        match made {
            Ok(()) => {},
            Err(cause) => {
                proof {
                    lemma_more_given(a0, s0, a3, start, chunk_size);
                }
                return Err(cause);
            },
        }
        proof {
            lemma_spare(a0, a3);
        }
        let listed = self.push(FIRST_CHUNKS + class, chunk, true, state);
        let ghost a4 = *self;
        let ghost s4 = *state;
        match listed {
            Ok(true) => {},
            Ok(false) => {
                proof {
                    lemma_step(a0, s0, a3, s3, a4, s4, (0, 0, 0, 0), (0, 0, 0, 0));
                    lemma_spared(a0, s0, a3, s3, a4, s4);
                    assert(counts(a0, s0, a4, s4, -elem_weight(216 + class), 0)) by {
                        reveal(counts);
                        reveal(spared);
                    }
                }
                return Ok(None);
            },
            Err(cause) => {
                proof {
                    lemma_broke_after(a0, s0, a3, s3, a4, (0, 0, 0, 0), (start, 0));
                    lemma_more_given(a0, s0, a4, start, chunk_size);
                }
                return Err(cause);
            },
        }
        proof {
            lemma_listed(a0, s0, a3, s3, a4, s4, class as int);
            lemma_carries(a0, s0, a3, s3, a4, s4);
            lemma_holds(a0, s0, a3, s3, a4, s4, (0, 0, 0, 0), (start, 0, 0, 0));
            lemma_passes(a0, s0, a3, s3, a4, s4, (0, 0, 0, 0), (start, 0, 0, 0));
            lemma_spare(a0, a4);
        }
        let n: usize = slots_in_chunk(class) - 1;
        let made_room = self.reserve(class, n as u32, true, state);
        let ghost a5 = *self;
        let ghost s5 = *state;
        match made_room {
            Ok(Reserved::Failed) => {
                proof {
                    lemma_carries(a0, s0, a4, s4, a5, s5);
                    lemma_holds(a0, s0, a4, s4, a5, s5, (0, 0, 0, 0), (0, 0, 0, 0));
                    lemma_passes(a0, s0, a4, s4, a5, s5, (0, 0, 0, 0), (0, 0, 0, 0));
                    lemma_listed_in_vain(a0, s0, a4, s4, a5, s5, class as int);
                }
                return Ok(None);
            },
            Ok(_) => {},
            Err(cause) => {
                proof {
                    lemma_broke_after(a0, s0, a4, s4, a5, (0, 0, 0, 0), (0, 0));
                    lemma_more_given(a0, s0, a5, start, chunk_size);
                }
                return Err(cause);
            },
        }
        proof {
            lemma_alike(a4, s4, s4);
            assert(step(a4, s4, a5, s5, (0, 0, 0, 0)));
            lemma_carries(a0, s0, a4, s4, a5, s5);
            lemma_holds(a0, s0, a4, s4, a5, s5, (0, 0, 0, 0), (0, 0, 0, 0));
            lemma_passes(a0, s0, a4, s4, a5, s5, (0, 0, 0, 0), (0, 0, 0, 0));
            assert(n * size + size == slots_of_class(class as int) * size) by (nonlinear_arith)
                requires
                    n == slots_of_class(class as int) - 1,
            ;
            assert(0 <= n * size) by (nonlinear_arith)
                requires
                    8 <= size,
            ;
        }
        self.fill(class, chunk, n);
        let ghost a6 = *self;
        let object_size: usize = size_of_class(class);
        let curr: usize = chunk + n * object_size;
        let ghost last = curr as int;
        proof {
            lemma_tallies(a0, s0, a4, s4, a5, s5, 216 + class);
            lemma_carved(a0, s0, a5, s5, a6, class as int, start, n as int);
            lemma_spare(a0, a6);
        }
        self.note_owner(class, chunk);
        proof {
            let s7 = *state;
            lemma_metadata_written(a6, s5, *self);
            lemma_passes_carved(a5, s5, a6, *self, class as int, chunk);
            lemma_carved_after(a0, s0, a5, s5, *self, s7, start, chunk_size, last);
            lemma_carries(a0, s0, a6, s5, *self, s7);
            lemma_holds(
                a0,
                s0,
                a6,
                s5,
                *self,
                s7,
                (start, chunk_size, last, size),
                (0, 0, 0, 0),
            );
            lemma_counts(
                a0,
                s0,
                a6,
                s5,
                *self,
                s7,
                (-elem_weight(216 + class), size),
                (0, 0),
            );
            if can_carve(a0, class as int) {
                lemma_carved_exactly(
                    a0,
                    a4,
                    a6,
                    *self,
                    class as int,
                    chunk,
                    a0.inner.manager_ptr,
                );
            }
        }
        Ok(Some(curr))
    }
}

} // verus!
