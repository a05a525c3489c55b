//! What holds of an allocator over several operations.
use crate::accounts::{
    counts, done, has_tables, holds, is_counted, keeps, lemma_held_nonnegative, live,
    regions_committed, served, slack, total,
};
use crate::allocation::popped_last;
use crate::blocks::covers;
use crate::carving::has_owner;
use crate::chunks::managed;
use crate::commitment::committed;
use crate::deallocation::{gave_back, has_no_owner, is_local};
use crate::failures::PanicCause;
use crate::incoming::{brought_back, took_exactly};
use crate::info_for_size::is_balanced;
use crate::inner::{is_of_class, slot_wf};
use crate::non_local_ptr_manager::{
    nodes_abroad, nodes_of_class, offset_of_class, Node, NonLocalPtrManager,
};
use crate::os::{is_region_size, ChunkMetadata, Environment};
use crate::ownership::{is_object, is_own, lemma_hands_out_own, lemma_notes, names, notes, owns};
use crate::placement::{is_single, is_usable, lemma_pool_cover};
use crate::region::{
    chunks_taken, is_metadata_key, lemma_region_size, metadata_at, metadata_of, metadata_or_zero,
    region_of,
};
use crate::sizes::{chunk_size_of_class, class_of, law_recommended_is_idempotent, recommended};
use crate::state::{lemma_chain_cover_nonnegative, took_from, State};
use crate::thread_local_allocator::{is_fresh, ThreadLocalAllocator};
use crate::vectors::grows_apart;
use vstd::prelude::*;

verus! {

/// How often blocks, given by their addresses and sizes, cover the byte at `at`.
pub open spec fn out_cover(blocks: Seq<(int, int)>, at: int) -> int
    decreases blocks.len(),
{
    if blocks.len() == 0 {
        0
    } else {
        out_cover(blocks.drop_last(), at) + covers(blocks.last().0, blocks.last().1, at)
    }
}

/// Whether nothing is kept twice: a byte lies in one of the blocks that are out, or the allocator
/// holds it once, or neither.
pub open spec fn kept_once<N: NonLocalPtrManager>(
    a: ThreadLocalAllocator<N>,
    blocks: Seq<(int, int)>,
) -> bool {
    forall|at: int| #[trigger] a.held(at) + out_cover(blocks, at) <= 1
}

proof fn lemma_out_cover_push(blocks: Seq<(int, int)>, block: (int, int), at: int)
    ensures
        out_cover(blocks.push(block), at) == out_cover(blocks, at) + covers(
            block.0,
            block.1,
            at,
        ),
{
    assert(blocks.push(block).drop_last() =~= blocks);
}

proof fn lemma_out_cover_remove(blocks: Seq<(int, int)>, i: int, at: int)
    requires
        0 <= i < blocks.len(),
    ensures
        out_cover(blocks, at) == out_cover(blocks.remove(i), at) + covers(
            blocks[i].0,
            blocks[i].1,
            at,
        ),
    decreases blocks.len(),
{
    if i == blocks.len() - 1 {
        assert(blocks.remove(i) =~= blocks.drop_last());
    } else {
        lemma_out_cover_remove(blocks.drop_last(), i, at);
        assert(blocks.remove(i).drop_last() =~= blocks.drop_last().remove(i));
        assert(blocks.remove(i).last() == blocks.last());
    }
}

proof fn lemma_out_cover_nonnegative(blocks: Seq<(int, int)>, at: int)
    ensures
        out_cover(blocks, at) >= 0,
    decreases blocks.len(),
{
    if blocks.len() > 0 {
        lemma_out_cover_nonnegative(blocks.drop_last(), at);
    }
}

/// A fresh allocator keeps nothing twice where no two mappings overlap.
pub proof fn law_fresh_keeps_once<N: NonLocalPtrManager>(a: ThreadLocalAllocator<N>)
    requires
        is_fresh(a),
        forall|at: int| #[trigger] a.inner.env.pool(at) <= 1,
    ensures
        kept_once(a, Seq::empty()),
{
    assert forall|at: int| #[trigger]
        a.held(at) + out_cover(Seq::<(int, int)>::empty(), at) <= 1 by {
        assert(a.held(at) == a.inner.env.pool(at));
    }
}

/// A request for memory keeps nothing twice: the block that is handed out joins those that are
/// out.
pub proof fn law_alloc_keeps_once<N: NonLocalPtrManager>(
    a0: ThreadLocalAllocator<N>,
    a1: ThreadLocalAllocator<N>,
    blocks: Seq<(int, int)>,
    size: int,
    r: Result<Option<usize>, PanicCause>,
)
    requires
        kept_once(a0, blocks),
        served(a0, None, a1, None, size, r, true),
    ensures
        match r {
            Ok(Some(ptr)) => kept_once(a1, blocks.push((ptr as int, size))),
            _ => kept_once(a1, blocks),
        },
{
    reveal(holds);
    reveal(keeps);
    let none = None::<State>;
    match r {
        Ok(Some(ptr)) => {
            let block = (ptr as int, size);
            assert forall|at: int| #[trigger]
                a1.held(at) + out_cover(blocks.push(block), at) <= 1 by {
                lemma_out_cover_push(blocks, block, at);
                assert(total(a1, none, at) + covers(block.0, block.1, at) <= total(a0, none, at)
                    + covers(0, 0, at));
                assert(a0.held(at) + out_cover(blocks, at) <= 1);
            }
        },
        Ok(None) => {
            assert forall|at: int| #[trigger] a1.held(at) + out_cover(blocks, at) <= 1 by {
                assert(total(a1, none, at) + covers(0, 0, at) <= total(a0, none, at) + covers(
                    0,
                    0,
                    at,
                ));
                assert(a0.held(at) + out_cover(blocks, at) <= 1);
            }
        },
        Err(_) => {
            assert forall|at: int| #[trigger] a1.held(at) + out_cover(blocks, at) <= 1 by {
                assert(a1.held(at) <= total(a0, none, at) + covers(0, 0, at));
                assert(a0.held(at) + out_cover(blocks, at) <= 1);
            }
        },
    }
}

/// Giving a block back that is out keeps nothing twice: the block leaves those that are out.
pub proof fn law_dealloc_keeps_once<N: NonLocalPtrManager>(
    a0: ThreadLocalAllocator<N>,
    a1: ThreadLocalAllocator<N>,
    blocks: Seq<(int, int)>,
    i: int,
    r: Result<(), PanicCause>,
)
    requires
        kept_once(a0, blocks),
        0 <= i < blocks.len(),
        done(a0, None, a1, None, blocks[i].0, blocks[i].1, r),
    ensures
        kept_once(a1, blocks.remove(i)),
{
    reveal(holds);
    reveal(keeps);
    let none = None::<State>;
    assert forall|at: int| #[trigger] a1.held(at) + out_cover(blocks.remove(i), at) <= 1 by {
        lemma_out_cover_remove(blocks, i, at);
        assert(a0.held(at) + out_cover(blocks, at) <= 1);
        if r is Ok {
            assert(total(a1, none, at) + covers(0, 0, at) <= total(a0, none, at) + covers(
                blocks[i].0,
                blocks[i].1,
                at,
            ));
        } else {
            assert(a1.held(at) <= total(a0, none, at) + covers(blocks[i].0, blocks[i].1, at));
        }
    }
}

/// Looking for incoming pointers keeps nothing twice.
pub proof fn law_check_keeps_once<N: NonLocalPtrManager>(
    a0: ThreadLocalAllocator<N>,
    a1: ThreadLocalAllocator<N>,
    blocks: Seq<(int, int)>,
    r: Result<(), PanicCause>,
)
    requires
        kept_once(a0, blocks),
        managed(a0, None, a1, None, r),
    ensures
        kept_once(a1, blocks),
{
    reveal(holds);
    reveal(keeps);
    let none = None::<State>;
    assert forall|at: int| #[trigger] a1.held(at) + out_cover(blocks, at) <= 1 by {
        assert(a0.held(at) + out_cover(blocks, at) <= 1);
        if r is Ok {
            assert(total(a1, none, at) + covers(0, 0, at) <= total(a0, none, at) + covers(
                0,
                0,
                at,
            ));
        } else {
            assert(a1.held(at) <= total(a0, none, at) + covers(0, 0, at));
        }
    }
}

/// Two blocks that are out do not overlap.
pub proof fn law_blocks_do_not_overlap<N: NonLocalPtrManager>(
    a: ThreadLocalAllocator<N>,
    blocks: Seq<(int, int)>,
    i: int,
    j: int,
)
    requires
        a.wf(),
        kept_once(a, blocks),
        0 <= i < j < blocks.len(),
        blocks[i].1 > 0,
        blocks[j].1 > 0,
    ensures
        blocks[i].0 + blocks[i].1 <= blocks[j].0 || blocks[j].0 + blocks[j].1 <= blocks[i].0,
{
    let at = if blocks[i].0 <= blocks[j].0 {
        blocks[j].0
    } else {
        blocks[i].0
    };
    let rest = blocks.remove(j);
    lemma_out_cover_remove(blocks, j, at);
    lemma_out_cover_remove(rest, i, at);
    lemma_out_cover_nonnegative(rest.remove(i), at);
    assert(rest[i] == blocks[i]);
    lemma_held_nonnegative(a, at);
    assert(a.held(at) + out_cover(blocks, at) <= 1);
}

/// An allocator holds no byte of a block that is out.
pub proof fn law_blocks_are_not_held<N: NonLocalPtrManager>(
    a: ThreadLocalAllocator<N>,
    blocks: Seq<(int, int)>,
    i: int,
    at: int,
)
    requires
        kept_once(a, blocks),
        0 <= i < blocks.len(),
        blocks[i].0 <= at < blocks[i].0 + blocks[i].1,
    ensures
        a.held(at) <= 0,
{
    lemma_out_cover_remove(blocks, i, at);
    lemma_out_cover_nonnegative(blocks.remove(i), at);
    assert(a.held(at) + out_cover(blocks, at) <= 1);
}

/// A request for memory never makes it seem that more objects were given back than are out.
pub proof fn law_alloc_keeps_balance<N: NonLocalPtrManager>(
    a0: ThreadLocalAllocator<N>,
    a1: ThreadLocalAllocator<N>,
    size: int,
    r: Result<Option<usize>, PanicCause>,
)
    requires
        is_balanced(a0),
        served(a0, None, a1, None, size, r, true),
        r is Ok,
    ensures
        is_balanced(a1),
        r->Ok_0 is Some ==> forall|class: int|
            0 <= class < 216 ==> #[trigger] a1.live(class) >= is_of_class(size, class),
{
    reveal(counts);
    let none = None::<State>;
    assert forall|class: int| 0 <= class < 216 implies #[trigger] a1.live(class) >= (if r->Ok_0
        is Some {
        is_of_class(size, class)
    } else {
        0
    }) by {
        assert(a0.live(class) >= 0);
        if r->Ok_0 is Some {
            assert(live(a1, none, class) + is_of_class(0, class) >= live(a0, none, class)
                + is_of_class(size, class));
        } else {
            assert(live(a1, none, class) + is_of_class(0, class) >= live(a0, none, class)
                + is_of_class(0, class));
        }
    }
}

/// Giving an object back that is out never makes it seem that more objects were given back than
/// are out.
pub proof fn law_dealloc_keeps_balance<N: NonLocalPtrManager>(
    a0: ThreadLocalAllocator<N>,
    a1: ThreadLocalAllocator<N>,
    ptr: int,
    size: int,
    r: Result<(), PanicCause>,
)
    requires
        is_balanced(a0),
        forall|class: int| 0 <= class < 216 ==> #[trigger] a0.live(class) >= is_of_class(size, class),
        done(a0, None, a1, None, ptr, size, r),
        r is Ok,
    ensures
        is_balanced(a1),
{
    reveal(counts);
    let none = None::<State>;
    assert forall|class: int| 0 <= class < 216 implies #[trigger] a1.live(class) >= 0 by {
        assert(a0.live(class) >= is_of_class(size, class));
        assert(live(a1, none, class) + is_of_class(size, class) >= live(a0, none, class)
            + is_of_class(0, class));
    }
}

/// The object that was given back last is the next one that is handed out.
pub proof fn law_given_back_is_next<N: NonLocalPtrManager>(
    a0: ThreadLocalAllocator<N>,
    a1: ThreadLocalAllocator<N>,
    a2: ThreadLocalAllocator<N>,
    class: int,
    ptr: usize,
    r: Result<Option<usize>, PanicCause>,
)
    requires
        a0.wf(),
        0 <= class < 216,
        is_local(a0, ptr as int),
        gave_back(a0, a1, class, ptr, Ok(())),
        a1.len_of(class) > 0 ==> popped_last(a1, a2, class, r),
    ensures
        r == Ok::<Option<usize>, PanicCause>(Some(ptr)),
        a0.len_of(class) < a0.cap_of(class) ==> forall|slot: int|
            0 <= slot < 435 ==> (#[trigger] a2.inner.vectors@[slot])@ == a0.inner.vectors@[slot]@,
{
    if a0.len_of(class) < a0.cap_of(class) {
        assert(a0.inner.vectors@.len() == 435);
        assert forall|slot: int| 0 <= slot < 435 implies (#[trigger] a2.inner.vectors@[slot])@
            == a0.inner.vectors@[slot]@ by {
            if slot == class {
                assert(a0.inner.vectors@[class]@.push(ptr).drop_last()
                    =~= a0.inner.vectors@[class]@);
            } else {
                assert(a1.inner.vectors@[slot] == a0.inner.vectors@[slot]);
                assert(a2.inner.vectors@[slot] == a1.inner.vectors@[slot]);
            }
        }
    }
}

/// A pointer that another thread gives back comes home: it is sent to its owner, and it is a free
/// object of its class once the owner has looked for it. The node that carries it is another block.
pub proof fn law_pointer_comes_home<N: NonLocalPtrManager, M: NonLocalPtrManager>(
    a0: ThreadLocalAllocator<N>,
    a1: ThreadLocalAllocator<N>,
    b0: ThreadLocalAllocator<M>,
    b1: ThreadLocalAllocator<M>,
    b2: ThreadLocalAllocator<M>,
    class: int,
    ptr: usize,
)
    requires
        0 <= class < 216,
        !is_local(a0, ptr as int),
        !has_no_owner(a0, ptr as int),
        gave_back(a0, a1, class, ptr, Ok(())),
        metadata_at(a0.inner.env, ptr as int)->0.offset_to_slot_in_table == offset_of_class(class),
        !a1.inner.env.outbox@.last().node.is_returned(),
        b0.incoming().len() == 0,
        b1.incoming() == b0.incoming().push(a1.inner.env.outbox@.last().node),
        b1.inner == b0.inner,
        took_exactly(b1, b2, b1.incoming().reverse()),
    ensures
        a1.inner.env.outbox@.last().to == metadata_at(
            a0.inner.env,
            ptr as int,
        )->0.non_local_ptr_manager,
        b2.inner.vectors@[class]@ == b0.inner.vectors@[class]@.push(ptr),
{
    let node = a1.inner.env.outbox@.last().node;
    assert(b1.incoming().reverse() =~= seq![node]);
    assert(node.class() == class);
    let one = seq![node];
    assert(one.drop_last() =~= Seq::<Node>::empty());
    assert(brought_back(one.drop_last(), class) == Seq::<usize>::empty());
    assert(brought_back(one, class) =~= seq![ptr]);
    assert(b0.inner.vectors@[class]@ + seq![ptr] =~= b0.inner.vectors@[class]@.push(ptr));
}

/// A block is never smaller than what was asked for.
pub proof fn law_blocks_are_great_enough(size: int)
    requires
        size > 0,
    ensures
        size <= recommended(size),
{
    law_recommended_is_idempotent(size);
}

/// Every object of a chunk whose owner is noted, as carving notes it, belongs to the allocator: it
/// can be given back, and goes to the free objects of its class.
pub proof fn law_objects_of_a_carved_chunk_are_local<N: NonLocalPtrManager>(
    a: ThreadLocalAllocator<N>,
    class: int,
    chunk: int,
    ptr: int,
)
    requires
        a.wf(),
        0 <= class < 216,
        a.inner.manager_ptr != 0,
        has_owner(a, class, chunk, a.inner.manager_ptr),
        0 <= chunk,
        chunk % chunk_size_of_class(class) == 0,
        chunk <= ptr < chunk + chunk_size_of_class(class),
        ptr <= usize::MAX,
    ensures
        is_local(a, ptr),
        metadata_at(a.inner.env, ptr)->0.offset_to_slot_in_table == offset_of_class(class),
{
    let size = a.inner.env.region_size as int;
    let key = metadata_of(size, ptr);
    let start = metadata_of(size, chunk);
    lemma_within_chunk(size, class, chunk, ptr);
    assert(is_metadata_key(
        start,
        if class < 128 {
            1int
        } else {
            8
        },
        key,
    ));
    assert(metadata_or_zero(a.inner.env, key as usize) is Some);
}

/// The metadata of a byte of a chunk is among that of the chunk.
pub proof fn lemma_within_chunk(region_size: int, class: int, chunk: int, ptr: int)
    requires
        is_region_size(region_size),
        0 <= chunk,
        chunk % chunk_size_of_class(class) == 0,
        chunk <= ptr < chunk + chunk_size_of_class(class),
    ensures
        metadata_of(region_size, ptr) == metadata_of(region_size, chunk) + 24 * ((ptr - chunk)
            / 65536),
        0 <= metadata_of(region_size, ptr) <= ptr,
        region_of(region_size, ptr) == region_of(region_size, chunk),
{
    let unit = chunk_size_of_class(class);
    let rest = chunk % region_size;
    let n = region_size / unit;
    lemma_region_size(region_size);
    assert(unit * n == region_size && 1 <= n) by {
        assert(unit == 65536 || unit == 524288);
        if unit == 65536 {
            assert(65536 * (region_size / 65536) == region_size);
        } else {
            assert(524288 * (region_size / 524288) == region_size);
        }
    }
    vstd::arithmetic::div_mod::lemma_mod_breakdown(chunk, unit, n);
    let k = (chunk / unit) % n;
    assert(rest == unit * k);
    assert(0 <= k < n);
    assert(unit * k + unit <= unit * n) by (nonlinear_arith)
        requires
            0 <= k < n,
            0 < unit,
    ;
    vstd::arithmetic::div_mod::lemma_fundamental_div_mod(chunk, region_size);
    assert(chunk == chunk / region_size * region_size + rest) by (nonlinear_arith)
        requires
            chunk == region_size * (chunk / region_size) + rest,
    ;
    vstd::arithmetic::div_mod::lemma_fundamental_div_mod_converse(
        ptr,
        region_size,
        chunk / region_size,
        rest + (ptr - chunk),
    );
    assert(rest % 65536 == 0) by {
        if unit == 65536 {
            assert((65536 * k) % 65536 == 0);
        } else {
            assert((524288 * k) % 65536 == 0);
        }
    }
    assert((rest + (ptr - chunk)) / 65536 == rest / 65536 + (ptr - chunk) / 65536);
}

/// A moment in the life of an allocator: the allocator, and the blocks that are out.
pub ghost struct Moment<N: NonLocalPtrManager> {
    pub allocator: ThreadLocalAllocator<N>,
    pub blocks: Seq<(int, int)>,
}

/// Whether one moment follows another by a request for memory, by giving a block back that is out,
/// or by looking for incoming pointers.
pub open spec fn comes_next<N: NonLocalPtrManager>(m0: Moment<N>, m1: Moment<N>) -> bool {
    ||| exists|size: int, got: Option<usize>| #[trigger] allocated_next(m0, m1, size, got)
    ||| exists|i: int| #[trigger] given_back_next(m0, m1, i)
    ||| m1.blocks == m0.blocks && managed(
        m0.allocator,
        None,
        m1.allocator,
        None,
        Ok::<(), PanicCause>(()),
    )
}

/// Whether one moment follows another by a request for memory.
pub open spec fn allocated_next<N: NonLocalPtrManager>(
    m0: Moment<N>,
    m1: Moment<N>,
    size: int,
    got: Option<usize>,
) -> bool {
    &&& size > 0
    &&& served(
        m0.allocator,
        None,
        m1.allocator,
        None,
        size,
        Ok::<Option<usize>, PanicCause>(got),
        true,
    )
    &&& m1.blocks == match got {
        Some(ptr) => m0.blocks.push((ptr as int, size)),
        None => m0.blocks,
    }
}

/// Whether one moment follows another by giving a block back that is out.
pub open spec fn given_back_next<N: NonLocalPtrManager>(
    m0: Moment<N>,
    m1: Moment<N>,
    i: int,
) -> bool {
    &&& 0 <= i < m0.blocks.len()
    &&& done(
        m0.allocator,
        None,
        m1.allocator,
        None,
        m0.blocks[i].0,
        m0.blocks[i].1,
        Ok::<(), PanicCause>(()),
    )
    &&& m1.blocks == m0.blocks.remove(i)
}

/// Whether moments are the life of an allocator, from the moment that it was made.
pub open spec fn is_life<N: NonLocalPtrManager>(moments: Seq<Moment<N>>) -> bool {
    &&& moments.len() > 0
    &&& is_fresh(moments[0].allocator)
    &&& is_single(moments[0].allocator.inner.env)
    &&& owns(moments[0].allocator)
    &&& moments[0].blocks == Seq::<(int, int)>::empty()
    &&& forall|k: int|
        0 <= k < moments.len() - 1 ==> comes_next(#[trigger] moments[k], moments[k + 1])
}

/// Whether every object that is out belongs to the allocator, and every block has a size.
pub open spec fn blocks_are_own<N: NonLocalPtrManager>(m: Moment<N>) -> bool {
    forall|i: int|
        0 <= i < m.blocks.len() ==> (#[trigger] m.blocks[i]).1 > 0 && (is_object(m.blocks[i].1)
            ==> 0 < m.blocks[i].0 <= usize::MAX && is_own(
            m.allocator,
            m.blocks[i].0 as usize,
        ))
}

/// At every moment of its life an allocator keeps nothing twice, owns what it holds, and owns every
/// object that is out: it can be given back. All its regions were made readable and writable.
pub proof fn law_life<N: NonLocalPtrManager>(moments: Seq<Moment<N>>, k: int)
    requires
        is_life(moments),
        0 <= k < moments.len(),
    ensures
        moments[k].allocator.wf(),
        kept_once(moments[k].allocator, moments[k].blocks),
        owns(moments[k].allocator),
        blocks_are_own(moments[k]),
        regions_committed(moments[k].allocator, None),
    decreases k,
{
    if k == 0 {
        reveal(regions_committed);
        assert(moments[0].allocator.len_of(434) == 0);
        law_fresh_keeps_once(moments[0].allocator);
    } else {
        law_life(moments, k - 1);
        let m0 = moments[k - 1];
        let m1 = moments[k];
        assert(comes_next(m0, moments[k - 1 + 1]));
        lemma_life_goes_on(m0, m1);
    }
}

/// Where no metadata was there when an allocator was made, every object that is out at a moment of its
/// life lies in a region that was made readable and writable.
pub proof fn law_objects_of_a_life_can_be_written<N: NonLocalPtrManager>(
    moments: Seq<Moment<N>>,
    k: int,
    i: int,
)
    requires
        is_life(moments),
        0 <= k < moments.len(),
        0 <= i < moments[k].blocks.len(),
        is_object(moments[k].blocks[i].1),
        moments[0].allocator.inner.env.metadata@ == Map::<usize, ChunkMetadata>::empty(),
    ensures
        is_usable(moments[k].allocator.inner.env, moments[k].blocks[i].0),
{
    law_life(moments, k);
    lemma_life_notes(moments, k);
    let a = moments[k].allocator;
    let at = moments[k].blocks[i].0;
    assert(is_own(a, at as usize));
    assert(names(a.inner.env, at, a.inner.manager_ptr));
}

/// Owners are noted for nothing but memory that can be read and written.
proof fn lemma_life_notes<N: NonLocalPtrManager>(moments: Seq<Moment<N>>, k: int)
    requires
        is_life(moments),
        0 <= k < moments.len(),
    ensures
        notes(moments[0].allocator, moments[k].allocator),
    decreases k,
{
    if k > 0 {
        lemma_life_notes(moments, k - 1);
        law_life(moments, k - 1);
        let m0 = moments[k - 1];
        let m1 = moments[k];
        assert(comes_next(m0, moments[k - 1 + 1]));
        lemma_life_goes_on(m0, m1);
        lemma_notes(moments[0].allocator, m0.allocator, m1.allocator);
    }
}

/// Two blocks that are out at a moment of the life of an allocator do not overlap.
pub proof fn law_blocks_of_a_life_do_not_overlap<N: NonLocalPtrManager>(
    moments: Seq<Moment<N>>,
    k: int,
    i: int,
    j: int,
)
    requires
        is_life(moments),
        0 <= k < moments.len(),
        0 <= i < j < moments[k].blocks.len(),
    ensures
        ({
            let first = moments[k].blocks[i];
            let second = moments[k].blocks[j];
            first.0 + first.1 <= second.0 || second.0 + second.1 <= first.0
        }),
{
    law_life(moments, k);
    law_blocks_do_not_overlap(moments[k].allocator, moments[k].blocks, i, j);
}

/// What holds at one moment holds at the next.
proof fn lemma_life_goes_on<N: NonLocalPtrManager>(m0: Moment<N>, m1: Moment<N>)
    requires
        comes_next(m0, m1),
        kept_once(m0.allocator, m0.blocks),
        owns(m0.allocator),
        blocks_are_own(m0),
        regions_committed(m0.allocator, None),
    ensures
        m1.allocator.wf(),
        kept_once(m1.allocator, m1.blocks),
        owns(m1.allocator),
        blocks_are_own(m1),
        regions_committed(m1.allocator, None),
        notes(m0.allocator, m1.allocator),
{
    let a0 = m0.allocator;
    let a1 = m1.allocator;
    if exists|size: int, got: Option<usize>| #[trigger] allocated_next(m0, m1, size, got) {
        let (size, got) = choose|size: int, got: Option<usize>| #[trigger]
            allocated_next(m0, m1, size, got);
        law_alloc_keeps_once(a0, a1, m0.blocks, size, Ok::<Option<usize>, PanicCause>(got));
        let block = match got {
            Some(ptr) => (ptr as int, size),
            None => (0int, 0int),
        };
        lemma_hands_out_own(a0, a1, (0, 0), block);
        assert forall|i: int| 0 <= i < m1.blocks.len() implies (#[trigger] m1.blocks[i]).1 > 0 && (
        is_object(m1.blocks[i].1) ==> 0 < m1.blocks[i].0 <= usize::MAX && is_own(
            a1,
            m1.blocks[i].0 as usize,
        )) by {
            if i < m0.blocks.len() {
                assert(m1.blocks[i] == m0.blocks[i]);
            }
        }
    } else if exists|i: int| #[trigger] given_back_next(m0, m1, i) {
        let i = choose|i: int| #[trigger] given_back_next(m0, m1, i);
        let block = m0.blocks[i];
        law_dealloc_keeps_once(a0, a1, m0.blocks, i, Ok::<(), PanicCause>(()));
        lemma_hands_out_own(a0, a1, block, (0, 0));
        assert forall|j: int| 0 <= j < m1.blocks.len() implies (#[trigger] m1.blocks[j]).1 > 0 && (
        is_object(m1.blocks[j].1) ==> 0 < m1.blocks[j].0 <= usize::MAX && is_own(
            a1,
            m1.blocks[j].0 as usize,
        )) by {
            assert(m1.blocks[j] == m0.blocks[if j < i {
                j
            } else {
                j + 1
            }]);
        }
    } else {
        law_check_keeps_once(a0, a1, m0.blocks, Ok::<(), PanicCause>(()));
        lemma_hands_out_own(a0, a1, (0, 0), (0, 0));
        assert forall|i: int| 0 <= i < m1.blocks.len() implies (#[trigger] m1.blocks[i]).1 > 0 && (
        is_object(m1.blocks[i].1) ==> 0 < m1.blocks[i].0 <= usize::MAX && is_own(
            a1,
            m1.blocks[i].0 as usize,
        )) by {
            assert(m1.blocks[i] == m0.blocks[i]);
        }
    }
}

/// An object that an allocator has handed out comes back to it: where it is given back, it is the
/// last free object of its class, and the next one that is handed out.
pub proof fn law_own_object_comes_back<N: NonLocalPtrManager>(
    a0: ThreadLocalAllocator<N>,
    a1: ThreadLocalAllocator<N>,
    a2: ThreadLocalAllocator<N>,
    class: int,
    ptr: usize,
    r: Result<Option<usize>, PanicCause>,
)
    requires
        a0.wf(),
        0 <= class < 216,
        is_own(a0, ptr),
        gave_back(a0, a1, class, ptr, Ok(())),
        a1.len_of(class) > 0 ==> popped_last(a1, a2, class, r),
    ensures
        a1.inner.vectors@[class]@.last() == ptr,
        r == Ok::<Option<usize>, PanicCause>(Some(ptr)),
{
    law_given_back_is_next(a0, a1, a2, class, ptr, r);
}

/// The objects that a state hands out one after the other do not overlap, where it holds no byte
/// twice.
pub proof fn law_blocks_of_a_state_do_not_overlap(
    s0: State,
    e0: Environment,
    s1: State,
    e1: Environment,
    s2: State,
    e2: Environment,
    first: (int, int),
    second: (int, int),
)
    requires
        forall|at: int| #[trigger] s0.cover(at) + e0.pool(at) <= 1,
        first.1 > 0,
        second.1 > 0,
        took_from(s0, e0, s1, e1, first.0, first.1, class_of(first.1), 0),
        took_from(s1, e1, s2, e2, second.0, second.1, class_of(second.1), 0),
    ensures
        first.0 + first.1 <= second.0 || second.0 + second.1 <= first.0,
        forall|at: int| #[trigger]
            s2.cover(at) + e2.pool(at) + covers(first.0, first.1, at) + covers(
                second.0,
                second.1,
                at,
            ) <= 1,
{
    assert forall|at: int| #[trigger]
        s2.cover(at) + e2.pool(at) + covers(first.0, first.1, at) + covers(second.0, second.1, at)
            <= 1 by {
        assert(s1.cover(at) + e1.pool(at) + covers(first.0, first.1, at) <= s0.cover(at)
            + e0.pool(at));
        assert(s2.cover(at) + e2.pool(at) + covers(second.0, second.1, at) <= s1.cover(at)
            + e1.pool(at));
        assert(s0.cover(at) + e0.pool(at) <= 1);
    }
    let at = if first.0 <= second.0 {
        second.0
    } else {
        first.0
    };
    assert(s2.cover(at) + e2.pool(at) + covers(first.0, first.1, at) + covers(
        second.0,
        second.1,
        at,
    ) <= 1);
    lemma_chain_cover_nonnegative(s2.chain(), s2.region_size as int, at);
    lemma_pool_cover(e2.replies@, e2.used_replies as int, at);
}

/// Whether no request for memory was turned down between one moment and another, no message was sent
/// but for what had come in, and what is given up and replaced is still counted.
pub open spec fn went_well<N: NonLocalPtrManager>(
    a0: ThreadLocalAllocator<N>,
    a1: ThreadLocalAllocator<N>,
) -> bool {
    &&& a1.inner.env.refusals@.len() == a0.inner.env.refusals@.len()
    &&& a1.messages() == a0.messages()
    &&& is_counted(a1)
}

/// Giving an object back loses none, whether there is room for it or not: of its class one object
/// less is out, and of every other class as many as before. No chunk is lost but for those that are
/// given up.
pub proof fn law_dealloc_loses_nothing<N: NonLocalPtrManager>(
    a0: ThreadLocalAllocator<N>,
    a1: ThreadLocalAllocator<N>,
    ptr: int,
    size: int,
)
    requires
        done(a0, None, a1, None, ptr, size, Ok::<(), PanicCause>(())),
        size > 0,
        has_tables(a0),
        went_well(a0, a1),
    ensures
        forall|class: int|
            0 <= class < 216 ==> #[trigger] a1.live(class) == a0.live(class) - is_of_class(
                size,
                class,
            ),
        a1.weight() + 8 * (a1.inner.given_up - a0.inner.given_up) >= a0.weight() + chunks_taken(
            a1.inner.env,
        ) - chunks_taken(a0.inner.env),
{
    reveal(counts);
    let none = None::<State>;
    assert forall|class: int| 0 <= class < 216 implies #[trigger] a1.live(class) == a0.live(class)
        - is_of_class(size, class) by {
        assert(live(a1, none, class) + is_of_class(size, class) >= live(a0, none, class)
            + is_of_class(0, class));
        assert(live(a1, none, class) + is_of_class(size, class) <= live(a0, none, class)
            + is_of_class(0, class) + slack(a0, a1));
    }
}

/// Handing a block out loses none: of its class one object more is out, and of every other class as
/// many as before.
pub proof fn law_alloc_loses_nothing<N: NonLocalPtrManager>(
    a0: ThreadLocalAllocator<N>,
    a1: ThreadLocalAllocator<N>,
    size: int,
    ptr: usize,
)
    requires
        served(a0, None, a1, None, size, Ok::<Option<usize>, PanicCause>(Some(ptr)), true),
        size > 0,
        has_tables(a0),
        went_well(a0, a1),
    ensures
        forall|class: int|
            0 <= class < 216 ==> #[trigger] a1.live(class) == a0.live(class) + is_of_class(
                size,
                class,
            ),
        a1.weight() + 8 * (a1.inner.given_up - a0.inner.given_up) >= a0.weight() + chunks_taken(
            a1.inner.env,
        ) - chunks_taken(a0.inner.env),
{
    reveal(counts);
    let none = None::<State>;
    assert forall|class: int| 0 <= class < 216 implies #[trigger] a1.live(class) == a0.live(class)
        + is_of_class(size, class) by {
        assert(live(a1, none, class) + is_of_class(0, class) >= live(a0, none, class)
            + is_of_class(size, class));
        assert(live(a1, none, class) + is_of_class(0, class) <= live(a0, none, class)
            + is_of_class(size, class) + slack(a0, a1));
    }
}

/// Every pointer that has come in is taken back, whether there is room for it or not: of each class as
/// many objects less are out of the chunks as pointers had come in. A message was sent for every node
/// whose memory has to go home.
pub proof fn law_check_loses_nothing<N: NonLocalPtrManager>(
    a0: ThreadLocalAllocator<N>,
    a1: ThreadLocalAllocator<N>,
)
    requires
        managed(a0, None, a1, None, Ok::<(), PanicCause>(())),
        a1.incoming().len() == 0,
    ensures
        a1.inner.env.outbox@.len() >= a0.inner.env.outbox@.len() + nodes_abroad(a0.incoming()),
        has_tables(a0) && went_well(a0, a1) ==> {
            &&& a1.inner.env.outbox@.len() == a0.inner.env.outbox@.len() + nodes_abroad(
                a0.incoming(),
            )
            &&& forall|class: int|
                0 <= class < 216 ==> #[trigger] a1.inner.parts().out(class)
                    == a0.inner.parts().out(class) - nodes_of_class(a0.incoming(), class)
            &&& a1.weight() + 8 * (a1.inner.given_up - a0.inner.given_up) >= a0.weight()
                + chunks_taken(a1.inner.env) - chunks_taken(a0.inner.env)
        },
{
    reveal(counts);
    let none = None::<State>;
    assert(nodes_abroad(a1.incoming()) == 0);
    if has_tables(a0) && went_well(a0, a1) {
        assert forall|class: int| 0 <= class < 216 implies #[trigger] a1.inner.parts().out(class)
            == a0.inner.parts().out(class) - nodes_of_class(a0.incoming(), class) by {
            assert(live(a1, none, class) + is_of_class(0, class) >= live(a0, none, class)
                + is_of_class(0, class));
            assert(live(a1, none, class) + is_of_class(0, class) <= live(a0, none, class)
                + is_of_class(0, class) + slack(a0, a1));
            assert(nodes_of_class(a1.incoming(), class) == 0);
        }
    }
}

/// Making a state part of an allocator loses none of its objects and none of its chunks: what is out
/// of the state is then out of the allocator, and the chunks of the state are its chunks.
pub proof fn law_commitment_loses_nothing<N: NonLocalPtrManager>(
    a0: ThreadLocalAllocator<N>,
    a1: ThreadLocalAllocator<N>,
    state: State,
)
    requires
        committed(a0, state, a1, Ok::<(), PanicCause>(())),
        a1.inner.replaced == a0.inner.replaced,
        went_well(a0, a1),
    ensures
        forall|class: int|
            0 <= class < 216 ==> #[trigger] a1.live(class) == a0.live(class) + state.out(class),
        a1.weight() + 8 * (a1.inner.given_up - a0.inner.given_up) >= a0.weight() + state.weight()
            + chunks_taken(a1.inner.env) - chunks_taken(a0.inner.env),
{
    reveal(counts);
    let some = Some(state);
    let none = None::<State>;
    assert forall|class: int| 0 <= class < 216 implies #[trigger] a1.live(class) == a0.live(class)
        + state.out(class) by {
        assert(live(a1, none, class) + is_of_class(0, class) >= live(a0, some, class)
            + is_of_class(0, class));
        assert(live(a1, none, class) + is_of_class(0, class) <= live(a0, some, class)
            + is_of_class(0, class) + slack(a0, a1));
    }
}

/// An object that is given back becomes a free object beside all that were free, in their order, also
/// where the vector of its class is full and has to grow: none of them is lost. Then they are handed
/// out again, the last one first.
pub proof fn law_full_vector_keeps_its_objects<N: NonLocalPtrManager>(
    a0: ThreadLocalAllocator<N>,
    a1: ThreadLocalAllocator<N>,
    a2: ThreadLocalAllocator<N>,
    class: int,
    ptr: usize,
    given: Result<(), PanicCause>,
    r: Result<Option<usize>, PanicCause>,
)
    requires
        a0.wf(),
        0 <= class < 216,
        is_local(a0, ptr as int),
        a0.len_of(class) < a0.cap_of(class) || grows_apart(a0, None, class, 1),
        gave_back(a0, a1, class, ptr, given),
        a1.len_of(class) > 0 ==> popped_last(a1, a2, class, r),
    ensures
        given is Ok,
        a1.len_of(class) == a0.len_of(class) + 1,
        forall|i: int|
            0 <= i < a0.len_of(class) ==> (#[trigger] a1.inner.vectors@[class]@[i])
                == a0.inner.vectors@[class]@[i],
        r == Ok::<Option<usize>, PanicCause>(Some(ptr)),
        a2.inner.vectors@[class]@ == a0.inner.vectors@[class]@,
{
    assert(slot_wf(class, a0.inner.parts().vectors[class]));
    assert(a1.inner.vectors@[class]@ == a0.inner.vectors@[class]@.push(ptr));
    assert(a0.inner.vectors@[class]@.push(ptr).drop_last() =~= a0.inner.vectors@[class]@);
}

} // verus!
