//! Vectors whose buffers are mappings of their own.
use crate::failures::{PanicCause, Refusal};
use crate::os::{
    follows, left_pending, lemma_follows_itself, lemma_region_bytes, reply_serves_region, short,
    Environment, OsAction,
};
use vstd::prelude::*;

verus! {

/// A vector of words in a mapping of its own.
pub struct VecInOs {
    /// The mapping; zero where there is none.
    pub ptr: usize,
    pub data: Vec<usize>,
    pub cap: usize,
}

/// The capacity of a vector that grows to hold `required` elements.
pub open spec fn grown_capacity(cap: int, required: int) -> int {
    let doubled = if required >= 2 * cap {
        required
    } else {
        2 * cap
    };
    if doubled >= 4 {
        doubled
    } else {
        4
    }
}

/// Whether the request for a mapping for `cap` elements is the one that is left pending.
pub open spec fn asks_for_mapping(e0: Environment, e1: Environment, cap: int) -> bool {
    left_pending(e0, e1, 8 * cap, true)
}

/// The elements of a vector can be read and written: its mapping is asked for as such, with a word for
/// each element that it is to hold.
pub proof fn law_elements_can_be_written(e0: Environment, e1: Environment, cap: int)
    requires
        e0.unread() == 0,
        e0.pending is None,
        0 <= 8 * cap <= usize::MAX,
        asks_for_mapping(e0, e1, cap),
    ensures
        e1.pending is Some,
        e1.pending->0.commit,
        e1.pending->0.size == 8 * cap,
{
}

/// What asking for room for `additional` elements does.
pub open spec fn made_room(
    v0: VecInOs,
    e0: Environment,
    v1: VecInOs,
    e1: Environment,
    additional: int,
) -> bool {
    let required = v0.data@.len() + additional;
    &&& v1.data == v0.data
    &&& required <= v0.cap ==> v1 == v0 && e1 == e0
    &&& required > v0.cap ==> {
        &&& v1.cap == grown_capacity(v0.cap as int, required)
        &&& v1.ptr == e0.replies@[e0.used_replies as int].0
        &&& e1.used_replies == e0.used_replies + 1
        &&& e1.refusals == e0.refusals
        &&& e1.pending == e0.pending
        &&& e1.actions@ == if v0.cap == 0 {
            e0.actions@
        } else {
            e0.actions@.push(OsAction::Unmap { ptr: v0.ptr, size: (8 * v0.cap) as usize })
        }
    }
}

impl VecInOs {
    /// Whether the vector is sound.
    pub open spec fn wf(self) -> bool {
        &&& self.data@.len() <= self.cap
        &&& 8 * self.cap <= usize::MAX
    }

    /// An empty vector without a mapping.
    pub fn new() -> (r: VecInOs)
        ensures
            r.wf(),
            r.data@.len() == 0,
            r.cap == 0,
            r.ptr == 0,
    {
        VecInOs { ptr: 0, data: Vec::new(), cap: 0 }
    }

    /// Makes room for `additional` elements. A new mapping is asked for before the old one is
    /// given back.
    pub fn reserve(&mut self, additional: usize, env: &mut Environment) -> (r: Result<
        (),
        PanicCause,
    >)
        requires
            old(self).wf(),
            old(env).wf(),
        ensures
            final(self).wf(),
            final(env).wf(),
            final(env).same_but_memory(*old(env)),
            final(env).limit == old(env).limit,
            final(env).metadata == old(env).metadata,
            old(env).used_replies <= final(env).used_replies,
            follows(*old(env), *final(env)),
            forall|at: int| #[trigger] final(env).pool(at) <= old(env).pool(at),
            match r {
                Ok(()) => {
                    &&& made_room(*old(self), *old(env), *final(self), *final(env), additional as int)
                    &&& old(self).data@.len() + additional <= final(self).cap
                },
                Err(cause) => {
                    &&& *final(self) == *old(self)
                    &&& final(env).actions == old(env).actions
                    &&& old(self).data@.len() + additional > old(self).cap
                    &&& cause is RegionList ==> asks_for_mapping(
                        *old(env),
                        *final(env),
                        grown_capacity(old(self).cap as int, old(self).data@.len() + additional),
                    )
                    &&& cause is CapacityOverflow || (cause is RegionList
                        && short(*old(env), *final(env)))
                    &&& cause is CapacityOverflow <==> 8 * grown_capacity(
                        old(self).cap as int,
                        old(self).data@.len() + additional,
                    ) > usize::MAX
                },
            },
    {
        proof {
            lemma_follows_itself(*env);
            reveal(follows);
            lemma_region_bytes(env.region_size, 0, 1);
        }
        let len: usize = self.data.len();
        if self.cap - len >= additional {
            return Ok(());
        }
        if additional > usize::MAX - len {
            return Err(PanicCause::CapacityOverflow);
        }
        let required: usize = len + additional;
        let doubled: usize = self.cap * 2;
        let mut new_cap: usize = if required >= doubled {
            required
        } else {
            doubled
        };
        if new_cap < 4 {
            new_cap = 4;
        }
        if new_cap > usize::MAX / 8 {
            return Err(PanicCause::CapacityOverflow);
        }
        let new_ptr: usize = match env.alloc_from_os(new_cap * 8, true) {
            Some(ptr) => {
                proof {
                    let used = old(env).used_replies as int;
                    assert(env.replies@[used].1 != 2 * env.region_size - 1);
                    assert(!reply_serves_region(env.replies@, env.region_size, used));
                }
                ptr
            },
            None => {
                proof {
                    let j = old(env).refusals@.len() as int;
                    assert(env.refusals@[j] == Refusal::Os((new_cap * 8) as usize));
                }
                return Err(PanicCause::RegionList);
            },
        };
        if self.cap > 0 {
            env.free(self.ptr, self.cap * 8);
        }
        self.ptr = new_ptr;
        self.cap = new_cap;
        Ok(())
    }

    /// Appends an element where there is room for it.
    pub fn push_within(&mut self, value: usize)
        requires
            old(self).wf(),
            old(self).data@.len() < old(self).cap,
        ensures
            final(self).wf(),
            final(self).data@ == old(self).data@.push(value),
            final(self).cap == old(self).cap,
            final(self).ptr == old(self).ptr,
    {
        self.data.push(value);
    }

    /// Appends an element.
    pub fn push(&mut self, value: usize, env: &mut Environment) -> (r: Result<(), PanicCause>)
        requires
            old(self).wf(),
            old(env).wf(),
        ensures
            final(self).wf(),
            final(env).wf(),
            final(env).same_but_memory(*old(env)),
            final(env).limit == old(env).limit,
            final(env).metadata == old(env).metadata,
            match r {
                Ok(()) => {
                    &&& made_room(
                        *old(self),
                        *old(env),
                        (VecInOs { data: old(self).data, ..*final(self) }),
                        *final(env),
                        1,
                    )
                    &&& final(self).data@ == old(self).data@.push(value)
                },
                Err(cause) => {
                    &&& *final(self) == *old(self)
                    &&& final(env).actions == old(env).actions
                    &&& old(self).data@.len() == old(self).cap
                    &&& cause is RegionList ==> asks_for_mapping(
                        *old(env),
                        *final(env),
                        grown_capacity(old(self).cap as int, (old(self).data@.len() + 1) as int),
                    )
                    &&& cause is CapacityOverflow || (cause is RegionList
                        && short(*old(env), *final(env)))
                    &&& cause is CapacityOverflow <==> 8 * grown_capacity(
                        old(self).cap as int,
                        (old(self).data@.len() + 1) as int,
                    ) > usize::MAX
                },
            },
    {
        match self.reserve(1, env) {
            Ok(()) => {},
            Err(cause) => {
                return Err(cause);
            },
        }
        self.push_within(value);
        Ok(())
    }

    /// Gives the mapping back.
    pub fn release(self, env: &mut Environment)
        requires
            self.wf(),
            old(env).wf(),
        ensures
            final(env).wf(),
            final(env).same_but_memory(*old(env)),
            final(env).limit == old(env).limit,
            final(env).metadata == old(env).metadata,
            final(env).used_replies == old(env).used_replies,
            final(env).refusals == old(env).refusals,
            final(env).pending == old(env).pending,
            final(env).actions@ == if self.cap == 0 {
                old(env).actions@
            } else {
                old(env).actions@.push(
                    OsAction::Unmap { ptr: self.ptr, size: (8 * self.cap) as usize },
                )
            },
    {
        if self.cap > 0 {
            env.free(self.ptr, self.cap * 8);
        }
    }
}

} // verus!
