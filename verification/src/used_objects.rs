//! Numbers of objects by their size, in a sorted list.
use crate::btree_map::{
    keys_ascend, lemma_map_absent, lemma_map_insert, lemma_map_of, lemma_map_update, map_of,
};
use vstd::prelude::*;

verus! {

/// A size, and the number of objects that have it.
pub type UsedObjEntry = (usize, u32);

/// How many objects of the size are noted.
pub open spec fn number_of(entries: Seq<UsedObjEntry>, size: usize) -> int {
    if map_of(entries).contains_key(size) {
        map_of(entries)[size] as int
    } else {
        0
    }
}

/// Whether the list is sound: its sizes ascend, and no number is zero.
pub open spec fn entries_wf(entries: Seq<UsedObjEntry>) -> bool {
    &&& keys_ascend(entries)
    &&& forall|i: int| 0 <= i < entries.len() ==> (#[trigger] entries[i]).1 > 0
}

/// Finds the entry of a size by halving, or the place where it belongs.
pub fn binary_search(arr: &Vec<UsedObjEntry>, real_size: usize) -> (r: Result<usize, usize>)
    requires
        keys_ascend(arr@),
    ensures
        match r {
            Ok(i) => i < arr@.len() && arr@[i as int].0 == real_size,
            Err(i) => {
                &&& i <= arr@.len()
                &&& forall|j: int| #![trigger arr@[j]] 0 <= j < i ==> arr@[j].0 < real_size
                &&& forall|j: int|
                    #![trigger arr@[j]]
                    i <= j < arr@.len() ==> real_size < arr@[j].0
            },
        },
{
    let mut low: usize = 0;
    let mut high: usize = arr.len();
    while low < high
        invariant
            keys_ascend(arr@),
            low <= high <= arr@.len(),
            forall|j: int| #![trigger arr@[j]] 0 <= j < low ==> arr@[j].0 < real_size,
            forall|j: int| #![trigger arr@[j]] high <= j < arr@.len() ==> real_size < arr@[j].0,
        decreases high - low,
    {
        let mid: usize = low + (high - low) / 2;
        let mid_val: usize = arr[mid].0;
        if mid_val < real_size {
            low = mid + 1;
        } else if mid_val > real_size {
            high = mid;
        } else {
            return Ok(mid);
        }
    }
    Err(low)
}

/// The list, for reading.
pub struct UsedObjectsSlice<'a> {
    pub arr: &'a Vec<UsedObjEntry>,
}

impl<'a> UsedObjectsSlice<'a> {
    /// The entries.
    pub fn as_slice(&self) -> (r: &'a Vec<UsedObjEntry>)
        ensures
            r@ == self.arr@,
    {
        self.arr
    }

    /// The entry of a size, or the place where it belongs.
    pub fn find_size(&self, size: usize) -> (r: Result<UsedObjEntry, usize>)
        requires
            entries_wf(self.arr@),
        ensures
            r is Ok <==> number_of(self.arr@, size) > 0,
            r matches Ok(entry) ==> entry.0 == size && entry.1 == number_of(self.arr@, size),
            r matches Err(i) ==> i <= self.arr@.len() && forall|j: int|
                #![trigger self.arr@[j]]
                0 <= j < self.arr@.len() ==> (self.arr@[j].0 < size <==> j < i),
    {
        proof {
            lemma_map_of(self.arr@);
        }
        match binary_search(self.arr, size) {
            Ok(i) => Ok(self.arr[i]),
            Err(i) => {
                proof {
                    lemma_map_absent(self.arr@, i as int, size);
                }
                Err(i)
            },
        }
    }
}

/// The list, for writing.
pub struct UsedObjectsMutSlice<'a> {
    pub arr: &'a mut Vec<UsedObjEntry>,
    /// The greatest number of entries.
    pub capacity: usize,
}

/// What noting `n` more objects of a size does.
pub open spec fn noted(
    before: Seq<UsedObjEntry>,
    after: Seq<UsedObjEntry>,
    size: usize,
    n: u32,
) -> bool {
    &&& entries_wf(after)
    &&& size == 0 || n == 0 ==> after == before
    &&& size != 0 && n != 0 ==> map_of(after) == map_of(before).insert(
        size,
        (number_of(before, size) + n) as u32,
    )
    &&& after.len() == before.len() + (if size != 0 && n != 0 && number_of(before, size) == 0 {
        1int
    } else {
        0
    })
}

/// Notes `n` more objects of a size.
fn write_entry(arr: &mut Vec<UsedObjEntry>, size: usize, n: u32)
    requires
        entries_wf(old(arr)@),
        number_of(old(arr)@, size) + n <= u32::MAX,
    ensures
        noted(old(arr)@, final(arr)@, size, n),
{
    if size == 0 || n == 0 {
        return;
    }
    let ghost before = arr@;
    proof {
        lemma_map_of(before);
    }
    match binary_search(arr, size) {
        Ok(i) => {
            let number: u32 = arr[i].1;
            assert(before[i as int].1 > 0);
            proof {
                lemma_map_update(before, i as int, (number + n) as u32);
            }
            arr.set(i, (size, number + n));
            proof {
                assert(arr@ =~= before.update(i as int, (size, (number + n) as u32)));
                assert forall|j: int| 0 <= j < arr@.len() implies (#[trigger] arr@[j]).1 > 0 by {
                    assert(before[j].1 > 0);
                }
            }
        },
        Err(i) => {
            proof {
                lemma_map_insert(before, i as int, size, n);
            }
            arr.insert(i, (size, n));
            proof {
                assert(arr@ =~= before.insert(i as int, (size, n)));
                assert forall|j: int| 0 <= j < arr@.len() implies (#[trigger] arr@[j]).1 > 0 by {
                    if j < i {
                        assert(arr@[j] == before[j]);
                    } else if j > i {
                        assert(arr@[j] == before[j - 1]);
                    }
                }
            }
        },
    }
}

impl<'a> UsedObjectsMutSlice<'a> {
    /// Notes `n` more objects of a size. Objects of no bytes are not noted.
    pub fn write_used_number_and_size(&mut self, size: usize, n: u32)
        requires
            entries_wf(old(self).arr@),
            number_of(old(self).arr@, size) + n <= u32::MAX,
            old(self).arr@.len() < old(self).capacity || number_of(old(self).arr@, size) > 0,
        ensures
            noted(old(self).arr@, final(self).arr@, size, n),
            final(self).capacity == old(self).capacity,
            *final(final(self).arr) == *final(old(self).arr),
    {
        write_entry(self.arr, size, n);
    }
}

/// A list of at most `N` entries.
#[derive(Clone, Debug)]
pub struct UsedObjectsFixed<const N: usize> {
    pub arr: Vec<UsedObjEntry>,
}

impl<const N: usize> UsedObjectsFixed<N> {
    /// Whether the list is sound.
    pub open spec fn wf(self) -> bool {
        &&& entries_wf(self.arr@)
        &&& self.arr@.len() <= N
    }

    /// How many objects of the size are noted.
    pub open spec fn number(self, size: usize) -> int {
        number_of(self.arr@, size)
    }

    /// An empty list.
    pub fn new() -> (r: UsedObjectsFixed<N>)
        ensures
            r.wf(),
            r.arr@.len() == 0,
            forall|size: usize| #[trigger] r.number(size) == 0,
    {
        UsedObjectsFixed { arr: Vec::new() }
    }

    /// The list, for reading.
    pub fn as_slice(&self) -> (r: UsedObjectsSlice<'_>)
        ensures
            r.arr@ == self.arr@,
    {
        UsedObjectsSlice { arr: &self.arr }
    }

    /// The list, for writing.
    pub fn as_mut_slice(&mut self) -> (r: UsedObjectsMutSlice<'_>)
        ensures
            r.arr@ == old(self).arr@,
            r.capacity == N,
            final(self).arr == *final(r.arr),
    {
        UsedObjectsMutSlice { arr: &mut self.arr, capacity: N }
    }

    /// The entry of a size, or the place where it belongs.
    pub fn find_size(&self, size: usize) -> (r: Result<UsedObjEntry, usize>)
        requires
            self.wf(),
        ensures
            r is Ok <==> self.number(size) > 0,
            r matches Ok(entry) ==> entry.0 == size && entry.1 == self.number(size),
            r matches Err(i) ==> i <= self.arr@.len() && forall|j: int|
                #![trigger self.arr@[j]]
                0 <= j < self.arr@.len() ==> (self.arr@[j].0 < size <==> j < i),
    {
        self.as_slice().find_size(size)
    }

    /// Notes `number` more objects of a size. Objects of no bytes are not noted.
    pub fn write_used_number_and_size(&mut self, size: usize, number: u32)
        requires
            old(self).wf(),
            old(self).number(size) + number <= u32::MAX,
            old(self).arr@.len() < N || old(self).number(size) > 0,
        ensures
            final(self).wf(),
            noted(old(self).arr@, final(self).arr@, size, number),
            forall|other: usize| #[trigger]
                final(self).number(other) == old(self).number(other) + (if other == size && size
                    != 0 {
                    number as int
                } else {
                    0
                }),
    {
        let mut slice = self.as_mut_slice();
        slice.write_used_number_and_size(size, number);
    }
}

} // verus!
