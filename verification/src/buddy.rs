//! A cache of blocks that are greater than a region, by their powers of two.
use crate::allocated_in_self_list::AllocatedInSelfList;
use crate::powers::{
    lemma_next_pow2, lemma_powers_apart, next_pow2, next_power_of_two, trailing_zeros, twos,
};
use vstd::arithmetic::power2::{is_pow2, lemma2_to64, lemma_pow2_unfold, pow2};
use vstd::prelude::*;

verus! {

/// The number of doublings between two powers of two.
pub open spec fn grades(min: int, max: int) -> int {
    twos(max / min)
}

/// The number of doublings that lead from `min` to `max`.
pub fn calc_grades(min: usize, max: usize) -> (r: usize)
    requires
        is_pow2(min as int),
        is_pow2(max as int),
        min <= max,
    ensures
        r == grades(min as int, max as int),
        pow2(r as nat) * min == max,
{
    proof {
        reveal_with_fuel(is_pow2, 2);
        lemma_ratio(min as int, max as int);
    }
    trailing_zeros(max / min)
}

/// The ratio of two powers of two is a power of two.
proof fn lemma_ratio(min: int, max: int)
    requires
        is_pow2(min),
        is_pow2(max),
        min <= max,
    ensures
        max / min > 0,
        pow2(twos(max / min) as nat) * min == max,
    decreases max,
{
    reveal_with_fuel(is_pow2, 2);
    if min == max {
        assert(max / min == 1) by (nonlinear_arith)
            requires
                min == max,
                min > 0,
        ;
        lemma2_to64();
        assert(twos(1) == 0);
        assert(pow2(0) * min == max) by (nonlinear_arith)
            requires
                pow2(0) == 1,
                min == max,
        ;
    } else {
        lemma_powers_apart(min, max);
        lemma_ratio(min, max / 2);
        let half = max / 2;
        let q = half / min;
        assert(max == 2 * half);
        lemma_exact_ratio(min, half);
        assert(half == q * min);
        assert(max / min == 2 * q) by (nonlinear_arith)
            requires
                max == 2 * half,
                half == q * min,
                min > 0,
        ;
        assert(twos(2 * q) == 1 + twos(q));
        lemma_twos_nonnegative(q);
        lemma_pow2_unfold((1 + twos(q)) as nat);
        assert(pow2((1 + twos(q)) as nat) * min == 2 * (pow2(twos(q) as nat) * min)) by (nonlinear_arith)
            requires
                pow2((1 + twos(q)) as nat) == 2 * pow2(twos(q) as nat),
        ;
        assert(twos(max / min) == 1 + twos(q));
    }
}

/// A power of two divides a greater one.
proof fn lemma_exact_ratio(min: int, max: int)
    requires
        is_pow2(min),
        is_pow2(max),
        min <= max,
    ensures
        max == (max / min) * min,
    decreases max,
{
    reveal_with_fuel(is_pow2, 2);
    if min == max {
        assert(max / min == 1) by (nonlinear_arith)
            requires
                min == max,
                min > 0,
        ;
    } else {
        lemma_powers_apart(min, max);
        lemma_exact_ratio(min, max / 2);
        let half = max / 2;
        let q = half / min;
        assert(max / min == 2 * q && max == (2 * q) * min) by (nonlinear_arith)
            requires
                max == 2 * half,
                half == q * min,
                min > 0,
        ;
    }
}

/// A number has no fewer than zero factors of two.
proof fn lemma_twos_nonnegative(x: int)
    ensures
        twos(x) >= 0,
    decreases x,
{
    if x > 1 && x % 2 == 0 {
        lemma_twos_nonnegative(x / 2);
    }
}

/// Free blocks between `MIN` and `MAX` bytes, in one list for each of the `GRADES` powers of two.
pub struct BuddyCache<const MIN: usize, const MAX: usize, const GRADES: usize> {
    pub free_lists: Vec<AllocatedInSelfList>,
}

/// The grade of a request.
pub open spec fn grade_of(size: int, align: int) -> int {
    let power = next_pow2(size);
    let word = vstd::layout::size_of::<usize>() as int;
    let least = if align < word {
        word
    } else {
        align
    };
    twos(if power < least {
        least
    } else {
        power
    })
}

impl<const MIN: usize, const MAX: usize, const GRADES: usize> BuddyCache<MIN, MAX, GRADES> {
    /// Whether there is a list for each grade.
    pub open spec fn wf(self) -> bool {
        self.free_lists@.len() == GRADES
    }

    /// Whether `i` is the first grade, from `grade` on, of which a block is free.
    pub open spec fn first_free(self, grade: int, i: int) -> bool {
        &&& grade <= i < GRADES
        &&& self.free_lists@[i]@.len() > 0
        &&& forall|j: int|
            grade <= j < i ==> (#[trigger] self.free_lists@[j])@.len() == 0
    }

    /// A cache without blocks. `GRADES` is the number of doublings between `MIN` and `MAX`.
    pub fn new() -> (r: BuddyCache<MIN, MAX, GRADES>)
        requires
            is_pow2(MIN as int),
            is_pow2(MAX as int),
            MIN <= MAX,
            grades(MIN as int, MAX as int) == GRADES,
        ensures
            r.wf(),
            forall|i: int| 0 <= i < GRADES ==> (#[trigger] r.free_lists@[i])@.len() == 0,
    {
        let mut free_lists: Vec<AllocatedInSelfList> = Vec::new();
        let mut i: usize = 0;
        while i < GRADES
            invariant
                i <= GRADES,
                free_lists@.len() == i,
                forall|j: int| 0 <= j < i ==> (#[trigger] free_lists@[j])@.len() == 0,
            decreases GRADES - i,
        {
            free_lists.push(AllocatedInSelfList::new());
            i = i + 1;
        }
        BuddyCache { free_lists }
    }

    /// Asks for a block. The request is not served yet: the first free block of its grade, or of a
    /// greater one, is dropped from its list, and nothing is handed out.
    pub fn get(&mut self, size: usize, align: usize) -> (r: Option<usize>)
        requires
            old(self).wf(),
            MIN <= size <= MAX,
            next_pow2(size as int) <= usize::MAX,
        ensures
            r is None,
            final(self).wf(),
            (forall|i: int| !old(self).first_free(grade_of(size as int, align as int), i))
                ==> final(self).free_lists@ == old(self).free_lists@,
            forall|i: int| #[trigger]
                old(self).first_free(grade_of(size as int, align as int), i) ==> {
                    &&& final(self).free_lists@ == old(self).free_lists@.update(
                        i,
                        final(self).free_lists@[i],
                    )
                    &&& final(self).free_lists@[i]@ == old(self).free_lists@[i]@.drop_last()
                },
    {
        let power: usize = match next_power_of_two(size) {
            Some(power) => power,
            None => {
                return None;
            },
        };
        let word: usize = core::mem::size_of::<usize>();
        let least: usize = if align < word {
            word
        } else {
            align
        };
        let block: usize = if power < least {
            least
        } else {
            power
        };
        proof {
            lemma_next_pow2(if size == 0 {
                1
            } else {
                size as int
            });
        }
        let grade: usize = trailing_zeros(block);
        let ghost before = *self;
        let mut i: usize = grade;
        while i < GRADES
            invariant
                grade <= i,
                self.wf(),
                before.wf(),
                before == *old(self),
                *self == before,
                grade == grade_of(size as int, align as int),
                forall|j: int| grade <= j < i ==> (#[trigger] self.free_lists@[j])@.len() == 0,
            decreases GRADES - i,
        {
            if self.free_lists[i].blocks.len() > 0 {
                let _ = self.free_lists[i].pop();
                proof {
                    assert(before.first_free(grade as int, i as int));
                    assert forall|k: int| #[trigger] before.first_free(grade as int, k) implies k
                        == i by {}
                }
                return None;
            }
            i = i + 1;
        }
        None
    }
}

} // verus!
