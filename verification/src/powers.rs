//! Powers of two on machine words.
use vstd::arithmetic::power2::is_pow2;
use vstd::prelude::*;

verus! {

/// The least power of two that is not below `x`.
pub open spec fn next_pow2(x: int) -> int
    decreases x,
{
    if x <= 1 {
        1
    } else {
        2 * next_pow2((x + 1) / 2)
    }
}

/// Two powers of two, one below the other, differ at least by the factor two.
pub proof fn lemma_powers_apart(p: int, q: int)
    requires
        is_pow2(p),
        is_pow2(q),
        p < q,
    ensures
        2 * p <= q,
    decreases p,
{
    reveal_with_fuel(is_pow2, 2);
    if p > 1 {
        lemma_powers_apart(p / 2, q / 2);
    }
}

/// Doubling keeps a power of two.
pub proof fn lemma_double(p: int)
    requires
        is_pow2(p),
    ensures
        is_pow2(2 * p),
{
    reveal_with_fuel(is_pow2, 2);
}

/// `next_pow2(x)` is a power of two, it is not below `x`, and it is below twice `x`.
pub proof fn lemma_next_pow2(x: int)
    requires
        1 <= x,
    ensures
        is_pow2(next_pow2(x)),
        x <= next_pow2(x) < 2 * x,
    decreases x,
{
    reveal_with_fuel(is_pow2, 2);
    if x > 1 {
        lemma_next_pow2((x + 1) / 2);
    }
}

/// No power of two lies between `x` and `next_pow2(x)`.
pub proof fn law_next_pow2_is_least(x: int, p: int)
    requires
        1 <= x <= p,
        is_pow2(p),
    ensures
        next_pow2(x) <= p,
{
    lemma_next_pow2(x);
    if p < next_pow2(x) {
        lemma_powers_apart(p, next_pow2(x));
    }
}

/// Whether `x` is a power of two.
pub fn is_power_of_two(x: usize) -> (r: bool)
    ensures
        r == is_pow2(x as int),
{
    if x == 0 {
        proof {
            reveal_with_fuel(is_pow2, 2);
        }
        return false;
    }
    let mut y: usize = x;
    while y % 2 == 0
        invariant
            y >= 1,
            is_pow2(x as int) == is_pow2(y as int),
        decreases y,
    {
        proof {
            reveal_with_fuel(is_pow2, 2);
        }
        y = y / 2;
    }
    proof {
        reveal_with_fuel(is_pow2, 2);
    }
    y == 1
}

/// The least power of two that is not below `x`, where it fits in a word.
pub fn next_power_of_two(x: usize) -> (r: Option<usize>)
    ensures
        r is Some <==> next_pow2(x as int) <= usize::MAX,
        r matches Some(p) ==> p == next_pow2(x as int),
{
    if x <= 1 {
        return Some(1);
    }
    let mut p: usize = 1;
    proof {
        reveal_with_fuel(is_pow2, 2);
        lemma_next_pow2(x as int);
    }
    while p < x
        invariant
            is_pow2(p as int),
            1 <= p,
            1 < x,
            p < 2 * x,
            is_pow2(next_pow2(x as int)),
            x <= next_pow2(x as int) < 2 * x,
        decreases 2 * x - p,
    {
        if p > usize::MAX / 2 {
            proof {
                lemma_powers_apart(p as int, next_pow2(x as int));
            }
            return None;
        }
        proof {
            lemma_double(p as int);
        }
        p = p * 2;
    }
    proof {
        if p < next_pow2(x as int) {
            lemma_powers_apart(p as int, next_pow2(x as int));
        }
        if next_pow2(x as int) < p {
            lemma_powers_apart(next_pow2(x as int), p as int);
        }
    }
    Some(p)
}

/// The exponent of the greatest power of two that divides `x`.
pub open spec fn twos(x: int) -> int
    decreases x,
{
    if x <= 0 || x % 2 != 0 {
        0
    } else {
        1 + twos(x / 2)
    }
}

/// How many times two divides `x`.
pub fn trailing_zeros(x: usize) -> (r: usize)
    requires
        x > 0,
    ensures
        r == twos(x as int),
        r < x,
{
    let mut y: usize = x;
    let mut n: usize = 0;
    while y % 2 == 0
        invariant
            y >= 1,
            n + y <= x,
            n + twos(y as int) == twos(x as int),
        decreases y,
    {
        y = y / 2;
        n = n + 1;
    }
    n
}

} // verus!
