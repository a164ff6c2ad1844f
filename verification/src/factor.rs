//! Divisor sets and the common-factor check that classifies a found
//! solution: do the three bases share a divisor greater than 1?

use crate::scan::Solution;
use vstd::arithmetic::div_mod::lemma_fundamental_div_mod;
use vstd::prelude::*;

verus! {

/// Membership in the divisor set of `n` as the trial division builds it:
/// every proper divisor from 2 up to n/2, plus n itself.  1 is a member only
/// for n == 1, where it enters through the "n divides itself" rule.
pub open spec fn in_divisor_set(n: u64, d: u64) -> bool {
    d == n || (2 <= d && d <= n / 2 && n % d == 0)
}

/// d is in the divisor sets of all three bases of the solution.
pub open spec fn common_divisor(s: Solution, d: u64) -> bool {
    in_divisor_set(s.a, d) && in_divisor_set(s.b, d) && in_divisor_set(s.c, d)
}

/// The divisor set of `n`, in strictly ascending order: trial division from
/// 2 up to n/2, then n itself.
pub fn factorize(n: &u64) -> (divs: Vec<u64>)
    ensures
        forall|d: u64| divs@.contains(d) <==> in_divisor_set(*n, d),
        forall|i: int, j: int| 0 <= i < j < divs@.len() ==> divs@[i] < divs@[j],
{
    let m = *n;
    let mut divs: Vec<u64> = Vec::new();
    let top = m / 2;
    let mut i: u64 = 2;
    while i <= top
        invariant
            2 <= i,
            top == m / 2,
            forall|d: u64| divs@.contains(d) <==> (2 <= d < i && d <= m / 2 && m % d == 0),
            forall|k: int| 0 <= k < divs@.len() ==> divs@[k] < i,
            forall|k: int, l: int| 0 <= k < l < divs@.len() ==> divs@[k] < divs@[l],
        decreases top + 1 - i,
    {
        if m % i == 0 {
            let ghost before = divs@;
            divs.push(i);
            proof {
                assert forall|d: u64| divs@.contains(d) implies (2 <= d < i + 1 && d <= m / 2 && m
                    % d == 0) by {
                    if d != i {
                        assert(before.contains(d));
                    }
                }
                assert forall|d: u64| (2 <= d < i + 1 && d <= m / 2 && m % d == 0) implies divs@
                    .contains(d) by {
                    if d < i {
                        assert(before.contains(d));
                        let k = choose|k: int| 0 <= k < before.len() && before[k] == d;
                        assert(divs@[k] == d);
                    } else {
                        assert(divs@.last() == i);
                    }
                }
            }
        }
        i += 1;
    }
    let ghost loop_divs = divs@;
    divs.push(m);
    proof {
        assert forall|d: u64| divs@.contains(d) implies in_divisor_set(m, d) by {
            if d != m {
                assert(loop_divs.contains(d));
            }
        }
        assert forall|d: u64| in_divisor_set(m, d) implies divs@.contains(d) by {
            if d == m {
                assert(divs@.last() == m);
            } else {
                assert(loop_divs.contains(d));
                let k = choose|k: int| 0 <= k < loop_divs.len() && loop_divs[k] == d;
                assert(divs@[k] == d);
            }
        }
        assert forall|k: int, l: int| 0 <= k < l < divs@.len() implies divs@[k] < divs@[l] by {
            if l == divs@.len() - 1 {
                let d = loop_divs[k];
                assert(loop_divs.contains(d));
                assert(2 <= d && d <= m / 2);
                lemma_fundamental_div_mod(m as int, 2);
                assert(d < m);
            }
        }
    }
    divs
}

/// Linear membership test on a vector of divisors.
fn contains_value(v: &Vec<u64>, x: u64) -> (found: bool)
    ensures
        found == v@.contains(x),
{
    let mut k: usize = 0;
    while k < v.len()
        invariant
            k <= v@.len(),
            forall|t: int| 0 <= t < k ==> v@[t] != x,
        decreases v@.len() - k,
    {
        if v[k] == x {
            return true;
        }
        k += 1;
    }
    false
}

/// Look for a divisor shared by the divisor sets of the three bases of a
/// solution.  The divisor sets are enumerated in ascending order, so when a
/// common divisor exists the smallest one is returned; when none exists the
/// answer is None.
pub fn check_common_factors(solution: &Solution) -> (r: Option<u64>)
    ensures
        match r {
            Some(f) => common_divisor(*solution, f) && forall|d: u64|
                d < f ==> !common_divisor(*solution, d),
            None => forall|d: u64| !common_divisor(*solution, d),
        },
{
    let a_factors = factorize(&solution.a);
    let b_factors = factorize(&solution.b);
    let c_factors = factorize(&solution.c);
    let mut k: usize = 0;
    while k < a_factors.len()
        invariant
            k <= a_factors@.len(),
            forall|d: u64| a_factors@.contains(d) <==> in_divisor_set(solution.a, d),
            forall|d: u64| b_factors@.contains(d) <==> in_divisor_set(solution.b, d),
            forall|d: u64| c_factors@.contains(d) <==> in_divisor_set(solution.c, d),
            forall|i: int, j: int|
                0 <= i < j < a_factors@.len() ==> a_factors@[i] < a_factors@[j],
            forall|t: int| 0 <= t < k ==> !common_divisor(*solution, a_factors@[t]),
        decreases a_factors@.len() - k,
    {
        let f = a_factors[k];
        if contains_value(&b_factors, f) && contains_value(&c_factors, f) {
            proof {
                assert(a_factors@.contains(f));
                assert forall|d: u64| d < f implies !common_divisor(*solution, d) by {
                    if common_divisor(*solution, d) {
                        assert(a_factors@.contains(d));
                        let t = choose|t: int|
                            0 <= t < a_factors@.len() && a_factors@[t] == d;
                        if t > k {
                            assert(a_factors@[k as int] < a_factors@[t]);
                        }
                        assert(t < k);
                    }
                }
            }
            return Some(f);
        }
        k += 1;
    }
    proof {
        assert forall|d: u64| !common_divisor(*solution, d) by {
            if common_divisor(*solution, d) {
                assert(a_factors@.contains(d));
                let t = choose|t: int| 0 <= t < a_factors@.len() && a_factors@[t] == d;
                assert(!common_divisor(*solution, a_factors@[t]));
            }
        }
    }
    None
}

} // verus!
