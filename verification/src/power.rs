//! Power-number generation: every triple (base, exponent, result) with
//! `result == base^exponent`, `exponent >= 3` and `result <= limit`.

use vstd::arithmetic::div_mod::{lemma_fundamental_div_mod, lemma_mod_bound};
use vstd::arithmetic::power::{
    lemma0_pow, lemma1_pow, lemma_pow_increases, lemma_pow_positive, pow,
};
use vstd::arithmetic::power2::{lemma2_to64, lemma_pow2};
use vstd::prelude::*;

verus! {

/// A triple (base, exponent, result) meant to satisfy
/// `result == base^exponent` with `exponent >= 3`.
#[derive(Debug, Clone, Copy, PartialEq, Eq, Structural)]
pub struct PowerNumber {
    pub base: u64,
    pub exponent: u64,
    pub result: u64,
}

impl PowerNumber {
    pub fn new(base: u64, exponent: u64, result: u64) -> (pn: PowerNumber)
        ensures
            pn == (PowerNumber { base, exponent, result }),
    {
        PowerNumber { base, exponent, result }
    }
}

/// The result field is exactly base^exponent, and the exponent is at least 3.
pub open spec fn pn_exact(pn: PowerNumber) -> bool {
    pn.exponent >= 3 && pn.result == pow(pn.base as int, pn.exponent as nat)
}

/// Well-formed under `limit`: exact, with the result within the limit.
pub open spec fn pn_wf(pn: PowerNumber, limit: u64) -> bool {
    pn_exact(pn) && pn.result <= limit
}

/// The power numbers of one base for exponents counting up from `e`, cut off
/// at the first exponent whose power exceeds `limit`.  A base of at least 2
/// raised to 64 no longer fits in u64, so the recursion is also cut off
/// there, which keeps it well founded; for such bases that branch is never
/// the one that ends a run below a u64 limit.
pub open spec fn pows_from(base: u64, e: u64, limit: u64) -> Seq<PowerNumber>
    decreases 64 - e,
{
    if e >= 64 || pow(base as int, e as nat) > limit {
        Seq::<PowerNumber>::empty()
    } else {
        seq![
            PowerNumber {
                base: base,
                exponent: e,
                result: pow(base as int, e as nat) as u64,
            },
        ] + pows_from(base, (e + 1) as u64, limit)
    }
}

/// The power numbers of all bases counting up from `base`, in ascending base
/// order, cut off at the first base whose cube exceeds `limit`.  A base of
/// 2^22 or more has a cube above u64::MAX, so the recursion is also cut off
/// there; that branch is never the one that ends a run below a u64 limit.
pub open spec fn gen_bases(base: u64, limit: u64) -> Seq<PowerNumber>
    decreases 0x40_0000 - base,
{
    if base < 2 || base >= 0x40_0000 || pow(base as int, 3) > limit {
        Seq::<PowerNumber>::empty()
    } else {
        pows_from(base, 3, limit) + gen_bases((base + 1) as u64, limit)
    }
}

/// The full generated sequence: the single representative for base 1 first
/// (1 to any exponent is 1, so it is kept once, with exponent 3 by
/// convention), then every larger base in base-ascending,
/// exponent-ascending order.
pub open spec fn gen_spec(limit: u64) -> Seq<PowerNumber> {
    seq![PowerNumber { base: 1, exponent: 3, result: 1 }] + gen_bases(2, limit)
}

/// pow unfolded at exponent 3.
proof fn lemma_pow3(b: int)
    ensures
        pow(b, 3) == b * b * b,
{
    reveal_with_fuel(pow, 4);
    assert(b * (b * (b * 1)) == b * b * b) by (nonlinear_arith);
}

/// pow unfolded by one step.
proof fn lemma_pow_step(b: int, e: nat)
    ensures
        pow(b, (e + 1) as nat) == b * pow(b, e),
{
    reveal(pow);
}

/// A base of 2^22 or more has a cube above u64::MAX.
proof fn lemma_cube_overflow(base: u64)
    requires
        base >= 0x40_0000,
    ensures
        pow(base as int, 3) > u64::MAX,
{
    lemma_pow3(base as int);
    assert((base as int) * (base as int) * (base as int) > u64::MAX) by (nonlinear_arith)
        requires
            base >= 0x40_0000u64,
    ;
}

/// Powers of a natural number are never negative.
proof fn lemma_pow_nonneg(b: nat, e: nat)
    ensures
        pow(b as int, e) >= 0,
{
    if b == 0 {
        if e == 0 {
            assert(pow(0, 0) == 1) by {
                reveal(pow);
            }
        } else {
            lemma0_pow(e);
        }
    } else {
        lemma_pow_positive(b as int, e);
    }
}

/// Powers are monotone in the base.
proof fn lemma_pow_base_mono(b1: nat, b2: nat, e: nat)
    requires
        b1 <= b2,
    ensures
        pow(b1 as int, e) <= pow(b2 as int, e),
    decreases e,
{
    if e > 0 {
        lemma_pow_base_mono(b1, b2, (e - 1) as nat);
        lemma_pow_nonneg(b1, (e - 1) as nat);
        assert(pow(b1 as int, e) == b1 * pow(b1 as int, (e - 1) as nat)) by {
            reveal(pow);
        }
        assert(pow(b2 as int, e) == b2 * pow(b2 as int, (e - 1) as nat)) by {
            reveal(pow);
        }
        assert(b1 * pow(b1 as int, (e - 1) as nat) <= b2 * pow(b2 as int, (e - 1) as nat))
            by (nonlinear_arith)
            requires
                b1 <= b2,
                0 <= pow(b1 as int, (e - 1) as nat) <= pow(b2 as int, (e - 1) as nat),
        ;
    } else {
        assert(pow(b1 as int, 0) == 1 && pow(b2 as int, 0) == 1) by {
            reveal(pow);
        }
    }
}

/// An exponent of 64 or more on a base of at least 2 gives a power above
/// u64::MAX.
proof fn lemma_exp_overflow(base: u64, e: u64)
    requires
        base >= 2,
        e >= 64,
    ensures
        pow(base as int, e as nat) > u64::MAX,
{
    lemma_pow_increases(base as nat, 64, e as nat);
    lemma_pow_base_mono(2, base as nat, 64);
    lemma_pow2(64);
    lemma2_to64();
}

/// For a positive divisor d: `a * d <= q` exactly when `a <= q / d`.
proof fn lemma_mul_le_div(a: int, d: int, q: int)
    requires
        d >= 1,
        a >= 0,
        q >= 0,
    ensures
        (a * d <= q) <==> (a <= q / d),
{
    lemma_fundamental_div_mod(q, d);
    lemma_mod_bound(q, d);
    let qd = q / d;
    let qm = q % d;
    assert((a * d <= q) <==> (a <= qd)) by (nonlinear_arith)
        requires
            q == d * qd + qm,
            0 <= qm < d,
            a >= 0,
            d >= 1,
    ;
}

/// Every element contributed by one base has that base, an exponent of at
/// least `e`, a result that is exactly its power, and a result within limit.
proof fn lemma_pows_from_props(base: u64, e: u64, limit: u64)
    requires
        base >= 1,
    ensures
        forall|i: int|
            0 <= i < pows_from(base, e, limit).len() ==> {
                let pn = #[trigger] pows_from(base, e, limit)[i];
                pn.base == base && pn.exponent >= e && pn.result == pow(
                    base as int,
                    pn.exponent as nat,
                ) && pn.result <= limit
            },
    decreases 64 - e,
{
    if e >= 64 || pow(base as int, e as nat) > limit {
    } else {
        lemma_pows_from_props(base, (e + 1) as u64, limit);
        lemma_pow_positive(base as int, e as nat);
        let s = pows_from(base, e, limit);
        let tail = pows_from(base, (e + 1) as u64, limit);
        assert forall|i: int|
            0 <= i < s.len() implies {
            let pn = #[trigger] s[i];
            pn.base == base && pn.exponent >= e && pn.result == pow(base as int, pn.exponent as nat)
                && pn.result <= limit
        } by {
            if i == 0 {
                assert(s[0].result == pow(base as int, e as nat) as u64);
            } else {
                assert(s[i] == tail[i - 1]);
            }
        }
    }
}

/// Every element generated for bases counting up from `base` is well formed
/// under the limit, with a base of at least `base` but below 2^22.
proof fn lemma_gen_bases_props(base: u64, limit: u64)
    ensures
        forall|i: int|
            0 <= i < gen_bases(base, limit).len() ==> pn_wf(
                #[trigger] gen_bases(base, limit)[i],
                limit,
            ) && gen_bases(base, limit)[i].base >= base,
    decreases 0x40_0000 - base,
{
    if base < 2 || base >= 0x40_0000 || pow(base as int, 3) > limit {
    } else {
        lemma_pows_from_props(base, 3, limit);
        lemma_gen_bases_props((base + 1) as u64, limit);
        let s = gen_bases(base, limit);
        let h = pows_from(base, 3, limit);
        let t = gen_bases((base + 1) as u64, limit);
        assert forall|i: int|
            0 <= i < s.len() implies pn_wf(#[trigger] s[i], limit) && s[i].base >= base by {
            if i < h.len() {
                assert(s[i] == h[i]);
            } else {
                assert(s[i] == t[i - h.len()]);
            }
        }
    }
}

/// One base contributes at most 61 power numbers.
proof fn lemma_pows_from_len(base: u64, e: u64, limit: u64)
    ensures
        pows_from(base, e, limit).len() <= if e < 64 {
            64 - e
        } else {
            0int
        },
    decreases 64 - e,
{
    if e >= 64 || pow(base as int, e as nat) > limit {
    } else {
        lemma_pows_from_len(base, (e + 1) as u64, limit);
    }
}

/// The bases counting up from `base` contribute at most 61 entries each.
proof fn lemma_gen_bases_len(base: u64, limit: u64)
    ensures
        gen_bases(base, limit).len() <= if base < 0x40_0000 {
            (0x40_0000 - base) * 61
        } else {
            0int
        },
    decreases 0x40_0000 - base,
{
    if base < 2 || base >= 0x40_0000 || pow(base as int, 3) > limit {
    } else {
        lemma_pows_from_len(base, 3, limit);
        lemma_gen_bases_len((base + 1) as u64, limit);
    }
}

/// The generated sequence is comfortably shorter than 2^32, whatever the
/// limit: there are fewer than 2^22 usable bases and at most 61 exponents
/// for each.
pub proof fn lemma_gen_len(limit: u64)
    ensures
        gen_spec(limit).len() < 0x1_0000_0000,
{
    lemma_gen_bases_len(2, limit);
}

/// Enumerate every power number whose result is at most `limit`: the base-1
/// representative first, then bases ascending with exponents ascending
/// from 3.
///
/// The outer loop stops at the exact integer cube-root bound by testing
/// base^3 > limit directly, so no floating-point root estimate is involved
/// and no base near the boundary is missed or wasted.  A power that would
/// overflow u64 is certainly above any u64 limit, so would-be overflow folds
/// into the same stopping rule instead of wrapping.
pub fn list_power_numbers(limit: u64) -> (pns: Vec<PowerNumber>)
    ensures
        pns@ == gen_spec(limit),
        forall|i: int| 0 <= i < pns@.len() ==> pn_exact(#[trigger] pns@[i]),
        limit >= 1 ==> forall|i: int| 0 <= i < pns@.len() ==> pn_wf(#[trigger] pns@[i], limit),
{
    let one = PowerNumber { base: 1, exponent: 3, result: 1 };
    let mut pns: Vec<PowerNumber> = Vec::new();
    pns.push(one);
    proof {
        lemma1_pow(3);
        assert(pns@ =~= seq![one]);
    }
    let mut base: u64 = 2;
    loop
        invariant_except_break
            2 <= base <= 0x40_0000,
            gen_spec(limit) == pns@ + gen_bases(base, limit),
        ensures
            pns@ == gen_spec(limit),
        decreases 0x40_0000 - base,
    {
        proof {
            assert(base * base <= 0x40_0000 * 0x40_0000) by (nonlinear_arith)
                requires
                    base <= 0x40_0000u64,
            ;
        }
        let sq: u64 = base * base;
        if sq > limit / base {
            proof {
                lemma_pow3(base as int);
                lemma_mul_le_div(sq as int, base as int, limit as int);
                assert(pow(base as int, 3) > limit);
                assert(gen_bases(base, limit) =~= Seq::<PowerNumber>::empty());
                assert(pns@ + Seq::<PowerNumber>::empty() =~= pns@);
            }
            break;
        }
        proof {
            lemma_mul_le_div(sq as int, base as int, limit as int);
            lemma_pow3(base as int);
            if base >= 0x40_0000 {
                lemma_cube_overflow(base);
            }
        }
        let cube: u64 = sq * base;
        proof {
            assert(gen_bases(base, limit) =~= pows_from(base, 3, limit) + gen_bases(
                (base + 1) as u64,
                limit,
            ));
        }
        let ghost prefix = pns@;
        let mut e: u64 = 3;
        let mut r: u64 = cube;
        loop
            invariant_except_break
                2 <= base < 0x40_0000,
                3 <= e <= 63,
                r == pow(base as int, e as nat),
                r <= limit,
                pns@ + pows_from(base, e, limit) == prefix + pows_from(base, 3, limit),
            ensures
                pns@ == prefix + pows_from(base, 3, limit),
            decreases 64 - e,
        {
            let pn = PowerNumber { base: base, exponent: e, result: r };
            proof {
                assert(pows_from(base, e, limit) =~= seq![pn] + pows_from(
                    base,
                    (e + 1) as u64,
                    limit,
                ));
            }
            let ghost before = pns@;
            pns.push(pn);
            proof {
                assert(pns@ + pows_from(base, (e + 1) as u64, limit) =~= before + pows_from(
                    base,
                    e,
                    limit,
                ));
            }
            if r > limit / base {
                proof {
                    lemma_mul_le_div(r as int, base as int, limit as int);
                    lemma_pow_step(base as int, e as nat);
                    assert(pow(base as int, (e + 1) as nat) > limit);
                    assert(pows_from(base, (e + 1) as u64, limit)
                        =~= Seq::<PowerNumber>::empty());
                    assert(pns@ + Seq::<PowerNumber>::empty() =~= pns@);
                }
                break;
            }
            proof {
                lemma_mul_le_div(r as int, base as int, limit as int);
                lemma_pow_step(base as int, e as nat);
            }
            r = r * base;
            e = e + 1;
            proof {
                if e > 63 {
                    lemma_exp_overflow(base, e);
                }
            }
        }
        proof {
            assert((prefix + pows_from(base, 3, limit)) + gen_bases((base + 1) as u64, limit)
                =~= prefix + (pows_from(base, 3, limit) + gen_bases((base + 1) as u64, limit)));
        }
        base = base + 1;
    }
    proof {
        lemma_gen_bases_props(2, limit);
        lemma1_pow(3);
        assert forall|i: int| 0 <= i < pns@.len() implies pn_exact(#[trigger] pns@[i]) by {
            if i == 0 {
                assert(pns@[0] == one);
            } else {
                assert(pns@[i] == gen_bases(2, limit)[i - 1]);
            }
        }
        if limit >= 1 {
            assert forall|i: int| 0 <= i < pns@.len() implies pn_wf(#[trigger] pns@[i], limit) by {
                if i == 0 {
                    assert(pns@[0] == one);
                } else {
                    assert(pns@[i] == gen_bases(2, limit)[i - 1]);
                }
            }
        }
    }
    pns
}

} // verus!
