//! The solution scanner: over all ordered pairs of power numbers, find the
//! pairs whose results sum to the result of some power number within the
//! limit, with diagnostic counters for every inner-loop path taken.
//!
//! The whole outcome — solutions in order, and all three counters — is
//! pinned to one mathematical model (`scan_spec`), so two scans of the same
//! input are provably identical.

use crate::power::{gen_spec, lemma_gen_len, list_power_numbers, pn_wf, PowerNumber};
use std::collections::HashMap;
use vstd::arithmetic::power::pow;
use vstd::prelude::*;

verus! {

broadcast use vstd::std_specs::hash::group_hash_axioms;

/// One discovered identity a^x + b^y = c^z.
#[derive(Debug, Clone, Copy, PartialEq, Eq, Structural)]
pub struct Solution {
    pub a: u64,
    pub b: u64,
    pub c: u64,
    pub x: u64,
    pub y: u64,
    pub z: u64,
}

/// All discovered solutions of one scan plus its diagnostic counters:
/// `limit_breaks` counts prunings of the inner loop, `inner_loop_count` the
/// pair evaluations, `continue_count` the lookup misses.
#[derive(Debug)]
pub struct SolutionSet {
    pub solutions: Vec<Solution>,
    pub limit_breaks: u64,
    pub inner_loop_count: u64,
    pub continue_count: u64,
}

/// The solution holds exactly: a^x + b^y = c^z with all exponents at least 3
/// and the right-hand side within the limit.
pub open spec fn solution_wf(s: Solution, limit: u64) -> bool {
    s.x >= 3 && s.y >= 3 && s.z >= 3 && pow(s.a as int, s.x as nat) + pow(s.b as int, s.y as nat)
        == pow(s.c as int, s.z as nat) && pow(s.c as int, s.z as nat) <= limit
}

/// The solution built from an ordered pair and the matched third power
/// number.
pub open spec fn solution_of(pn1: PowerNumber, pn2: PowerNumber, pn3: PowerNumber) -> Solution {
    Solution {
        a: pn1.base,
        b: pn2.base,
        c: pn3.base,
        x: pn1.exponent,
        y: pn2.exponent,
        z: pn3.exponent,
    }
}

/// Insert one power number into a sequence already ascending by result,
/// after every element whose result is less than or equal to its own.
pub open spec fn insert_by_result(pn: PowerNumber, s: Seq<PowerNumber>) -> Seq<PowerNumber>
    decreases s.len(),
{
    if s.len() == 0 {
        seq![pn]
    } else if pn.result < s[0].result {
        seq![pn] + s
    } else {
        seq![s[0]] + insert_by_result(pn, s.skip(1))
    }
}

/// Stable ascending sort by the result field, folding the input left to
/// right; elements with equal results keep their input order.
pub open spec fn sort_by_result(s: Seq<PowerNumber>) -> Seq<PowerNumber>
    decreases s.len(),
{
    if s.len() == 0 {
        Seq::<PowerNumber>::empty()
    } else {
        insert_by_result(s.last(), sort_by_result(s.drop_last()))
    }
}

/// The lookup from a result value to one representative power number, built
/// by inserting in input order; on colliding results the later entry wins.
/// That only one representative survives a collision is a documented gap of
/// the scan, not a property to rely on.
pub open spec fn result_lookup(pns: Seq<PowerNumber>) -> Map<u64, PowerNumber>
    decreases pns.len(),
{
    if pns.len() == 0 {
        Map::<u64, PowerNumber>::empty()
    } else {
        result_lookup(pns.drop_last()).insert(pns.last().result, pns.last())
    }
}

/// One run of the inner loop: `pn1` fixed, scanning `sp` from index `j` on.
/// The components are, in order: the solutions emitted, the limit breaks
/// (0 or 1 — the first over-limit sum ends the run), the lookup misses, and
/// the number of inner iterations.
pub open spec fn inner_scan(
    pn1: PowerNumber,
    sp: Seq<PowerNumber>,
    lk: Map<u64, PowerNumber>,
    limit: u64,
    j: int,
) -> (Seq<Solution>, int, int, int)
    decreases sp.len() - j,
{
    if j < 0 || j >= sp.len() {
        (Seq::<Solution>::empty(), 0int, 0int, 0int)
    } else {
        let sum = pn1.result + sp[j].result;
        if sum > limit {
            (Seq::<Solution>::empty(), 1int, 0int, 1int)
        } else {
            let rest = inner_scan(pn1, sp, lk, limit, j + 1);
            if lk.contains_key(sum as u64) {
                (seq![solution_of(pn1, sp[j], lk[sum as u64])] + rest.0, rest.1, rest.2, 1
                    + rest.3)
            } else {
                (rest.0, rest.1, 1 + rest.2, 1 + rest.3)
            }
        }
    }
}

/// The outer loop from index `i` on: each element of `sp` in turn runs the
/// inner loop over the whole of `sp`; solutions and counters accumulate.
pub open spec fn outer_scan(
    sp: Seq<PowerNumber>,
    lk: Map<u64, PowerNumber>,
    limit: u64,
    i: int,
) -> (Seq<Solution>, int, int, int)
    decreases sp.len() - i,
{
    if i < 0 || i >= sp.len() {
        (Seq::<Solution>::empty(), 0int, 0int, 0int)
    } else {
        let head = inner_scan(sp[i], sp, lk, limit, 0);
        let rest = outer_scan(sp, lk, limit, i + 1);
        (head.0 + rest.0, head.1 + rest.1, head.2 + rest.2, head.3 + rest.3)
    }
}

/// What scanning `pns` under `limit` yields: the nested scan over the copy
/// sorted ascending by result, with the result lookup built from the
/// unsorted input.
pub open spec fn scan_spec(pns: Seq<PowerNumber>, limit: u64) -> (Seq<Solution>, int, int, int) {
    outer_scan(sort_by_result(pns), result_lookup(pns), limit, 0)
}

/// The solution set is exactly what scanning `pns` under `limit` yields.
pub open spec fn scan_matches(ss: SolutionSet, pns: Seq<PowerNumber>, limit: u64) -> bool {
    let r = scan_spec(pns, limit);
    ss.solutions@ == r.0 && ss.limit_breaks == r.1 && ss.continue_count == r.2
        && ss.inner_loop_count == r.3
}

/// Ascending by result.
pub open spec fn sorted_by_result_asc(s: Seq<PowerNumber>) -> bool {
    forall|i: int, j: int| 0 <= i <= j < s.len() ==> (#[trigger] s[i]).result <= (#[trigger] s[j]).result
}

proof fn lemma_insert_len(pn: PowerNumber, s: Seq<PowerNumber>)
    ensures
        insert_by_result(pn, s).len() == s.len() + 1,
    decreases s.len(),
{
    if s.len() == 0 {
    } else if pn.result < s[0].result {
    } else {
        lemma_insert_len(pn, s.skip(1));
    }
}

proof fn lemma_sort_len(s: Seq<PowerNumber>)
    ensures
        sort_by_result(s).len() == s.len(),
    decreases s.len(),
{
    if s.len() == 0 {
    } else {
        lemma_sort_len(s.drop_last());
        lemma_insert_len(s.last(), sort_by_result(s.drop_last()));
    }
}

/// A property of every element survives insertion.
proof fn lemma_insert_all(pn: PowerNumber, s: Seq<PowerNumber>, p: spec_fn(PowerNumber) -> bool)
    requires
        p(pn),
        forall|i: int| 0 <= i < s.len() ==> p(#[trigger] s[i]),
    ensures
        forall|i: int|
            0 <= i < insert_by_result(pn, s).len() ==> p(#[trigger] insert_by_result(pn, s)[i]),
    decreases s.len(),
{
    if s.len() == 0 {
        assert(insert_by_result(pn, s)[0] == pn);
    } else if pn.result < s[0].result {
        let r = insert_by_result(pn, s);
        assert forall|i: int| 0 <= i < r.len() implies p(#[trigger] r[i]) by {
            if i == 0 {
                assert(r[0] == pn);
            } else {
                assert(r[i] == s[i - 1]);
            }
        }
    } else {
        assert(forall|i: int| 0 <= i < s.skip(1).len() ==> p(#[trigger] s.skip(1)[i]));
        lemma_insert_all(pn, s.skip(1), p);
        let r = insert_by_result(pn, s);
        let t = insert_by_result(pn, s.skip(1));
        assert forall|i: int| 0 <= i < r.len() implies p(#[trigger] r[i]) by {
            if i == 0 {
                assert(r[0] == s[0]);
            } else {
                assert(r[i] == t[i - 1]);
            }
        }
    }
}

/// A property of every element survives the sort.
proof fn lemma_sort_all(s: Seq<PowerNumber>, p: spec_fn(PowerNumber) -> bool)
    requires
        forall|i: int| 0 <= i < s.len() ==> p(#[trigger] s[i]),
    ensures
        forall|i: int| 0 <= i < sort_by_result(s).len() ==> p(#[trigger] sort_by_result(s)[i]),
    decreases s.len(),
{
    if s.len() == 0 {
    } else {
        assert(forall|i: int|
            0 <= i < s.drop_last().len() ==> p(#[trigger] s.drop_last()[i]));
        lemma_sort_all(s.drop_last(), p);
        assert(p(s.last()));
        lemma_insert_all(s.last(), sort_by_result(s.drop_last()), p);
    }
}

/// Insertion keeps the order ascending.
proof fn lemma_insert_sorted(pn: PowerNumber, s: Seq<PowerNumber>)
    requires
        sorted_by_result_asc(s),
    ensures
        sorted_by_result_asc(insert_by_result(pn, s)),
    decreases s.len(),
{
    if s.len() == 0 {
    } else if pn.result < s[0].result {
        let r = insert_by_result(pn, s);
        assert forall|i: int, j: int|
            0 <= i <= j < r.len() implies (#[trigger] r[i]).result <= (#[trigger] r[j]).result by {
            if i > 0 {
                assert(r[i] == s[i - 1] && r[j] == s[j - 1]);
            } else if j > 0 {
                assert(r[j] == s[j - 1]);
            }
        }
    } else {
        assert(forall|i: int, j: int|
            0 <= i <= j < s.skip(1).len() ==> (#[trigger] s.skip(1)[i]).result
                <= (#[trigger] s.skip(1)[j]).result);
        lemma_insert_sorted(pn, s.skip(1));
        assert(forall|i: int| 0 <= i < s.skip(1).len() ==> (#[trigger] s.skip(1)[i]).result
            >= s[0].result);
        lemma_insert_all(
            pn,
            s.skip(1),
            |x: PowerNumber| x.result >= s[0].result,
        );
        let r = insert_by_result(pn, s);
        let t = insert_by_result(pn, s.skip(1));
        assert forall|i: int, j: int|
            0 <= i <= j < r.len() implies (#[trigger] r[i]).result <= (#[trigger] r[j]).result by {
            if i > 0 {
                assert(r[i] == t[i - 1] && r[j] == t[j - 1]);
            } else if j > 0 {
                assert(r[j] == t[j - 1]);
            }
        }
    }
}

/// The sort sorts: its output is ascending by result.
pub proof fn lemma_sort_sorted(s: Seq<PowerNumber>)
    ensures
        sorted_by_result_asc(sort_by_result(s)),
    decreases s.len(),
{
    if s.len() == 0 {
    } else {
        lemma_sort_sorted(s.drop_last());
        lemma_insert_sorted(s.last(), sort_by_result(s.drop_last()));
    }
}

/// Inserting at the first index whose element has a greater result is what
/// `insert_by_result` does.
proof fn lemma_insert_at(pn: PowerNumber, s: Seq<PowerNumber>, j: int)
    requires
        0 <= j <= s.len(),
        forall|k: int| 0 <= k < j ==> (#[trigger] s[k]).result <= pn.result,
        j < s.len() ==> s[j].result > pn.result,
    ensures
        insert_by_result(pn, s) == s.insert(j, pn),
    decreases j,
{
    if j == 0 {
        if s.len() == 0 {
            assert(s.insert(0, pn) =~= seq![pn]);
        } else {
            s.insert_ensures(0, pn);
            assert(s.insert(0, pn) =~= seq![pn] + s);
        }
    } else {
        assert(s[0].result <= pn.result);
        assert(forall|k: int| 0 <= k < j - 1 ==> (#[trigger] s.skip(1)[k]).result <= pn.result);
        lemma_insert_at(pn, s.skip(1), j - 1);
        s.insert_ensures(j, pn);
        s.skip(1).insert_ensures(j - 1, pn);
        assert(s.insert(j, pn) =~= seq![s[0]] + s.skip(1).insert(j - 1, pn));
    }
}

/// Every value in the lookup carries its own key as result and comes from
/// the input sequence.
proof fn lemma_result_lookup_props(pns: Seq<PowerNumber>)
    ensures
        forall|r: u64| #[trigger]
            result_lookup(pns).contains_key(r) ==> result_lookup(pns)[r].result == r
                && pns.contains(result_lookup(pns)[r]),
    decreases pns.len(),
{
    if pns.len() == 0 {
    } else {
        lemma_result_lookup_props(pns.drop_last());
        assert forall|r: u64| #[trigger]
            result_lookup(pns).contains_key(r) implies result_lookup(pns)[r].result == r
            && pns.contains(result_lookup(pns)[r]) by {
            let last = pns.last();
            if r == last.result {
                assert(result_lookup(pns)[r] == last);
                assert(pns[pns.len() - 1] == last);
            } else {
                assert(result_lookup(pns.drop_last()).contains_key(r));
                let v = result_lookup(pns.drop_last())[r];
                let k = choose|k: int| 0 <= k < pns.drop_last().len() && pns.drop_last()[k] == v;
                assert(pns[k] == v);
            }
        }
    }
}

/// Every result value of the input has a representative in the lookup.
pub proof fn lemma_result_lookup_covers(pns: Seq<PowerNumber>)
    ensures
        forall|k: int|
            0 <= k < pns.len() ==> result_lookup(pns).contains_key((#[trigger] pns[k]).result),
    decreases pns.len(),
{
    if pns.len() == 0 {
    } else {
        lemma_result_lookup_covers(pns.drop_last());
        assert forall|k: int|
            0 <= k < pns.len() implies result_lookup(pns).contains_key(
            (#[trigger] pns[k]).result,
        ) by {
            if k < pns.len() - 1 {
                assert(pns.drop_last()[k] == pns[k]);
                assert(result_lookup(pns.drop_last()).contains_key(pns[k].result));
            }
        }
    }
}

/// On a sorted sequence the inner run reaches every in-limit index: the sum
/// at any earlier index is no larger, so the run cannot break before it.
proof fn lemma_inner_scan_complete(
    pn1: PowerNumber,
    sp: Seq<PowerNumber>,
    lk: Map<u64, PowerNumber>,
    limit: u64,
    j: int,
    t: int,
)
    requires
        sorted_by_result_asc(sp),
        0 <= j <= t < sp.len(),
        pn1.result + sp[t].result <= limit,
        lk.contains_key((pn1.result + sp[t].result) as u64),
    ensures
        inner_scan(pn1, sp, lk, limit, j).0.contains(
            solution_of(pn1, sp[t], lk[(pn1.result + sp[t].result) as u64]),
        ),
    decreases t - j,
{
    let sum_t = pn1.result + sp[t].result;
    let sol = solution_of(pn1, sp[t], lk[sum_t as u64]);
    let sum_j = pn1.result + sp[j].result;
    assert(sp[j].result <= sp[t].result);
    assert(sum_j <= limit);
    let cur0 = inner_scan(pn1, sp, lk, limit, j).0;
    let rest0 = inner_scan(pn1, sp, lk, limit, j + 1).0;
    if j == t {
        assert(cur0[0] == sol);
    } else {
        lemma_inner_scan_complete(pn1, sp, lk, limit, j + 1, t);
        let k = choose|k: int| 0 <= k < rest0.len() && rest0[k] == sol;
        if lk.contains_key(sum_j as u64) {
            assert(cur0[k + 1] == sol);
        } else {
            assert(cur0[k] == sol);
        }
    }
}

/// The outer loop carries every inner emission into the accumulated
/// solutions.
proof fn lemma_outer_scan_complete(
    sp: Seq<PowerNumber>,
    lk: Map<u64, PowerNumber>,
    limit: u64,
    oi: int,
    i: int,
    j: int,
)
    requires
        sorted_by_result_asc(sp),
        0 <= oi <= i < sp.len(),
        0 <= j < sp.len(),
        sp[i].result + sp[j].result <= limit,
        lk.contains_key((sp[i].result + sp[j].result) as u64),
    ensures
        outer_scan(sp, lk, limit, oi).0.contains(
            solution_of(sp[i], sp[j], lk[(sp[i].result + sp[j].result) as u64]),
        ),
    decreases i - oi,
{
    let sol = solution_of(sp[i], sp[j], lk[(sp[i].result + sp[j].result) as u64]);
    let cur0 = outer_scan(sp, lk, limit, oi).0;
    let h0 = inner_scan(sp[oi], sp, lk, limit, 0).0;
    let r0 = outer_scan(sp, lk, limit, oi + 1).0;
    assert(cur0 == h0 + r0);
    if oi == i {
        lemma_inner_scan_complete(sp[i], sp, lk, limit, 0, j);
        let k = choose|k: int| 0 <= k < h0.len() && h0[k] == sol;
        assert(cur0[k] == sol);
    } else {
        lemma_outer_scan_complete(sp, lk, limit, oi + 1, i, j);
        let k = choose|k: int| 0 <= k < r0.len() && r0[k] == sol;
        assert(cur0[k + h0.len()] == sol);
    }
}

/// The scan misses nothing.  For every ordered pair of positions in the
/// sorted copy whose results sum to a value that the lookup knows and that
/// stays within the limit, the corresponding solution is in the returned
/// set — the early inner-loop break never skips an in-limit pair, because
/// the sorted order makes every skipped sum larger than the breaking one.
pub proof fn lemma_scan_complete(
    pns: Seq<PowerNumber>,
    limit: u64,
    ss: SolutionSet,
    i: int,
    j: int,
)
    requires
        scan_matches(ss, pns, limit),
        0 <= i < sort_by_result(pns).len(),
        0 <= j < sort_by_result(pns).len(),
        sort_by_result(pns)[i].result + sort_by_result(pns)[j].result <= limit,
        result_lookup(pns).contains_key(
            (sort_by_result(pns)[i].result + sort_by_result(pns)[j].result) as u64,
        ),
    ensures
        ss.solutions@.contains(
            solution_of(
                sort_by_result(pns)[i],
                sort_by_result(pns)[j],
                result_lookup(pns)[(sort_by_result(pns)[i].result + sort_by_result(pns)[j].result) as u64],
            ),
        ),
{
    lemma_sort_sorted(pns);
    lemma_outer_scan_complete(sort_by_result(pns), result_lookup(pns), limit, 0, i, j);
}

/// The inner-loop accounting: every iteration takes exactly one of the three
/// paths, and there are at most as many iterations as elements left.
proof fn lemma_inner_scan_bounds(
    pn1: PowerNumber,
    sp: Seq<PowerNumber>,
    lk: Map<u64, PowerNumber>,
    limit: u64,
    j: int,
)
    requires
        0 <= j,
    ensures
        ({
            let r = inner_scan(pn1, sp, lk, limit, j);
            r.3 == r.1 + r.2 + r.0.len() && 0 <= r.1 <= 1 && 0 <= r.2 && 0 <= r.3 && (j
                <= sp.len() ==> r.3 <= sp.len() - j) && (j < sp.len() ==> r.3 >= 1) && r.3
                <= sp.len()
        }),
    decreases sp.len() - j,
{
    if j >= sp.len() {
    } else {
        let sum = pn1.result + sp[j].result;
        if sum > limit {
        } else {
            lemma_inner_scan_bounds(pn1, sp, lk, limit, j + 1);
        }
    }
}

/// The outer-loop accounting: the counter identity holds of the whole scan,
/// and the iteration count is at most quadratic in the sequence length.
proof fn lemma_outer_scan_bounds(
    sp: Seq<PowerNumber>,
    lk: Map<u64, PowerNumber>,
    limit: u64,
    i: int,
)
    requires
        0 <= i <= sp.len(),
    ensures
        ({
            let r = outer_scan(sp, lk, limit, i);
            r.3 == r.1 + r.2 + r.0.len() && 0 <= r.1 && 0 <= r.2 && 0 <= r.0.len() && 0 <= r.3
                && r.3 <= (sp.len() - i) * sp.len()
        }),
    decreases sp.len() - i,
{
    if i >= sp.len() {
    } else {
        lemma_inner_scan_bounds(sp[i], sp, lk, limit, 0);
        lemma_outer_scan_bounds(sp, lk, limit, i + 1);
        assert((sp.len() - i) * sp.len() == sp.len() + (sp.len() - i - 1) * sp.len())
            by (nonlinear_arith);
    }
}

/// With well-formed inputs, every solution the inner loop emits holds
/// exactly and within the limit.
proof fn lemma_inner_scan_wf(
    pn1: PowerNumber,
    sp: Seq<PowerNumber>,
    lk: Map<u64, PowerNumber>,
    limit: u64,
    j: int,
)
    requires
        pn_wf(pn1, limit),
        forall|k: int| 0 <= k < sp.len() ==> pn_wf(#[trigger] sp[k], limit),
        forall|r: u64| #[trigger] lk.contains_key(r) ==> pn_wf(lk[r], limit) && lk[r].result == r,
    ensures
        forall|k: int|
            0 <= k < inner_scan(pn1, sp, lk, limit, j).0.len() ==> solution_wf(
                #[trigger] inner_scan(pn1, sp, lk, limit, j).0[k],
                limit,
            ),
    decreases sp.len() - j,
{
    if j < 0 || j >= sp.len() {
    } else {
        let sum = pn1.result + sp[j].result;
        if sum > limit {
        } else {
            lemma_inner_scan_wf(pn1, sp, lk, limit, j + 1);
            let cur0 = inner_scan(pn1, sp, lk, limit, j).0;
            let rest0 = inner_scan(pn1, sp, lk, limit, j + 1).0;
            if lk.contains_key(sum as u64) {
                let pn3 = lk[sum as u64];
                let sol = solution_of(pn1, sp[j], pn3);
                assert(pn_wf(sp[j], limit));
                assert(pn_wf(pn3, limit) && pn3.result == sum as u64);
                assert(solution_wf(sol, limit));
                assert forall|k: int| 0 <= k < cur0.len() implies solution_wf(
                    #[trigger] cur0[k],
                    limit,
                ) by {
                    if k == 0 {
                        assert(cur0[0] == sol);
                    } else {
                        assert(cur0[k] == rest0[k - 1]);
                    }
                }
            } else {
                assert(cur0 == rest0);
            }
        }
    }
}

/// With well-formed inputs, every solution the whole scan emits holds
/// exactly and within the limit.
proof fn lemma_outer_scan_wf(
    sp: Seq<PowerNumber>,
    lk: Map<u64, PowerNumber>,
    limit: u64,
    i: int,
)
    requires
        forall|k: int| 0 <= k < sp.len() ==> pn_wf(#[trigger] sp[k], limit),
        forall|r: u64| #[trigger] lk.contains_key(r) ==> pn_wf(lk[r], limit) && lk[r].result == r,
    ensures
        forall|k: int|
            0 <= k < outer_scan(sp, lk, limit, i).0.len() ==> solution_wf(
                #[trigger] outer_scan(sp, lk, limit, i).0[k],
                limit,
            ),
    decreases sp.len() - i,
{
    if i < 0 || i >= sp.len() {
    } else {
        lemma_inner_scan_wf(sp[i], sp, lk, limit, 0);
        lemma_outer_scan_wf(sp, lk, limit, i + 1);
        let cur0 = outer_scan(sp, lk, limit, i).0;
        let h0 = inner_scan(sp[i], sp, lk, limit, 0).0;
        let r0 = outer_scan(sp, lk, limit, i + 1).0;
        assert(cur0 == h0 + r0);
        assert forall|k: int| 0 <= k < cur0.len() implies solution_wf(
            #[trigger] cur0[k],
            limit,
        ) by {
            if k < h0.len() {
                assert(cur0[k] == h0[k]);
            } else {
                assert(cur0[k] == r0[k - h0.len()]);
            }
        }
    }
}

/// A second copy of the power numbers, ascending by result; elements with
/// equal results keep their input order.
fn sorted_by_result(pns: &Vec<PowerNumber>) -> (sorted: Vec<PowerNumber>)
    ensures
        sorted@ == sort_by_result(pns@),
{
    let ghost pseq = pns@;
    let mut sorted: Vec<PowerNumber> = Vec::new();
    let mut i: usize = 0;
    while i < pns.len()
        invariant
            i <= pseq.len(),
            pns@ == pseq,
            sorted@ == sort_by_result(pseq.take(i as int)),
        decreases pseq.len() - i,
    {
        let pn = pns[i];
        let mut j: usize = 0;
        while j < sorted.len() && sorted[j].result <= pn.result
            invariant
                j <= sorted@.len(),
                forall|k: int| 0 <= k < j ==> (#[trigger] sorted@[k]).result <= pn.result,
            decreases sorted@.len() - j,
        {
            j += 1;
        }
        let ghost before = sorted@;
        proof {
            lemma_insert_at(pn, before, j as int);
        }
        sorted.insert(j, pn);
        proof {
            assert(sorted@ == insert_by_result(pn, before));
            assert(pseq.take(i as int + 1).drop_last() =~= pseq.take(i as int));
            assert(pseq.take(i as int + 1).last() == pseq[i as int]);
            assert(sorted@ == sort_by_result(pseq.take(i as int + 1)));
        }
        i += 1;
    }
    proof {
        assert(pseq.take(pseq.len() as int) =~= pseq);
    }
    sorted
}

/// Scan all ordered pairs of `power_numbers` for pairs whose results sum to
/// the result of some power number within `limit`.
///
/// The pair loop runs over the copy sorted ascending by result, so the first
/// over-limit sum ends the inner run (every later sum would be larger); a
/// sum that would overflow u64 is certainly above the limit and ends it the
/// same way.  The returned set is pinned to `scan_spec`: solutions in
/// emission order, and the three counters, one of which accounts for every
/// inner iteration exactly once.
pub fn scan_for_solutions(power_numbers: Vec<PowerNumber>, limit: u64) -> (ss: SolutionSet)
    requires
        power_numbers@.len() < 0x1_0000_0000,
    ensures
        scan_matches(ss, power_numbers@, limit),
        ss.inner_loop_count == ss.limit_breaks + ss.continue_count + ss.solutions@.len(),
        (forall|k: int| 0 <= k < power_numbers@.len() ==> pn_wf(#[trigger] power_numbers@[k], limit))
            ==> (forall|k: int|
            0 <= k < ss.solutions@.len() ==> solution_wf(#[trigger] ss.solutions@[k], limit)),
{
    let ghost pseq = power_numbers@;
    let mut lookup: HashMap<u64, PowerNumber> = HashMap::new();
    let mut i: usize = 0;
    while i < power_numbers.len()
        invariant
            i <= pseq.len(),
            power_numbers@ == pseq,
            lookup@ == result_lookup(pseq.take(i as int)),
        decreases pseq.len() - i,
    {
        let pn = power_numbers[i];
        lookup.insert(pn.result, pn);
        proof {
            assert(pseq.take(i as int + 1).drop_last() =~= pseq.take(i as int));
            assert(pseq.take(i as int + 1).last() == pseq[i as int]);
        }
        i += 1;
    }
    proof {
        assert(pseq.take(pseq.len() as int) =~= pseq);
    }
    let sorted = sorted_by_result(&power_numbers);
    let ghost sp = sorted@;
    let ghost lk = lookup@;
    let ghost total = outer_scan(sp, lk, limit, 0);
    proof {
        lemma_sort_len(pseq);
        lemma_outer_scan_bounds(sp, lk, limit, 0);
        assert((sp.len() as int) * (sp.len() as int) < 0xFFFF_FFFF_FFFF_FFFF)
            by (nonlinear_arith)
            requires
                sp.len() < 0x1_0000_0000,
        ;
        assert(0 <= total.1 <= total.3 && 0 <= total.2 <= total.3 && total.0.len() <= total.3);
    }
    let mut solutions: Vec<Solution> = Vec::new();
    let mut limit_breaks: u64 = 0;
    let mut inner_loop_count: u64 = 0;
    let mut continue_count: u64 = 0;
    let mut oi: usize = 0;
    while oi < sorted.len()
        invariant
            oi <= sp.len(),
            sorted@ == sp,
            lookup@ == lk,
            sp.len() < 0x1_0000_0000,
            total == outer_scan(sp, lk, limit, 0),
            total.3 < 0xFFFF_FFFF_FFFF_FFFF,
            0 <= total.1 <= total.3,
            0 <= total.2 <= total.3,
            solutions@ + outer_scan(sp, lk, limit, oi as int).0 == total.0,
            limit_breaks + outer_scan(sp, lk, limit, oi as int).1 == total.1,
            continue_count + outer_scan(sp, lk, limit, oi as int).2 == total.2,
            inner_loop_count + outer_scan(sp, lk, limit, oi as int).3 == total.3,
        decreases sp.len() - oi,
    {
        let pn1 = sorted[oi];
        let ghost rest_out = outer_scan(sp, lk, limit, oi as int + 1);
        proof {
            lemma_outer_scan_bounds(sp, lk, limit, oi as int + 1);
            lemma_inner_scan_bounds(sp[oi as int], sp, lk, limit, 0);
            assert(outer_scan(sp, lk, limit, oi as int).0 == inner_scan(
                sp[oi as int],
                sp,
                lk,
                limit,
                0,
            ).0 + rest_out.0);
            assert(solutions@ + (inner_scan(sp[oi as int], sp, lk, limit, 0).0 + rest_out.0)
                =~= (solutions@ + inner_scan(sp[oi as int], sp, lk, limit, 0).0) + rest_out.0);
        }
        let mut j: usize = 0;
        while j < sorted.len()
            invariant_except_break
                j <= sp.len(),
                oi < sp.len(),
                sorted@ == sp,
                lookup@ == lk,
                pn1 == sp[oi as int],
                sp.len() < 0x1_0000_0000,
                total == outer_scan(sp, lk, limit, 0),
                total.3 < 0xFFFF_FFFF_FFFF_FFFF,
                0 <= total.1 <= total.3,
                0 <= total.2 <= total.3,
                rest_out == outer_scan(sp, lk, limit, oi as int + 1),
                (solutions@ + inner_scan(pn1, sp, lk, limit, j as int).0) + rest_out.0
                    == total.0,
                limit_breaks + inner_scan(pn1, sp, lk, limit, j as int).1 + rest_out.1
                    == total.1,
                continue_count + inner_scan(pn1, sp, lk, limit, j as int).2 + rest_out.2
                    == total.2,
                inner_loop_count + inner_scan(pn1, sp, lk, limit, j as int).3 + rest_out.3
                    == total.3,
            ensures
                sorted@ == sp,
                lookup@ == lk,
                solutions@ + rest_out.0 == total.0,
                limit_breaks + rest_out.1 == total.1,
                continue_count + rest_out.2 == total.2,
                inner_loop_count + rest_out.3 == total.3,
            decreases sp.len() - j,
        {
            let ghost jj = j as int;
            let ghost cur = inner_scan(pn1, sp, lk, limit, jj);
            let ghost rest_in = inner_scan(pn1, sp, lk, limit, jj + 1);
            proof {
                lemma_inner_scan_bounds(pn1, sp, lk, limit, jj);
                lemma_inner_scan_bounds(pn1, sp, lk, limit, jj + 1);
                lemma_outer_scan_bounds(sp, lk, limit, oi as int + 1);
            }
            let pn2 = sorted[j];
            inner_loop_count = inner_loop_count + 1;
            let sum_opt = pn1.result.checked_add(pn2.result);
            let mut over: bool = true;
            let mut sum: u64 = 0;
            match sum_opt {
                Some(s) => {
                    if s <= limit {
                        over = false;
                        sum = s;
                    }
                },
                None => {},
            }
            if over {
                proof {
                    assert(cur == (Seq::<Solution>::empty(), 1int, 0int, 1int));
                    assert(solutions@ + cur.0 =~= solutions@);
                }
                limit_breaks = limit_breaks + 1;
                break;
            }
            proof {
                assert(sum == pn1.result + sp[jj].result);
                assert(sum <= limit);
            }
            match lookup.get(&sum) {
                None => {
                    proof {
                        assert(!lk.contains_key(sum));
                        assert(cur.0 == rest_in.0);
                        assert(cur.2 == 1 + rest_in.2);
                        assert(cur.3 == 1 + rest_in.3);
                    }
                    continue_count = continue_count + 1;
                },
                Some(res) => {
                    let sol = Solution {
                        a: pn1.base,
                        b: pn2.base,
                        c: res.base,
                        x: pn1.exponent,
                        y: pn2.exponent,
                        z: res.exponent,
                    };
                    proof {
                        assert(lk.contains_key(sum));
                        assert(lk[sum] == *res);
                        assert(sol == solution_of(pn1, sp[jj], lk[sum]));
                        assert(cur.0 == seq![sol] + rest_in.0);
                        assert(cur.3 == 1 + rest_in.3);
                    }
                    let ghost before = solutions@;
                    solutions.push(sol);
                    proof {
                        assert((before + (seq![sol] + rest_in.0)) =~= (solutions@ + rest_in.0));
                    }
                },
            }
            j += 1;
        }
        proof {
            assert(inner_scan(pn1, sp, lk, limit, sp.len() as int) == (
                Seq::<Solution>::empty(),
                0int,
                0int,
                0int,
            ));
        }
        oi += 1;
    }
    proof {
        assert(outer_scan(sp, lk, limit, sp.len() as int) == (
            Seq::<Solution>::empty(),
            0int,
            0int,
            0int,
        ));
        assert(solutions@ + Seq::<Solution>::empty() =~= solutions@);
        lemma_outer_scan_bounds(sp, lk, limit, 0);
        if forall|k: int| 0 <= k < pseq.len() ==> pn_wf(#[trigger] pseq[k], limit) {
            lemma_sort_all(pseq, |pn: PowerNumber| pn_wf(pn, limit));
            lemma_result_lookup_props(pseq);
            assert forall|r: u64| #[trigger]
                lk.contains_key(r) implies pn_wf(lk[r], limit) && lk[r].result == r by {
                assert(pseq.contains(lk[r]));
                let k = choose|k: int| 0 <= k < pseq.len() && pseq[k] == lk[r];
                assert(pn_wf(pseq[k], limit));
            }
            assert(forall|k: int| 0 <= k < sp.len() ==> pn_wf(#[trigger] sp[k], limit));
            lemma_outer_scan_wf(sp, lk, limit, 0);
        }
    }
    SolutionSet { solutions, limit_breaks, inner_loop_count, continue_count }
}

/// The full search under `limit`: generate every power number, then scan
/// them for solutions.  The caller classifies each returned solution through
/// `crate::factor::check_common_factors`.
pub fn run_beal_analysis(limit: u64) -> (ss: SolutionSet)
    ensures
        scan_matches(ss, gen_spec(limit), limit),
        ss.inner_loop_count == ss.limit_breaks + ss.continue_count + ss.solutions@.len(),
        limit >= 1 ==> forall|k: int|
            0 <= k < ss.solutions@.len() ==> solution_wf(#[trigger] ss.solutions@[k], limit),
{
    let power_numbers = list_power_numbers(limit);
    proof {
        lemma_gen_len(limit);
    }
    scan_for_solutions(power_numbers, limit)
}

/// The scan is a function of its input alone: two solution sets obtained by
/// scanning the same power numbers under the same limit agree on the
/// solutions, their order, and every counter.
pub proof fn lemma_scan_deterministic(
    pns: Seq<PowerNumber>,
    limit: u64,
    ss1: SolutionSet,
    ss2: SolutionSet,
)
    requires
        scan_matches(ss1, pns, limit),
        scan_matches(ss2, pns, limit),
    ensures
        ss1.solutions@ == ss2.solutions@,
        ss1.limit_breaks == ss2.limit_breaks,
        ss1.inner_loop_count == ss2.inner_loop_count,
        ss1.continue_count == ss2.continue_count,
{
}

} // verus!
