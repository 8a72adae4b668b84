//! The settlement engine.
//!
//! Aggregates the ledger into one net balance per participant, folds every
//! care-of child's balance onto its parent, then runs the greedy pairwise
//! pass in registry order.  A positive balance owes money; a settlement
//! entry `(payer, payee, amount)` moves `amount` from the payer's balance
//! to the payee's.  The whole computation is specified as a function of
//! the report's model, so repeated settlement is provably identical.

use crate::model::{wf_model, ReportModel};
use crate::money::{mag, POSTING_MAX};
use crate::types::Posting;
use vstd::prelude::*;

verus! {

/// Per-participant net balances of a ledger prefix: each posting is added
/// at its participant's position.
pub open spec fn spec_balances(postings: Seq<(int, int)>, n: nat) -> Seq<int>
    decreases postings.len(),
{
    if postings.len() == 0 {
        Seq::new(n, |i: int| 0)
    } else {
        let b = spec_balances(postings.drop_last(), n);
        let p = postings.last();
        b.update(p.0, b[p.0] + p.1)
    }
}

/// Orient a signed movement between `a` and `b` so that the amount is
/// positive and the payer stands first: a positive `amt` means `a` pays.
pub open spec fn spec_orient(a: int, b: int, amt: int) -> (int, int, int) {
    if amt > 0 {
        (a, b, amt)
    } else {
        (b, a, -amt)
    }
}

/// The care-of fold from participant `k` on: each child's balance moves
/// onto its parent, with a settlement entry when it is nonzero.
pub open spec fn spec_fold_from(bal: Seq<int>, care: Seq<Option<int>>, k: int) -> (
    Seq<int>,
    Seq<(int, int, int)>,
)
    decreases bal.len() - k,
{
    if k < 0 || k >= bal.len() {
        (bal, Seq::empty())
    } else {
        match care[k] {
            None => spec_fold_from(bal, care, k + 1),
            Some(p) => if p < 0 || p >= bal.len() {
                spec_fold_from(bal, care, k + 1)
            } else {
                let c = bal[k];
                let bal2 = bal.update(p, bal[p] + c).update(k, 0);
                let es: Seq<(int, int, int)> = if c != 0 {
                    seq![spec_orient(k, p, c)]
                } else {
                    Seq::empty()
                };
                let rec = spec_fold_from(bal2, care, k + 1);
                (rec.0, es + rec.1)
            },
        }
    }
}

/// The signed amount the greedy pass moves between balances `bi` and `bj`
/// of strictly opposite signs: `sign(bi) * min(|bi|, |bj|)`.
pub open spec fn spec_pair_amount(bi: int, bj: int) -> int {
    if bi > 0 {
        if bi <= -bj {
            bi
        } else {
            -bj
        }
    } else {
        if -bi <= bj {
            bi
        } else {
            -bj
        }
    }
}

/// The inner greedy pass: drain participant `i`'s balance against every
/// later participant `j`, advancing `j` regardless, stopping early when
/// `i` is drained.
pub open spec fn spec_greedy_inner(bal: Seq<int>, i: int, j: int) -> (
    Seq<int>,
    Seq<(int, int, int)>,
)
    decreases bal.len() - j,
{
    if i < 0 || i >= bal.len() || j < 0 || j >= bal.len() || bal[i] == 0 {
        (bal, Seq::empty())
    } else if (bal[i] > 0 && bal[j] < 0) || (bal[i] < 0 && bal[j] > 0) {
        let amt = spec_pair_amount(bal[i], bal[j]);
        let bal2 = bal.update(i, bal[i] - amt).update(j, bal[j] + amt);
        let rec = spec_greedy_inner(bal2, i, j + 1);
        (rec.0, seq![spec_orient(i, j, amt)] + rec.1)
    } else {
        spec_greedy_inner(bal, i, j + 1)
    }
}

/// The inner greedy pass never changes the number of participants.
pub proof fn lemma_greedy_inner_len(bal: Seq<int>, i: int, j: int)
    ensures
        spec_greedy_inner(bal, i, j).0.len() == bal.len(),
    decreases bal.len() - j,
{
    if !(i < 0 || i >= bal.len() || j < 0 || j >= bal.len() || bal[i] == 0) {
        if (bal[i] > 0 && bal[j] < 0) || (bal[i] < 0 && bal[j] > 0) {
            let amt = spec_pair_amount(bal[i], bal[j]);
            let bal2 = bal.update(i, bal[i] - amt).update(j, bal[j] + amt);
            lemma_greedy_inner_len(bal2, i, j + 1);
        } else {
            lemma_greedy_inner_len(bal, i, j + 1);
        }
    }
}

/// The outer greedy pass over participants `i, i+1, ...` in registry
/// order.
pub open spec fn spec_greedy_from(bal: Seq<int>, i: int) -> (Seq<int>, Seq<(int, int, int)>)
    decreases bal.len() - i,
    via spec_greedy_from_decreases
{
    if i < 0 || i + 1 >= bal.len() {
        (bal, Seq::empty())
    } else {
        let inner = spec_greedy_inner(bal, i, i + 1);
        let rec = spec_greedy_from(inner.0, i + 1);
        (rec.0, inner.1 + rec.1)
    }
}

#[via_fn]
proof fn spec_greedy_from_decreases(bal: Seq<int>, i: int) {
    if !(i < 0 || i + 1 >= bal.len()) {
        lemma_greedy_inner_len(bal, i, i + 1);
    }
}

/// The residuals of a balance vector prefix: every nonzero balance, in
/// registry order.
pub open spec fn spec_residuals(bal: Seq<int>, k: int) -> Seq<(int, int)>
    decreases k,
{
    if k <= 0 {
        Seq::empty()
    } else {
        spec_residuals(bal, k - 1) + (if bal[k - 1] != 0 {
            seq![(k - 1, bal[k - 1])]
        } else {
            Seq::empty()
        })
    }
}

/// The initial per-participant balances of a report.
pub open spec fn spec_initial_balances(m: ReportModel) -> Seq<int> {
    spec_balances(m.postings, m.participants.len())
}

/// Balances and entries after the care-of fold.
pub open spec fn spec_folded(m: ReportModel) -> (Seq<int>, Seq<(int, int, int)>) {
    spec_fold_from(spec_initial_balances(m), m.care_of, 0)
}

/// Balances and entries after the greedy pairwise pass.
pub open spec fn spec_paired(m: ReportModel) -> (Seq<int>, Seq<(int, int, int)>) {
    spec_greedy_from(spec_folded(m).0, 0)
}

/// The settlement plan of a report: the care-of fold entries, then the
/// greedy entries, and every nonzero leftover balance as a residual.
pub open spec fn spec_settle(m: ReportModel) -> (Seq<(int, int, int)>, Seq<(int, int)>) {
    (spec_folded(m).1 + spec_paired(m).1, spec_residuals(spec_paired(m).0, m.participants.len() as int))
}

/// Applying one settlement entry: the payer's balance decreases by the
/// amount, the payee's increases.
pub open spec fn spec_apply_entry(bal: Seq<int>, e: (int, int, int)) -> Seq<int> {
    bal.update(e.0, bal[e.0] - e.2).update(e.1, bal[e.1] + e.2)
}

/// Applying settlement entries in emission order.
pub open spec fn spec_apply_entries(bal: Seq<int>, es: Seq<(int, int, int)>) -> Seq<int>
    decreases es.len(),
{
    if es.len() == 0 {
        bal
    } else {
        spec_apply_entries(spec_apply_entry(bal, es[0]), es.skip(1))
    }
}

/// The residual amount reported for a participant: zero when the
/// participant is not in the residual list.
pub open spec fn spec_residual_at(res: Seq<(int, int)>, idx: int) -> int
    decreases res.len(),
{
    if res.len() == 0 {
        0
    } else if res.last().0 == idx {
        res.last().1
    } else {
        spec_residual_at(res.drop_last(), idx)
    }
}

/// Sum of the magnitudes of a balance vector.
pub open spec fn sum_mag(bal: Seq<int>) -> int
    decreases bal.len(),
{
    if bal.len() == 0 {
        0
    } else {
        sum_mag(bal.drop_last()) + mag(bal.last())
    }
}

/// Every balance is bounded by the sum of magnitudes.
pub proof fn lemma_sum_mag_le(bal: Seq<int>)
    ensures
        0 <= sum_mag(bal),
        forall|k: int| 0 <= k < bal.len() ==> mag(#[trigger] bal[k]) <= sum_mag(bal),
    decreases bal.len(),
{
    if bal.len() > 0 {
        lemma_sum_mag_le(bal.drop_last());
        assert(forall|k: int|
            0 <= k < bal.len() - 1 ==> bal.drop_last()[k] == #[trigger] bal[k]);
    }
}

/// How an update changes the sum of magnitudes.
pub proof fn lemma_sum_mag_update(bal: Seq<int>, k: int, v: int)
    requires
        0 <= k < bal.len(),
    ensures
        sum_mag(bal.update(k, v)) == sum_mag(bal) - mag(bal[k]) + mag(v),
    decreases bal.len(),
{
    let u = bal.update(k, v);
    if k == bal.len() - 1 {
        assert(u.drop_last() =~= bal.drop_last());
    } else {
        assert(u.drop_last() =~= bal.drop_last().update(k, v));
        lemma_sum_mag_update(bal.drop_last(), k, v);
    }
}

/// The all-zero balance vector has zero total magnitude.
pub proof fn lemma_sum_mag_zero(n: nat)
    ensures
        sum_mag(Seq::new(n, |i: int| 0int)) == 0,
    decreases n,
{
    if n > 0 {
        assert(Seq::new(n, |i: int| 0int).drop_last() =~= Seq::new((n - 1) as nat, |i: int| 0int));
        lemma_sum_mag_zero((n - 1) as nat);
    }
}

/// Aggregated balances: the vector has one entry per participant and its
/// total magnitude is bounded by the number of postings times the posting
/// bound.
pub proof fn lemma_balances_props(postings: Seq<(int, int)>, n: nat)
    requires
        forall|k: int|
            0 <= k < postings.len() ==> 0 <= (#[trigger] postings[k]).0 < n && mag(
                postings[k].1,
            ) <= POSTING_MAX as int,
    ensures
        spec_balances(postings, n).len() == n,
        sum_mag(spec_balances(postings, n)) <= postings.len() * POSTING_MAX,
    decreases postings.len(),
{
    if postings.len() == 0 {
        lemma_sum_mag_zero(n);
    } else {
        lemma_balances_props(postings.drop_last(), n);
        let b = spec_balances(postings.drop_last(), n);
        let p = postings.last();
        lemma_sum_mag_update(b, p.0, b[p.0] + p.1);
        lemma_sum_mag_le(b);
    }
}

/// Applying a concatenation of entry lists is applying one after the
/// other.
pub proof fn lemma_apply_concat(bal: Seq<int>, es1: Seq<(int, int, int)>, es2: Seq<(int, int, int)>)
    ensures
        spec_apply_entries(bal, es1 + es2) == spec_apply_entries(
            spec_apply_entries(bal, es1),
            es2,
        ),
    decreases es1.len(),
{
    if es1.len() == 0 {
        assert(es1 + es2 =~= es2);
    } else {
        assert((es1 + es2).skip(1) =~= es1.skip(1) + es2);
        lemma_apply_concat(spec_apply_entry(bal, es1[0]), es1.skip(1), es2);
    }
}

/// The care-of fold: applying its entries to the input balances yields its
/// output balances; the total magnitude never grows; every entry is
/// in-range, positive, and joins two distinct participants.
pub proof fn lemma_fold_from_props(bal: Seq<int>, care: Seq<Option<int>>, k: int)
    requires
        care.len() == bal.len(),
        forall|idx: int|
            0 <= idx < care.len() ==> ((#[trigger] care[idx]) matches Some(p) ==> 0 <= p
                < care.len() && p != idx),
    ensures
        spec_fold_from(bal, care, k).0.len() == bal.len(),
        sum_mag(spec_fold_from(bal, care, k).0) <= sum_mag(bal),
        spec_apply_entries(bal, spec_fold_from(bal, care, k).1) == spec_fold_from(bal, care, k).0,
        forall|q: int|
            0 <= q < spec_fold_from(bal, care, k).1.len() ==> {
                let e = #[trigger] spec_fold_from(bal, care, k).1[q];
                0 <= e.0 < bal.len() && 0 <= e.1 < bal.len() && e.2 > 0 && e.0 != e.1
            },
    decreases bal.len() - k,
{
    let r = spec_fold_from(bal, care, k);
    if k < 0 || k >= bal.len() {
        assert(r.1.len() == 0);
    } else {
        match care[k] {
            None => {
                lemma_fold_from_props(bal, care, k + 1);
            },
            Some(p) => {
                let c = bal[k];
                let bal2 = bal.update(p, bal[p] + c).update(k, 0);
                let es: Seq<(int, int, int)> = if c != 0 {
                    seq![spec_orient(k, p, c)]
                } else {
                    Seq::empty()
                };
                lemma_fold_from_props(bal2, care, k + 1);
                let rec = spec_fold_from(bal2, care, k + 1);
                lemma_apply_concat(bal, es, rec.1);
                if c != 0 {
                    let e = spec_orient(k, p, c);
                    assert(es[0] == e);
                    assert(spec_apply_entry(bal, es[0]) =~= bal2);
                    assert(es.skip(1) =~= Seq::<(int, int, int)>::empty());
                    assert(spec_apply_entries(bal2, es.skip(1)) == bal2);
                    assert(spec_apply_entries(bal, es) == bal2);
                } else {
                    assert(bal2 =~= bal);
                    assert(spec_apply_entries(bal, es) == bal2);
                }
                lemma_sum_mag_update(bal, p, bal[p] + c);
                lemma_sum_mag_update(bal.update(p, bal[p] + c), k, 0);
                assert(sum_mag(bal2) <= sum_mag(bal));
                assert(r.1 == es + rec.1);
            },
        }
    }
}

/// When no care-of parent is itself a child, the fold zeroes every
/// child's balance.
pub proof fn lemma_fold_zeroes(bal: Seq<int>, care: Seq<Option<int>>, k: int)
    requires
        0 <= k,
        care.len() == bal.len(),
        forall|idx: int|
            0 <= idx < care.len() ==> ((#[trigger] care[idx]) matches Some(p) ==> 0 <= p
                < care.len() && p != idx),
        forall|idx: int|
            0 <= idx < care.len() ==> ((#[trigger] care[idx]) matches Some(p) ==> care[p] is None),
        forall|idx: int|
            0 <= idx < k && idx < care.len() && (#[trigger] care[idx]) is Some ==> bal[idx] == 0,
    ensures
        forall|idx: int|
            0 <= idx < care.len() && (#[trigger] care[idx]) is Some ==> spec_fold_from(
                bal,
                care,
                k,
            ).0[idx] == 0,
    decreases bal.len() - k,
{
    if k >= bal.len() {
    } else {
        match care[k] {
            None => {
                lemma_fold_zeroes(bal, care, k + 1);
            },
            Some(p) => {
                let c = bal[k];
                let bal2 = bal.update(p, bal[p] + c).update(k, 0);
                assert(forall|idx: int|
                    0 <= idx < k + 1 && idx < care.len() && (#[trigger] care[idx]) is Some
                        ==> bal2[idx] == 0);
                lemma_fold_zeroes(bal2, care, k + 1);
            },
        }
    }
}

/// The inner greedy pass: applying its entries reproduces its output
/// balances; total magnitude never grows; a zero balance stays zero and is
/// never named by an entry; every entry is in-range and positive.
pub proof fn lemma_greedy_inner_props(bal: Seq<int>, i: int, j: int)
    ensures
        spec_greedy_inner(bal, i, j).0.len() == bal.len(),
        sum_mag(spec_greedy_inner(bal, i, j).0) <= sum_mag(bal),
        spec_apply_entries(bal, spec_greedy_inner(bal, i, j).1) == spec_greedy_inner(bal, i, j).0,
        forall|k: int|
            0 <= k < bal.len() && bal[k] == 0 ==> #[trigger] spec_greedy_inner(bal, i, j).0[k]
                == 0,
        forall|q: int|
            0 <= q < spec_greedy_inner(bal, i, j).1.len() ==> {
                let e = #[trigger] spec_greedy_inner(bal, i, j).1[q];
                0 <= e.0 < bal.len() && 0 <= e.1 < bal.len() && e.2 > 0 && e.0 != e.1 && bal[e.0]
                    != 0 && bal[e.1] != 0
            },
    decreases bal.len() - j,
{
    let r = spec_greedy_inner(bal, i, j);
    if i < 0 || i >= bal.len() || j < 0 || j >= bal.len() || bal[i] == 0 {
        assert(r.1.len() == 0);
    } else if (bal[i] > 0 && bal[j] < 0) || (bal[i] < 0 && bal[j] > 0) {
        let amt = spec_pair_amount(bal[i], bal[j]);
        let e0 = spec_orient(i, j, amt);
        let bal2 = bal.update(i, bal[i] - amt).update(j, bal[j] + amt);
        lemma_greedy_inner_props(bal2, i, j + 1);
        let rec = spec_greedy_inner(bal2, i, j + 1);
        let es: Seq<(int, int, int)> = seq![e0];
        lemma_apply_concat(bal, es, rec.1);
        assert(es[0] == e0);
        assert(spec_apply_entry(bal, es[0]) =~= bal2);
        assert(es.skip(1) =~= Seq::<(int, int, int)>::empty());
        assert(spec_apply_entries(bal2, es.skip(1)) == bal2);
        assert(spec_apply_entries(bal, es) == bal2);
        lemma_sum_mag_update(bal, i, bal[i] - amt);
        lemma_sum_mag_update(bal.update(i, bal[i] - amt), j, bal[j] + amt);
        assert(sum_mag(bal2) <= sum_mag(bal));
        assert(r.1 == es + rec.1);
    } else {
        lemma_greedy_inner_props(bal, i, j + 1);
    }
}

/// The outer greedy pass: the same properties, aggregated over every
/// participant.
pub proof fn lemma_greedy_from_props(bal: Seq<int>, i: int)
    ensures
        spec_greedy_from(bal, i).0.len() == bal.len(),
        sum_mag(spec_greedy_from(bal, i).0) <= sum_mag(bal),
        spec_apply_entries(bal, spec_greedy_from(bal, i).1) == spec_greedy_from(bal, i).0,
        forall|k: int|
            0 <= k < bal.len() && bal[k] == 0 ==> #[trigger] spec_greedy_from(bal, i).0[k] == 0,
        forall|q: int|
            0 <= q < spec_greedy_from(bal, i).1.len() ==> {
                let e = #[trigger] spec_greedy_from(bal, i).1[q];
                0 <= e.0 < bal.len() && 0 <= e.1 < bal.len() && e.2 > 0 && e.0 != e.1 && bal[e.0]
                    != 0 && bal[e.1] != 0
            },
    decreases bal.len() - i,
{
    let r = spec_greedy_from(bal, i);
    if i < 0 || i + 1 >= bal.len() {
        assert(r.1.len() == 0);
    } else {
        let inner = spec_greedy_inner(bal, i, i + 1);
        lemma_greedy_inner_props(bal, i, i + 1);
        lemma_greedy_from_props(inner.0, i + 1);
        let rec = spec_greedy_from(inner.0, i + 1);
        lemma_apply_concat(bal, inner.1, rec.1);
        assert(r.1 == inner.1 + rec.1);
    }
}

/// The residual list holds exactly the nonzero balances: looked up by
/// participant it returns the final balance inside the range and zero
/// outside it, and every entry is a nonzero balance.
pub proof fn lemma_residuals_props(bal: Seq<int>, k: int)
    requires
        0 <= k <= bal.len(),
    ensures
        forall|idx: int|
            0 <= idx < k ==> spec_residual_at(spec_residuals(bal, k), idx) == bal[idx],
        forall|idx: int|
            !(0 <= idx < k) ==> spec_residual_at(spec_residuals(bal, k), idx) == 0,
        forall|q: int|
            0 <= q < spec_residuals(bal, k).len() ==> {
                let e = #[trigger] spec_residuals(bal, k)[q];
                0 <= e.0 < k && e.1 == bal[e.0] && e.1 != 0
            },
    decreases k,
{
    if k > 0 {
        lemma_residuals_props(bal, k - 1);
        let prev = spec_residuals(bal, k - 1);
        let r = spec_residuals(bal, k);
        if bal[k - 1] != 0 {
            assert(r.last() == (k - 1, bal[k - 1]));
            assert(r.drop_last() =~= prev);
        } else {
            assert(r =~= prev);
        }
        assert forall|idx: int| !(0 <= idx < k) implies spec_residual_at(r, idx) == 0 by {
            assert(spec_residual_at(prev, idx) == 0);
        };
        assert forall|idx: int| 0 <= idx < k implies spec_residual_at(r, idx) == bal[idx] by {
            if idx < k - 1 {
                assert(spec_residual_at(prev, idx) == bal[idx]);
            } else {
                assert(spec_residual_at(prev, idx) == 0);
            }
        };
    }
}

/// Largest total balance magnitude any ledger can reach: every posting is
/// bounded by `POSTING_MAX` and a ledger holds at most `usize::MAX`
/// postings.
pub const MAG_LIMIT: i128 = 3_689_348_814_741_910_323_000_000_000_000_000_000;

/// View of an executable balance vector.
pub open spec fn view_bal(v: Vec<i128>) -> Seq<int> {
    v@.map_values(|x: i128| x as int)
}

/// View of an executable settlement entry vector.
pub open spec fn view_entries(v: Vec<(usize, usize, i128)>) -> Seq<(int, int, int)> {
    v@.map_values(|e: (usize, usize, i128)| (e.0 as int, e.1 as int, e.2 as int))
}

/// View of an executable residual vector.
pub open spec fn view_residuals(v: Vec<(usize, i128)>) -> Seq<(int, int)> {
    v@.map_values(|e: (usize, i128)| (e.0 as int, e.1 as int))
}

/// View of an executable care-of vector.
pub open spec fn view_care(v: Vec<Option<usize>>) -> Seq<Option<int>> {
    v@.map_values(
        |o: Option<usize>|
            match o {
                Some(p) => Some(p as int),
                None => None::<int>,
            },
    )
}

/// View of an executable posting vector.
pub open spec fn view_postings(v: Vec<Posting>) -> Seq<(int, int)> {
    v@.map_values(|p: Posting| (p.participant as int, p.amount_minor as int))
}

/// Aggregate the ledger into one net balance per participant.
pub fn aggregate_balances(postings: &Vec<Posting>, n: usize) -> (r: Vec<i128>)
    requires
        forall|k: int|
            0 <= k < postings@.len() ==> (#[trigger] postings@[k]).participant < n && mag(
                postings@[k].amount_minor as int,
            ) <= POSTING_MAX as int,
    ensures
        view_bal(r) == spec_balances(view_postings(*postings), n as nat),
        sum_mag(view_bal(r)) <= MAG_LIMIT as int,
        r@.len() == n,
{
    let ghost vp = view_postings(*postings);
    let mut bal: Vec<i128> = vec![0i128; n];
    proof {
        assert(vp.take(0) =~= Seq::<(int, int)>::empty());
        assert(view_bal(bal) =~= Seq::new(n as nat, |i: int| 0int));
        lemma_sum_mag_zero(n as nat);
    }
    let m = postings.len();
    for t in 0..m
        invariant
            m == postings@.len(),
            vp == view_postings(*postings),
            bal@.len() == n,
            forall|k: int|
                0 <= k < postings@.len() ==> (#[trigger] postings@[k]).participant < n && mag(
                    postings@[k].amount_minor as int,
                ) <= POSTING_MAX as int,
            view_bal(bal) == spec_balances(vp.take(t as int), n as nat),
            sum_mag(view_bal(bal)) <= t as int * (POSTING_MAX as int),
    {
        proof {
            assert(vp.take(t as int + 1).drop_last() =~= vp.take(t as int));
            assert(vp.take(t as int + 1).last() == vp[t as int]);
            lemma_sum_mag_le(view_bal(bal));
            assert(t as int * (POSTING_MAX as int) <= usize::MAX as int * (POSTING_MAX as int));
        }
        let ghost pre = view_bal(bal);
        let p = &postings[t];
        let idx = p.participant;
        proof {
            assert(mag(pre[idx as int]) <= sum_mag(pre));
        }
        bal[idx] = bal[idx] + (p.amount_minor as i128);
        proof {
            assert(view_bal(bal) =~= pre.update(idx as int, pre[idx as int] + (
            p.amount_minor as int)));
            lemma_sum_mag_update(pre, idx as int, pre[idx as int] + (p.amount_minor as int));
        }
    }
    proof {
        assert(vp.take(m as int) =~= vp);
        assert(m as int * (POSTING_MAX as int) <= usize::MAX as int * (POSTING_MAX as int));
    }
    bal
}

/// Fold every care-of child's balance onto its parent, emitting one
/// settlement entry per child with a nonzero balance.
pub fn fold_care_of(bal: &mut Vec<i128>, care: &Vec<Option<usize>>) -> (es: Vec<
    (usize, usize, i128),
>)
    requires
        care@.len() == old(bal)@.len(),
        forall|idx: int|
            0 <= idx < care@.len() ==> ((#[trigger] care@[idx]) matches Some(p) ==> p
                < care@.len() && p != idx),
        sum_mag(view_bal(*old(bal))) <= MAG_LIMIT as int,
    ensures
        view_bal(*final(bal)) == spec_fold_from(view_bal(*old(bal)), view_care(*care), 0).0,
        view_entries(es) == spec_fold_from(view_bal(*old(bal)), view_care(*care), 0).1,
        final(bal)@.len() == old(bal)@.len(),
        sum_mag(view_bal(*final(bal))) <= sum_mag(view_bal(*old(bal))),
{
    let ghost b0 = view_bal(*bal);
    let ghost cv = view_care(*care);
    let mut es: Vec<(usize, usize, i128)> = Vec::new();
    let n = bal.len();
    for k in 0..n
        invariant
            n == bal@.len(),
            care@.len() == n,
            cv == view_care(*care),
            forall|idx: int|
                0 <= idx < care@.len() ==> ((#[trigger] care@[idx]) matches Some(p) ==> p
                    < care@.len() && p != idx),
            sum_mag(b0) <= MAG_LIMIT as int,
            sum_mag(view_bal(*bal)) <= sum_mag(b0),
            spec_fold_from(b0, cv, 0).0 == spec_fold_from(view_bal(*bal), cv, k as int).0,
            spec_fold_from(b0, cv, 0).1 == view_entries(es) + spec_fold_from(
                view_bal(*bal),
                cv,
                k as int,
            ).1,
    {
        let ghost pre = view_bal(*bal);
        let ghost es_pre = view_entries(es);
        match care[k] {
            None => {
                proof {
                    assert(cv[k as int] is None);
                    assert(spec_fold_from(pre, cv, k as int) == spec_fold_from(
                        pre,
                        cv,
                        k as int + 1,
                    ));
                }
            },
            Some(p) => {
                proof {
                    assert(cv[k as int] == Some(p as int));
                    lemma_sum_mag_le(pre);
                }
                let c = bal[k];
                if c != 0 {
                    if c > 0 {
                        es.push((k, p, c));
                    } else {
                        es.push((p, k, -c));
                    }
                }
                let ck = bal[k];
                bal[p] = bal[p] + ck;
                bal[k] = 0;
                proof {
                    let mid = spec_fold_from(pre, cv, k as int);
                    let bal2 = pre.update(p as int, pre[p as int] + (c as int)).update(
                        k as int,
                        0,
                    );
                    assert(view_bal(*bal) =~= bal2);
                    if c != 0 {
                        assert(view_entries(es) =~= es_pre + seq![
                            spec_orient(k as int, p as int, c as int),
                        ]);
                    } else {
                        assert(view_entries(es) =~= es_pre);
                    }
                    assert(spec_fold_from(b0, cv, 0).1 =~= view_entries(es) + spec_fold_from(
                        bal2,
                        cv,
                        k as int + 1,
                    ).1);
                    lemma_sum_mag_update(pre, p as int, pre[p as int] + (c as int));
                    lemma_sum_mag_update(
                        pre.update(p as int, pre[p as int] + (c as int)),
                        k as int,
                        0,
                    );
                }
            },
        }
    }
    proof {
        assert(spec_fold_from(view_bal(*bal), cv, n as int).1 =~= Seq::<(int, int, int)>::empty());
        assert(spec_fold_from(b0, cv, 0).1 =~= view_entries(es));
    }
    es
}

/// The greedy pairwise pass: drain each participant's balance against
/// every later participant in registry order.
pub fn greedy_pairs(bal: &mut Vec<i128>) -> (es: Vec<(usize, usize, i128)>)
    requires
        sum_mag(view_bal(*old(bal))) <= MAG_LIMIT as int,
    ensures
        view_bal(*final(bal)) == spec_greedy_from(view_bal(*old(bal)), 0).0,
        view_entries(es) == spec_greedy_from(view_bal(*old(bal)), 0).1,
        final(bal)@.len() == old(bal)@.len(),
{
    let ghost b1 = view_bal(*bal);
    let mut es: Vec<(usize, usize, i128)> = Vec::new();
    let n = bal.len();
    let mut i: usize = 0;
    while n - i > 1
        invariant
            n == bal@.len(),
            i <= n,
            sum_mag(b1) <= MAG_LIMIT as int,
            sum_mag(view_bal(*bal)) <= sum_mag(b1),
            spec_greedy_from(b1, 0).0 == spec_greedy_from(view_bal(*bal), i as int).0,
            spec_greedy_from(b1, 0).1 == view_entries(es) + spec_greedy_from(
                view_bal(*bal),
                i as int,
            ).1,
        decreases n - i,
    {
        let mut j: usize = i + 1;
        while j < n && bal[i] != 0
            invariant
                n == bal@.len(),
                i + 1 <= j <= n,
                i < n,
                sum_mag(b1) <= MAG_LIMIT as int,
                sum_mag(view_bal(*bal)) <= sum_mag(b1),
                spec_greedy_from(b1, 0).0 == spec_greedy_from(
                    spec_greedy_inner(view_bal(*bal), i as int, j as int).0,
                    i as int + 1,
                ).0,
                spec_greedy_from(b1, 0).1 == view_entries(es) + spec_greedy_inner(
                    view_bal(*bal),
                    i as int,
                    j as int,
                ).1 + spec_greedy_from(
                    spec_greedy_inner(view_bal(*bal), i as int, j as int).0,
                    i as int + 1,
                ).1,
            decreases n - j,
        {
            let ghost pre = view_bal(*bal);
            let ghost es_pre = view_entries(es);
            proof {
                lemma_sum_mag_le(pre);
            }
            let bi = bal[i];
            let bj = bal[j];
            if (bi > 0 && bj < 0) || (bi < 0 && bj > 0) {
                let amt = if bi > 0 {
                    if bi <= -bj {
                        bi
                    } else {
                        -bj
                    }
                } else {
                    if -bi <= bj {
                        bi
                    } else {
                        -bj
                    }
                };
                bal[i] = bi - amt;
                bal[j] = bj + amt;
                if amt > 0 {
                    es.push((i, j, amt));
                } else {
                    es.push((j, i, -amt));
                }
                proof {
                    assert(amt as int == spec_pair_amount(bi as int, bj as int));
                    let bal2 = pre.update(i as int, pre[i as int] - (amt as int)).update(
                        j as int,
                        pre[j as int] + (amt as int),
                    );
                    assert(view_bal(*bal) =~= bal2);
                    assert(view_entries(es) =~= es_pre + seq![
                        spec_orient(i as int, j as int, amt as int),
                    ]);
                    lemma_sum_mag_update(pre, i as int, pre[i as int] - (amt as int));
                    lemma_sum_mag_update(
                        pre.update(i as int, pre[i as int] - (amt as int)),
                        j as int,
                        pre[j as int] + (amt as int),
                    );
                    assert(spec_greedy_inner(pre, i as int, j as int).1 =~= seq![
                        spec_orient(i as int, j as int, amt as int),
                    ] + spec_greedy_inner(bal2, i as int, j as int + 1).1);
                    assert(spec_greedy_from(b1, 0).1 =~= view_entries(es) + spec_greedy_inner(
                        view_bal(*bal),
                        i as int,
                        j as int + 1,
                    ).1 + spec_greedy_from(
                        spec_greedy_inner(view_bal(*bal), i as int, j as int + 1).0,
                        i as int + 1,
                    ).1);
                }
            } else {
                proof {
                    assert(spec_greedy_inner(pre, i as int, j as int) == spec_greedy_inner(
                        pre,
                        i as int,
                        j as int + 1,
                    ));
                }
            }
            j = j + 1;
        }
        proof {
            let cur = view_bal(*bal);
            assert(spec_greedy_inner(cur, i as int, j as int).1 =~= Seq::<
                (int, int, int),
            >::empty());
            assert(spec_greedy_inner(cur, i as int, j as int).0 == cur);
            assert(view_entries(es) + Seq::<(int, int, int)>::empty() + spec_greedy_from(
                cur,
                i as int + 1,
            ).1 =~= view_entries(es) + spec_greedy_from(cur, i as int + 1).1);
        }
        i = i + 1;
    }
    proof {
        let cur = view_bal(*bal);
        assert(spec_greedy_from(cur, i as int).1 =~= Seq::<(int, int, int)>::empty());
        assert(spec_greedy_from(b1, 0).1 =~= view_entries(es));
    }
    es
}

/// Collect every nonzero leftover balance, in registry order.
pub fn collect_residuals(bal: &Vec<i128>) -> (r: Vec<(usize, i128)>)
    ensures
        view_residuals(r) == spec_residuals(view_bal(*bal), bal@.len() as int),
{
    let ghost bv = view_bal(*bal);
    let mut r: Vec<(usize, i128)> = Vec::new();
    let n = bal.len();
    for k in 0..n
        invariant
            n == bal@.len(),
            bv == view_bal(*bal),
            view_residuals(r) == spec_residuals(bv, k as int),
    {
        let ghost r_pre = view_residuals(r);
        let c = bal[k];
        if c != 0 {
            r.push((k, c));
        }
        proof {
            if c != 0 {
                assert(view_residuals(r) =~= r_pre + seq![(k as int, c as int)]);
            } else {
                assert(view_residuals(r) =~= r_pre);
            }
        }
    }
    r
}

} // verus!
