//! Laws of the ledger and the settlement engine, each proved from the
//! specifications the executable functions are verified against.

use crate::model::{
    spec_expense_postings, spec_new, spec_rate_of, spec_record_expense, spec_record_transfer,
    spec_run_transfers, spec_weight_sum, wf_model, ReportModel,
};
use crate::money::{
    lemma_convert_at_one, lemma_round_half_err, mag, spec_convert, spec_share, RATE_ONE,
    RATE_SCALE,
};
use crate::settle::{
    lemma_apply_concat, lemma_balances_props, lemma_fold_from_props, lemma_fold_zeroes,
    lemma_greedy_from_props, lemma_residuals_props, spec_apply_entries, spec_folded,
    spec_initial_balances, spec_paired, spec_residual_at, spec_settle,
};
use crate::types::{ReportInput, TransferEvent};
use vstd::prelude::*;

verus! {

/// Sum of all posting amounts of a ledger.
pub open spec fn spec_postings_sum(postings: Seq<(int, int)>) -> int
    decreases postings.len(),
{
    if postings.len() == 0 {
        0
    } else {
        spec_postings_sum(postings.drop_last()) + postings.last().1
    }
}

/// The sum of postings distributes over concatenation.
pub proof fn lemma_postings_sum_concat(a: Seq<(int, int)>, b: Seq<(int, int)>)
    ensures
        spec_postings_sum(a + b) == spec_postings_sum(a) + spec_postings_sum(b),
    decreases b.len(),
{
    if b.len() == 0 {
        assert(a + b =~= a);
    } else {
        assert((a + b).drop_last() =~= a + b.drop_last());
        lemma_postings_sum_concat(a, b.drop_last());
    }
}

/// Conservation: a transfer appends two postings that cancel, so any
/// sequence of transfers recorded on a ledger whose postings sum to zero
/// leaves the sum zero.  In particular a report built from transfers
/// alone has postings summing to zero.
pub proof fn lemma_transfers_conserve(m: ReportModel, ts: Seq<TransferEvent>)
    requires
        spec_postings_sum(m.postings) == 0,
    ensures
        spec_run_transfers(m, ts) matches Ok(m2) ==> spec_postings_sum(m2.postings) == 0,
    decreases ts.len(),
{
    if ts.len() > 0 {
        let r = spec_record_transfer(
            m,
            ts[0].from@,
            ts[0].to@,
            ts[0].what@,
            ts[0].amount_minor as int,
            ts[0].currency@,
        );
        match r {
            Err(_) => {},
            Ok(m1) => {
                assert(m1.postings.len() == m.postings.len() + 2);
                assert(m1.postings.drop_last().drop_last() =~= m.postings);
                assert(m1.postings.last().1 + m1.postings.drop_last().last().1 == 0);
                assert(spec_postings_sum(m1.postings.drop_last()) == spec_postings_sum(m.postings)
                    + m1.postings.drop_last().last().1);
                assert(spec_postings_sum(m1.postings) == 0);
                lemma_transfers_conserve(m1, ts.skip(1));
            },
        }
    }
}

/// The rate table of a well-formed report maps the base currency to rate
/// exactly one.
pub proof fn lemma_rate_of_base(rates: Seq<(Seq<char>, int)>, base: Seq<char>)
    requires
        rates.len() >= 1,
        rates[0] == (base, RATE_ONE as int),
        forall|k: int| 0 < k < rates.len() ==> (#[trigger] rates[k]).0 != base,
    ensures
        spec_rate_of(rates, base) == Some(RATE_ONE as int),
    decreases rates.len(),
{
    if rates.len() > 1 {
        assert(rates.last().0 != base);
        assert(rates.drop_last()[0] == rates[0]);
        lemma_rate_of_base(rates.drop_last(), base);
    }
}

/// Currency round trip: recording a transfer of `amount` in a currency
/// with scaled rate `rate` produces exactly the postings of recording the
/// converted amount in the base currency directly, and the one succeeds
/// exactly when the other does.
pub proof fn lemma_conversion_round_trip(
    m: ReportModel,
    from: Seq<char>,
    to: Seq<char>,
    what: Seq<char>,
    amount: int,
    currency: Seq<char>,
    rate: int,
)
    requires
        wf_model(m),
        spec_rate_of(m.rates, currency) == Some(rate),
    ensures
        spec_record_transfer(m, from, to, what, amount, currency) is Ok <==> spec_record_transfer(
            m,
            from,
            to,
            what,
            spec_convert(amount, rate),
            m.base_currency,
        ) is Ok,
        spec_record_transfer(m, from, to, what, amount, currency) matches Ok(m1)
            ==> spec_record_transfer(
            m,
            from,
            to,
            what,
            spec_convert(amount, rate),
            m.base_currency,
        ) matches Ok(m2) ==> m1.postings == m2.postings,
{
    lemma_rate_of_base(m.rates, m.base_currency);
    lemma_convert_at_one(spec_convert(amount, rate));
}

/// Settlement entries, applied to the pre-settlement balances in emission
/// order, drive every balance to exactly the reported residual — zero for
/// every participant outside the residual list, whose entries are all
/// nonzero.
pub proof fn lemma_settlement_drives_to_residuals(m: ReportModel)
    requires
        wf_model(m),
    ensures
        spec_apply_entries(spec_initial_balances(m), spec_settle(m).0).len()
            == m.participants.len(),
        forall|idx: int|
            0 <= idx < m.participants.len() ==> spec_apply_entries(
                spec_initial_balances(m),
                spec_settle(m).0,
            )[idx] == spec_residual_at(spec_settle(m).1, idx),
        forall|q: int|
            0 <= q < spec_settle(m).1.len() ==> 0 <= (#[trigger] spec_settle(m).1[q]).0
                < m.participants.len() && spec_settle(m).1[q].1 != 0,
{
    let n = m.participants.len();
    let b0 = spec_initial_balances(m);
    lemma_balances_props(m.postings, n);
    lemma_fold_from_props(b0, m.care_of, 0);
    let folded = spec_folded(m);
    lemma_greedy_from_props(folded.0, 0);
    let paired = spec_paired(m);
    lemma_apply_concat(b0, folded.1, paired.1);
    lemma_residuals_props(paired.0, n as int);
}

/// Settlement is repeatable: it is specified as a pure function of the
/// report's model, so two settlements of the same ledger are identical.
pub proof fn lemma_settle_repeatable(
    m: ReportModel,
    r1: (Seq<(int, int, int)>, Seq<(int, int)>),
    r2: (Seq<(int, int, int)>, Seq<(int, int)>),
)
    requires
        r1 == spec_settle(m),
        r2 == spec_settle(m),
    ensures
        r1 == r2,
{
}

/// Care-of folding precedes pairing: when no parent is itself a child,
/// a child with a care-of parent never appears in the greedy pairwise
/// entries — only, if at all, in the fold entries.
pub proof fn lemma_children_settle_only_in_fold(m: ReportModel)
    requires
        wf_model(m),
        forall|idx: int|
            0 <= idx < m.care_of.len() ==> ((#[trigger] m.care_of[idx]) matches Some(p)
                ==> m.care_of[p] is None),
    ensures
        forall|q: int|
            0 <= q < spec_paired(m).1.len() ==> {
                let e = #[trigger] spec_paired(m).1[q];
                m.care_of[e.0] is None && m.care_of[e.1] is None
            },
{
    let n = m.participants.len();
    let b0 = spec_initial_balances(m);
    lemma_balances_props(m.postings, n);
    lemma_fold_zeroes(b0, m.care_of, 0);
    lemma_fold_from_props(b0, m.care_of, 0);
    let folded = spec_folded(m);
    lemma_greedy_from_props(folded.0, 0);
    assert forall|q: int| 0 <= q < spec_paired(m).1.len() implies {
        let e = #[trigger] spec_paired(m).1[q];
        m.care_of[e.0] is None && m.care_of[e.1] is None
    } by {
        let e = spec_paired(m).1[q];
        assert(folded.0[e.0] != 0 && folded.0[e.1] != 0);
    }
}

/// The accumulated rounding error of the recipient shares over the first
/// `k` participants: scaled by `den * RATE_SCALE`, it is at most half
/// that denominator per recipient.
pub proof fn lemma_split_sum_err(w: Seq<u32>, amount: int, rate: int, den: int, k: int)
    requires
        den >= 1,
        0 <= k <= w.len(),
    ensures
        2 * mag(
            den * (RATE_SCALE as int) * spec_postings_sum(
                spec_expense_postings(w, amount, rate, den, k),
            ) - amount * rate * spec_weight_sum(w, k),
        ) <= spec_expense_postings(w, amount, rate, den, k).len() * (den * (RATE_SCALE as int)),
        spec_weight_sum(w, k) >= 1 ==> spec_expense_postings(w, amount, rate, den, k).len() >= 1,
    decreases k,
{
    let q = den * (RATE_SCALE as int);
    let ar = amount * rate;
    assert(q >= 10_000 && q % 2 == 0) by (nonlinear_arith)
        requires
            den >= 1,
            q == den * (RATE_SCALE as int),
    ;
    if k > 0 {
        lemma_split_sum_err(w, amount, rate, den, k - 1);
        let prev = spec_expense_postings(w, amount, rate, den, k - 1);
        let cur = spec_expense_postings(w, amount, rate, den, k);
        let ps = spec_postings_sum(prev);
        let pw = spec_weight_sum(w, k - 1);
        let wk = w[k - 1] as int;
        if w[k - 1] != 0 {
            let share = spec_share(amount, rate, wk, den);
            lemma_postings_sum_concat(prev, seq![((k - 1) as int, share)]);
            let single = seq![((k - 1) as int, share)];
            assert(single.drop_last() =~= Seq::<(int, int)>::empty());
            assert(single.last() == ((k - 1) as int, share));
            assert(spec_postings_sum(single.drop_last()) == 0);
            assert(spec_postings_sum(single) == share);
            lemma_round_half_err(amount * rate * wk, q);
            assert(2 * mag(q * share - ar * wk) <= q) by (nonlinear_arith)
                requires
                    2 * mag(q * share - amount * rate * wk) <= q,
                    ar == amount * rate,
            ;
            assert(q * (ps + share) == q * ps + q * share) by (nonlinear_arith);
            assert(ar * (pw + wk) == ar * pw + ar * wk) by (nonlinear_arith);
            assert((prev.len() + 1) * q == prev.len() * q + q) by (nonlinear_arith);
            assert(cur.len() == prev.len() + 1);
            assert(spec_postings_sum(cur) == ps + share);
            assert(spec_weight_sum(w, k) == pw + wk);
        } else {
            assert(cur =~= prev);
            assert(spec_weight_sum(w, k) == pw);
        }
    }
}

/// Rounding bound of an expense: the payer's single negative posting is
/// exactly the converted amount, and the sum of the independently rounded
/// recipient postings differs from it by at most one minor unit per
/// recipient.
pub proof fn lemma_expense_rounding_bound(
    m: ReportModel,
    by: Seq<char>,
    split: Seq<(Seq<char>, u32)>,
    what: Seq<char>,
    amount: int,
    currency: Seq<char>,
    rate: int,
)
    requires
        spec_rate_of(m.rates, currency) == Some(rate),
    ensures
        spec_record_expense(m, by, split, what, amount, currency) matches Ok(m1) ==> {
            let appended = m1.postings.skip(m.postings.len() as int);
            &&& appended.len() >= 2
            &&& appended[0].1 == -spec_convert(amount, rate)
            &&& mag(
                spec_postings_sum(appended.skip(1)) - spec_convert(amount, rate),
            ) <= appended.len() - 1
        },
{
    let r = spec_record_expense(m, by, split, what, amount, currency);
    if r is Ok {
        let m1 = r->Ok_0;
        let n = m.participants.len() as int;
        let w = crate::model::spec_split_vec(m.participants, split)->Ok_0;
        let den = spec_weight_sum(w, n);
        let c = spec_convert(amount, rate);
        let pieces = spec_expense_postings(w, amount, rate, den, n);
        let appended = m1.postings.skip(m.postings.len() as int);
        crate::model::lemma_split_vec_len(m.participants, split);
        assert(appended =~= seq![
            (crate::model::spec_find(m.participants, by)->Some_0, -c),
        ] + pieces);
        assert(appended.skip(1) =~= pieces);
        let q = den * (RATE_SCALE as int);
        let ar = amount * rate;
        let s = spec_postings_sum(pieces);
        crate::model::lemma_weight_sum_bounds(w, n);
        assert(den >= 1);
        lemma_split_sum_err(w, amount, rate, den, n);
        assert(2 * mag(q * s - ar * den) <= pieces.len() * q);
        lemma_round_half_err(ar, RATE_SCALE as int);
        assert(2 * mag(q * c - ar * den) <= q) by (nonlinear_arith)
            requires
                2 * mag((RATE_SCALE as int) * c - ar) <= RATE_SCALE as int,
                den >= 1,
                q == den * (RATE_SCALE as int),
        ;
        assert(2 * mag(q * (s - c)) <= (pieces.len() + 1) * q) by (nonlinear_arith)
            requires
                2 * mag(q * s - ar * den) <= pieces.len() * q,
                2 * mag(q * c - ar * den) <= q,
                q > 0,
        ;
        assert(mag(s - c) <= pieces.len()) by (nonlinear_arith)
            requires
                2 * mag(q * (s - c)) <= (pieces.len() + 1) * q,
                q > 0,
                pieces.len() >= 1,
        ;
        assert(appended.len() - 1 == pieces.len());
        let first = seq![(crate::model::spec_find(m.participants, by)->Some_0, -c)];
        assert(appended[0] == first[0]);
    }
}

/// Conservation for a whole report: a report built from an input with no
/// expenses has postings that sum to exactly zero.
pub proof fn lemma_transfer_report_conserves(input: ReportInput)
    requires
        input.expenses@.len() == 0,
    ensures
        spec_new(input) matches Ok(m) ==> spec_postings_sum(m.postings) == 0,
{
    let care = crate::model::spec_care_of(
        crate::model::spec_participants(input),
        crate::model::spec_care_pairs(input),
    );
    if care is Ok {
        let m0 = ReportModel {
            participants: crate::model::spec_participants(input),
            care_of: care->Ok_0,
            rates: crate::model::spec_rates_table(
                input.currency@,
                crate::model::spec_rate_pairs(input),
            ),
            base_currency: input.currency@,
            postings: Seq::empty(),
            history: Seq::empty(),
        };
        assert(spec_postings_sum(m0.postings) == 0);
        lemma_transfers_conserve(m0, input.transfers@);
    }
}

} // verus!
