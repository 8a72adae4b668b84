//! The mathematical model of a report.
//!
//! `ReportModel` is the view of an `ExpenseReport`; the spec functions here
//! define, step by step, what constructing a report from an input means:
//! participant lookup, rate lookup, the rate table, the care-of map, and
//! the exact postings and history text every event appends.

use crate::money::{mag, spec_convert, spec_share, POSTING_MAX, RATE_MAX, RATE_ONE};
use crate::text::{
    spec_expense_header, spec_recipient_line, spec_transfer_line,
};
use crate::types::{ExpenseEvent, ReportError, ReportInput, TransferEvent};
use vstd::prelude::*;

verus! {

/// The abstract state of a report: registry, care-of map, rate table,
/// postings and history.
#[verifier::ext_equal]
pub struct ReportModel {
    /// Participant names; the position is the identity.
    pub participants: Seq<Seq<char>>,
    /// For each participant, the identity of its care-of parent, if any.
    pub care_of: Seq<Option<int>>,
    /// Currency code to scaled rate; later entries win.
    pub rates: Seq<(Seq<char>, int)>,
    pub base_currency: Seq<char>,
    /// (participant identity, signed amount in minor units of base).
    pub postings: Seq<(int, int)>,
    /// One entry per recorded event, in event order.
    pub history: Seq<Seq<char>>,
}

/// Identity of the first participant with the given name, if any.
pub open spec fn spec_find(names: Seq<Seq<char>>, name: Seq<char>) -> Option<int>
    decreases names.len(),
{
    if names.len() == 0 {
        None
    } else if names[0] == name {
        Some(0int)
    } else {
        match spec_find(names.skip(1), name) {
            None => None,
            Some(i) => Some(i + 1),
        }
    }
}

/// The scaled rate registered for a currency code; the last registration
/// wins.
pub open spec fn spec_rate_of(rates: Seq<(Seq<char>, int)>, code: Seq<char>) -> Option<int>
    decreases rates.len(),
{
    if rates.len() == 0 {
        None
    } else if rates.last().0 == code {
        Some(rates.last().1)
    } else {
        spec_rate_of(rates.drop_last(), code)
    }
}

/// The rate table built from the base currency and the input rate pairs:
/// the base currency stands first with rate exactly one, and an input pair
/// that names the base currency is ignored, so that the base rate is
/// invariantly one.
pub open spec fn spec_rates_table(base: Seq<char>, pairs: Seq<(Seq<char>, int)>) -> Seq<
    (Seq<char>, int),
>
    decreases pairs.len(),
{
    if pairs.len() == 0 {
        seq![(base, RATE_ONE as int)]
    } else {
        spec_rates_table(base, pairs.drop_last()) + (if pairs.last().0 == base {
            Seq::empty()
        } else {
            seq![pairs.last()]
        })
    }
}

/// The care-of map built from (child name, parent name) pairs: both names
/// must be registered and must differ; a later pair for the same child
/// overwrites an earlier one.
pub open spec fn spec_care_of(
    names: Seq<Seq<char>>,
    pairs: Seq<(Seq<char>, Seq<char>)>,
) -> Result<Seq<Option<int>>, ReportError>
    decreases pairs.len(),
{
    if pairs.len() == 0 {
        Ok(Seq::new(names.len(), |i: int| None))
    } else {
        match spec_care_of(names, pairs.drop_last()) {
            Err(e) => Err(e),
            Ok(co) => match spec_find(names, pairs.last().0) {
                None => Err(ReportError::UnknownParticipant),
                Some(c) => match spec_find(names, pairs.last().1) {
                    None => Err(ReportError::UnknownParticipant),
                    Some(p) => if c == p {
                        Err(ReportError::SelfCareOf)
                    } else {
                        Ok(co.update(c, Some(p)))
                    },
                },
            },
        }
    }
}

/// Recording a transfer: two postings of equal converted magnitude, the
/// negative one at the source, and one history line.
pub open spec fn spec_record_transfer(
    m: ReportModel,
    from: Seq<char>,
    to: Seq<char>,
    what: Seq<char>,
    amount: int,
    currency: Seq<char>,
) -> Result<ReportModel, ReportError> {
    match spec_rate_of(m.rates, currency) {
        None => Err(ReportError::UnknownCurrency),
        Some(rate) => match spec_find(m.participants, from) {
            None => Err(ReportError::UnknownParticipant),
            Some(fi) => match spec_find(m.participants, to) {
                None => Err(ReportError::UnknownParticipant),
                Some(ti) => {
                    let c = spec_convert(amount, rate);
                    Ok(
                        ReportModel {
                            postings: m.postings + seq![(fi, -c), (ti, c)],
                            history: m.history + seq![
                                spec_transfer_line(
                                    m.participants[fi],
                                    m.participants[ti],
                                    what,
                                    amount,
                                    currency,
                                    m.base_currency,
                                    rate,
                                ),
                            ],
                            ..m
                        },
                    )
                },
            },
        },
    }
}

/// The per-participant weight vector of an expense split: zero for every
/// participant the split does not name.  Every named participant must be
/// registered; a repeated name keeps its last weight.
pub open spec fn spec_split_vec(
    names: Seq<Seq<char>>,
    split: Seq<(Seq<char>, u32)>,
) -> Result<Seq<u32>, ReportError>
    decreases split.len(),
{
    if split.len() == 0 {
        Ok(Seq::new(names.len(), |i: int| 0u32))
    } else {
        match spec_split_vec(names, split.drop_last()) {
            Err(e) => Err(e),
            Ok(w) => match spec_find(names, split.last().0) {
                None => Err(ReportError::UnknownParticipant),
                Some(i) => Ok(w.update(i, split.last().1)),
            },
        }
    }
}

/// Sum of the first `k` weights.
pub open spec fn spec_weight_sum(w: Seq<u32>, k: int) -> int
    decreases k,
{
    if k <= 0 {
        0
    } else {
        spec_weight_sum(w, k - 1) + w[k - 1]
    }
}

/// The recipient postings of an expense over the first `k` participants:
/// one posting per nonzero weight, each share rounded independently.
pub open spec fn spec_expense_postings(
    w: Seq<u32>,
    amount: int,
    rate: int,
    den: int,
    k: int,
) -> Seq<(int, int)>
    decreases k,
{
    if k <= 0 {
        Seq::empty()
    } else {
        spec_expense_postings(w, amount, rate, den, k - 1) + (if w[k - 1] != 0 {
            seq![((k - 1) as int, spec_share(amount, rate, w[k - 1] as int, den))]
        } else {
            Seq::empty()
        })
    }
}

/// The recipient lines of an expense history entry over the first `k`
/// participants.
pub open spec fn spec_expense_lines(
    names: Seq<Seq<char>>,
    w: Seq<u32>,
    amount: int,
    rate: int,
    den: int,
    base: Seq<char>,
    k: int,
) -> Seq<char>
    decreases k,
{
    if k <= 0 {
        Seq::empty()
    } else {
        spec_expense_lines(names, w, amount, rate, den, base, k - 1) + (if w[k - 1] != 0 {
            spec_recipient_line(
                names[k - 1],
                w[k - 1] as int,
                den,
                spec_share(amount, rate, w[k - 1] as int, den),
                base,
            )
        } else {
            Seq::empty()
        })
    }
}

/// Recording an expense: one negative posting of the full converted amount
/// at the payer, one positive posting per nonzero weight, and one
/// multi-line history entry.
pub open spec fn spec_record_expense(
    m: ReportModel,
    by: Seq<char>,
    split: Seq<(Seq<char>, u32)>,
    what: Seq<char>,
    amount: int,
    currency: Seq<char>,
) -> Result<ReportModel, ReportError> {
    let n = m.participants.len() as int;
    match spec_split_vec(m.participants, split) {
        Err(e) => Err(e),
        Ok(w) => {
            let den = spec_weight_sum(w, n);
            if den == 0 {
                Err(ReportError::NoShareRecipients)
            } else {
                match spec_rate_of(m.rates, currency) {
                    None => Err(ReportError::UnknownCurrency),
                    Some(rate) => match spec_find(m.participants, by) {
                        None => Err(ReportError::UnknownParticipant),
                        Some(bi) => {
                            let c = spec_convert(amount, rate);
                            let entry = spec_expense_header(
                                m.participants[bi],
                                what,
                                amount,
                                currency,
                                m.base_currency,
                                rate,
                            ) + spec_expense_lines(
                                m.participants,
                                w,
                                amount,
                                rate,
                                den,
                                m.base_currency,
                                n,
                            );
                            Ok(
                                ReportModel {
                                    postings: m.postings + seq![(bi, -c)]
                                        + spec_expense_postings(w, amount, rate, den, n),
                                    history: m.history + seq![entry],
                                    ..m
                                },
                            )
                        },
                    },
                }
            }
        },
    }
}

/// Recording a sequence of transfers, stopping at the first error.
pub open spec fn spec_run_transfers(m: ReportModel, ts: Seq<TransferEvent>) -> Result<
    ReportModel,
    ReportError,
>
    decreases ts.len(),
{
    if ts.len() == 0 {
        Ok(m)
    } else {
        match spec_record_transfer(
            m,
            ts[0].from@,
            ts[0].to@,
            ts[0].what@,
            ts[0].amount_minor as int,
            ts[0].currency@,
        ) {
            Err(e) => Err(e),
            Ok(m2) => spec_run_transfers(m2, ts.skip(1)),
        }
    }
}

/// Recording a sequence of expenses, stopping at the first error.
pub open spec fn spec_run_expenses(m: ReportModel, es: Seq<ExpenseEvent>) -> Result<
    ReportModel,
    ReportError,
>
    decreases es.len(),
{
    if es.len() == 0 {
        Ok(m)
    } else {
        match spec_record_expense(
            m,
            es[0].by@,
            es[0].split@.map_values(|p: (String, u32)| (p.0@, p.1)),
            es[0].what@,
            es[0].amount_minor as int,
            es[0].currency@,
        ) {
            Err(e) => Err(e),
            Ok(m2) => spec_run_expenses(m2, es.skip(1)),
        }
    }
}

/// View of the participant list of an input.
pub open spec fn spec_participants(input: ReportInput) -> Seq<Seq<char>> {
    input.participants@.map_values(|s: String| s@)
}

/// View of the rate pairs of an input.
pub open spec fn spec_rate_pairs(input: ReportInput) -> Seq<(Seq<char>, int)> {
    input.exchange_rates@.map_values(|e: (String, u64)| (e.0@, e.1 as int))
}

/// View of the care-of pairs of an input.
pub open spec fn spec_care_pairs(input: ReportInput) -> Seq<(Seq<char>, Seq<char>)> {
    input.in_care_of@.map_values(|e: (String, String)| (e.0@, e.1@))
}

/// The model a valid input constructs, or the first error of construction:
/// the care-of map is validated first, then every transfer and every
/// expense is recorded in input order.
pub open spec fn spec_new(input: ReportInput) -> Result<ReportModel, ReportError> {
    match spec_care_of(spec_participants(input), spec_care_pairs(input)) {
        Err(e) => Err(e),
        Ok(care) => {
            let m0 = ReportModel {
                participants: spec_participants(input),
                care_of: care,
                rates: spec_rates_table(input.currency@, spec_rate_pairs(input)),
                base_currency: input.currency@,
                postings: Seq::empty(),
                history: Seq::empty(),
            };
            match spec_run_transfers(m0, input.transfers@) {
                Err(e) => Err(e),
                Ok(m1) => spec_run_expenses(m1, input.expenses@),
            }
        },
    }
}

/// Well-formedness of a report model: the care-of map matches the registry
/// and holds no self-edge, the rate table starts with the base currency at
/// rate one and admits only positive bounded rates, and every posting
/// names a registered participant and is bounded.
pub open spec fn wf_model(m: ReportModel) -> bool {
    let n = m.participants.len() as int;
    &&& m.care_of.len() == n
    &&& forall|k: int|
        0 <= k < n ==> (#[trigger] m.care_of[k]) matches Some(p) && 0 <= p < n && p != k
            || m.care_of[k] is None
    &&& m.rates.len() >= 1
    &&& m.rates[0] == (m.base_currency, RATE_ONE as int)
    &&& forall|k: int| 0 < k < m.rates.len() ==> (#[trigger] m.rates[k]).0 != m.base_currency
    &&& forall|k: int|
        0 <= k < m.rates.len() ==> 1 <= (#[trigger] m.rates[k]).1 <= RATE_MAX as int
    &&& forall|k: int|
        0 <= k < m.postings.len() ==> 0 <= (#[trigger] m.postings[k]).0 < n && mag(
            m.postings[k].1,
        ) <= POSTING_MAX as int
}

/// A found participant identity is in range and names the participant.
pub proof fn lemma_find_in_range(names: Seq<Seq<char>>, name: Seq<char>)
    ensures
        spec_find(names, name) matches Some(i) ==> 0 <= i < names.len() && names[i] == name,
    decreases names.len(),
{
    if names.len() > 0 && names[0] != name {
        lemma_find_in_range(names.skip(1), name);
    }
}

/// A found rate is an entry of the table.
pub proof fn lemma_rate_of_in(rates: Seq<(Seq<char>, int)>, code: Seq<char>)
    ensures
        spec_rate_of(rates, code) matches Some(r) ==> exists|k: int|
            0 <= k < rates.len() && #[trigger] rates[k] == (code, r),
    decreases rates.len(),
{
    if rates.len() > 0 && rates.last().0 != code {
        lemma_rate_of_in(rates.drop_last(), code);
        match spec_rate_of(rates.drop_last(), code) {
            Some(r) => {
                let k = choose|k: int|
                    0 <= k < rates.drop_last().len() && #[trigger] rates.drop_last()[k] == (
                    code,
                    r,
                );
                assert(rates[k] == (code, r));
            },
            None => {},
        }
    } else if rates.len() > 0 && rates.last().0 == code {
        assert(rates[rates.len() - 1] == (code, rates.last().1));
    }
}

/// The built rate table is well formed and maps the base currency to rate
/// exactly one.
pub proof fn lemma_rates_table_props(base: Seq<char>, pairs: Seq<(Seq<char>, int)>)
    requires
        forall|k: int|
            0 <= k < pairs.len() ==> 1 <= (#[trigger] pairs[k]).1 <= RATE_MAX as int,
    ensures
        spec_rates_table(base, pairs).len() >= 1,
        spec_rates_table(base, pairs)[0] == (base, RATE_ONE as int),
        forall|k: int|
            0 < k < spec_rates_table(base, pairs).len() ==> (#[trigger] spec_rates_table(
                base,
                pairs,
            )[k]).0 != base,
        forall|k: int|
            0 <= k < spec_rates_table(base, pairs).len() ==> 1 <= (#[trigger] spec_rates_table(
                base,
                pairs,
            )[k]).1 <= RATE_MAX as int,
        spec_rate_of(spec_rates_table(base, pairs), base) == Some(RATE_ONE as int),
    decreases pairs.len(),
{
    if pairs.len() == 0 {
        assert(spec_rates_table(base, pairs) == seq![(base, RATE_ONE as int)]);
        assert(spec_rates_table(base, pairs).drop_last() =~= Seq::<(Seq<char>, int)>::empty());
    } else {
        lemma_rates_table_props(base, pairs.drop_last());
        let prev = spec_rates_table(base, pairs.drop_last());
        let t = spec_rates_table(base, pairs);
        if pairs.last().0 == base {
            assert(t =~= prev);
        } else {
            assert(t.drop_last() =~= prev);
        }
    }
}

/// A successfully built care-of map matches the registry and holds no
/// self-edge.
pub proof fn lemma_care_of_props(names: Seq<Seq<char>>, pairs: Seq<(Seq<char>, Seq<char>)>)
    ensures
        spec_care_of(names, pairs) matches Ok(co) ==> co.len() == names.len() && forall|k: int|
            0 <= k < co.len() ==> (#[trigger] co[k]) matches Some(p) && 0 <= p < names.len()
                && p != k || co[k] is None,
    decreases pairs.len(),
{
    if pairs.len() > 0 {
        lemma_care_of_props(names, pairs.drop_last());
        lemma_find_in_range(names, pairs.last().0);
        lemma_find_in_range(names, pairs.last().1);
    }
}

/// An error in a prefix of the care-of pairs is the error of the whole.
pub proof fn lemma_care_of_err_extends(
    names: Seq<Seq<char>>,
    pairs: Seq<(Seq<char>, Seq<char>)>,
    k: int,
)
    requires
        0 <= k <= pairs.len(),
        spec_care_of(names, pairs.take(k)) is Err,
    ensures
        spec_care_of(names, pairs) == spec_care_of(names, pairs.take(k)),
    decreases pairs.len() - k,
{
    if k == pairs.len() {
        assert(pairs.take(k) =~= pairs);
    } else {
        assert(pairs.take(k + 1).drop_last() =~= pairs.take(k));
        lemma_care_of_err_extends(names, pairs, k + 1);
    }
}

/// An error in a prefix of an expense split is the error of the whole.
pub proof fn lemma_split_vec_err_extends(
    names: Seq<Seq<char>>,
    split: Seq<(Seq<char>, u32)>,
    k: int,
)
    requires
        0 <= k <= split.len(),
        spec_split_vec(names, split.take(k)) is Err,
    ensures
        spec_split_vec(names, split) == spec_split_vec(names, split.take(k)),
    decreases split.len() - k,
{
    if k == split.len() {
        assert(split.take(k) =~= split);
    } else {
        assert(split.take(k + 1).drop_last() =~= split.take(k));
        lemma_split_vec_err_extends(names, split, k + 1);
    }
}

/// A successfully built weight vector has one weight per participant.
pub proof fn lemma_split_vec_len(names: Seq<Seq<char>>, split: Seq<(Seq<char>, u32)>)
    ensures
        spec_split_vec(names, split) matches Ok(w) ==> w.len() == names.len(),
    decreases split.len(),
{
    if split.len() > 0 {
        lemma_split_vec_len(names, split.drop_last());
        lemma_find_in_range(names, split.last().0);
    }
}

/// Every weight is at most the sum of a range that holds it, and the sum
/// of non-negative weights is non-negative.
pub proof fn lemma_weight_sum_bounds(w: Seq<u32>, k: int)
    requires
        0 <= k <= w.len(),
    ensures
        0 <= spec_weight_sum(w, k),
        forall|i: int| 0 <= i < k ==> (#[trigger] w[i]) as int <= spec_weight_sum(w, k),
    decreases k,
{
    if k > 0 {
        lemma_weight_sum_bounds(w, k - 1);
    }
}

} // verus!
