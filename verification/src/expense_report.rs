//! The expense report: registry, rate table, ledger and history.

use crate::model::{
    lemma_care_of_err_extends, lemma_care_of_props, lemma_find_in_range, lemma_rate_of_in,
    lemma_rates_table_props, lemma_split_vec_err_extends, lemma_weight_sum_bounds, spec_care_of,
    spec_care_pairs, spec_expense_lines, spec_expense_postings, spec_find, spec_new,
    spec_participants, spec_rate_of, spec_rate_pairs, spec_rates_table, spec_record_expense,
    spec_record_transfer, spec_run_expenses, spec_run_transfers, spec_split_vec, spec_weight_sum,
    wf_model, ReportModel,
};
use crate::money::{
    convert_amount, lemma_convert_bound, mag, share_amount, spec_share, AMOUNT_MAX, POSTING_MAX,
    RATE_MAX, RATE_ONE,
};
use crate::text::{
    append_recipient_line, build_expense_header, build_transfer_line, spec_expense_header,
};
use crate::settle::{
    aggregate_balances, collect_residuals, fold_care_of, greedy_pairs, lemma_balances_props,
    lemma_fold_from_props, lemma_greedy_from_props, lemma_residuals_props, spec_folded,
    spec_initial_balances, spec_paired, spec_settle, view_bal, view_care, view_entries,
    view_postings, view_residuals,
};
use crate::types::{ExpenseEvent, Posting, ReportError, ReportInput, TransferEvent};
use vstd::prelude::*;

verus! {

/// A ledger of postings and history built from an ordered list of events,
/// together with the registry, rate table and care-of map it was built
/// with.  Construction validates everything; afterwards the report is
/// read-only.
#[derive(Debug)]
pub struct ExpenseReport {
    participants: Vec<String>,
    in_care_of: Vec<Option<usize>>,
    exchange_rates: Vec<(String, u64)>,
    base_currency: String,
    postings: Vec<Posting>,
    history: Vec<String>,
}

impl View for ExpenseReport {
    type V = ReportModel;

    closed spec fn view(&self) -> ReportModel {
        ReportModel {
            participants: self.participants@.map_values(|s: String| s@),
            care_of: self.in_care_of@.map_values(
                |o: Option<usize>|
                    match o {
                        Some(p) => Some(p as int),
                        None => None,
                    },
            ),
            rates: self.exchange_rates@.map_values(|e: (String, u64)| (e.0@, e.1 as int)),
            base_currency: self.base_currency@,
            postings: self.postings@.map_values(
                |p: Posting| (p.participant as int, p.amount_minor as int),
            ),
            history: self.history@.map_values(|s: String| s@),
        }
    }
}

/// Identity of the first participant with the given name.
fn find_index(names: &Vec<String>, name: &String) -> (r: Option<usize>)
    ensures
        match r {
            Some(i) => spec_find(names@.map_values(|s: String| s@), name@) == Some(i as int),
            None => spec_find(names@.map_values(|s: String| s@), name@) is None,
        },
{
    let ghost vnames = names@.map_values(|s: String| s@);
    proof {
        assert(vnames.skip(0) =~= vnames);
    }
    let n = names.len();
    for i in 0..n
        invariant
            n == names.len(),
            vnames == names@.map_values(|s: String| s@),
            spec_find(vnames, name@) == match spec_find(vnames.skip(i as int), name@) {
                None => None::<int>,
                Some(k) => Some(k + i),
            },
    {
        if names[i] == *name {
            return Some(i);
        }
        proof {
            assert(vnames.skip(i as int).skip(1) =~= vnames.skip(i as int + 1));
        }
    }
    proof {
        assert(vnames.skip(n as int) =~= Seq::<Seq<char>>::empty());
    }
    None
}

/// The scaled rate registered for a currency code; the last registration
/// wins.
fn find_rate(rates: &Vec<(String, u64)>, code: &String) -> (r: Option<u64>)
    ensures
        match r {
            Some(x) => spec_rate_of(
                rates@.map_values(|e: (String, u64)| (e.0@, e.1 as int)),
                code@,
            ) == Some(x as int),
            None => spec_rate_of(
                rates@.map_values(|e: (String, u64)| (e.0@, e.1 as int)),
                code@,
            ) is None,
        },
{
    let ghost vr = rates@.map_values(|e: (String, u64)| (e.0@, e.1 as int));
    let mut j = rates.len();
    proof {
        assert(vr.take(j as int) =~= vr);
    }
    while j > 0
        invariant
            j <= rates.len(),
            vr == rates@.map_values(|e: (String, u64)| (e.0@, e.1 as int)),
            spec_rate_of(vr, code@) == spec_rate_of(vr.take(j as int), code@),
        decreases j,
    {
        j = j - 1;
        proof {
            assert(vr.take(j as int + 1).drop_last() =~= vr.take(j as int));
            assert(vr.take(j as int + 1).last() == vr[j as int]);
        }
        if rates[j].0 == *code {
            return Some(rates[j].1);
        }
    }
    proof {
        assert(vr.take(0) =~= Seq::<(Seq<char>, int)>::empty());
    }
    None
}

/// Build the care-of map from (child name, parent name) pairs, validating
/// each pair, exactly as `spec_care_of` states.
fn build_care_of(participants: &Vec<String>, in_care_of: &Vec<(String, String)>) -> (r: Result<
    Vec<Option<usize>>,
    ReportError,
>)
    ensures
        match r {
            Ok(care) => spec_care_of(
                participants@.map_values(|s: String| s@),
                in_care_of@.map_values(|e: (String, String)| (e.0@, e.1@)),
            ) == Ok::<Seq<Option<int>>, ReportError>(
                care@.map_values(
                    |o: Option<usize>|
                        match o {
                            Some(p) => Some(p as int),
                            None => None::<int>,
                        },
                ),
            ) && care@.len() == participants@.len(),
            Err(e) => spec_care_of(
                participants@.map_values(|s: String| s@),
                in_care_of@.map_values(|e: (String, String)| (e.0@, e.1@)),
            ) == Err::<Seq<Option<int>>, ReportError>(e),
        },
{
    let ghost names = participants@.map_values(|s: String| s@);
    let ghost vpairs = in_care_of@.map_values(|e: (String, String)| (e.0@, e.1@));
    let n = participants.len();
    let mut care: Vec<Option<usize>> = vec![None; n];
    proof {
        assert(vpairs.take(0) =~= Seq::<(Seq<char>, Seq<char>)>::empty());
        assert(care@.map_values(
            |o: Option<usize>|
                match o {
                    Some(p) => Some(p as int),
                    None => None::<int>,
                },
        ) =~= Seq::new(names.len(), |i: int| None::<int>));
    }
    let care_len = in_care_of.len();
    for ci in 0..care_len
        invariant
            n == participants.len(),
            names == participants@.map_values(|s: String| s@),
            care_len == in_care_of@.len(),
            vpairs == in_care_of@.map_values(|e: (String, String)| (e.0@, e.1@)),
            care.len() == n,
            spec_care_of(names, vpairs.take(ci as int)) == Ok::<Seq<Option<int>>, ReportError>(
                care@.map_values(
                    |o: Option<usize>|
                        match o {
                            Some(p) => Some(p as int),
                            None => None::<int>,
                        },
                ),
            ),
    {
        proof {
            assert(vpairs.take(ci as int + 1).drop_last() =~= vpairs.take(ci as int));
            assert(vpairs.take(ci as int + 1).last() == vpairs[ci as int]);
        }
        let pair = &in_care_of[ci];
        let child = match find_index(participants, &pair.0) {
            None => {
                proof {
                    lemma_care_of_err_extends(names, vpairs, ci as int + 1);
                }
                return Err(ReportError::UnknownParticipant);
            },
            Some(c) => c,
        };
        let parent = match find_index(participants, &pair.1) {
            None => {
                proof {
                    lemma_care_of_err_extends(names, vpairs, ci as int + 1);
                }
                return Err(ReportError::UnknownParticipant);
            },
            Some(p) => p,
        };
        if child == parent {
            proof {
                lemma_care_of_err_extends(names, vpairs, ci as int + 1);
            }
            return Err(ReportError::SelfCareOf);
        }
        proof {
            lemma_find_in_range(names, pair.0@);
            lemma_find_in_range(names, pair.1@);
        }
        let ghost care_pre = care@.map_values(
            |o: Option<usize>|
                match o {
                    Some(p) => Some(p as int),
                    None => None::<int>,
                },
        );
        care[child] = Some(parent);
        proof {
            assert(care@.map_values(
                |o: Option<usize>|
                    match o {
                        Some(p) => Some(p as int),
                        None => None::<int>,
                    },
            ) =~= care_pre.update(child as int, Some(parent as int)));
        }
    }
    proof {
        assert(vpairs.take(care_len as int) =~= vpairs);
    }
    Ok(care)
}

/// Build the rate table: the base currency first with rate exactly one,
/// then every input pair in order, skipping pairs that name the base
/// currency, exactly as `spec_rates_table` states.
fn build_rates(currency: &String, exchange_rates: &Vec<(String, u64)>) -> (r: Vec<(String, u64)>)
    ensures
        r@.map_values(|e: (String, u64)| (e.0@, e.1 as int)) == spec_rates_table(
            currency@,
            exchange_rates@.map_values(|e: (String, u64)| (e.0@, e.1 as int)),
        ),
{
    let ghost vpr = exchange_rates@.map_values(|e: (String, u64)| (e.0@, e.1 as int));
    let mut table: Vec<(String, u64)> = Vec::new();
    table.push((currency.clone(), RATE_ONE));
    proof {
        assert(vpr.take(0) =~= Seq::<(Seq<char>, int)>::empty());
        assert(table@.map_values(|e: (String, u64)| (e.0@, e.1 as int)) =~= spec_rates_table(
            currency@,
            vpr.take(0),
        ));
    }
    let rates_len = exchange_rates.len();
    for ri in 0..rates_len
        invariant
            rates_len == exchange_rates@.len(),
            vpr == exchange_rates@.map_values(|e: (String, u64)| (e.0@, e.1 as int)),
            table@.map_values(|e: (String, u64)| (e.0@, e.1 as int)) == spec_rates_table(
                currency@,
                vpr.take(ri as int),
            ),
    {
        proof {
            assert(vpr.take(ri as int + 1).drop_last() =~= vpr.take(ri as int));
            assert(vpr.take(ri as int + 1).last() == vpr[ri as int]);
        }
        let ghost table_pre = table@.map_values(|e: (String, u64)| (e.0@, e.1 as int));
        let ent = &exchange_rates[ri];
        if ent.0 == *currency {
            proof {
                assert(table@.map_values(|e: (String, u64)| (e.0@, e.1 as int)) =~= table_pre);
            }
        } else {
            table.push((ent.0.clone(), ent.1));
            proof {
                assert(table@.map_values(|e: (String, u64)| (e.0@, e.1 as int)) =~= table_pre
                    + seq![vpr[ri as int]]);
            }
        }
    }
    proof {
        assert(vpr.take(rates_len as int) =~= vpr);
    }
    table
}

impl ExpenseReport {
    /// Well-formedness of the report's model.
    pub open spec fn wf(&self) -> bool {
        wf_model(self@)
    }

    /// Record one transfer: two postings of equal converted magnitude and
    /// one history line, exactly as `spec_record_transfer` states.
    fn record_transfer(&mut self, t: &TransferEvent) -> (r: Result<(), ReportError>)
        requires
            old(self).wf(),
            mag(t.amount_minor as int) <= AMOUNT_MAX as int,
        ensures
            match r {
                Ok(_) => spec_record_transfer(
                    old(self)@,
                    t.from@,
                    t.to@,
                    t.what@,
                    t.amount_minor as int,
                    t.currency@,
                ) == Ok::<ReportModel, ReportError>(final(self)@) && final(self).wf(),
                Err(e) => spec_record_transfer(
                    old(self)@,
                    t.from@,
                    t.to@,
                    t.what@,
                    t.amount_minor as int,
                    t.currency@,
                ) == Err::<ReportModel, ReportError>(e) && final(self)@ == old(self)@,
            },
    {
        let ghost m0 = self@;
        let rate = match find_rate(&self.exchange_rates, &t.currency) {
            None => {
                return Err(ReportError::UnknownCurrency);
            },
            Some(r) => r,
        };
        proof {
            lemma_rate_of_in(m0.rates, t.currency@);
        }
        let fi = match find_index(&self.participants, &t.from) {
            None => {
                return Err(ReportError::UnknownParticipant);
            },
            Some(i) => i,
        };
        let ti = match find_index(&self.participants, &t.to) {
            None => {
                return Err(ReportError::UnknownParticipant);
            },
            Some(i) => i,
        };
        proof {
            lemma_find_in_range(m0.participants, t.from@);
            lemma_find_in_range(m0.participants, t.to@);
            lemma_convert_bound(t.amount_minor as int, rate as int);
        }
        let c = convert_amount(t.amount_minor, rate);
        let line = build_transfer_line(
            &self.participants[fi],
            &self.participants[ti],
            &t.what,
            t.amount_minor,
            &t.currency,
            &self.base_currency,
            rate,
        );
        self.postings.push(Posting { participant: fi, amount_minor: -c });
        self.postings.push(Posting { participant: ti, amount_minor: c });
        self.history.push(line);
        proof {
            let spec_r = spec_record_transfer(
                m0,
                t.from@,
                t.to@,
                t.what@,
                t.amount_minor as int,
                t.currency@,
            );
            let m1 = spec_r->Ok_0;
            assert(self@.postings =~= m1.postings);
            assert(self@.history =~= m1.history);
            assert(self@ =~= m1);
        }
        Ok(())
    }

    /// Record one expense: one negative posting of the full converted
    /// amount at the payer, one positive share per nonzero weight, each
    /// rounded independently, and one multi-line history entry, exactly as
    /// `spec_record_expense` states.
    fn record_expense(&mut self, e: &ExpenseEvent) -> (r: Result<(), ReportError>)
        requires
            old(self).wf(),
            mag(e.amount_minor as int) <= AMOUNT_MAX as int,
        ensures
            match r {
                Ok(_) => spec_record_expense(
                    old(self)@,
                    e.by@,
                    e.split@.map_values(|p: (String, u32)| (p.0@, p.1)),
                    e.what@,
                    e.amount_minor as int,
                    e.currency@,
                ) == Ok::<ReportModel, ReportError>(final(self)@) && final(self).wf(),
                Err(err) => spec_record_expense(
                    old(self)@,
                    e.by@,
                    e.split@.map_values(|p: (String, u32)| (p.0@, p.1)),
                    e.what@,
                    e.amount_minor as int,
                    e.currency@,
                ) == Err::<ReportModel, ReportError>(err) && final(self)@ == old(self)@,
            },
    {
        let ghost m0 = self@;
        let ghost names = self@.participants;
        let ghost vsplit = e.split@.map_values(|p: (String, u32)| (p.0@, p.1));
        let n = self.participants.len();
        let mut w: Vec<u32> = vec![0u32; n];
        proof {
            assert(w@ =~= Seq::new(names.len(), |i: int| 0u32));
            assert(vsplit.take(0) =~= Seq::<(Seq<char>, u32)>::empty());
        }
        let split_len = e.split.len();
        for si in 0..split_len
            invariant
                self@ == m0,
                wf_model(m0),
                names == m0.participants,
                n == self.participants.len(),
                names.len() == n,
                w.len() == n,
                split_len == e.split@.len(),
                vsplit == e.split@.map_values(|p: (String, u32)| (p.0@, p.1)),
                spec_split_vec(names, vsplit.take(si as int)) == Ok::<Seq<u32>, ReportError>(w@),
        {
            proof {
                assert(vsplit.take(si as int + 1).drop_last() =~= vsplit.take(si as int));
                assert(vsplit.take(si as int + 1).last() == vsplit[si as int]);
            }
            let pair = &e.split[si];
            match find_index(&self.participants, &pair.0) {
                None => {
                    proof {
                        lemma_split_vec_err_extends(names, vsplit, si as int + 1);
                    }
                    return Err(ReportError::UnknownParticipant);
                },
                Some(idx) => {
                    proof {
                        lemma_find_in_range(names, pair.0@);
                    }
                    w[idx] = pair.1;
                    proof {
                        assert(w@ =~= spec_split_vec(
                            names,
                            vsplit.take(si as int),
                        )->Ok_0.update(idx as int, pair.1));
                    }
                },
            }
        }
        proof {
            assert(vsplit.take(e.split@.len() as int) =~= vsplit);
        }
        let mut den: u128 = 0;
        for i in 0..n
            invariant
                n == w.len(),
                den as int == spec_weight_sum(w@, i as int),
                den as int <= i as int * 0xffff_ffff,
        {
            den = den + (w[i] as u128);
        }
        if den == 0 {
            return Err(ReportError::NoShareRecipients);
        }
        let rate = match find_rate(&self.exchange_rates, &e.currency) {
            None => {
                return Err(ReportError::UnknownCurrency);
            },
            Some(r) => r,
        };
        proof {
            lemma_rate_of_in(m0.rates, e.currency@);
        }
        let bi = match find_index(&self.participants, &e.by) {
            None => {
                return Err(ReportError::UnknownParticipant);
            },
            Some(i) => i,
        };
        proof {
            lemma_find_in_range(m0.participants, e.by@);
            lemma_convert_bound(e.amount_minor as int, rate as int);
            lemma_weight_sum_bounds(w@, n as int);
        }
        let c = convert_amount(e.amount_minor, rate);
        let mut entry = build_expense_header(
            &self.participants[bi],
            &e.what,
            e.amount_minor,
            &e.currency,
            &self.base_currency,
            rate,
        );
        self.postings.push(Posting { participant: bi, amount_minor: -c });
        proof {
            assert(self@.postings =~= m0.postings + seq![(bi as int, -(c as int))]
                + spec_expense_postings(
                w@,
                e.amount_minor as int,
                rate as int,
                den as int,
                0,
            ));
        }
        let ghost header = spec_expense_header(
            names[bi as int],
            e.what@,
            e.amount_minor as int,
            e.currency@,
            m0.base_currency,
            rate as int,
        );
        proof {
            assert(entry@ =~= header + spec_expense_lines(
                names,
                w@,
                e.amount_minor as int,
                rate as int,
                den as int,
                m0.base_currency,
                0,
            ));
        }
        for i in 0..n
            invariant
                n == self.participants.len(),
                names.len() == n,
                w.len() == n,
                bi < n,
                self@.participants == m0.participants,
                self@.care_of == m0.care_of,
                self@.rates == m0.rates,
                self@.base_currency == m0.base_currency,
                self@.history == m0.history,
                names == m0.participants,
                wf_model(m0),
                mag(e.amount_minor as int) <= AMOUNT_MAX as int,
                1 <= rate <= RATE_MAX,
                mag(c as int) <= POSTING_MAX as int,
                1 <= den,
                den as int == spec_weight_sum(w@, n as int),
                den as int <= n as int * 0xffff_ffff,
                forall|k: int| 0 <= k < n ==> (#[trigger] w@[k]) as int <= den as int,
                self@.postings == m0.postings + seq![(bi as int, -(c as int))]
                    + spec_expense_postings(
                    w@,
                    e.amount_minor as int,
                    rate as int,
                    den as int,
                    i as int,
                ),
                entry@ == header + spec_expense_lines(
                    names,
                    w@,
                    e.amount_minor as int,
                    rate as int,
                    den as int,
                    m0.base_currency,
                    i as int,
                ),
                forall|k: int|
                    0 <= k < self@.postings.len() ==> 0 <= (#[trigger] self@.postings[k]).0 < n
                        && mag(self@.postings[k].1) <= POSTING_MAX as int,
        {
            let ghost p_pre = self@.postings;
            let ghost pieces = spec_expense_postings(
                w@,
                e.amount_minor as int,
                rate as int,
                den as int,
                i as int,
            );
            let wi = w[i];
            if wi != 0 {
                proof {
                    assert(n as int * 0xffff_ffff <= 0x1_0000_0000_0000_0000_0000_0000int);
                }
                let share = share_amount(e.amount_minor, rate, wi, den);
                self.postings.push(Posting { participant: i, amount_minor: share });
                proof {
                    assert(self@.postings =~= p_pre.push((i as int, share as int)));
                }
                append_recipient_line(
                    &mut entry,
                    &self.participants[i],
                    wi,
                    den,
                    share,
                    &self.base_currency,
                );
                proof {
                    assert(spec_expense_postings(
                        w@,
                        e.amount_minor as int,
                        rate as int,
                        den as int,
                        i as int + 1,
                    ) =~= pieces + seq![
                        (
                            i as int,
                            spec_share(
                                e.amount_minor as int,
                                rate as int,
                                w@[i as int] as int,
                                den as int,
                            ),
                        ),
                    ]);
                    assert(self@.postings =~= m0.postings + seq![(bi as int, -(c as int))]
                        + spec_expense_postings(
                        w@,
                        e.amount_minor as int,
                        rate as int,
                        den as int,
                        i as int + 1,
                    ));
                }
            } else {
                proof {
                    assert(spec_expense_postings(
                        w@,
                        e.amount_minor as int,
                        rate as int,
                        den as int,
                        i as int + 1,
                    ) =~= pieces);
                }
            }
            proof {
                assert(entry@ =~= header + spec_expense_lines(
                    names,
                    w@,
                    e.amount_minor as int,
                    rate as int,
                    den as int,
                    m0.base_currency,
                    i as int + 1,
                ));
            }
        }
        self.history.push(entry);
        proof {
            let spec_r = spec_record_expense(
                m0,
                e.by@,
                vsplit,
                e.what@,
                e.amount_minor as int,
                e.currency@,
            );
            let m1 = spec_r->Ok_0;
            assert(self@.postings =~= m1.postings);
            assert(self@.history =~= m1.history);
            assert(self@ =~= m1);
        }
        Ok(())
    }

    /// Build a report from an input: validate the care-of pairs, build the
    /// rate table, then record every transfer and every expense in input
    /// order, stopping at the first error.  Returns exactly what
    /// `spec_new` states, and a well-formed report on success.
    #[verifier::rlimit(50)]
    pub fn new(input: ReportInput) -> (r: Result<ExpenseReport, ReportError>)
        requires
            forall|k: int|
                0 <= k < input.exchange_rates@.len() ==> 1 <= (
                #[trigger] input.exchange_rates@[k]).1 <= RATE_MAX,
            forall|k: int|
                0 <= k < input.transfers@.len() ==> mag(
                    (#[trigger] input.transfers@[k]).amount_minor as int,
                ) <= AMOUNT_MAX as int,
            forall|k: int|
                0 <= k < input.expenses@.len() ==> mag(
                    (#[trigger] input.expenses@[k]).amount_minor as int,
                ) <= AMOUNT_MAX as int,
        ensures
            match r {
                Ok(rep) => spec_new(input) == Ok::<ReportModel, ReportError>(rep@) && rep.wf(),
                Err(e) => spec_new(input) == Err::<ReportModel, ReportError>(e),
            },
    {
        let ghost gin = input;
        let ReportInput { currency, exchange_rates, participants, in_care_of, transfers, expenses }
            = input;
        let ghost names = spec_participants(gin);
        let ghost vpairs = spec_care_pairs(gin);
        let care = match build_care_of(&participants, &in_care_of) {
            Err(e) => {
                return Err(e);
            },
            Ok(c) => c,
        };
        let ghost vpr = spec_rate_pairs(gin);
        let table = build_rates(&currency, &exchange_rates);
        let mut report = ExpenseReport {
            participants,
            in_care_of: care,
            exchange_rates: table,
            base_currency: currency,
            postings: Vec::new(),
            history: Vec::new(),
        };
        let ghost m0 = ReportModel {
            participants: spec_participants(gin),
            care_of: spec_care_of(spec_participants(gin), spec_care_pairs(gin))->Ok_0,
            rates: spec_rates_table(gin.currency@, spec_rate_pairs(gin)),
            base_currency: gin.currency@,
            postings: Seq::empty(),
            history: Seq::empty(),
        };
        proof {
            assert(report@.postings =~= Seq::<(int, int)>::empty());
            assert(report@.history =~= Seq::<Seq<char>>::empty());
            assert(report@ =~= m0);
            assert(forall|k: int|
                0 <= k < vpr.len() ==> 1 <= (#[trigger] vpr[k]).1 <= RATE_MAX as int);
            lemma_rates_table_props(gin.currency@, vpr);
            lemma_care_of_props(names, vpairs);
            assert(report.wf());
        }
        proof {
            assert(gin.transfers@.skip(0) =~= gin.transfers@);
        }
        let transfers_len = transfers.len();
        for ti in 0..transfers_len
            invariant
                gin == input,
                transfers_len == transfers@.len(),
                transfers@ == gin.transfers@,
                report.wf(),
                forall|k: int|
                    0 <= k < gin.transfers@.len() ==> mag(
                        (#[trigger] gin.transfers@[k]).amount_minor as int,
                    ) <= AMOUNT_MAX as int,
                spec_care_of(spec_participants(gin), spec_care_pairs(gin)) == Ok::<
                    Seq<Option<int>>,
                    ReportError,
                >(m0.care_of),
                m0 == (ReportModel {
                    participants: spec_participants(gin),
                    care_of: m0.care_of,
                    rates: spec_rates_table(gin.currency@, spec_rate_pairs(gin)),
                    base_currency: gin.currency@,
                    postings: Seq::empty(),
                    history: Seq::empty(),
                }),
                spec_run_transfers(m0, gin.transfers@) == spec_run_transfers(
                    report@,
                    gin.transfers@.skip(ti as int),
                ),
        {
            let ghost pre = report@;
            match report.record_transfer(&transfers[ti]) {
                Err(e) => {
                    proof {
                        assert(gin.transfers@.skip(ti as int)[0] == gin.transfers@[ti as int]);
                        assert(spec_run_transfers(pre, gin.transfers@.skip(ti as int))
                            == Err::<ReportModel, ReportError>(e));
                        assert(spec_run_transfers(m0, gin.transfers@) == Err::<
                            ReportModel,
                            ReportError,
                        >(e));
                        assert(spec_new(gin) == Err::<ReportModel, ReportError>(e));
                    }
                    return Err(e);
                },
                Ok(_) => {
                    proof {
                        assert(gin.transfers@.skip(ti as int).skip(1) =~= gin.transfers@.skip(
                            ti as int + 1,
                        ));
                    }
                },
            }
        }
        proof {
            assert(gin.transfers@.skip(transfers_len as int) =~= Seq::<TransferEvent>::empty());
            assert(spec_run_transfers(m0, gin.transfers@) == Ok::<ReportModel, ReportError>(
                report@,
            ));
        }
        let ghost m1 = report@;
        proof {
            assert(gin.expenses@.skip(0) =~= gin.expenses@);
        }
        let expenses_len = expenses.len();
        for ei in 0..expenses_len
            invariant
                gin == input,
                expenses_len == expenses@.len(),
                expenses@ == gin.expenses@,
                report.wf(),
                forall|k: int|
                    0 <= k < gin.expenses@.len() ==> mag(
                        (#[trigger] gin.expenses@[k]).amount_minor as int,
                    ) <= AMOUNT_MAX as int,
                spec_care_of(spec_participants(gin), spec_care_pairs(gin)) == Ok::<
                    Seq<Option<int>>,
                    ReportError,
                >(m0.care_of),
                m0 == (ReportModel {
                    participants: spec_participants(gin),
                    care_of: m0.care_of,
                    rates: spec_rates_table(gin.currency@, spec_rate_pairs(gin)),
                    base_currency: gin.currency@,
                    postings: Seq::empty(),
                    history: Seq::empty(),
                }),
                spec_run_transfers(m0, gin.transfers@) == Ok::<ReportModel, ReportError>(m1),
                spec_run_expenses(m1, gin.expenses@) == spec_run_expenses(
                    report@,
                    gin.expenses@.skip(ei as int),
                ),
        {
            let ghost pre = report@;
            match report.record_expense(&expenses[ei]) {
                Err(e) => {
                    proof {
                        assert(gin.expenses@.skip(ei as int)[0] == gin.expenses@[ei as int]);
                        assert(spec_run_expenses(pre, gin.expenses@.skip(ei as int)) == Err::<
                            ReportModel,
                            ReportError,
                        >(e));
                        assert(spec_run_expenses(m1, gin.expenses@) == Err::<
                            ReportModel,
                            ReportError,
                        >(e));
                        assert(spec_new(gin) == Err::<ReportModel, ReportError>(e));
                    }
                    return Err(e);
                },
                Ok(_) => {
                    proof {
                        assert(gin.expenses@.skip(ei as int).skip(1) =~= gin.expenses@.skip(
                            ei as int + 1,
                        ));
                    }
                },
            }
        }
        proof {
            assert(gin.expenses@.skip(expenses_len as int) =~= Seq::<ExpenseEvent>::empty());
            assert(spec_run_expenses(m1, gin.expenses@) == Ok::<ReportModel, ReportError>(report@));
        }
        Ok(report)
    }


    /// The settlement plan at the participant-identity level: the care-of
    /// fold entries, then the greedy pairwise entries, plus every nonzero
    /// leftover balance.  Equals `spec_settle` of the report's model
    /// exactly, so repeated calls agree.
    pub fn settle_indices(&self) -> (r: (Vec<(usize, usize, i128)>, Vec<(usize, i128)>))
        requires
            self.wf(),
        ensures
            view_entries(r.0) == spec_settle(self@).0,
            view_residuals(r.1) == spec_settle(self@).1,
    {
        let n = self.participants.len();
        proof {
            assert(view_postings(self.postings) == self@.postings);
            assert(forall|k: int|
                0 <= k < self.postings@.len() ==> ((#[trigger] self.postings@[k]).participant as int)
                    == self@.postings[k].0 && (self.postings@[k].amount_minor as int)
                    == self@.postings[k].1);
            lemma_balances_props(self@.postings, n as nat);
            assert(n as int * (POSTING_MAX as int) <= usize::MAX as int * (POSTING_MAX as int));
        }
        let mut bal = aggregate_balances(&self.postings, n);
        proof {
            assert(view_care(self.in_care_of) == self@.care_of);
            assert(self.in_care_of@.len() == self@.care_of.len());
            assert(forall|idx: int|
                0 <= idx < self.in_care_of@.len() ==> ((#[trigger] self.in_care_of@[idx])
                    matches Some(p) ==> self@.care_of[idx] == Some(p as int)));
            assert(forall|idx: int|
                0 <= idx < self.in_care_of@.len() ==> ((#[trigger] self.in_care_of@[idx])
                    matches Some(p) ==> p < self.in_care_of@.len() && p != idx));
        }
        let mut entries = fold_care_of(&mut bal, &self.in_care_of);
        proof {
            lemma_fold_from_props(spec_initial_balances(self@), self@.care_of, 0);
            assert(view_bal(bal) == spec_folded(self@).0);
        }
        let mut tail = greedy_pairs(&mut bal);
        entries.append(&mut tail);
        let residuals = collect_residuals(&bal);
        proof {
            assert(view_bal(bal) == spec_paired(self@).0);
            assert(view_entries(entries) =~= spec_folded(self@).1 + spec_paired(self@).1);
            lemma_greedy_from_props(spec_folded(self@).0, 0);
            assert(bal@.len() as int == self@.participants.len() as int);
        }
        (entries, residuals)
    }

    /// The settlement plan by participant name: `(payer, payee, amount)`
    /// instructions in emission order, and the residual balances.  The
    /// output is a pure function of the report, so calling it twice gives
    /// the same plan.
    pub fn balance(&self) -> (r: (Vec<(String, String, i128)>, Vec<(String, i128)>))
        requires
            self.wf(),
        ensures
            r.0@.len() == spec_settle(self@).0.len(),
            forall|q: int|
                0 <= q < r.0@.len() ==> {
                    let e = spec_settle(self@).0[q];
                    (#[trigger] r.0@[q]).0@ == self@.participants[e.0] && r.0@[q].1@
                        == self@.participants[e.1] && r.0@[q].2 as int == e.2
                },
            r.1@.len() == spec_settle(self@).1.len(),
            forall|q: int|
                0 <= q < r.1@.len() ==> {
                    let e = spec_settle(self@).1[q];
                    (#[trigger] r.1@[q]).0@ == self@.participants[e.0] && r.1@[q].1 as int == e.1
                },
    {
        let (entries, residuals) = self.settle_indices();
        proof {
            lemma_balances_props(self@.postings, self@.participants.len());
            lemma_fold_from_props(spec_initial_balances(self@), self@.care_of, 0);
            lemma_greedy_from_props(spec_folded(self@).0, 0);
            lemma_residuals_props(spec_paired(self@).0, self@.participants.len() as int);
        }
        let mut named_entries: Vec<(String, String, i128)> = Vec::new();
        let ghost es = spec_settle(self@).0;
        let m = entries.len();
        for q in 0..m
            invariant
                m == entries@.len(),
                self.wf(),
                view_entries(entries) == es,
                es == spec_settle(self@).0,
                self.participants@.len() == self@.participants.len(),
                forall|k: int|
                    0 <= k < es.len() ==> 0 <= (#[trigger] es[k]).0 < self@.participants.len()
                        && 0 <= es[k].1 < self@.participants.len(),
                named_entries@.len() == q,
                forall|k: int|
                    0 <= k < q ==> {
                        let e = es[k];
                        (#[trigger] named_entries@[k]).0@ == self@.participants[e.0]
                            && named_entries@[k].1@ == self@.participants[e.1]
                            && named_entries@[k].2 as int == e.2
                    },
        {
            let e = &entries[q];
            proof {
                assert(view_entries(entries)[q as int] == es[q as int]);
                assert(0 <= es[q as int].0 < self@.participants.len());
            }
            let payer = self.participants[e.0].clone();
            let payee = self.participants[e.1].clone();
            named_entries.push((payer, payee, e.2));
        }
        let mut named_residuals: Vec<(String, i128)> = Vec::new();
        let ghost rs = spec_settle(self@).1;
        let mr = residuals.len();
        for q in 0..mr
            invariant
                mr == residuals@.len(),
                self.wf(),
                view_residuals(residuals) == rs,
                rs == spec_settle(self@).1,
                self.participants@.len() == self@.participants.len(),
                forall|k: int|
                    0 <= k < rs.len() ==> 0 <= (#[trigger] rs[k]).0 < self@.participants.len(),
                named_residuals@.len() == q,
                forall|k: int|
                    0 <= k < q ==> {
                        let e = rs[k];
                        (#[trigger] named_residuals@[k]).0@ == self@.participants[e.0]
                            && named_residuals@[k].1 as int == e.1
                    },
        {
            let e = &residuals[q];
            proof {
                assert(view_residuals(residuals)[q as int] == rs[q as int]);
                assert(0 <= rs[q as int].0 < self@.participants.len());
            }
            let who = self.participants[e.0].clone();
            named_residuals.push((who, e.1));
        }
        (named_entries, named_residuals)
    }

    /// The history: one human-readable entry per recorded event, in event
    /// order.
    pub fn summarize(&self) -> (r: &[String])
        ensures
            r@.map_values(|s: String| s@) == self@.history,
    {
        self.history.as_slice()
    }

    /// The base currency code.
    pub fn base_currency(&self) -> (r: &str)
        ensures
            r@ == self@.base_currency,
    {
        self.base_currency.as_str()
    }

    /// The ledger: every signed posting recorded so far, in record order.
    pub fn postings(&self) -> (r: &Vec<Posting>)
        ensures
            r@.map_values(|p: Posting| (p.participant as int, p.amount_minor as int))
                == self@.postings,
    {
        &self.postings
    }

    /// The participant names, in registry order.
    pub fn participants(&self) -> (r: &Vec<String>)
        ensures
            r@.map_values(|s: String| s@) == self@.participants,
    {
        &self.participants
    }
}

} // verus!
