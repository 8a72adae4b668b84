use expense_report::expense_report::ExpenseReport;
use expense_report::types::{ExpenseEvent, ReportError, ReportInput, TransferEvent};

fn s(x: &str) -> String {
    x.to_string()
}

fn transfer(from: &str, to: &str, what: &str, amount_minor: i64, currency: &str) -> TransferEvent {
    TransferEvent {
        from: s(from),
        to: s(to),
        what: s(what),
        amount_minor,
        currency: s(currency),
    }
}

fn expense(
    by: &str,
    amount_minor: i64,
    currency: &str,
    what: &str,
    split: Vec<(&str, u32)>,
) -> ExpenseEvent {
    ExpenseEvent {
        by: s(by),
        amount_minor,
        currency: s(currency),
        what: s(what),
        split: split.into_iter().map(|(n, w)| (s(n), w)).collect(),
    }
}

fn empty_input(participants: Vec<&str>) -> ReportInput {
    ReportInput {
        currency: s("nok"),
        exchange_rates: vec![],
        participants: participants.into_iter().map(s).collect(),
        in_care_of: vec![],
        transfers: vec![],
        expenses: vec![],
    }
}

fn trip_input() -> ReportInput {
    ReportInput {
        currency: s("nok"),
        exchange_rates: vec![(s("eur"), 118_375)],
        participants: vec![s("Alice"), s("Bob"), s("Charlie"), s("Deidre"), s("DG")],
        in_care_of: vec![],
        transfers: vec![
            transfer("Alice", "DG", "deposit", 2_000, "nok"),
            transfer("Bob", "DG", "deposit", 2_000, "nok"),
            transfer("Deidre", "DG", "deposit", 800, "eur"),
        ],
        expenses: vec![
            expense(
                "DG",
                5_200,
                "nok",
                "stay",
                vec![("Alice", 1), ("Bob", 1), ("Charlie", 1), ("Deidre", 1)],
            ),
            expense("Charlie", 12_000, "nok", "food", vec![("Bob", 1), ("Charlie", 1), ("Deidre", 1)]),
        ],
    }
}

#[test]
fn trip_settlement_zeroes_all_balances() {
    let report = ExpenseReport::new(trip_input()).unwrap();
    let (plan, residuals) = report.balance();
    let expected = vec![
        (s("Bob"), s("Alice"), 700i128),
        (s("Bob"), s("Charlie"), 2_600),
        (s("DG"), s("Charlie"), 4_100),
        (s("DG"), s("Deidre"), 4_170),
    ];
    assert_eq!(plan, expected);
    assert!(residuals.is_empty());
}

#[test]
fn trip_postings_conserve_value() {
    let report = ExpenseReport::new(trip_input()).unwrap();
    // Transfers conserve exactly; the two expenses split without rounding
    // loss here, so the whole ledger sums to zero.
    let total: i64 = report.postings().iter().map(|p| p.amount_minor).sum();
    assert_eq!(total, 0);
}

#[test]
fn transfers_only_sum_to_zero() {
    let mut input = empty_input(vec!["P", "Q", "R"]);
    input.transfers = vec![
        transfer("P", "Q", "a", 1_234, "nok"),
        transfer("Q", "R", "b", 999, "nok"),
        transfer("R", "P", "c", 1, "nok"),
    ];
    let report = ExpenseReport::new(input).unwrap();
    let total: i64 = report.postings().iter().map(|p| p.amount_minor).sum();
    assert_eq!(total, 0);
    assert_eq!(report.postings().len(), 6);
}

#[test]
fn transfer_history_line_base_currency() {
    let mut input = trip_input();
    input.expenses.clear();
    let report = ExpenseReport::new(input).unwrap();
    let history = report.summarize();
    assert_eq!(history[0], "Alice gave 20.00 nok to DG for 'deposit'.");
    assert_eq!(history[2], "Deidre gave 8.00 eur (94.70 nok) to DG for 'deposit'.");
}

#[test]
fn expense_history_entry_lists_every_share() {
    let report = ExpenseReport::new(trip_input()).unwrap();
    let history = report.summarize();
    let expected = "DG paid 52.00 nok for 'stay', which is split:\n    Alice 1/4 (13.00 nok)\n    Bob 1/4 (13.00 nok)\n    Charlie 1/4 (13.00 nok)\n    Deidre 1/4 (13.00 nok)";
    assert_eq!(history[3], expected);
}

#[test]
fn money_text_pads_cents() {
    let mut input = empty_input(vec!["P", "Q"]);
    input.transfers = vec![
        transfer("P", "Q", "odd", 9_407, "nok"),
        transfer("P", "Q", "zero", 0, "nok"),
    ];
    let report = ExpenseReport::new(input).unwrap();
    let history = report.summarize();
    assert_eq!(history[0], "P gave 94.07 nok to Q for 'odd'.");
    assert_eq!(history[1], "P gave 0.00 nok to Q for 'zero'.");
}

#[test]
fn settlement_is_repeatable() {
    let report = ExpenseReport::new(trip_input()).unwrap();
    let first = report.balance();
    let second = report.balance();
    assert_eq!(first, second);
}

#[test]
fn uneven_split_leaves_bounded_residual() {
    let mut input = empty_input(vec!["A", "B", "C", "D"]);
    input.expenses = vec![expense(
        "A",
        10_000,
        "nok",
        "thirds",
        vec![("B", 1), ("C", 1), ("D", 1)],
    )];
    let report = ExpenseReport::new(input).unwrap();
    // Each share rounds 3333.33 down to 3333; the payer keeps the full
    // negative amount, so one minor unit of dust remains.
    let recipients: i64 = report.postings().iter().skip(1).map(|p| p.amount_minor).sum();
    assert_eq!(recipients, 9_999);
    assert_eq!(report.postings()[0].amount_minor, -10_000);
    let (plan, residuals) = report.balance();
    assert_eq!(plan.len(), 3);
    assert_eq!(residuals, vec![(s("A"), -1i128)]);
}

#[test]
fn care_of_child_settles_only_with_parent() {
    let mut input = empty_input(vec!["P", "Q", "R"]);
    input.in_care_of = vec![(s("R"), s("Q"))];
    input.transfers = vec![transfer("P", "R", "gift", 1_000, "nok")];
    let report = ExpenseReport::new(input).unwrap();
    let (plan, residuals) = report.balance();
    assert_eq!(
        plan,
        vec![(s("R"), s("Q"), 1_000i128), (s("Q"), s("P"), 1_000i128)]
    );
    assert!(residuals.is_empty());
    // R appears in the care-of fold entry only, never in the pairwise pass.
    for entry in plan.iter().skip(1) {
        assert!(entry.0 != "R" && entry.1 != "R");
    }
}

#[test]
fn conversion_round_trip_gives_identical_postings() {
    let mut a = empty_input(vec!["P", "Q"]);
    a.exchange_rates = vec![(s("eur"), 118_375)];
    a.transfers = vec![transfer("P", "Q", "x", 800, "eur")];
    let mut b = empty_input(vec!["P", "Q"]);
    b.transfers = vec![transfer("P", "Q", "x", 9_470, "nok")];
    let ra = ExpenseReport::new(a).unwrap();
    let rb = ExpenseReport::new(b).unwrap();
    assert_eq!(ra.postings(), rb.postings());
}

#[test]
fn duplicate_rate_registration_last_wins() {
    let mut input = empty_input(vec!["P", "Q"]);
    input.exchange_rates = vec![(s("eur"), 100_000), (s("eur"), 118_375)];
    input.transfers = vec![transfer("P", "Q", "x", 800, "eur")];
    let report = ExpenseReport::new(input).unwrap();
    assert_eq!(report.postings()[0].amount_minor, -9_470);
}

#[test]
fn empty_report_settles_to_nothing() {
    let report = ExpenseReport::new(empty_input(vec![])).unwrap();
    let (plan, residuals) = report.balance();
    assert!(plan.is_empty());
    assert!(residuals.is_empty());
    assert!(report.summarize().is_empty());
    assert_eq!(report.base_currency(), "nok");
}

#[test]
fn unknown_transfer_participant_is_rejected() {
    let mut input = empty_input(vec!["P", "Q"]);
    input.transfers = vec![transfer("P", "Nobody", "x", 100, "nok")];
    assert_eq!(
        ExpenseReport::new(input).unwrap_err(),
        ReportError::UnknownParticipant
    );
}

#[test]
fn unknown_currency_is_rejected() {
    let mut input = empty_input(vec!["P", "Q"]);
    input.transfers = vec![transfer("P", "Q", "x", 100, "usd")];
    assert_eq!(
        ExpenseReport::new(input).unwrap_err(),
        ReportError::UnknownCurrency
    );
}

#[test]
fn all_zero_split_is_rejected() {
    let mut input = empty_input(vec!["P", "Q"]);
    input.expenses = vec![expense("P", 100, "nok", "x", vec![("Q", 0)])];
    assert_eq!(
        ExpenseReport::new(input).unwrap_err(),
        ReportError::NoShareRecipients
    );
}

#[test]
fn self_care_of_is_rejected() {
    let mut input = empty_input(vec!["P", "Q"]);
    input.in_care_of = vec![(s("P"), s("P"))];
    assert_eq!(ExpenseReport::new(input).unwrap_err(), ReportError::SelfCareOf);
}

#[test]
fn unknown_care_of_name_is_rejected() {
    let mut input = empty_input(vec!["P", "Q"]);
    input.in_care_of = vec![(s("P"), s("Nobody"))];
    assert_eq!(
        ExpenseReport::new(input).unwrap_err(),
        ReportError::UnknownParticipant
    );
}

#[test]
fn unknown_split_participant_is_rejected() {
    let mut input = empty_input(vec!["P", "Q"]);
    input.expenses = vec![expense("P", 100, "nok", "x", vec![("Nobody", 1)])];
    assert_eq!(
        ExpenseReport::new(input).unwrap_err(),
        ReportError::UnknownParticipant
    );
}

#[test]
fn failed_construction_commits_nothing() {
    let mut input = empty_input(vec!["P", "Q"]);
    input.transfers = vec![
        transfer("P", "Q", "ok", 100, "nok"),
        transfer("P", "Nobody", "bad", 100, "nok"),
    ];
    // The whole construction aborts: no report, so no postings at all.
    assert!(ExpenseReport::new(input).is_err());
}

#[test]
fn applying_the_plan_zeroes_all_but_residuals() {
    let mut input = empty_input(vec!["A", "B", "C", "D"]);
    input.expenses = vec![expense(
        "A",
        10_000,
        "nok",
        "thirds",
        vec![("B", 1), ("C", 1), ("D", 1)],
    )];
    input.transfers = vec![transfer("D", "B", "loan", 500, "nok")];
    let report = ExpenseReport::new(input).unwrap();
    let names: Vec<String> = report.participants().clone();
    let mut balances = vec![0i128; names.len()];
    for p in report.postings() {
        balances[p.participant] += p.amount_minor as i128;
    }
    let (plan, residuals) = report.balance();
    let index = |name: &str| names.iter().position(|n| n == name).unwrap();
    for (payer, payee, amount) in &plan {
        balances[index(payer)] -= amount;
        balances[index(payee)] += amount;
    }
    for (who, amount) in &residuals {
        assert_eq!(balances[index(who)], *amount);
        assert_ne!(*amount, 0);
        balances[index(who)] = 0;
    }
    assert!(balances.iter().all(|b| *b == 0));
}

#[test]
fn largest_admitted_amount_converts_exactly() {
    let mut input = empty_input(vec!["P", "Q"]);
    // Largest admitted amount at the largest admitted rate.
    input.exchange_rates = vec![(s("big"), 1_000_000_000)];
    input.transfers = vec![transfer("P", "Q", "max", 1_000_000_000_000, "big")];
    let report = ExpenseReport::new(input).unwrap();
    assert_eq!(report.postings()[0].amount_minor, -100_000_000_000_000_000);
    assert_eq!(report.postings()[1].amount_minor, 100_000_000_000_000_000);
}
