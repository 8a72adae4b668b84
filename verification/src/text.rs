//! Verified rendering of history text.
//!
//! Every string the ledger records is specified character for character:
//! decimal rendering of integers, `major.minor` money text, and the
//! transfer and expense history lines.

use crate::money::{convert_amount, mag, spec_convert, AMOUNT_MAX, RATE_MAX};
use vstd::prelude::*;
use vstd::string::{StrSliceExecFns, StringExecFns};

verus! {

/// The decimal digit character for `d` in `0..10`.
pub open spec fn spec_digit_char(d: int) -> char {
    if d == 0 {
        '0'
    } else if d == 1 {
        '1'
    } else if d == 2 {
        '2'
    } else if d == 3 {
        '3'
    } else if d == 4 {
        '4'
    } else if d == 5 {
        '5'
    } else if d == 6 {
        '6'
    } else if d == 7 {
        '7'
    } else if d == 8 {
        '8'
    } else {
        '9'
    }
}

/// Decimal text of a non-negative integer, no leading zeroes.
pub open spec fn spec_udec(n: int) -> Seq<char>
    recommends
        n >= 0,
    decreases n,
{
    if n < 10 {
        seq![spec_digit_char(n)]
    } else {
        spec_udec(n / 10) + seq![spec_digit_char(n % 10)]
    }
}

/// Two-digit zero-padded text of `r` in `0..100`.
pub open spec fn spec_pad2(r: int) -> Seq<char>
    recommends
        0 <= r < 100,
{
    seq![spec_digit_char(r / 10), spec_digit_char(r % 10)]
}

/// `major.minor` text of an amount in minor units, minor part always two
/// digits, a leading `-` for negative amounts.
pub open spec fn spec_money_text(m: int) -> Seq<char> {
    let a = mag(m);
    let sign: Seq<char> = if m < 0 {
        seq!['-']
    } else {
        Seq::empty()
    };
    sign + spec_udec(a / 100) + seq!['.'] + spec_pad2(a % 100)
}

/// The parenthetical base-currency note of a history line: empty when the
/// event is already in the base currency, otherwise the magnitude of the
/// amount converted at `rate`.
pub open spec fn spec_base_note(amount: int, rate: int, currency: Seq<char>, base: Seq<char>) -> Seq<
    char,
> {
    if currency == base {
        Seq::empty()
    } else {
        " ("@ + spec_money_text(spec_convert(mag(amount), rate)) + " "@ + base + ")"@
    }
}

/// The history line of a transfer.
pub open spec fn spec_transfer_line(
    from: Seq<char>,
    to: Seq<char>,
    what: Seq<char>,
    amount: int,
    currency: Seq<char>,
    base: Seq<char>,
    rate: int,
) -> Seq<char> {
    from + " gave "@ + spec_money_text(amount) + " "@ + currency + spec_base_note(
        amount,
        rate,
        currency,
        base,
    ) + " to "@ + to + " for '"@ + what + "'."@
}

/// The header line of an expense history entry.
pub open spec fn spec_expense_header(
    by: Seq<char>,
    what: Seq<char>,
    amount: int,
    currency: Seq<char>,
    base: Seq<char>,
    rate: int,
) -> Seq<char> {
    by + " paid "@ + spec_money_text(amount) + " "@ + currency + spec_base_note(
        amount,
        rate,
        currency,
        base,
    ) + " for '"@ + what + "', which is split:"@
}

/// One recipient's line of an expense history entry, including the leading
/// newline and indentation.
pub open spec fn spec_recipient_line(
    name: Seq<char>,
    weight: int,
    den: int,
    share: int,
    base: Seq<char>,
) -> Seq<char> {
    "\n    "@ + name + " "@ + spec_udec(weight) + "/"@ + spec_udec(den) + " ("@ + spec_money_text(
        share,
    ) + " "@ + base + ")"@
}

/// The single-character string for a decimal digit.
fn digit_str(d: u128) -> (s: &'static str)
    requires
        d < 10,
    ensures
        s@ == seq![spec_digit_char(d as int)],
{
    proof {
        reveal_strlit("0");
        reveal_strlit("1");
        reveal_strlit("2");
        reveal_strlit("3");
        reveal_strlit("4");
        reveal_strlit("5");
        reveal_strlit("6");
        reveal_strlit("7");
        reveal_strlit("8");
        reveal_strlit("9");
    }
    let s = if d == 0 {
        "0"
    } else if d == 1 {
        "1"
    } else if d == 2 {
        "2"
    } else if d == 3 {
        "3"
    } else if d == 4 {
        "4"
    } else if d == 5 {
        "5"
    } else if d == 6 {
        "6"
    } else if d == 7 {
        "7"
    } else if d == 8 {
        "8"
    } else {
        "9"
    };
    proof {
        assert(s@ =~= seq![spec_digit_char(d as int)]);
    }
    s
}

/// Decimal text of a non-negative integer.
pub fn udec_string(n: u128) -> (s: String)
    ensures
        s@ == spec_udec(n as int),
    decreases n,
{
    if n < 10 {
        String::from_str(digit_str(n))
    } else {
        let mut s = udec_string(n / 10);
        s.append(digit_str(n % 10));
        proof {
            assert(s@ =~= spec_udec(n as int));
        }
        s
    }
}

/// `major.minor` text of an amount in minor units.
pub fn money_string(m: i128) -> (s: String)
    requires
        m != i128::MIN,
    ensures
        s@ == spec_money_text(m as int),
{
    proof {
        reveal_strlit("-");
        reveal_strlit(".");
    }
    let neg = m < 0;
    let a: u128 = if neg {
        (-m) as u128
    } else {
        m as u128
    };
    let mut s = if neg {
        String::from_str("-")
    } else {
        String::new()
    };
    let whole = udec_string(a / 100);
    s.append(whole.as_str());
    s.append(".");
    let cents = a % 100;
    s.append(digit_str(cents / 10));
    s.append(digit_str(cents % 10));
    proof {
        assert(mag(m as int) == a as int);
        assert(s@ =~= spec_money_text(m as int));
    }
    s
}

/// Append the base-currency note of a history line to `s`.
fn append_base_note(s: &mut String, amount: i64, rate: u64, currency: &String, base: &String)
    requires
        mag(amount as int) <= AMOUNT_MAX as int,
        1 <= rate <= RATE_MAX,
    ensures
        final(s)@ == old(s)@ + spec_base_note(amount as int, rate as int, currency@, base@),
{
    let ghost s0 = s@;
    let same = *currency == *base;
    if same {
        proof {
            assert(s@ =~= s0 + spec_base_note(amount as int, rate as int, currency@, base@));
        }
    } else {
        proof {
            reveal_strlit(" (");
            reveal_strlit(" ");
            reveal_strlit(")");
        }
        let m = if amount < 0 {
            -amount
        } else {
            amount
        };
        let converted = convert_amount(m, rate);
        s.append(" (");
        let t = money_string(converted as i128);
        s.append(t.as_str());
        s.append(" ");
        s.append(base.as_str());
        s.append(")");
        proof {
            assert(s@ =~= s0 + spec_base_note(amount as int, rate as int, currency@, base@));
        }
    }
}

/// Build the history line of a transfer.
pub fn build_transfer_line(
    from: &String,
    to: &String,
    what: &String,
    amount: i64,
    currency: &String,
    base: &String,
    rate: u64,
) -> (s: String)
    requires
        mag(amount as int) <= AMOUNT_MAX as int,
        1 <= rate <= RATE_MAX,
    ensures
        s@ == spec_transfer_line(
            from@,
            to@,
            what@,
            amount as int,
            currency@,
            base@,
            rate as int,
        ),
{
    proof {
        reveal_strlit(" gave ");
        reveal_strlit(" ");
        reveal_strlit(" to ");
        reveal_strlit(" for '");
        reveal_strlit("'.");
    }
    let mut s = String::new();
    s.append(from.as_str());
    s.append(" gave ");
    let m = money_string(amount as i128);
    s.append(m.as_str());
    s.append(" ");
    s.append(currency.as_str());
    append_base_note(&mut s, amount, rate, currency, base);
    s.append(" to ");
    s.append(to.as_str());
    s.append(" for '");
    s.append(what.as_str());
    s.append("'.");
    proof {
        assert(s@ =~= spec_transfer_line(
            from@,
            to@,
            what@,
            amount as int,
            currency@,
            base@,
            rate as int,
        ));
    }
    s
}

/// Build the header line of an expense history entry.
pub fn build_expense_header(
    by: &String,
    what: &String,
    amount: i64,
    currency: &String,
    base: &String,
    rate: u64,
) -> (s: String)
    requires
        mag(amount as int) <= AMOUNT_MAX as int,
        1 <= rate <= RATE_MAX,
    ensures
        s@ == spec_expense_header(by@, what@, amount as int, currency@, base@, rate as int),
{
    proof {
        reveal_strlit(" paid ");
        reveal_strlit(" ");
        reveal_strlit(" for '");
        reveal_strlit("', which is split:");
    }
    let mut s = String::new();
    s.append(by.as_str());
    s.append(" paid ");
    let m = money_string(amount as i128);
    s.append(m.as_str());
    s.append(" ");
    s.append(currency.as_str());
    append_base_note(&mut s, amount, rate, currency, base);
    s.append(" for '");
    s.append(what.as_str());
    s.append("', which is split:");
    proof {
        assert(s@ =~= spec_expense_header(
            by@,
            what@,
            amount as int,
            currency@,
            base@,
            rate as int,
        ));
    }
    s
}

/// Append one recipient's line of an expense history entry to `s`.
pub fn append_recipient_line(
    s: &mut String,
    name: &String,
    weight: u32,
    den: u128,
    share: i64,
    base: &String,
)
    ensures
        final(s)@ == old(s)@ + spec_recipient_line(name@, weight as int, den as int, share as int, base@),
{
    proof {
        reveal_strlit("\n    ");
        reveal_strlit(" ");
        reveal_strlit("/");
        reveal_strlit(" (");
        reveal_strlit(")");
    }
    s.append("\n    ");
    s.append(name.as_str());
    s.append(" ");
    let w = udec_string(weight as u128);
    s.append(w.as_str());
    s.append("/");
    let d = udec_string(den);
    s.append(d.as_str());
    s.append(" (");
    let m = money_string(share as i128);
    s.append(m.as_str());
    s.append(" ");
    s.append(base.as_str());
    s.append(")");
    proof {
        assert(s@ =~= old(s)@ + spec_recipient_line(
            name@,
            weight as int,
            den as int,
            share as int,
            base@,
        ));
    }
}

} // verus!
