//! The texts published to the presentation layer on each tick: the clock,
//! the location and the date in both calendars.
use crate::schedule::Clock;
use crate::settings::{lookup, Settings};
use crate::text::{decimal_of, decimal_text, digit_char};
use vstd::prelude::*;

verus! {

/// The two-digit text of `n`, below 100.
pub open spec fn two_digits(n: nat) -> Seq<char> {
    seq![digit_char(n / 10), digit_char(n % 10)]
}

fn two_digit_text(n: u8) -> (r: String)
    requires
        n < 100,
    ensures
        r@ == two_digits(n as nat),
{
    let tens = decimal_text((n / 10) as u32);
    let ones = decimal_text((n % 10) as u32);
    let r = tens.concat(ones.as_str());
    assert(r@ =~= two_digits(n as nat));
    r
}

/// The clock as `HH:MM:SS`.
pub open spec fn clock_text_of(now: Clock) -> Seq<char> {
    two_digits(now.hour as nat) + seq![':'] + two_digits(now.minute as nat) + seq![':'] + two_digits(
        now.second as nat,
    )
}

/// The current time as `HH:MM:SS`.
pub fn clock_text(now: Clock) -> (r: String)
    requires
        now.valid(),
    ensures
        r@ == clock_text_of(now),
{
    let r = two_digit_text(now.hour).concat(":").concat(two_digit_text(now.minute).as_str()).concat(
        ":",
    ).concat(two_digit_text(now.second).as_str());
    proof {
        reveal_strlit(":");
    }
    assert(r@ =~= clock_text_of(now));
    r
}

/// The value stored for `key`, or `fallback`.
pub open spec fn value_or(es: Seq<(Seq<char>, Seq<char>)>, key: Seq<char>, fallback: Seq<char>) -> Seq<char> {
    match lookup(es, key) {
        Some(v) => v,
        None => fallback,
    }
}

/// The location line: `name - gmt`, with `Unknown` and `+0` where missing.
pub open spec fn location_label_of(es: Seq<(Seq<char>, Seq<char>)>) -> Seq<char> {
    value_or(es, "name"@, "Unknown"@) + " - "@ + value_or(es, "gmt"@, "+0"@)
}

/// The location line shown to the user.
pub fn location_label(settings: &Settings) -> (r: String)
    ensures
        r@ == location_label_of(settings@),
{
    let name = match settings.get("name") {
        Some(v) => v.clone(),
        None => String::from_str("Unknown"),
    };
    let gmt = match settings.get("gmt") {
        Some(v) => v.as_str(),
        None => "+0",
    };
    name.concat(" - ").concat(gmt)
}

/// The decimal text of a signed number.
pub open spec fn signed_decimal_of(n: int) -> Seq<char> {
    if n < 0 {
        seq!['-'] + decimal_of((-n) as nat)
    } else {
        decimal_of(n as nat)
    }
}

/// The decimal text of `n`, with a minus sign where negative.
pub fn signed_text(n: i32) -> (r: String)
    ensures
        r@ == signed_decimal_of(n as int),
{
    if n < 0 {
        let m: u32 = if n == i32::MIN {
            2147483648u32
        } else {
            (-n) as u32
        };
        proof {
            reveal_strlit("-");
        }
        let r = String::from_str("-").concat(decimal_text(m).as_str());
        assert(r@ =~= signed_decimal_of(n as int));
        r
    } else {
        decimal_text(n as u32)
    }
}

/// The date line: `D MONTH Y H - D MONTH Y`, the lunar date first.
pub open spec fn date_label_of(
    hijri_day: int,
    hijri_month: Seq<char>,
    hijri_year: int,
    day: int,
    month: Seq<char>,
    year: int,
) -> Seq<char> {
    signed_decimal_of(hijri_day) + " "@ + hijri_month + " "@ + signed_decimal_of(hijri_year) + " H - "@
        + signed_decimal_of(day) + " "@ + month + " "@ + signed_decimal_of(year)
}

/// Today's date in the lunar and the civil calendar, for display.
pub fn date_label(
    hijri_day: i32,
    hijri_month: &str,
    hijri_year: i32,
    day: i32,
    month: &str,
    year: i32,
) -> (r: String)
    ensures
        r@ == date_label_of(
            hijri_day as int,
            hijri_month@,
            hijri_year as int,
            day as int,
            month@,
            year as int,
        ),
{
    signed_text(hijri_day).concat(" ").concat(hijri_month).concat(" ").concat(
        signed_text(hijri_year).as_str(),
    ).concat(" H - ").concat(signed_text(day).as_str()).concat(" ").concat(month).concat(" ").concat(
        signed_text(year).as_str(),
    )
}

} // verus!
