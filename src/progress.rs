//! Human-readable elapsed times for progress reports.

use vstd::prelude::*;
use crate::text::{decimal, digit, push_char, push_decimal};

verus! {

/// A count of thousandths rounded to hundredths, ties to even.
pub open spec fn round_hundredths(t: nat) -> nat {
    let q = t / 10;
    let r = t % 10;
    if r > 5 || (r == 5 && q % 2 == 1) {
        q + 1
    } else {
        q
    }
}

/// `t` thousandths written with two decimals.
pub open spec fn two_decimals(t: nat) -> Seq<char> {
    let h = round_hundredths(t);
    decimal(h / 100) + seq!['.', digit(((h % 100) / 10) as int), digit((h % 10) as int)]
}

/// The text for an elapsed time of `secs` seconds and `nanos` nanoseconds:
/// minutes and seconds from a minute on, seconds from a second on,
/// milliseconds from a millisecond on, then whole microseconds, then
/// nanoseconds. Fractions show two decimals.
pub open spec fn duration_text(secs: nat, nanos: nat) -> Seq<char> {
    let millis = nanos / 1_000_000;
    let micros = (nanos / 1000) % 1000;
    let ns = nanos % 1000;
    if secs >= 60 {
        let rem = secs % 60;
        if rem > 0 || millis > 0 {
            decimal(secs / 60) + seq!['m'] + two_decimals(rem * 1000 + millis) + seq!['s']
        } else {
            decimal(secs / 60) + seq!['m']
        }
    } else if secs > 0 {
        two_decimals(secs * 1000 + millis) + seq!['s']
    } else if millis > 0 {
        two_decimals(millis * 1000 + micros) + seq!['m', 's']
    } else if micros > 0 {
        decimal(micros) + seq!['\u{3bc}', 's']
    } else {
        decimal(ns) + seq!['n', 's']
    }
}

/// Appends `t` thousandths with two decimals.
fn push_two_decimals(s: &mut String, t: u64)
    ensures
        final(s)@ == old(s)@ + two_decimals(t as nat),
{
    let q = t / 10;
    let r = t % 10;
    let h = if r > 5 || (r == 5 && q % 2 == 1) {
        q + 1
    } else {
        q
    };
    let ghost s0 = s@;
    push_decimal(s, h / 100);
    push_char(s, '.');
    push_char(s, crate::text::digit_char(((h % 100) / 10) as u32));
    push_char(s, crate::text::digit_char((h % 10) as u32));
    assert(s@ =~= s0 + two_decimals(t as nat));
}

/// The text for an elapsed time of `secs` whole seconds and `nanos`
/// nanoseconds beyond them; see [`duration_text`].
pub fn format_duration(secs: u64, nanos: u32) -> (r: String)
    requires
        nanos < 1_000_000_000,
    ensures
        r@ == duration_text(secs as nat, nanos as nat),
{
    let millis = (nanos / 1_000_000) as u64;
    let micros = ((nanos / 1000) % 1000) as u64;
    let ns = (nanos % 1000) as u64;
    let mut s = String::new();
    if secs >= 60 {
        let rem = secs % 60;
        push_decimal(&mut s, secs / 60);
        push_char(&mut s, 'm');
        if rem > 0 || millis > 0 {
            push_two_decimals(&mut s, rem * 1000 + millis);
            push_char(&mut s, 's');
        }
    } else if secs > 0 {
        push_two_decimals(&mut s, secs * 1000 + millis);
        push_char(&mut s, 's');
    } else if millis > 0 {
        push_two_decimals(&mut s, millis * 1000 + micros);
        push_char(&mut s, 'm');
        push_char(&mut s, 's');
    } else if micros > 0 {
        push_decimal(&mut s, micros);
        push_char(&mut s, '\u{3bc}');
        push_char(&mut s, 's');
    } else {
        push_decimal(&mut s, ns);
        push_char(&mut s, 'n');
        push_char(&mut s, 's');
    }
    assert(s@ =~= duration_text(secs as nat, nanos as nat));
    s
}

} // verus!
