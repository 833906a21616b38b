//! The report of a finished scan, as the bytes of its text.
//!
//! The text has two lines. The first holds the elapsed milliseconds, the
//! number of primes and their sum, separated by single spaces. The second
//! holds the largest primes in ascending order, separated by a comma and a
//! space. No newline follows the second line.

use crate::aggregator::Summary;
use vstd::prelude::*;

verus! {

/// The byte of the character `0`.
pub const ZERO: u8 = 48;

/// The byte of a space.
pub const SPACE: u8 = 32;

/// The byte of a comma.
pub const COMMA: u8 = 44;

/// The byte of a line feed.
pub const NEWLINE: u8 = 10;

/// The byte of the decimal digit `d`.
pub open spec fn digit(d: nat) -> u8
    recommends
        d < 10,
{
    (ZERO + d) as u8
}

/// `n` in decimal, without sign or leading zeros.
pub open spec fn decimal(n: nat) -> Seq<u8>
    decreases n,
{
    if n < 10 {
        seq![digit(n)]
    } else {
        decimal(n / 10).push(digit(n % 10))
    }
}

/// The values in decimal, each but the first preceded by a comma and a space.
pub open spec fn separated(values: Seq<u64>) -> Seq<u8>
    decreases values.len(),
{
    if values.len() == 0 {
        Seq::empty()
    } else if values.len() == 1 {
        decimal(values[0] as nat)
    } else {
        separated(values.drop_last()) + seq![COMMA, SPACE] + decimal(values.last() as nat)
    }
}

/// The text of the report.
pub open spec fn report(elapsed_ms: nat, count: nat, sum: nat, largest: Seq<u64>) -> Seq<u8> {
    decimal(elapsed_ms) + seq![SPACE] + decimal(count) + seq![SPACE] + decimal(sum) + seq![NEWLINE]
        + separated(largest)
}

/// Appends `n` in decimal to `out`.
fn push_decimal(out: &mut Vec<u8>, n: u128)
    ensures
        final(out)@ == old(out)@ + decimal(n as nat),
{
    // The digits of `n`, the last one first.
    let mut digits: Vec<u8> = Vec::new();
    let mut rest: u128 = n;
    while rest >= 10
        invariant
            decimal(n as nat) == decimal(rest as nat) + digits@.reverse(),
        decreases rest,
    {
        let d = ZERO + (rest % 10) as u8;
        digits.push(d);
        rest = rest / 10;
    }
    let d = ZERO + rest as u8;
    digits.push(d);
    let mut k: usize = digits.len();
    while k > 0
        invariant
            k <= digits.len(),
            out@ == old(out)@ + digits@.reverse().take(digits.len() - k),
        decreases k,
    {
        k -= 1;
        out.push(digits[k]);
    }
}

/// Appends the values in decimal to `out`, separated by a comma and a space.
fn push_separated(out: &mut Vec<u8>, values: &Vec<u64>)
    ensures
        final(out)@ == old(out)@ + separated(values@),
{
    let mut i: usize = 0;
    while i < values.len()
        invariant
            i <= values.len(),
            out@ == old(out)@ + separated(values@.take(i as int)),
        decreases values.len() - i,
    {
        let ghost next = values@.take(i + 1);
        assert(next.drop_last() =~= values@.take(i as int));
        if i > 0 {
            out.push(COMMA);
            out.push(SPACE);
        }
        push_decimal(out, values[i] as u128);
        i += 1;
    }
    assert(values@.take(i as int) =~= values@);
}

/// `n` in decimal.
pub fn format_decimal(n: u128) -> (text: Vec<u8>)
    ensures
        text@ == decimal(n as nat),
{
    let mut text: Vec<u8> = Vec::new();
    push_decimal(&mut text, n);
    text
}

/// The values in decimal, separated by a comma and a space.
pub fn format_list(values: &Vec<u64>) -> (text: Vec<u8>)
    ensures
        text@ == separated(values@),
{
    let mut text: Vec<u8> = Vec::new();
    push_separated(&mut text, values);
    text
}

/// The report of a scan that took `elapsed_ms` milliseconds and ended in
/// `summary`.
pub fn format_report(elapsed_ms: u128, summary: &Summary) -> (text: Vec<u8>)
    ensures
        text@ == report(
            elapsed_ms as nat,
            summary.count as nat,
            summary.sum as nat,
            summary.largest@,
        ),
{
    let mut text: Vec<u8> = Vec::new();
    push_decimal(&mut text, elapsed_ms);
    text.push(SPACE);
    push_decimal(&mut text, summary.count as u128);
    text.push(SPACE);
    push_decimal(&mut text, summary.sum);
    text.push(NEWLINE);
    push_separated(&mut text, &summary.largest);
    text
}

} // verus!
