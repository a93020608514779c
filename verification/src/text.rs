//! Building the one-line texts of the records.

use vstd::prelude::*;

verus! {

/// The character of the decimal digit `d`.
pub open spec fn digit(d: nat) -> char {
    if d == 0 {
        '0'
    } else if d == 1 {
        '1'
    } else if d == 2 {
        '2'
    } else if d == 3 {
        '3'
    } else if d == 4 {
        '4'
    } else if d == 5 {
        '5'
    } else if d == 6 {
        '6'
    } else if d == 7 {
        '7'
    } else if d == 8 {
        '8'
    } else {
        '9'
    }
}

/// The decimal numeral of `n`, without leading zeros.
pub open spec fn decimal(n: nat) -> Seq<char>
    decreases n,
{
    if n < 10 {
        seq![digit(n)]
    } else {
        decimal(n / 10).push(digit(n % 10))
    }
}

/// `String::push_str`: appends `text` to the end of `line`.
#[verifier::external_body]
pub(crate) fn push_text(line: &mut String, text: &str)
    ensures
        final(line)@ == old(line)@ + text@,
{
    line.push_str(text);
}

/// `String::push`: appends the character `c` to the end of `line`.
#[verifier::external_body]
pub(crate) fn push_char(line: &mut String, c: char)
    ensures
        final(line)@ == old(line)@.push(c),
{
    line.push(c);
}

/// Returns the character of the decimal digit `d`.
fn digit_char(d: u64) -> (c: char)
    requires
        d < 10,
    ensures
        c == digit(d as nat),
{
    if d == 0 {
        '0'
    } else if d == 1 {
        '1'
    } else if d == 2 {
        '2'
    } else if d == 3 {
        '3'
    } else if d == 4 {
        '4'
    } else if d == 5 {
        '5'
    } else if d == 6 {
        '6'
    } else if d == 7 {
        '7'
    } else if d == 8 {
        '8'
    } else {
        '9'
    }
}

/// Appends the decimal numeral of `n` to `line`.
pub fn push_decimal(line: &mut String, n: u64)
    ensures
        final(line)@ == old(line)@ + decimal(n as nat),
{
    let ghost start = line@;
    let mut digits: Vec<char> = Vec::new();
    digits.push(digit_char(n % 10));
    let mut rest = n / 10;
    let ghost mut tail: Seq<char> = seq![digit((n % 10) as nat)];
    while rest > 0
        invariant
            digits@.len() == tail.len(),
            tail.len() > 0,
            forall|i: int| 0 <= i < tail.len() ==> digits@[i] == tail[tail.len() - 1 - i],
            decimal(n as nat) == if rest > 0 { decimal(rest as nat) + tail } else { tail },
        decreases rest,
    {
        let ghost shorter = tail;
        digits.push(digit_char(rest % 10));
        proof {
            tail = seq![digit((rest % 10) as nat)] + shorter;
            assert(decimal(rest as nat) + shorter =~= (if rest / 10 > 0 {
                decimal((rest / 10) as nat) + tail
            } else {
                tail
            }));
        }
        rest = rest / 10;
    }
    let mut left = digits.len();
    while left > 0
        invariant
            left <= digits@.len(),
            digits@.len() == tail.len(),
            forall|i: int| 0 <= i < tail.len() ==> digits@[i] == tail[tail.len() - 1 - i],
            line@ == start + tail.take(tail.len() - left),
        decreases left,
    {
        left = left - 1;
        push_char(line, digits[left]);
        proof {
            assert(tail.take(tail.len() - left) =~= tail.take(tail.len() - left - 1).push(digits@[left as int]));
            assert(start + tail.take(tail.len() - left) =~= (start + tail.take(tail.len() - left - 1)).push(
                digits@[left as int],
            ));
        }
    }
    proof {
        assert(tail.take(tail.len() as int) =~= tail);
    }
}

} // verus!
