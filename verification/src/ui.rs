//! Words the window shows: sizes and labels.
use vstd::prelude::*;

use crate::text::{ascii_upper, chars_of, is_ascii_char, push_str, string_of, upper_of, uppercase_char};

verus! {

/// `bytes` in whole megabytes (a million bytes), rounded to the nearest, a half
/// going to the even neighbour: how `{:.0}` prints the quotient.
pub open spec fn rounded_megabytes(bytes: nat) -> nat {
    let q = bytes / 1_000_000;
    let r = bytes % 1_000_000;
    if r > 500_000 || (r == 500_000 && q % 2 == 1) {
        q + 1
    } else {
        q
    }
}

/// The digit `d` stands for.
pub open spec fn decimal_digit(d: nat) -> char {
    (('0' as nat) + d) as char
}

/// `n` written in decimal.
pub open spec fn decimal(n: nat) -> Seq<char>
    decreases n,
{
    if n < 10 {
        seq![decimal_digit(n)]
    } else {
        decimal(n / 10).push(decimal_digit(n % 10))
    }
}

/// `n` in decimal digits.
pub fn decimal_of(n: u64) -> (s: Vec<char>)
    ensures
        s@ == decimal(n as nat),
    decreases n,
{
    let d = n % 10;
    let c: char = if d == 0 { '0' } else if d == 1 { '1' } else if d == 2 { '2' } else if d == 3 { '3' } else if d == 4 {
        '4'
    } else if d == 5 { '5' } else if d == 6 { '6' } else if d == 7 { '7' } else if d == 8 { '8' } else { '9' };
    if n < 10 {
        let mut s: Vec<char> = Vec::new();
        s.push(c);
        s
    } else {
        let mut s = decimal_of(n / 10);
        s.push(c);
        s
    }
}

/// A size for the window, in whole megabytes: `4 MB`.
pub fn megabytes(bytes: u64) -> (s: String)
    ensures
        s@ == decimal(rounded_megabytes(bytes as nat)) + " MB"@,
{
    let q = bytes / 1_000_000;
    let r = bytes % 1_000_000;
    let n = if r > 500_000 || (r == 500_000 && q % 2 == 1) { q + 1 } else { q };
    let mut s = string_of(&decimal_of(n));
    push_str(&mut s, " MB");
    s
}

/// `label` with its first character made upper case, as it opens a sentence.
pub open spec fn capitalised_spec(label: Seq<char>) -> Seq<char> {
    if label.len() == 0 {
        Seq::empty()
    } else {
        uppercase_char(label[0]) + label.drop_first()
    }
}

/// `label` as it reads at the start of a bar: its first character upper case.
pub fn capitalised(label: &str) -> (s: String)
    ensures
        s@ == capitalised_spec(label@),
        label@.len() > 0 && is_ascii_char(label@[0]) ==> s@ == seq![ascii_upper(label@[0])] + label@.drop_first(),
{
    let c = chars_of(label);
    if c.len() == 0 {
        return String::new();
    }
    let mut s = upper_of(c[0]);
    let rest = crate::text::slice_vec(&c, 1, c.len());
    assert(rest@ =~= label@.drop_first());
    push_str(&mut s, string_of(&rest).as_str());
    s
}

} // verus!
