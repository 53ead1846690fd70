//! How a set value is written out: `{1, 2, 3}`, members ascending, `{}` for
//! the empty set.

use vstd::prelude::*;

verus! {

/// `String::push` puts the character at the end of the string.
pub assume_specification[ String::push ](s: &mut String, c: char)
    ensures
        final(s)@ == old(s)@.push(c),
;

/// The character for a digit from 0 to 9.
pub open spec fn digit_char(d: int) -> char {
    if d == 0 {
        '0'
    } else if d == 1 {
        '1'
    } else if d == 2 {
        '2'
    } else if d == 3 {
        '3'
    } else if d == 4 {
        '4'
    } else if d == 5 {
        '5'
    } else if d == 6 {
        '6'
    } else if d == 7 {
        '7'
    } else if d == 8 {
        '8'
    } else {
        '9'
    }
}

/// The decimal digits of `n`, without leading zeros.
pub open spec fn decimal_nat(n: nat) -> Seq<char>
    decreases n,
{
    if n < 10 {
        seq![digit_char(n as int)]
    } else {
        decimal_nat(n / 10).push(digit_char((n % 10) as int))
    }
}

/// `v` in decimal, with a minus sign where it is negative.
pub open spec fn decimal(v: int) -> Seq<char> {
    if v < 0 {
        seq!['-'] + decimal_nat((-v) as nat)
    } else {
        decimal_nat(v as nat)
    }
}

/// The values in decimal, in the order given, with a comma and a space
/// between neighbours.
pub open spec fn render_items(values: Seq<i32>) -> Seq<char>
    decreases values.len(),
{
    if values.len() == 0 {
        Seq::empty()
    } else if values.len() == 1 {
        decimal(values[0] as int)
    } else {
        render_items(values.drop_last()) + seq![',', ' '] + decimal(values.last() as int)
    }
}

/// The values between braces.
pub open spec fn render(values: Seq<i32>) -> Seq<char> {
    seq!['{'] + render_items(values) + seq!['}']
}

/// The digits that are still to be produced when `n` is what is left of a
/// number: those of `n`, or none once `n` is 0.
spec fn leading(n: nat) -> Seq<char> {
    if n == 0 {
        Seq::empty()
    } else {
        decimal_nat(n)
    }
}

/// The character for the digit `d`.
fn digit_of(d: u32) -> (c: char)
    requires
        d < 10,
    ensures
        c == digit_char(d as int),
{
    if d == 0 {
        '0'
    } else if d == 1 {
        '1'
    } else if d == 2 {
        '2'
    } else if d == 3 {
        '3'
    } else if d == 4 {
        '4'
    } else if d == 5 {
        '5'
    } else if d == 6 {
        '6'
    } else if d == 7 {
        '7'
    } else if d == 8 {
        '8'
    } else {
        '9'
    }
}

/// Appends `v` in decimal to `out`.
pub fn push_decimal(out: &mut String, v: i32)
    ensures
        final(out)@ == old(out)@ + decimal(v as int),
{
    let ghost before = out@;
    let magnitude: u32 = if v < 0 {
        out.push('-');
        (-(v as i64)) as u32
    } else {
        v as u32
    };
    let ghost signed = out@;
    // The digits from the last to the first.
    let mut low: Vec<char> = Vec::new();
    low.push(digit_of(magnitude % 10));
    let mut n: u32 = magnitude / 10;
    while n > 0
        invariant
            low@.len() > 0,
            decimal_nat(magnitude as nat) == leading(n as nat) + low@.reverse(),
        decreases n,
    {
        let ghost earlier = low@;
        low.push(digit_of(n % 10));
        assert(low@.reverse() =~= seq![digit_char((n % 10) as int)] + earlier.reverse());
        assert(leading(n as nat) =~= leading((n / 10) as nat) + seq![
            digit_char((n % 10) as int),
        ]);
        n = n / 10;
    }
    let mut i: usize = low.len();
    while i > 0
        invariant
            i <= low@.len(),
            out@ == signed + low@.reverse().take(low@.len() - i),
        decreases i,
    {
        i = i - 1;
        out.push(low[i]);
        assert(low@.reverse().take(low@.len() - i) =~= low@.reverse().take(low@.len() - i - 1).push(
            low@[i as int],
        ));
    }
    assert(low@.reverse().take(low@.len() as int) =~= low@.reverse());
    assert(out@ =~= before + decimal(v as int));
}

} // verus!
