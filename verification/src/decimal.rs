//! Numbers written in decimal and set to the right of a field.

use vstd::prelude::*;

verus! {

/// The byte of a space.
pub const SPACE: u8 = 32;

/// The byte of the digit zero.
pub const ZERO: u8 = 48;

/// The number of decimal digits of `n`; 0 has one.
pub open spec fn digit_count(n: nat) -> nat
    decreases n,
{
    if n < 10 {
        1
    } else {
        1 + digit_count(n / 10)
    }
}

/// `n` in decimal, as ASCII digits with the most significant first.
pub open spec fn decimal(n: nat) -> Seq<u8>
    decreases n,
{
    if n < 10 {
        seq![(ZERO + n) as u8]
    } else {
        decimal(n / 10).push((ZERO + n % 10) as u8)
    }
}

/// `count` spaces.
pub open spec fn spaces(count: nat) -> Seq<u8> {
    Seq::new(count, |i: int| SPACE)
}

/// `n` in decimal at the right of a field of `width` bytes, with spaces
/// before it. A number with more digits than `width` is written in full.
pub open spec fn justified(n: nat, width: nat) -> Seq<u8> {
    if digit_count(n) >= width {
        decimal(n)
    } else {
        spaces((width - digit_count(n)) as nat) + decimal(n)
    }
}

/// `decimal(n)` has `digit_count(n)` bytes, each of them a digit.
pub proof fn lemma_decimal_len(n: nat)
    ensures
        decimal(n).len() == digit_count(n),
        forall|i: int| 0 <= i < decimal(n).len() ==> ZERO <= #[trigger] decimal(n)[i] <= ZERO + 9,
    decreases n,
{
    if n >= 10 {
        lemma_decimal_len(n / 10);
    }
}

/// A greater number has no fewer digits.
pub proof fn lemma_digit_count_monotonic(a: nat, b: nat)
    requires
        a <= b,
    ensures
        digit_count(a) <= digit_count(b),
    decreases b,
{
    if a >= 10 {
        lemma_digit_count_monotonic(a / 10, b / 10);
    }
}

/// A field is as wide as asked for, or as the number where that is wider,
/// and ends with the number.
pub proof fn lemma_justified_shape(n: nat, width: nat)
    ensures
        justified(n, width).len() == if digit_count(n) >= width {
            digit_count(n)
        } else {
            width
        },
        justified(n, width).skip(justified(n, width).len() - digit_count(n)) == decimal(n),
        forall|i: int|
            0 <= i < justified(n, width).len() - digit_count(n) ==> #[trigger] justified(
                n,
                width,
            )[i] == SPACE,
{
    lemma_decimal_len(n);
    let field = justified(n, width);
    assert(field.skip(field.len() - digit_count(n)) =~= decimal(n));
}

/// The number of decimal digits of `n`.
pub fn count_digits(n: usize) -> (d: usize)
    ensures
        d == digit_count(n as nat),
{
    let mut rest: usize = n;
    let mut d: usize = 1;
    while rest >= 10
        invariant
            1 <= d,
            d + rest <= n + 1,
            digit_count(n as nat) == digit_count(rest as nat) + d - 1,
        decreases rest,
    {
        rest = rest / 10;
        d = d + 1;
    }
    d
}

/// Appends to `out` the number `n` in decimal, with spaces before it so
/// that it ends a field of `width` bytes.
pub fn push_justified(out: &mut Vec<u8>, n: usize, width: usize)
    ensures
        final(out)@ == old(out)@ + justified(n as nat, width as nat),
{
    let ghost before = out@;
    let digits = count_digits(n);
    let mut pad: usize = if width > digits {
        width - digits
    } else {
        0
    };
    let ghost padding = pad as nat;
    while pad > 0
        invariant
            pad <= padding,
            out@ == before + spaces((padding - pad) as nat),
        decreases pad,
    {
        out.push(SPACE);
        pad = pad - 1;
        proof {
            assert(spaces((padding - pad - 1) as nat).push(SPACE) =~= spaces(
                (padding - pad) as nat,
            ));
            assert((before + spaces((padding - pad - 1) as nat)).push(SPACE) =~= before + spaces(
                (padding - pad) as nat,
            ));
        }
    }
    let mut reversed: Vec<u8> = Vec::new();
    let mut rest: usize = n;
    while rest >= 10
        invariant
            decimal(n as nat) =~= decimal(rest as nat) + reversed@.reverse(),
        decreases rest,
    {
        let digit: u8 = ZERO + (rest % 10) as u8;
        proof {
            let grown = reversed@.push(digit);
            assert(grown.reverse() =~= seq![digit] + reversed@.reverse());
            assert(decimal(rest as nat) =~= decimal((rest / 10) as nat).push(digit));
            assert(decimal((rest / 10) as nat).push(digit) + reversed@.reverse() =~= decimal(
                (rest / 10) as nat,
            ) + (seq![digit] + reversed@.reverse()));
        }
        reversed.push(digit);
        rest = rest / 10;
    }
    let last: u8 = ZERO + rest as u8;
    proof {
        let grown = reversed@.push(last);
        assert(grown.reverse() =~= seq![last] + reversed@.reverse());
        assert(decimal(rest as nat) =~= seq![last]);
    }
    reversed.push(last);
    let ghost padded = out@;
    let mut i: usize = reversed.len();
    while i > 0
        invariant
            i <= reversed.len(),
            out@ == padded + reversed@.reverse().take(reversed.len() - i),
        decreases i,
    {
        i = i - 1;
        out.push(reversed[i]);
        proof {
            let r = reversed@.reverse();
            let k = reversed.len() - i - 1;
            assert(r.take(k).push(r[k]) =~= r.take(k + 1));
            assert(r[k] == reversed@[i as int]);
        }
    }
    proof {
        let r = reversed@.reverse();
        assert(r.take(r.len() as int) =~= r);
        lemma_decimal_len(n as nat);
        assert(spaces(0) =~= Seq::<u8>::empty());
        assert(before + spaces(padding) + decimal(n as nat) =~= before + (spaces(padding)
            + decimal(n as nat)));
        assert(before + Seq::<u8>::empty() + decimal(n as nat) =~= before + decimal(n as nat));
    }
}

} // verus!
