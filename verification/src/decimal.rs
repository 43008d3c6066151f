//! Decimal rendering of numbers, with zero padding on the left.
use vstd::prelude::*;

verus! {

/// Appending one character to a `String` puts it behind the characters that are
/// already there (`String::push`).
pub assume_specification[ String::push ](s: &mut String, c: char)
    ensures
        final(s)@ == old(s)@.push(c),
;

/// The character that stands for the digit `d`.
pub open spec fn digit_char(d: nat) -> char {
    (48 + d) as char
}

/// Whether `c` is one of the ten decimal digits.
pub open spec fn is_digit(c: char) -> bool {
    48 <= c as int <= 57
}

/// The decimal digits of `n`, most significant first, without leading zeros.
pub open spec fn decimal(n: nat) -> Seq<char>
    decreases n,
{
    if n < 10 {
        seq![digit_char(n)]
    } else {
        decimal(n / 10).push(digit_char(n % 10))
    }
}

/// `count` zeros.
pub open spec fn zeros(count: nat) -> Seq<char> {
    Seq::new(count, |i: int| '0')
}

/// The decimal digits of `n`, with zeros put in front until there are `width` of them.
pub open spec fn zero_padded(n: nat, width: nat) -> Seq<char> {
    let digits = decimal(n);
    if digits.len() < width {
        zeros((width - digits.len()) as nat) + digits
    } else {
        digits
    }
}

/// The number that a row of decimal digits stands for.
pub open spec fn digits_value(s: Seq<char>) -> int
    decreases s.len(),
{
    if s.len() == 0 {
        0
    } else {
        10 * digits_value(s.drop_last()) + (s.last() as int - 48)
    }
}

proof fn lemma_decimal(n: nat)
    ensures
        decimal(n).len() >= 1,
        digits_value(decimal(n)) == n,
        forall|i: int| 0 <= i < decimal(n).len() ==> is_digit(#[trigger] decimal(n)[i]),
    decreases n,
{
    if n < 10 {
        assert(decimal(n).drop_last() =~= Seq::<char>::empty());
        assert(digits_value(Seq::<char>::empty()) == 0);
    } else {
        lemma_decimal(n / 10);
        assert(decimal(n).drop_last() =~= decimal(n / 10));
    }
}

proof fn lemma_leading_zeros(count: nat, s: Seq<char>)
    ensures
        digits_value(zeros(count) + s) == digits_value(s),
    decreases count + s.len(),
{
    let padded = zeros(count) + s;
    if s.len() > 0 {
        assert(padded.drop_last() =~= zeros(count) + s.drop_last());
        lemma_leading_zeros(count, s.drop_last());
    } else if count > 0 {
        assert(padded.drop_last() =~= zeros((count - 1) as nat) + s);
        lemma_leading_zeros((count - 1) as nat, s);
    } else {
        assert(padded =~= s);
    }
}

/// A padded number consists of digits alone, and there is at least one.
pub proof fn lemma_padded_digits(n: nat, width: nat)
    ensures
        zero_padded(n, width).len() >= 1,
        forall|i: int|
            0 <= i < zero_padded(n, width).len() ==> is_digit(#[trigger] zero_padded(n, width)[i]),
{
    lemma_decimal(n);
}

/// Two different numbers never have the same padded form.
pub proof fn padding_is_injective(n: nat, m: nat, width: nat)
    requires
        zero_padded(n, width) == zero_padded(m, width),
    ensures
        n == m,
{
    lemma_decimal(n);
    lemma_decimal(m);
    if decimal(n).len() < width {
        lemma_leading_zeros((width - decimal(n).len()) as nat, decimal(n));
    }
    if decimal(m).len() < width {
        lemma_leading_zeros((width - decimal(m).len()) as nat, decimal(m));
    }
}

/// The digits of `n`, least significant first.
fn reversed_digits(n: u64) -> (digits: Vec<char>)
    ensures
        digits@.reverse() == decimal(n as nat),
{
    let mut digits: Vec<char> = Vec::new();
    let mut rest: u64 = n;
    while rest >= 10
        invariant
            decimal(n as nat) == decimal(rest as nat) + digits@.reverse(),
        decreases rest,
    {
        let ghost before = digits@;
        digits.push((48 + (rest % 10) as u8) as char);
        proof {
            assert(digits@.reverse() =~= seq![digit_char((rest % 10) as nat)] + before.reverse());
            assert(decimal(rest as nat) + before.reverse() =~= decimal((rest / 10) as nat)
                + digits@.reverse());
        }
        rest = rest / 10;
    }
    let ghost before = digits@;
    digits.push((48 + rest as u8) as char);
    assert(digits@.reverse() =~= seq![digit_char(rest as nat)] + before.reverse());
    digits
}

/// Appends `n` in decimal to `out`, padded on the left with zeros to at least `width`
/// digits.
pub fn push_zero_padded(out: &mut String, n: u64, width: usize)
    ensures
        final(out)@ == old(out)@ + zero_padded(n as nat, width as nat),
{
    let digits: Vec<char> = reversed_digits(n);
    let ghost start = out@;
    let ghost all = decimal(n as nat);
    let mut zeros_left: usize = if digits.len() < width { width - digits.len() } else { 0 };
    let ghost total = zeros_left as nat;
    assert(out@ =~= start + zeros(0));
    while zeros_left > 0
        invariant
            zeros_left <= total,
            out@ == start + zeros((total - zeros_left) as nat),
        decreases zeros_left,
    {
        out.push('0');
        zeros_left = zeros_left - 1;
        assert(out@ =~= start + zeros((total - zeros_left) as nat));
    }
    let mut i: usize = digits.len();
    assert(out@ =~= start + zeros(total) + all.subrange(0, 0));
    while i > 0
        invariant
            i <= digits.len(),
            digits@.reverse() == all,
            out@ == start + zeros(total) + all.subrange(0, digits.len() - i),
        decreases i,
    {
        i = i - 1;
        out.push(digits[i]);
        assert(all[digits.len() - i - 1] == digits[i as int]);
        assert(out@ =~= start + zeros(total) + all.subrange(0, digits.len() - i));
    }
    assert(all.subrange(0, digits.len() as int) =~= all);
    assert(out@ =~= start + zero_padded(n as nat, width as nat));
}

/// The padded form of a number ends in the number's last digit, and before that stands the
/// padded form of the number without it; it is no longer than the digits and the width ask for.
pub proof fn digits_are_those_of_the_number(n: nat, width: nat)
    ensures
        zero_padded(n, width).len() >= width,
        zero_padded(n, width).last() as int == 48 + n % 10,
        n < 10 && width <= 1 ==> zero_padded(n, width).len() == 1,
        n >= 10 || width > 1 ==> zero_padded(n, width).drop_last() == zero_padded(
            n / 10,
            if width > 1 {
                (width - 1) as nat
            } else {
                1
            },
        ),
{
    lemma_decimal(n);
    lemma_decimal(n / 10);
    let s = zero_padded(n, width);
    if n >= 10 {
        assert(decimal(n).drop_last() =~= decimal(n / 10));
        let shorter = zero_padded(
            n / 10,
            if width > 1 {
                (width - 1) as nat
            } else {
                1
            },
        );
        assert(s.drop_last() =~= shorter);
    } else if width > 1 {
        assert(decimal(0) =~= seq!['0']);
        assert(s.drop_last() =~= zero_padded(0, (width - 1) as nat));
    }
}

} // verus!
