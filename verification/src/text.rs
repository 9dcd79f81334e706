//! Numbers as text.

use vstd::prelude::*;

verus! {

/// `String::push` appends the character, as the standard library documents it.
pub assume_specification[ String::push ](s: &mut String, ch: char)
    ensures
        final(s)@ == old(s)@.push(ch),
;

/// The character of a digit.
pub open spec fn digit(d: int) -> char {
    if d == 0 {
        '0'
    } else if d == 1 {
        '1'
    } else if d == 2 {
        '2'
    } else if d == 3 {
        '3'
    } else if d == 4 {
        '4'
    } else if d == 5 {
        '5'
    } else if d == 6 {
        '6'
    } else if d == 7 {
        '7'
    } else if d == 8 {
        '8'
    } else {
        '9'
    }
}

/// A number in decimal digits, without leading zeros.
pub open spec fn decimal(n: nat) -> Seq<char>
    decreases n,
{
    if n < 10 {
        seq![digit(n as int)]
    } else {
        decimal(n / 10).push(digit(n as int % 10))
    }
}

/// A number in decimal digits, with a sign if it is negative.
pub open spec fn signed(n: int) -> Seq<char> {
    if n < 0 {
        seq!['-'] + decimal((-n) as nat)
    } else {
        decimal(n as nat)
    }
}

/// A character, so many times.
pub open spec fn repeated(c: char, n: int) -> Seq<char> {
    Seq::new(n as nat, |i: int| c)
}

/// A number in decimal digits, at least `width` of them.
pub open spec fn padded(n: nat, width: int) -> Seq<char> {
    let digits = decimal(n);
    if digits.len() < width {
        repeated('0', width - digits.len()) + digits
    } else {
        digits
    }
}

/// The number that decimal digits stand for.
pub open spec fn digits_value(s: Seq<char>) -> int
    decreases s.len(),
{
    if s.len() == 0 {
        0
    } else {
        10 * digits_value(s.drop_last()) + (s.last() as int - '0' as int)
    }
}

/// Decimal digits give back the number they were written for.
pub proof fn decimal_reads_back(n: nat)
    ensures
        digits_value(decimal(n)) == n,
        decimal(n).len() > 0,
    decreases n,
{
    reveal_with_fuel(digits_value, 2);
    if n >= 10 {
        decimal_reads_back(n / 10);
        assert(decimal(n).drop_last() =~= decimal(n / 10));
    } else {
        assert(decimal(n).drop_last() =~= Seq::<char>::empty());
    }
}

/// Appends a digit.
fn push_digit(out: &mut String, d: u64)
    requires
        d < 10,
    ensures
        final(out)@ == old(out)@.push(digit(d as int)),
{
    let c: char = if d == 0 {
        '0'
    } else if d == 1 {
        '1'
    } else if d == 2 {
        '2'
    } else if d == 3 {
        '3'
    } else if d == 4 {
        '4'
    } else if d == 5 {
        '5'
    } else if d == 6 {
        '6'
    } else if d == 7 {
        '7'
    } else if d == 8 {
        '8'
    } else {
        '9'
    };
    out.push(c);
}

/// Appends a number in decimal digits.
pub fn push_decimal(out: &mut String, n: u64)
    ensures
        final(out)@ == old(out)@ + decimal(n as nat),
    decreases n,
{
    let ghost before = out@;
    if n >= 10 {
        push_decimal(out, n / 10);
    }
    push_digit(out, n % 10);
    assert(out@ =~= before + decimal(n as nat));
}

/// Appends a number in decimal digits, with a sign if it is negative.
pub fn push_signed(out: &mut String, n: i64)
    ensures
        final(out)@ == old(out)@ + signed(n as int),
{
    let ghost before = out@;
    if n < 0 {
        out.push('-');
        push_decimal(out, (-(n as i128)) as u64);
    } else {
        push_decimal(out, n as u64);
    }
    assert(out@ =~= before + signed(n as int));
}

/// Appends a character so many times.
pub fn push_repeated(out: &mut String, c: char, n: usize)
    ensures
        final(out)@ == old(out)@ + repeated(c, n as int),
{
    let ghost before = out@;
    let mut i: usize = 0;
    assert(out@ =~= before + repeated(c, 0));
    while i < n
        invariant
            i <= n,
            out@ == before + repeated(c, i as int),
        decreases n - i,
    {
        out.push(c);
        i += 1;
        assert(out@ =~= before + repeated(c, i as int));
    }
}

/// Appends a number in decimal digits, at least `width` of them.
pub fn push_padded(out: &mut String, n: u64, width: usize)
    ensures
        final(out)@ == old(out)@ + padded(n as nat, width as int),
{
    let ghost before = out@;
    let mut digits: String = String::new();
    push_decimal(&mut digits, n);
    assert(digits@ =~= decimal(n as nat));
    let length: usize = digits.as_str().unicode_len();
    if length < width {
        push_repeated(out, '0', width - length);
    }
    out.append(digits.as_str());
    assert(out@ =~= before + padded(n as nat, width as int));
}

/// Digits with zeros in front read as the same number, and are as many as were asked for, or more
/// if the number needs them.
pub proof fn padded_reads_back(n: nat, width: int)
    ensures
        digits_value(padded(n, width)) == n,
        padded(n, width).len() >= width,
        padded(n, width).len() == width || padded(n, width) == decimal(n),
{
    decimal_reads_back(n);
    let d = decimal(n);
    if d.len() < width {
        zeros_read_as_nothing(d, width - d.len());
    }
}

proof fn zeros_read_as_nothing(d: Seq<char>, k: int)
    requires
        k >= 0,
    ensures
        digits_value(repeated('0', k) + d) == digits_value(d),
    decreases d.len() + k,
{
    let s = repeated('0', k) + d;
    if d.len() > 0 {
        zeros_read_as_nothing(d.drop_last(), k);
        assert(s.drop_last() =~= repeated('0', k) + d.drop_last());
        assert(s.last() == d.last());
    } else if k > 0 {
        zeros_read_as_nothing(d, k - 1);
        assert(s.drop_last() =~= repeated('0', k - 1) + d);
        assert(s.last() == '0');
    } else {
        assert(s =~= d);
    }
}

/// A number has no more digits than it needs.
pub proof fn decimal_is_short(n: nat)
    ensures
        n < 10 ==> decimal(n).len() == 1,
        n < 100 ==> decimal(n).len() <= 2,
        n < 1000 ==> decimal(n).len() <= 3,
        n < 10000 ==> decimal(n).len() <= 4,
    decreases n,
{
    if n >= 10 {
        decimal_is_short(n / 10);
    }
}

/// A negative number has a minus sign in front of its digits, and no other has one.
pub proof fn signs_are_told(n: int)
    ensures
        n < 0 ==> signed(n)[0] == '-' && digits_value(signed(n).skip(1)) == -n,
        n >= 0 ==> digits_value(signed(n)) == n,
{
    if n < 0 {
        decimal_reads_back((-n) as nat);
        assert(signed(n).skip(1) =~= decimal((-n) as nat));
    } else {
        decimal_reads_back(n as nat);
    }
}

} // verus!
