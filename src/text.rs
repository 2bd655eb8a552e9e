use vstd::prelude::*;

verus! {

/// The character of digit `d` (below 10).
pub open spec fn digit_char(d: nat) -> char {
    (48 + d) as char
}

/// Decimal digits of `n`, most significant first, without leading zeros.
pub open spec fn decimal(n: nat) -> Seq<char>
    decreases n,
{
    if n < 10 {
        seq![digit_char(n)]
    } else {
        decimal(n / 10).push(digit_char(n % 10))
    }
}

/// Binary digits of `n`, most significant first, without leading zeros.
pub open spec fn binary(n: nat) -> Seq<char>
    decreases n,
{
    if n < 2 {
        seq![digit_char(n)]
    } else {
        binary(n / 2).push(digit_char(n % 2))
    }
}

/// `s` padded on the left with '0' to at least `width` characters.
pub open spec fn zero_padded(s: Seq<char>, width: nat) -> Seq<char> {
    if s.len() < width {
        Seq::new((width - s.len()) as nat, |i: int| '0') + s
    } else {
        s
    }
}

/// Relies on `String::push`: appends one character.
#[verifier::external_body]
fn push_char(s: &mut String, c: char)
    ensures
        final(s)@ == old(s)@.push(c),
{
    s.push(c);
}

/// Relies on `String::push_str`: appends a string slice.
#[verifier::external_body]
pub(crate) fn push_text(s: &mut String, t: &str)
    ensures
        final(s)@ == old(s)@ + t@,
{
    s.push_str(t);
}

fn digit(d: u64) -> (c: char)
    requires
        d < 10,
    ensures
        c == digit_char(d as nat),
{
    (48u8 + d as u8) as char
}

/// Number of decimal digits of `n`.
fn decimal_len(n: u64) -> (r: u64)
    ensures
        r == decimal(n as nat).len(),
        r <= n + 1,
    decreases n,
{
    if n < 10 {
        1
    } else {
        decimal_len(n / 10) + 1
    }
}

/// Number of binary digits of `n`.
fn binary_len(n: u64) -> (r: u64)
    ensures
        r == binary(n as nat).len(),
        r <= n + 1,
    decreases n,
{
    if n < 2 {
        1
    } else {
        binary_len(n / 2) + 1
    }
}

fn push_decimal(s: &mut String, n: u64)
    ensures
        final(s)@ == old(s)@ + decimal(n as nat),
    decreases n,
{
    if n >= 10 {
        push_decimal(s, n / 10);
    }
    push_char(s, digit(n % 10));
    proof {
        if n >= 10 {
            assert(final(s)@ =~= old(s)@ + decimal(n as nat));
        } else {
            assert(final(s)@ =~= old(s)@ + decimal(n as nat));
        }
    }
}

fn push_binary(s: &mut String, n: u64)
    ensures
        final(s)@ == old(s)@ + binary(n as nat),
    decreases n,
{
    if n >= 2 {
        push_binary(s, n / 2);
    }
    push_char(s, digit(n % 2));
    proof {
        assert(final(s)@ =~= old(s)@ + binary(n as nat));
    }
}

fn push_zeros(s: &mut String, count: u64)
    ensures
        final(s)@ == old(s)@ + Seq::new(count as nat, |i: int| '0'),
{
    let ghost start = s@;
    let mut i: u64 = 0;
    while i < count
        invariant
            i <= count,
            s@ == start + Seq::new(i as nat, |k: int| '0'),
        decreases count - i,
    {
        push_char(s, '0');
        i += 1;
        assert(s@ =~= start + Seq::new(i as nat, |k: int| '0'));
    }
}

/// Appends `n` in decimal, zero-padded to `width`.
pub fn push_decimal_padded(s: &mut String, n: u64, width: u64)
    ensures
        final(s)@ == old(s)@ + zero_padded(decimal(n as nat), width as nat),
{
    let len = decimal_len(n);
    let ghost start = s@;
    if len < width {
        push_zeros(s, width - len);
    }
    push_decimal(s, n);
    assert(s@ =~= start + zero_padded(decimal(n as nat), width as nat));
}

/// Appends `n` in binary, zero-padded to `width`.
pub fn push_binary_padded(s: &mut String, n: u64, width: u64)
    ensures
        final(s)@ == old(s)@ + zero_padded(binary(n as nat), width as nat),
{
    let len = binary_len(n);
    let ghost start = s@;
    if len < width {
        push_zeros(s, width - len);
    }
    push_binary(s, n);
    assert(s@ =~= start + zero_padded(binary(n as nat), width as nat));
}

/// Appends `n` in decimal.
pub fn push_number(s: &mut String, n: u64)
    ensures
        final(s)@ == old(s)@ + decimal(n as nat),
{
    push_decimal(s, n);
}

} // verus!
