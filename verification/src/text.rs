//! Rendering numbers as text: decimal and upper-case hexadecimal digits, and
//! human-readable byte counts with binary unit suffixes.
use vstd::prelude::*;

verus! {

/// The character of a digit value below 16: '0'-'9', then 'A'-'F'.
pub open spec fn digit_char(d: nat) -> char {
    if d < 10 {
        (d + 48) as char
    } else {
        (d - 10 + 65) as char
    }
}

/// Decimal digits of `n`, without leading zeros ("0" for zero).
pub open spec fn decimal(n: nat) -> Seq<char>
    decreases n,
{
    if n < 10 {
        seq![digit_char(n)]
    } else {
        decimal(n / 10).push(digit_char(n % 10))
    }
}

/// Upper-case hexadecimal digits of `n`, without leading zeros ("0" for zero).
pub open spec fn hex(n: nat) -> Seq<char>
    decreases n,
{
    if n < 16 {
        seq![digit_char(n)]
    } else {
        hex(n / 16).push(digit_char(n % 16))
    }
}

/// `s` preceded by as many '0' as it takes to reach `width` characters.
pub open spec fn zero_padded(s: Seq<char>, width: nat) -> Seq<char> {
    if s.len() >= width {
        s
    } else {
        Seq::new((width - s.len()) as nat, |i: int| '0') + s
    }
}

/// Append one character to a string with `String::push`; trusted to add
/// exactly that character at the end and change nothing else.
#[verifier::external_body]
pub(crate) fn push_char(s: &mut String, c: char)
    ensures
        final(s)@ == old(s)@.push(c),
{
    s.push(c)
}

/// The character of a digit value below 16.
pub fn digit(d: u8) -> (c: char)
    requires
        d < 16,
    ensures
        c == digit_char(d as nat),
{
    if d < 10 {
        (d + 48) as char
    } else {
        (d - 10 + 65) as char
    }
}

/// Append the decimal digits of `n` to `s`.
pub fn push_decimal(s: &mut String, n: u64)
    ensures
        final(s)@ == old(s)@ + decimal(n as nat),
    decreases n,
{
    if n >= 10 {
        push_decimal(s, n / 10);
    }
    push_char(s, digit((n % 10) as u8));
    proof {
        if n >= 10 {
            assert(decimal(n as nat) == decimal((n / 10) as nat).push(digit_char((n % 10) as nat)));
        }
    }
}

/// Append the upper-case hexadecimal digits of `n` to `s`.
pub fn push_hex(s: &mut String, n: u64)
    ensures
        final(s)@ == old(s)@ + hex(n as nat),
    decreases n,
{
    if n >= 16 {
        push_hex(s, n / 16);
    }
    push_char(s, digit((n % 16) as u8));
    proof {
        if n >= 16 {
            assert(hex(n as nat) == hex((n / 16) as nat).push(digit_char((n % 16) as nat)));
        }
    }
}

/// The decimal text of `n`.
pub fn decimal_string(n: u64) -> (s: String)
    ensures
        s@ == decimal(n as nat),
{
    let mut s = String::new();
    push_decimal(&mut s, n);
    proof {
        assert(Seq::<char>::empty() + decimal(n as nat) =~= decimal(n as nat));
    }
    s
}

/// Append `n` in upper-case hexadecimal, padded with zeros to `width` digits.
pub fn push_hex_padded(s: &mut String, n: u64, width: usize)
    ensures
        final(s)@ == old(s)@ + zero_padded(hex(n as nat), width as nat),
{
    let mut digits = String::new();
    push_hex(&mut digits, n);
    let len = digits.unicode_len();
    let ghost h = hex(n as nat);
    assert(digits@ =~= h);
    let ghost start = s@;
    if len < width {
        let mut k: usize = 0;
        while k < width - len
            invariant
                len < width,
                k <= width - len,
                s@ == start + Seq::new(k as nat, |i: int| '0'),
            decreases width - len - k,
        {
            push_char(s, '0');
            k = k + 1;
            proof {
                assert(s@ =~= start + Seq::new(k as nat, |i: int| '0'));
            }
        }
    }
    s.append(digits.as_str());
    proof {
        if len < width {
            assert(s@ =~= start + zero_padded(h, width as nat));
        } else {
            assert(s@ =~= start + zero_padded(h, width as nat));
        }
    }
}

/// The value of an upper-case hexadecimal digit ('0'-'9', 'A'-'F'), or -1
/// for any other character.
pub open spec fn hex_digit_value(c: char) -> int {
    if '0' <= c <= '9' {
        c as int - '0' as int
    } else if 'A' <= c <= 'F' {
        c as int - 'A' as int + 10
    } else {
        -1
    }
}

/// The number that a string of hexadecimal digits denotes, most significant
/// digit first.
pub open spec fn hex_value(s: Seq<char>) -> int
    decreases s.len(),
{
    if s.len() == 0 {
        0
    } else {
        hex_value(s.drop_last()) * 16 + hex_digit_value(s.last())
    }
}

/// Every digit value below 16 has a character of its own, which reads back
/// as that value: '0' to '9' below ten, 'A' to 'F' from ten on.
pub proof fn lemma_digit_char_value(d: nat)
    requires
        d < 16,
    ensures
        hex_digit_value(digit_char(d)) == d,
        d < 10 ==> '0' <= digit_char(d) <= '9',
        d >= 10 ==> 'A' <= digit_char(d) <= 'F',
{
}

/// The hexadecimal text of a number reads back as that number: it is made
/// of upper-case hexadecimal digits and has no leading zero.
pub proof fn lemma_hex_roundtrip(n: nat)
    ensures
        hex_value(hex(n)) == n,
        hex(n).len() > 0,
        forall|i: int| 0 <= i < hex(n).len() ==> hex_digit_value(#[trigger] hex(n)[i]) >= 0,
        n > 0 ==> hex(n)[0] != '0',
    decreases n,
{
    if n < 16 {
        lemma_digit_char_value(n);
        assert(hex(n).drop_last() =~= Seq::<char>::empty());
        assert(hex_value(Seq::<char>::empty()) == 0);
        assert(hex(n).last() == digit_char(n));
    } else {
        lemma_hex_roundtrip(n / 16);
        lemma_digit_char_value(n % 16);
        assert(hex(n).drop_last() =~= hex(n / 16));
        assert(hex(n).last() == digit_char(n % 16));
        assert(hex_value(hex(n)) == hex_value(hex(n / 16)) * 16 + hex_digit_value(digit_char(n % 16)));
        assert forall|i: int| 0 <= i < hex(n).len() implies hex_digit_value(#[trigger] hex(n)[i]) >= 0 by {
            if i < hex(n).len() - 1 {
                assert(hex(n)[i] == hex(n / 16)[i]);
            }
        }
        assert(hex(n)[0] == hex(n / 16)[0]);
    }
}

/// Leading zeros do not change the number a hexadecimal text denotes.
pub proof fn lemma_hex_value_leading_zeros(k: nat, s: Seq<char>)
    ensures
        hex_value(Seq::new(k, |i: int| '0') + s) == hex_value(s),
    decreases s.len(), k,
{
    let z = Seq::new(k, |i: int| '0');
    if s.len() == 0 {
        assert(z + s =~= z);
        if k > 0 {
            assert(z.drop_last() =~= Seq::new((k - 1) as nat, |i: int| '0'));
            lemma_hex_value_leading_zeros((k - 1) as nat, s);
            assert(Seq::new((k - 1) as nat, |i: int| '0') + s =~= Seq::new((k - 1) as nat, |i: int| '0'));
        }
    } else {
        lemma_hex_value_leading_zeros(k, s.drop_last());
        assert((z + s).drop_last() =~= z + s.drop_last());
    }
}

/// A hexadecimal text padded with zeros to a width reads back as the same
/// number, and is at least that wide.
pub proof fn lemma_padded_hex_roundtrip(n: nat, width: nat)
    ensures
        hex_value(zero_padded(hex(n), width)) == n,
        zero_padded(hex(n), width).len() >= width,
        zero_padded(hex(n), width).len() >= hex(n).len(),
{
    lemma_hex_roundtrip(n);
    if hex(n).len() < width {
        lemma_hex_value_leading_zeros((width - hex(n).len()) as nat, hex(n));
    }
}

/// The decimal text of a number is made of digits '0' to '9', has no
/// leading zero, and parses back (as the command line reads numbers) to
/// that number.
pub proof fn lemma_decimal_roundtrip(n: nat)
    ensures
        crate::cli::digits_value(decimal(n)) == n,
        decimal(n).len() > 0,
        forall|i: int| 0 <= i < decimal(n).len() ==> crate::cli::is_digit(#[trigger] decimal(n)[i]),
        n > 0 ==> decimal(n)[0] != '0',
    decreases n,
{
    if n < 10 {
        assert(decimal(n).drop_last() =~= Seq::<char>::empty());
        assert(crate::cli::digits_value(Seq::<char>::empty()) == 0);
        assert(decimal(n).last() == digit_char(n));
    } else {
        lemma_decimal_roundtrip(n / 10);
        assert(decimal(n).drop_last() =~= decimal(n / 10));
        assert(decimal(n).last() == digit_char(n % 10));
        assert forall|i: int| 0 <= i < decimal(n).len() implies crate::cli::is_digit(#[trigger] decimal(n)[i]) by {
            if i < decimal(n).len() - 1 {
                assert(decimal(n)[i] == decimal(n / 10)[i]);
            }
        }
        assert(decimal(n)[0] == decimal(n / 10)[0]);
    }
}

/// Bytes in a KiB, a MiB and a GiB.
pub const KIB: u64 = 1024;
pub const MIB: u64 = 1024 * 1024;
pub const GIB: u64 = 1024 * 1024 * 1024;

/// Largest integer that a double holds exactly together with all below it.
pub open spec fn double_mantissa_bound() -> int {
    0x20_0000_0000_0000
}

/// `x / d` rounded to the nearest integer, ties to the even one.
pub open spec fn round_half_even(x: int, d: int) -> int {
    let q = x / d;
    let r = x % d;
    if 2 * r > d || (2 * r == d && q % 2 == 1) {
        q + 1
    } else {
        q
    }
}

/// The smallest power of two `p`, from `p` upwards, such that `n / p` has at
/// most 53 significant bits.
pub open spec fn double_scale_from(n: int, p: int) -> int
    decreases n - p,
    when p > 0
{
    if n < double_mantissa_bound() * p {
        p
    } else {
        double_scale_from(n, 2 * p)
    }
}

/// The double nearest to `n` (ties to even), as an integer: what `n as f64`
/// holds for a `u64`.
pub open spec fn nearest_double(n: int) -> int {
    let p = double_scale_from(n, 1);
    round_half_even(n, p) * p
}

/// Text of `m / unit` with exactly two decimals, rounded ties to even, as
/// `{:.2}` renders the exact value of a double.
pub open spec fn two_decimals(m: int, unit: int) -> Seq<char> {
    let h = round_half_even(m * 100, unit);
    decimal((h / 100) as nat) + seq!['.', digit_char(((h % 100) / 10) as nat), digit_char((h % 10) as nat)]
}

/// Human-readable size of `n` bytes: "x.yy GiB", "x.yy MiB" or "x.yy KiB"
/// for the largest unit not above `n`, or "n B" below one KiB.
pub open spec fn byte_count_text(n: u64) -> Seq<char> {
    if n >= GIB {
        two_decimals(nearest_double(n as int), GIB as int) + " GiB"@
    } else if n >= MIB {
        two_decimals(n as int, MIB as int) + " MiB"@
    } else if n >= KIB {
        two_decimals(n as int, KIB as int) + " KiB"@
    } else {
        decimal(n as nat) + " B"@
    }
}

/// The double nearest to `n`, ties to even, as an exact integer.
pub fn double_value(n: u64) -> (m: u128)
    ensures
        m == nearest_double(n as int),
        m <= 0x2_0000_0000_0000_0000,
{
    let mut p: u128 = 1;
    while (n as u128) >= 0x20_0000_0000_0000u128 * p
        invariant
            1 <= p <= 0x1000,
            double_scale_from(n as int, p as int) == double_scale_from(n as int, 1),
        decreases n - p,
    {
        p = p * 2;
    }
    let q = (n as u128) / p;
    let r = (n as u128) % p;
    let rounded = if 2 * r > p || (2 * r == p && q % 2 == 1) {
        q + 1
    } else {
        q
    };
    proof {
        assert(q < 0x20_0000_0000_0000) by (nonlinear_arith)
            requires
                q == (n as int) / (p as int),
                p >= 1,
                (n as int) < 0x20_0000_0000_0000 * p,
        ;
        assert(rounded == round_half_even(n as int, p as int));
        assert(q * p <= n) by (nonlinear_arith)
            requires
                q == (n as int) / (p as int),
                p >= 1,
        ;
        assert(rounded * p <= 0x2_0000_0000_0000_0000) by (nonlinear_arith)
            requires
                rounded <= q + 1,
                q * p <= n,
                n < 0x1_0000_0000_0000_0000,
                p <= 0x1000,
                q < 0x20_0000_0000_0000,
        ;
    }
    rounded * p
}

/// Append `m / unit` with two decimals (see `two_decimals`).
fn push_two_decimals(s: &mut String, m: u128, unit: u128)
    requires
        m <= 0x2_0000_0000_0000_0000,
        KIB <= unit <= GIB,
    ensures
        final(s)@ == old(s)@ + two_decimals(m as int, unit as int),
{
    let x = m * 100;
    let q = x / unit;
    let r = x % unit;
    let h = if 2 * r > unit || (2 * r == unit && q % 2 == 1) {
        q + 1
    } else {
        q
    };
    assert(h == round_half_even(m * 100, unit as int));
    assert(q * 1024 <= x) by (nonlinear_arith)
        requires
            q == x / unit,
            unit >= 1024,
    ;
    assert(h / 100 <= u64::MAX);
    let whole = (h / 100) as u64;
    let frac = (h % 100) as u8;
    push_decimal(s, whole);
    push_char(s, '.');
    push_char(s, digit(frac / 10));
    push_char(s, digit(frac % 10));
    proof {
        assert((h % 100) % 10 == h % 10);
    }
}

/// Human-readable size of `n` bytes, in the largest binary unit that is not
/// above it, with two decimals (see `byte_count_text`).
pub fn format_byte_count(n: u64) -> (s: String)
    ensures
        s@ == byte_count_text(n),
{
    let mut s = String::new();
    let ghost e = s@;
    if n >= GIB {
        let m = double_value(n);
        push_two_decimals(&mut s, m, GIB as u128);
        s.append(" GiB");
    } else if n >= MIB {
        push_two_decimals(&mut s, n as u128, MIB as u128);
        s.append(" MiB");
    } else if n >= KIB {
        push_two_decimals(&mut s, n as u128, KIB as u128);
        s.append(" KiB");
    } else {
        push_decimal(&mut s, n);
        s.append(" B");
    }
    proof {
        assert(e == Seq::<char>::empty());
        assert(s@ =~= byte_count_text(n));
    }
    s
}

} // verus!
