//! Building text: decimal and hexadecimal numerals, and appending to a `String`.
use vstd::prelude::*;

verus! {

/// The digit character of `d`, for `d < 16`: `0`-`9`, then `A`-`F`.
pub open spec fn digit_char(d: nat) -> char {
    if d < 10 {
        (48 + d) as char
    } else {
        (55 + d) as char
    }
}

/// `n` written in base `base` with digits `0`-`9`, `A`-`F` and no leading zeros (`0` is "0").
pub open spec fn numeral(n: nat, base: nat) -> Seq<char>
    recommends
        2 <= base <= 16,
    decreases n,
{
    if n < base || base < 2 {
        seq![digit_char(n)]
    } else {
        proof {
            assert(n / base < n) by (nonlinear_arith)
                requires
                    n >= base >= 2,
            ;
        }
        numeral(n / base, base).push(digit_char(n % base))
    }
}

/// `n` in decimal, as `{}` formats an unsigned integer.
pub open spec fn decimal(n: nat) -> Seq<char> {
    numeral(n, 10)
}

/// `n` in upper-case hexadecimal without prefix, as `{:X}` formats it.
pub open spec fn hex_upper(n: nat) -> Seq<char> {
    numeral(n, 16)
}

/// Every character of `t` is 7-bit ASCII.
pub open spec fn is_ascii_text(t: Seq<char>) -> bool {
    forall|i: int| 0 <= i < t.len() ==> (t[i] as u32) < 128
}

/// Numerals are written in ASCII digits and letters.
pub proof fn lemma_numeral_ascii(n: nat, base: nat)
    requires
        2 <= base <= 16,
    ensures
        is_ascii_text(numeral(n, base)),
    decreases n,
{
    if n >= base {
        assert(n / base < n) by (nonlinear_arith)
            requires
                n >= base >= 2,
        ;
        assert(n % base < base) by (nonlinear_arith)
            requires
                base >= 2,
        ;
        lemma_numeral_ascii(n / base, base);
    }
}

/// The value of a digit character written by `digit_char`.
pub open spec fn digit_value_of(c: char) -> nat {
    if (c as u32) < 58 {
        (c as u32 - 48) as nat
    } else {
        (c as u32 - 55) as nat
    }
}

/// The value of a sequence of digits in base `base`.
pub open spec fn numeral_value(t: Seq<char>, base: nat) -> nat
    decreases t.len(),
{
    if t.len() == 0 {
        0
    } else {
        numeral_value(t.drop_last(), base) * base + digit_value_of(t.last())
    }
}

/// Numerals are exact: read back they give the number, and only zero begins with `0`.
pub proof fn lemma_numeral_value(n: nat, base: nat)
    requires
        2 <= base <= 16,
    ensures
        numeral_value(numeral(n, base), base) == n,
        numeral(n, base).len() >= 1,
        numeral(n, base)[0] == '0' ==> n == 0,
    decreases n,
{
    if n >= base {
        let q = n / base;
        let r = n % base;
        assert(q < n && r < base && q * base + r == n && q >= 1) by (nonlinear_arith)
            requires
                n >= base >= 2,
                q == n / base,
                r == n % base,
        ;
        lemma_numeral_value(q, base);
        let t = numeral(n, base);
        assert(t.drop_last() =~= numeral(q, base));
        assert(digit_value_of(t.last()) == r);
        assert(numeral_value(t.drop_last(), base) == q);
        assert(numeral_value(t, base) == q * base + r);
    } else {
        let t = numeral(n, base);
        assert(t.drop_last() =~= Seq::<char>::empty());
        assert(numeral_value(Seq::<char>::empty(), base) == 0);
        assert(digit_value_of(t.last()) == n);
        assert(numeral_value(t, base) == 0 * base + n);
    }
}

/// The character of a digit below `base`: `0`-`9` for the values 0 to 9, `A`-`F` for 10 to 15.
pub open spec fn is_digit_char(c: char, base: nat) -> bool {
    ||| 48 <= (c as u32) <= 57 && (c as u32) - 48 < base
    ||| 65 <= (c as u32) <= 70 && (c as u32) - 55 < base
}

/// Every character of a numeral is a digit of its base.
pub proof fn lemma_numeral_digits(n: nat, base: nat)
    requires
        2 <= base <= 16,
    ensures
        forall|i: int| 0 <= i < numeral(n, base).len() ==> is_digit_char(#[trigger] numeral(n, base)[i], base),
    decreases n,
{
    let t = numeral(n, base);
    if n >= base {
        assert(n / base < n && n % base < base) by (nonlinear_arith)
            requires
                n >= base >= 2,
        ;
        lemma_numeral_digits(n / base, base);
        let q = numeral(n / base, base);
        assert(t == q.push(digit_char(n % base)));
        assert forall|i: int| 0 <= i < t.len() implies is_digit_char(#[trigger] t[i], base) by {
            if i < q.len() {
                assert(t[i] == q[i]);
            } else {
                assert(t[i] == digit_char(n % base));
            }
        }
    } else {
        assert(t == seq![digit_char(n)]);
        assert forall|i: int| 0 <= i < t.len() implies is_digit_char(#[trigger] t[i], base) by {
            assert(t[i] == digit_char(n));
        }
    }
}

/// Decimal numerals are written with the digits `0`-`9` only.
pub proof fn lemma_decimal_digits(n: nat)
    ensures
        forall|i: int| 0 <= i < decimal(n).len() ==> 48 <= (#[trigger] decimal(n)[i] as u32) <= 57,
{
    lemma_numeral_digits(n, 10);
    assert forall|i: int| 0 <= i < decimal(n).len() implies 48 <= (#[trigger] decimal(n)[i] as u32) <= 57 by {
        assert(is_digit_char(numeral(n, 10)[i], 10));
    }
}

/// Hexadecimal numerals are written with the digits `0`-`9` and the capitals `A`-`F` only.
pub proof fn lemma_hex_digits(n: nat)
    ensures
        forall|i: int|
            0 <= i < hex_upper(n).len() ==> {
                let c = #[trigger] hex_upper(n)[i] as u32;
                48 <= c <= 57 || 65 <= c <= 70
            },
{
    lemma_numeral_digits(n, 16);
    assert forall|i: int| 0 <= i < hex_upper(n).len() implies {
        let c = #[trigger] hex_upper(n)[i] as u32;
        48 <= c <= 57 || 65 <= c <= 70
    } by {
        assert(is_digit_char(numeral(n, 16)[i], 16));
    }
}

/// Appends one character (`String::push`).
#[verifier::external_body]
pub fn push_char(s: &mut String, c: char)
    ensures
        final(s)@ == old(s)@.push(c),
{
    s.push(c)
}

fn digit(d: u32) -> (c: char)
    requires
        d < 16,
    ensures
        c == digit_char(d as nat),
{
    if d < 10 {
        (48u8 + d as u8) as char
    } else {
        (55u8 + d as u8) as char
    }
}

/// Appends the numeral of `n` in base `base`.
pub fn push_numeral(s: &mut String, n: u32, base: u32)
    requires
        2 <= base <= 16,
    ensures
        final(s)@ == old(s)@ + numeral(n as nat, base as nat),
    decreases n,
{
    let ghost before = s@;
    if n >= base {
        assert(n / base < n) by (nonlinear_arith)
            requires
                n >= base >= 2,
        ;
        push_numeral(s, n / base, base);
    }
    let d = digit(n % base);
    push_char(s, d);
    proof {
        if n >= base {
            let q = (n / base) as nat;
            let x = numeral(q, base as nat);
            assert((before + x).push(d) =~= before + x.push(d));
        } else {
            assert(n % base == n) by (nonlinear_arith)
                requires
                    n < base,
            ;
            assert(s@ =~= before + numeral(n as nat, base as nat));
        }
    }
}

/// Appends `n` in decimal.
pub fn push_decimal(s: &mut String, n: u32)
    ensures
        final(s)@ == old(s)@ + decimal(n as nat),
{
    push_numeral(s, n, 10);
}

/// Appends `n` in upper-case hexadecimal.
pub fn push_hex(s: &mut String, n: u32)
    ensures
        final(s)@ == old(s)@ + hex_upper(n as nat),
{
    push_numeral(s, n, 16);
}

} // verus!
