//! Decimal rendering of integers, appended to a `String`.

use vstd::prelude::*;

verus! {

/// The ASCII character of a decimal digit `d < 10`.
pub open spec fn digit_char(d: nat) -> char {
    (48 + d) as char
}

/// Decimal digits of a natural number, most significant first, with no
/// leading zero (zero itself is `"0"`).
pub open spec fn unsigned_decimal(n: nat) -> Seq<char>
    decreases n,
{
    if n < 10 {
        seq![digit_char(n)]
    } else {
        unsigned_decimal(n / 10).push(digit_char(n % 10))
    }
}

/// Decimal rendering of an integer: a leading `'-'` for negative values,
/// as `{}` formats Rust integers.
pub open spec fn decimal(v: int) -> Seq<char> {
    if v < 0 {
        seq!['-'] + unsigned_decimal((-v) as nat)
    } else {
        unsigned_decimal(v as nat)
    }
}

/// Every rendering holds at least one character.
pub proof fn lemma_decimal_nonempty(v: int)
    ensures
        decimal(v).len() >= 1,
{
    lemma_unsigned_decimal_nonempty(if v < 0 { -v } else { v } as nat);
}

proof fn lemma_unsigned_decimal_nonempty(n: nat)
    ensures
        unsigned_decimal(n).len() >= 1,
    decreases n,
{
    if n >= 10 {
        lemma_unsigned_decimal_nonempty(n / 10);
    }
}

/// The number that a string of decimal digits denotes, most significant
/// digit first.
pub open spec fn digits_value(s: Seq<char>) -> int
    decreases s.len(),
{
    if s.len() == 0 {
        0
    } else {
        digits_value(s.drop_last()) * 10 + (s.last() as int - 48)
    }
}

/// The rendering of `n` is made of decimal digits, denotes `n`, and starts
/// with a zero only for zero itself.
pub proof fn lemma_unsigned_decimal_denotes(n: nat)
    ensures
        forall|i: int|
            0 <= i < unsigned_decimal(n).len() ==> 48 <= #[trigger] unsigned_decimal(n)[i] as int
                <= 57,
        digits_value(unsigned_decimal(n)) == n,
        n > 0 ==> unsigned_decimal(n)[0] != '0',
    decreases n,
{
    if n < 10 {
        assert(digit_char(n) as int == 48 + n);
        let s = unsigned_decimal(n);
        assert(s.drop_last() =~= Seq::<char>::empty());
        assert(digits_value(s) == digits_value(s.drop_last()) * 10 + (s.last() as int - 48));
        assert(digits_value(s.drop_last()) == 0);
    } else {
        lemma_unsigned_decimal_denotes(n / 10);
        lemma_unsigned_decimal_nonempty(n / 10);
        let prev = unsigned_decimal(n / 10);
        assert(digit_char(n % 10) as int == 48 + n % 10);
        let s = unsigned_decimal(n);
        assert(s.drop_last() =~= prev);
        assert(s.last() == digit_char(n % 10));
        assert(digits_value(s) == digits_value(prev) * 10 + (s.last() as int - 48));
        assert(n == (n / 10) * 10 + n % 10) by (nonlinear_arith);
        assert(unsigned_decimal(n)[0] == prev[0]);
    }
}

/// Distinct natural numbers have distinct renderings.
pub proof fn lemma_unsigned_decimal_injective(a: nat, b: nat)
    requires
        a != b,
    ensures
        unsigned_decimal(a) != unsigned_decimal(b),
    decreases a + b,
{
    if a >= 10 {
        lemma_unsigned_decimal_nonempty(a / 10);
    }
    if b >= 10 {
        lemma_unsigned_decimal_nonempty(b / 10);
    }
    if a >= 10 && b >= 10 {
        if a / 10 != b / 10 {
            lemma_unsigned_decimal_injective(a / 10, b / 10);
            if unsigned_decimal(a) == unsigned_decimal(b) {
                assert(unsigned_decimal(a).drop_last() =~= unsigned_decimal(a / 10));
                assert(unsigned_decimal(b).drop_last() =~= unsigned_decimal(b / 10));
            }
        } else {
            assert(a % 10 != b % 10);
            if unsigned_decimal(a) == unsigned_decimal(b) {
                assert(unsigned_decimal(a).last() == digit_char(a % 10));
                assert(unsigned_decimal(b).last() == digit_char(b % 10));
                assert(digit_char(a % 10) as int == 48 + a % 10);
                assert(digit_char(b % 10) as int == 48 + b % 10);
            }
        }
    } else if a < 10 && b < 10 {
        if unsigned_decimal(a) == unsigned_decimal(b) {
            assert(unsigned_decimal(a)[0] == digit_char(a));
            assert(unsigned_decimal(b)[0] == digit_char(b));
            assert(digit_char(a) as int == 48 + a);
            assert(digit_char(b) as int == 48 + b);
        }
    } else if a < 10 {
        assert(unsigned_decimal(a).len() == 1);
        assert(unsigned_decimal(b).len() == unsigned_decimal(b / 10).len() + 1);
    } else {
        assert(unsigned_decimal(b).len() == 1);
        assert(unsigned_decimal(a).len() == unsigned_decimal(a / 10).len() + 1);
    }
}

/// Appends `c` to `s` with `String::push`, which std documents as appending
/// the character to the end of the string: the contract claims that the
/// characters of `s` gain exactly `c` at their end.
#[verifier::external_body]
pub(crate) fn push_char(s: &mut String, c: char)
    ensures
        final(s)@ == old(s)@.push(c),
{
    s.push(c);
}

fn digit(d: u64) -> (c: char)
    requires
        d < 10,
    ensures
        c == digit_char(d as nat),
{
    let b: u8 = 48u8 + d as u8;
    b as char
}

/// Appends the decimal digits of `n`.
pub fn push_unsigned(s: &mut String, n: u64)
    ensures
        final(s)@ == old(s)@ + unsigned_decimal(n as nat),
    decreases n,
{
    if n >= 10 {
        push_unsigned(s, n / 10);
    }
    push_char(s, digit(n % 10));
    assert(s@ =~= old(s)@ + unsigned_decimal(n as nat));
}

/// Appends the decimal rendering of `v`.
pub fn push_signed(s: &mut String, v: i64)
    ensures
        final(s)@ == old(s)@ + decimal(v as int),
{
    if v < 0 {
        push_char(s, '-');
        let m: u64 = (-(v + 1)) as u64 + 1;
        push_unsigned(s, m);
        assert(s@ =~= old(s)@ + decimal(v as int));
    } else {
        push_unsigned(s, v as u64);
    }
}

/// Appends the decimal digits of `n`.
pub fn push_usize(s: &mut String, n: usize)
    ensures
        final(s)@ == old(s)@ + decimal(n as int),
{
    push_unsigned(s, n as u64);
}

} // verus!
