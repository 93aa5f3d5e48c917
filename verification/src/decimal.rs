//! Decimal rendering of the disambiguation counter, with the two facts the
//! alias suggester needs: the digits are digits, and distinct counter values
//! render distinctly.

use vstd::prelude::*;

verus! {

use crate::text::is_digit_char;

/// The character for one decimal digit.
pub open spec fn digit_char(d: nat) -> char {
    ((48 + d) as u8) as char
}

/// The usual base-10 rendering of `n`, most significant digit first, no
/// leading zeros (except for `n == 0` itself).
pub open spec fn sp_decimal(n: nat) -> Seq<char>
    decreases n,
{
    if n < 10 {
        seq![digit_char(n)]
    } else {
        sp_decimal(n / 10).push(digit_char(n % 10))
    }
}

/// Reads a digit string back as a number; left inverse of `sp_decimal`.
pub open spec fn sp_undecimal(s: Seq<char>) -> int
    decreases s.len(),
{
    if s.len() == 0 {
        0
    } else {
        sp_undecimal(s.drop_last()) * 10 + (s.last() as u32 - 48)
    }
}

/// A rendering is non-empty and consists of decimal digits only.
pub proof fn lemma_decimal_digits(n: nat)
    ensures
        sp_decimal(n).len() > 0,
        forall|j: int| 0 <= j < sp_decimal(n).len() ==> is_digit_char(#[trigger] sp_decimal(n)[j]),
    decreases n,
{
    if n < 10 {
        assert(is_digit_char(digit_char(n)));
    } else {
        lemma_decimal_digits(n / 10);
        assert(is_digit_char(digit_char(n % 10)));
    }
}

/// Rendering then reading back returns the value.
pub proof fn lemma_decimal_undecimal(n: nat)
    ensures
        sp_undecimal(sp_decimal(n)) == n,
    decreases n,
{
    if n < 10 {
        assert(sp_undecimal(Seq::<char>::empty()) == 0);
        assert(sp_decimal(n).drop_last() =~= Seq::<char>::empty());
        assert(digit_char(n) as u32 == 48 + n);
        assert(sp_undecimal(sp_decimal(n)) == 0 * 10 + (digit_char(n) as u32 - 48));
    } else {
        lemma_decimal_undecimal(n / 10);
        assert(sp_decimal(n).drop_last() =~= sp_decimal(n / 10));
        assert(digit_char(n % 10) as u32 == 48 + n % 10);
        assert(sp_undecimal(sp_decimal(n)) == sp_undecimal(sp_decimal(n / 10)) * 10 + (
        digit_char(n % 10) as u32 - 48));
        assert((n / 10) * 10 + n % 10 == n) by {
            vstd::arithmetic::div_mod::lemma_fundamental_div_mod(n as int, 10);
        }
    }
}

/// Distinct values render distinctly.
pub proof fn lemma_decimal_injective(a: nat, b: nat)
    requires
        a != b,
    ensures
        sp_decimal(a) != sp_decimal(b),
{
    if sp_decimal(a) == sp_decimal(b) {
        lemma_decimal_undecimal(a);
        lemma_decimal_undecimal(b);
    }
}

/// Renders `n` in base 10.
pub fn u128_to_decimal(n: u128) -> (r: String)
    ensures
        r@ == sp_decimal(n as nat),
{
    let mut digits: Vec<char> = Vec::new();
    let mut m = n;
    proof {
        assert(digits@.reverse() =~= Seq::<char>::empty());
        assert(sp_decimal(n as nat) =~= sp_decimal(m as nat) + digits@.reverse());
    }
    while m >= 10
        invariant
            sp_decimal(n as nat) == sp_decimal(m as nat) + digits@.reverse(),
        decreases m,
    {
        let d: u8 = (m % 10) as u8;
        let c = (48 + d) as char;
        proof {
            assert(c == digit_char((m % 10) as nat));
            assert(digits@.push(c).reverse() =~= seq![c] + digits@.reverse());
            assert(sp_decimal((m / 10) as nat) + digits@.push(c).reverse() =~= sp_decimal(
                m as nat,
            ) + digits@.reverse());
        }
        digits.push(c);
        m = m / 10;
    }
    let d: u8 = (m % 10) as u8;
    let c = (48 + d) as char;
    proof {
        assert(c == digit_char(m as nat));
        assert(sp_decimal(m as nat) =~= seq![c]);
        assert(digits@.push(c).reverse() =~= seq![c] + digits@.reverse());
        assert(sp_decimal(n as nat) =~= digits@.push(c).reverse());
    }
    digits.push(c);
    let mut r = String::new();
    let mut i = digits.len();
    proof {
        assert(r@ =~= digits@.subrange(i as int, digits@.len() as int).reverse());
    }
    while i > 0
        invariant
            0 <= i <= digits@.len(),
            r@ == digits@.subrange(i as int, digits@.len() as int).reverse(),
        decreases i,
    {
        i = i - 1;
        r.push(digits[i]);
        proof {
            assert(r@ =~= digits@.subrange(i as int, digits@.len() as int).reverse());
        }
    }
    proof {
        assert(digits@.subrange(0, digits@.len() as int) =~= digits@);
        assert(r@ =~= sp_decimal(n as nat));
    }
    r
}

} // verus!
