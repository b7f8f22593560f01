//! Decimal rendering and parsing of node indices.
//!
//! Indices travel as decimal text: in the membership payload, in the `/info`
//! response body, and in the `/hello_from/{sender}` path. The canonical form
//! has no sign, no leading zero (except for `0` itself) and fits in a `u32`.

use vstd::prelude::*;

verus! {

pub open spec fn is_digit_char(c: char) -> bool {
    48 <= c as u32 && c as u32 <= 57
}

pub open spec fn digit_val(c: char) -> nat {
    (c as u32 - 48) as nat
}

pub open spec fn char_of_digit(d: nat) -> char {
    if d == 0 {
        '0'
    } else if d == 1 {
        '1'
    } else if d == 2 {
        '2'
    } else if d == 3 {
        '3'
    } else if d == 4 {
        '4'
    } else if d == 5 {
        '5'
    } else if d == 6 {
        '6'
    } else if d == 7 {
        '7'
    } else if d == 8 {
        '8'
    } else {
        '9'
    }
}

/// The canonical decimal digits of `n`, most significant first.
pub open spec fn u32_digits(n: nat) -> Seq<char>
    decreases n,
{
    if n < 10 {
        seq![char_of_digit(n)]
    } else {
        u32_digits(n / 10).push(char_of_digit(n % 10))
    }
}

/// The numeric value of a digit sequence, most significant first.
pub open spec fn digits_val(ds: Seq<char>) -> nat
    decreases ds.len(),
{
    if ds.len() == 0 {
        0
    } else {
        digits_val(ds.drop_last()) * 10 + digit_val(ds.last())
    }
}

pub open spec fn all_digits(ds: Seq<char>) -> bool {
    forall|i: int| 0 <= i < ds.len() ==> is_digit_char(#[trigger] ds[i])
}

pub open spec fn pow10(k: nat) -> nat
    decreases k,
{
    if k == 0 {
        1
    } else {
        10 * pow10((k - 1) as nat)
    }
}

proof fn lemma_char_digit(d: nat)
    requires
        d < 10,
    ensures
        is_digit_char(char_of_digit(d)),
        digit_val(char_of_digit(d)) == d,
        char_of_digit(d) == '0' <==> d == 0,
{
}

/// Rendering then evaluating a `u32` gives the number back.
pub proof fn lemma_u32_digits_val(n: nat)
    ensures
        digits_val(u32_digits(n)) == n,
    decreases n,
{
    if n < 10 {
        lemma_char_digit(n);
        let one = u32_digits(n);
        assert(one =~= seq![char_of_digit(n)]);
        assert(one.len() == 1);
        assert(one.last() == char_of_digit(n));
        assert(one.drop_last() =~= Seq::<char>::empty());
        assert(digits_val(one.drop_last()) == 0);
        assert(digits_val(one) == digits_val(one.drop_last()) * 10 + digit_val(one.last()));
        assert(digits_val(one) == n);
    } else {
        lemma_u32_digits_val(n / 10);
        lemma_char_digit(n % 10);
        let prefix = u32_digits(n / 10);
        let whole = prefix.push(char_of_digit(n % 10));
        assert(whole.len() == prefix.len() + 1);
        assert(whole.last() == char_of_digit(n % 10));
        assert(whole.drop_last() =~= prefix);
        assert(digits_val(whole) == digits_val(prefix) * 10 + digit_val(char_of_digit(n % 10)));
        assert(n == (n / 10) * 10 + n % 10) by (nonlinear_arith);
    }
}

/// The canonical rendering is nonempty, all digits, and has no leading zero
/// unless the number is zero.
pub proof fn lemma_u32_digits_shape(n: nat)
    ensures
        u32_digits(n).len() >= 1,
        all_digits(u32_digits(n)),
        u32_digits(n)[0] == '0' <==> n == 0,
    decreases n,
{
    if n < 10 {
        lemma_char_digit(n);
    } else {
        lemma_u32_digits_shape(n / 10);
        lemma_char_digit(n % 10);
        let prefix = u32_digits(n / 10);
        let whole = prefix.push(char_of_digit(n % 10));
        assert(whole[0] == prefix[0]);
        assert forall|i: int| 0 <= i < whole.len() implies is_digit_char(#[trigger] whole[i]) by {
            if i < prefix.len() {
                assert(whole[i] == prefix[i]);
            }
        }
    }
}

/// A number below `pow10(k)` renders in at most `k` digits.
pub proof fn lemma_u32_digits_len(n: nat, k: nat)
    requires
        1 <= k,
        n < pow10(k),
    ensures
        u32_digits(n).len() <= k,
    decreases k,
{
    if n < 10 {
    } else {
        assert(pow10(k) == 10 * pow10((k - 1) as nat));
        if k == 1 {
            assert(pow10(1) == 10);
            assert(false);
        }
        assert(n / 10 < pow10((k - 1) as nat)) by {
            let m = pow10((k - 1) as nat);
            assert(n < 10 * m);
            assert(n / 10 < m) by (nonlinear_arith)
                requires
                    n < 10 * m,
                    m >= 1,
            ;
        }
        lemma_u32_digits_len(n / 10, (k - 1) as nat);
    }
}

pub proof fn lemma_pow10_le(a: nat, b: nat)
    requires
        a <= b,
    ensures
        pow10(a) <= pow10(b),
    decreases b,
{
    if a < b {
        lemma_pow10_le(a, (b - 1) as nat);
    }
}

pub proof fn lemma_pow10_10()
    ensures
        pow10(10) == 10000000000,
{
    reveal_with_fuel(pow10, 11);
}

fn digit_char(d: u32) -> (c: char)
    requires
        d < 10,
    ensures
        c == char_of_digit(d as nat),
{
    if d == 0 {
        '0'
    } else if d == 1 {
        '1'
    } else if d == 2 {
        '2'
    } else if d == 3 {
        '3'
    } else if d == 4 {
        '4'
    } else if d == 5 {
        '5'
    } else if d == 6 {
        '6'
    } else if d == 7 {
        '7'
    } else if d == 8 {
        '8'
    } else {
        '9'
    }
}

/// The canonical decimal digits of `n`, most significant first.
pub fn u32_digits_vec(n: u32) -> (r: Vec<char>)
    ensures
        r@ == u32_digits(n as nat),
    decreases n,
{
    if n < 10 {
        let mut r: Vec<char> = Vec::new();
        r.push(digit_char(n));
        assert(r@ =~= u32_digits(n as nat));
        r
    } else {
        let mut r = u32_digits_vec(n / 10);
        r.push(digit_char(n % 10));
        r
    }
}

} // verus!
