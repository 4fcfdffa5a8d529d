//! Fixed-width rendering of numbers in bases 2 through 16: the digit
//! sequences themselves and their zero-padded forms.

use vstd::prelude::*;

use crate::text::{char_repeat, push_char};
use vstd::arithmetic::power::pow;

verus! {

/// The character for one digit value below 16; letters are upper case when
/// `upper` is set.
pub open spec fn digit_char(d: nat, upper: bool) -> char {
    if d == 0 {
        '0'
    } else if d == 1 {
        '1'
    } else if d == 2 {
        '2'
    } else if d == 3 {
        '3'
    } else if d == 4 {
        '4'
    } else if d == 5 {
        '5'
    } else if d == 6 {
        '6'
    } else if d == 7 {
        '7'
    } else if d == 8 {
        '8'
    } else if d == 9 {
        '9'
    } else if d == 10 {
        if upper { 'A' } else { 'a' }
    } else if d == 11 {
        if upper { 'B' } else { 'b' }
    } else if d == 12 {
        if upper { 'C' } else { 'c' }
    } else if d == 13 {
        if upper { 'D' } else { 'd' }
    } else if d == 14 {
        if upper { 'E' } else { 'e' }
    } else {
        if upper { 'F' } else { 'f' }
    }
}

/// The digits of `n` written in base `base`, most significant first, with no
/// leading zeros (the number zero is the single digit `0`).
pub open spec fn digits(n: nat, base: nat, upper: bool) -> Seq<char>
    decreases n,
    when 2 <= base
    via digits_decreases
{
    if n < base {
        seq![digit_char(n, upper)]
    } else {
        digits(n / base, base, upper) + seq![digit_char(n % base, upper)]
    }
}

#[via_fn]
proof fn digits_decreases(n: nat, base: nat, upper: bool) {
    assert(n >= base ==> n / base < n) by (nonlinear_arith)
        requires
            2 <= base,
    ;
}

/// How many digits `n` takes in base `base`.
pub open spec fn num_digits(n: nat, base: nat) -> nat
    decreases n,
    when 2 <= base
    via num_digits_decreases
{
    if n < base {
        1
    } else {
        1 + num_digits(n / base, base)
    }
}

#[via_fn]
proof fn num_digits_decreases(n: nat, base: nat) {
    assert(n >= base ==> n / base < n) by (nonlinear_arith)
        requires
            2 <= base,
    ;
}

pub proof fn lemma_digits_len(n: nat, base: nat, upper: bool)
    requires
        2 <= base,
    ensures
        digits(n, base, upper).len() == num_digits(n, base),
    decreases n,
{
    if n >= base {
        assert(n / base < n) by (nonlinear_arith)
            requires
                2 <= base,
                n >= base,
        ;
        lemma_digits_len(n / base, base, upper);
    }
}

/// `n` rendered in base `base`, left-padded with zeros to at least `width`
/// characters.
pub open spec fn num_text(n: nat, base: nat, upper: bool, width: nat) -> Seq<char> {
    let ds = digits(n, base, upper);
    if ds.len() >= width {
        ds
    } else {
        char_repeat('0', (width - ds.len()) as nat) + ds
    }
}

pub proof fn lemma_num_text_len(n: nat, base: nat, upper: bool, width: nat)
    requires
        2 <= base,
        num_digits(n, base) <= width,
    ensures
        num_text(n, base, upper, width).len() == width,
{
    lemma_digits_len(n, base, upper);
}

/// A digit character is never a line terminator.
pub proof fn lemma_digits_no_newline(n: nat, base: nat, upper: bool)
    requires
        2 <= base,
    ensures
        forall|i: int|
            0 <= i < digits(n, base, upper).len() ==> digits(n, base, upper)[i] != '\n',
    decreases n,
{
    let ds = digits(n, base, upper);
    if n < base {
        assert(ds[0] == digit_char(n, upper));
    } else {
        assert(n / base < n) by (nonlinear_arith)
            requires
                2 <= base,
                n >= base,
        ;
        lemma_digits_no_newline(n / base, base, upper);
        let head = digits(n / base, base, upper);
        assert forall|i: int| 0 <= i < ds.len() implies ds[i] != '\n' by {
            if i < head.len() {
                assert(ds[i] == head[i]);
            } else {
                assert(ds[i] == digit_char(n % base, upper));
            }
        }
    }
}

/// A zero-padded number holds digit characters only, never a line
/// terminator.
pub proof fn lemma_num_text_no_newline(n: nat, base: nat, upper: bool, width: nat)
    requires
        2 <= base,
    ensures
        forall|i: int|
            0 <= i < num_text(n, base, upper, width).len() ==> num_text(n, base, upper, width)[i]
                != '\n',
{
    lemma_digits_no_newline(n, base, upper);
}

/// Stepping an index forward moves its quotient by a divisor up by one
/// exactly when the step reaches a multiple of the divisor.
pub proof fn lemma_div_succ(i: nat, g: nat)
    requires
        1 <= g,
    ensures
        (i + 1) % g == 0 ==> (i + 1) / g == i / g + 1,
        (i + 1) % g != 0 ==> (i + 1) / g == i / g,
{
    let q = (i as int) / (g as int);
    let r = (i as int) % (g as int);
    vstd::arithmetic::div_mod::lemma_fundamental_div_mod(i as int, g as int);
    vstd::arithmetic::div_mod::lemma_mod_division_less_than_divisor(i as int, g as int);
    assert(q * (g as int) == (g as int) * q) by (nonlinear_arith);
    if r + 1 < g {
        vstd::arithmetic::div_mod::lemma_fundamental_div_mod_converse(
            i as int + 1,
            g as int,
            q,
            r + 1,
        );
    } else {
        assert((q + 1) * (g as int) == q * (g as int) + g) by (nonlinear_arith);
        vstd::arithmetic::div_mod::lemma_fundamental_div_mod_converse(
            i as int + 1,
            g as int,
            q + 1,
            0,
        );
    }
}

/// Numbers below `base^w` take at most `w` digits.
pub proof fn lemma_num_digits_le(n: nat, base: nat, w: nat)
    requires
        2 <= base,
        1 <= w,
        n < pow(base as int, w),
    ensures
        num_digits(n, base) <= w,
    decreases w,
{
    if n >= base {
        assert(pow(base as int, 1) == base) by {
            reveal_with_fuel(pow, 2);
        }
        if w == 1 {
            assert(false);
        }
        assert(pow(base as int, w) == base * pow(base as int, (w - 1) as nat)) by {
            reveal_with_fuel(pow, 2);
        }
        vstd::arithmetic::div_mod::lemma_multiply_divide_lt(
            n as int,
            base as int,
            pow(base as int, (w - 1) as nat),
        );
        assert(n / base < pow(base as int, (w - 1) as nat));
        assert(n / base < n) by (nonlinear_arith)
            requires
                2 <= base,
                n >= base,
        ;
        lemma_num_digits_le(n / base, base, (w - 1) as nat);
    }
}

/// The exact character for an executable digit value.
fn digit_to_char(d: usize, upper: bool) -> (c: char)
    requires
        d < 16,
    ensures
        c == digit_char(d as nat, upper),
{
    if d == 0 {
        '0'
    } else if d == 1 {
        '1'
    } else if d == 2 {
        '2'
    } else if d == 3 {
        '3'
    } else if d == 4 {
        '4'
    } else if d == 5 {
        '5'
    } else if d == 6 {
        '6'
    } else if d == 7 {
        '7'
    } else if d == 8 {
        '8'
    } else if d == 9 {
        '9'
    } else if d == 10 {
        if upper { 'A' } else { 'a' }
    } else if d == 11 {
        if upper { 'B' } else { 'b' }
    } else if d == 12 {
        if upper { 'C' } else { 'c' }
    } else if d == 13 {
        if upper { 'D' } else { 'd' }
    } else if d == 14 {
        if upper { 'E' } else { 'e' }
    } else {
        if upper { 'F' } else { 'f' }
    }
}

/// Appends the digits of `n` in base `base` to `out`.
pub fn push_digits(out: &mut String, n: usize, base: usize, upper: bool)
    requires
        2 <= base <= 16,
    ensures
        final(out)@ == old(out)@ + digits(n as nat, base as nat, upper),
    decreases n,
{
    if n >= base {
        proof {
            assert(n / base < n) by (nonlinear_arith)
                requires
                    2 <= base,
                    n >= base,
            ;
        }
        push_digits(out, n / base, base, upper);
        let c = digit_to_char(n % base, upper);
        push_char(out, c);
        proof {
            assert(out@ =~= old(out)@ + digits(n as nat, base as nat, upper));
        }
    } else {
        let c = digit_to_char(n, upper);
        push_char(out, c);
        proof {
            assert(out@ =~= old(out)@ + digits(n as nat, base as nat, upper));
        }
    }
}

pub proof fn lemma_num_digits_bound(n: nat, base: nat)
    requires
        2 <= base,
    ensures
        num_digits(n, base) <= n + 1,
    decreases n,
{
    if n >= base {
        assert(n / base < n && n / base <= n - 1) by (nonlinear_arith)
            requires
                2 <= base,
                n >= base,
        ;
        lemma_num_digits_bound(n / base, base);
    }
}

/// Counts the digits of `n` in base `base`.
pub fn count_digits(n: usize, base: usize) -> (r: usize)
    requires
        2 <= base <= 16,
    ensures
        r as nat == num_digits(n as nat, base as nat),
        1 <= r,
    decreases n,
{
    if n < base {
        1
    } else {
        proof {
            assert(n / base < n && n / base <= n / 2) by (nonlinear_arith)
                requires
                    2 <= base,
                    n >= base,
            ;
            lemma_num_digits_bound((n / base) as nat, base as nat);
        }
        let rest = count_digits(n / base, base);
        1 + rest
    }
}

/// Appends `n` in base `base`, zero-padded to at least `width` characters.
pub fn push_number(out: &mut String, n: usize, base: usize, upper: bool, width: usize)
    requires
        2 <= base <= 16,
    ensures
        final(out)@ == old(out)@ + num_text(n as nat, base as nat, upper, width as nat),
{
    let count = count_digits(n, base);
    proof {
        lemma_digits_len(n as nat, base as nat, upper);
    }
    let mut k: usize = count;
    while k < width
        invariant
            count <= k <= width || (count == k && k >= width),
            count as nat == digits(n as nat, base as nat, upper).len(),
            out@ == old(out)@ + char_repeat('0', (k - count) as nat),
        decreases width - k,
    {
        push_char(out, '0');
        proof {
            assert(out@ =~= old(out)@ + char_repeat('0', (k + 1 - count) as nat));
        }
        k = k + 1;
    }
    push_digits(out, n, base, upper);
    proof {
        assert(out@ =~= old(out)@ + num_text(n as nat, base as nat, upper, width as nat));
    }
}

} // verus!
