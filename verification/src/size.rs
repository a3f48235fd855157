//! Sizes in words: bytes, and kilobytes and more with one or two decimals.
use vstd::prelude::*;
use crate::text::{decimal, digit, digit_value, number_in, push_decimal};

verus! {

/// `n / d`, rounded to the nearest whole number, and to the even one of two that are as near.
pub open spec fn half_even(n: nat, d: nat) -> nat {
    let q = n / d;
    let r = n % d;
    if 2 * r > d || (2 * r == d && q % 2 == 1) {
        q + 1
    } else {
        q
    }
}

/// The distance of the numbers with 53 binary digits next to `n`, from `step` on.
pub open spec fn double_step(n: nat, step: nat) -> nat
    decreases n - step,
{
    if step == 0 || n < step * 0x20_0000_0000_0000 {
        step
    } else {
        double_step(n, 2 * step)
    }
}

/// The number of at most 53 binary digits (and zeros behind them) that is nearest to `n`.
pub open spec fn as_double(n: nat) -> nat {
    half_even(n, double_step(n, 1)) * double_step(n, 1)
}

/// A number of tenths, with its decimal.
pub open spec fn tenths(t: nat) -> Seq<char> {
    decimal(t / 10) + "."@ + seq![digit(t % 10)]
}

/// A number of hundredths, with its decimals.
pub open spec fn hundredths(h: nat) -> Seq<char> {
    decimal(h / 100) + "."@ + seq![digit(h / 10 % 10)] + seq![digit(h % 10)]
}

/// A size in words. From one gigabyte on it counts in double precision.
pub open spec fn size_text(n: nat) -> Seq<char> {
    if n < 1024 {
        decimal(n) + " B"@
    } else if n < 1_048_576 {
        tenths(half_even(n * 10, 1024)) + " KB"@
    } else if n < 1_073_741_824 {
        tenths(half_even(n * 10, 1_048_576)) + " MB"@
    } else {
        hundredths(half_even(as_double(n) * 100, 1_073_741_824)) + " GB"@
    }
}

/// A rounded quotient is at most half a unit off.
pub proof fn law_rounding_is_nearest(n: nat, d: nat)
    requires
        d > 0,
    ensures
        2 * (half_even(n, d) * d - n) <= d,
        2 * (n - half_even(n, d) * d) <= d,
{
    let q = n / d;
    assert(n == q * d + n % d) by (nonlinear_arith)
        requires
            d > 0,
            q == n / d,
    ;
    assert((q + 1) * d == q * d + d) by (nonlinear_arith);
}

/// Numbers with at most 53 binary digits are exact in double precision.
pub proof fn law_small_numbers_are_exact(n: nat)
    requires
        n < 0x20_0000_0000_0000,
    ensures
        as_double(n) == n,
{
    assert(double_step(n, 1) == 1);
    assert(n / 1 == n && n % 1 == 0) by (nonlinear_arith);
    assert(half_even(n, 1) == n);
}

fn divide_half_even(n: u128, d: u128) -> (r: u128)
    requires
        0 < d <= 0x1_0000_0000_0000_0000,
        n <= 0x100_0000_0000_0000_0000_0000,
    ensures
        r == half_even(n as nat, d as nat),
        r <= n / d + 1,
{
    let q = n / d;
    let r = n % d;
    assert(q <= n) by (nonlinear_arith)
        requires
            q == n / d,
            d > 0,
    ;
    if 2 * r > d || (2 * r == d && q % 2 == 1) {
        q + 1
    } else {
        q
    }
}

fn nearest_double(n: u64) -> (r: u128)
    ensures
        r == as_double(n as nat),
        r <= n + 4096,
{
    let n = n as u128;
    let mut step: u128 = 1;
    while n >= step * 0x20_0000_0000_0000
        invariant
            n <= u64::MAX,
            1 <= step <= 4094,
            double_step(n as nat, 1) == double_step(n as nat, step as nat),
        decreases 8192 - step,
    {
        step = step * 2;
    }
    let q = divide_half_even(n, step);
    proof {
        law_rounding_is_nearest(n as nat, step as nat);
    }
    assert(q * step <= n + step);
    q * step
}

fn push_tenths(s: &mut String, t: u64)
    ensures
        final(s)@ == old(s)@ + tenths(t as nat),
{
    let ghost before = s@;
    push_decimal(s, t / 10);
    s.append(".");
    s.push((48 + (t % 10) as u8) as char);
    assert(s@ =~= before + tenths(t as nat));
}

/// A size in words.
pub fn format_size(size: u64) -> (r: String)
    ensures
        r@ == size_text(size as nat),
{
    let mut s = String::new();
    if size < 1024 {
        push_decimal(&mut s, size);
        s.append(" B");
        assert(s@ =~= size_text(size as nat));
    } else if size < 1_048_576 {
        let t = divide_half_even(size as u128 * 10, 1024) as u64;
        push_tenths(&mut s, t);
        s.append(" KB");
        assert(s@ =~= size_text(size as nat));
    } else if size < 1_073_741_824 {
        let t = divide_half_even(size as u128 * 10, 1_048_576) as u64;
        push_tenths(&mut s, t);
        s.append(" MB");
        assert(s@ =~= size_text(size as nat));
    } else {
        let h = divide_half_even(nearest_double(size) * 100, 1_073_741_824) as u64;
        push_decimal(&mut s, h / 100);
        s.append(".");
        s.push((48 + (h / 10 % 10) as u8) as char);
        s.push((48 + (h % 10) as u8) as char);
        s.append(" GB");
        assert(s@ =~= size_text(size as nat));
    }
    s
}

// ---------------------------------------------------------------- what sizes say

/// `t` is `n / d`, rounded to the nearest whole number, and to the even one of two that are as
/// near.
pub open spec fn is_rounded(t: nat, n: nat, d: nat) -> bool {
    &&& 2 * (t * d - n) <= d
    &&& 2 * (n - t * d) <= d
    &&& 2 * (t * d - n) == d || 2 * (n - t * d) == d ==> t % 2 == 0
}

proof fn lemma_half_even_is_rounded(n: nat, d: nat)
    requires
        d > 0,
    ensures
        is_rounded(half_even(n, d), n, d),
{
    law_rounding_is_nearest(n, d);
    let q = n / d;
    assert(n == q * d + n % d) by (nonlinear_arith)
        requires
            d > 0,
            q == n / d,
    ;
    assert((q + 1) * d == q * d + d) by (nonlinear_arith);
}

/// The text is a whole number, a point, and `places` digits, which write `t` of the units that
/// the last digit counts, and then the unit.
pub open spec fn writes_with_decimals(text: Seq<char>, t: nat, places: nat, unit: Seq<char>) -> bool {
    let point = text.len() - unit.len() - places - 1;
    &&& point > 0
    &&& text[point] == '.'
    &&& text.skip(text.len() - unit.len()) == unit
    &&& number_in(10, text.take(point) + text.subrange(point + 1, text.len() - unit.len())) == t
    &&& point > 1 ==> text[0] != '0'
    &&& forall|i: int|
        0 <= i < text.len() - unit.len() && i != point ==> '0' <= #[trigger] text[i] && text[i]
            <= '9'
}

proof fn lemma_tenths_are_written(t: nat, unit: Seq<char>)
    ensures
        writes_with_decimals(tenths(t) + unit, t, 1, unit),
{
    reveal_strlit(".");
    let whole = decimal(t / 10);
    crate::text::law_decimal_is_the_number(t / 10);
    let text = tenths(t) + unit;
    let point = whole.len() as int;
    assert(text.skip(text.len() - unit.len()) =~= unit);
    let digits = text.take(point) + text.subrange(point + 1, text.len() - unit.len());
    assert(digits =~= whole.push(digit(t % 10)));
    assert(digits.drop_last() =~= whole);
    assert(digit_value(digit(t % 10)) == t % 10);
    assert forall|i: int| 0 <= i < text.len() - unit.len() && i != point implies '0'
        <= #[trigger] text[i] && text[i] <= '9' by {
        if i < point {
            assert(text[i] == whole[i]);
        }
    }
}

proof fn lemma_hundredths_are_written(h: nat, unit: Seq<char>)
    ensures
        writes_with_decimals(hundredths(h) + unit, h, 2, unit),
{
    reveal_strlit(".");
    let whole = decimal(h / 100);
    crate::text::law_decimal_is_the_number(h / 100);
    let text = hundredths(h) + unit;
    let point = whole.len() as int;
    assert(text.skip(text.len() - unit.len()) =~= unit);
    let digits = text.take(point) + text.subrange(point + 1, text.len() - unit.len());
    let front = whole.push(digit(h / 10 % 10));
    assert(digits =~= front.push(digit(h % 10)));
    assert(digits.drop_last() =~= front);
    assert(front.drop_last() =~= whole);
    assert(digit_value(digit(h / 10 % 10)) == h / 10 % 10);
    assert(digit_value(digit(h % 10)) == h % 10);
    assert(number_in(10, front) == h / 100 * 10 + h / 10 % 10);
    assert(number_in(10, digits) == h);
    assert forall|i: int| 0 <= i < text.len() - unit.len() && i != point implies '0'
        <= #[trigger] text[i] && text[i] <= '9' by {
        if i < point {
            assert(text[i] == whole[i]);
        }
    }
}

/// A size is written in bytes below 1024, in kilobytes below 1048576, in megabytes below
/// 1073741824, and in gigabytes from there on: the nearest number with one decimal, and in
/// gigabytes with two. From 9007199254740992 bytes on, the size is first rounded to as many
/// binary digits as that number has.
pub proof fn law_size_is_written_to_the_nearest(n: nat)
    ensures
        n < 1024 ==> size_text(n) == decimal(n) + " B"@,
        1024 <= n < 1_048_576 ==> exists|t: nat|
            is_rounded(t, n * 10, 1024) && #[trigger] writes_with_decimals(
                size_text(n),
                t,
                1,
                " KB"@,
            ),
        1_048_576 <= n < 1_073_741_824 ==> exists|t: nat|
            is_rounded(t, n * 10, 1_048_576) && #[trigger] writes_with_decimals(
                size_text(n),
                t,
                1,
                " MB"@,
            ),
        1_073_741_824 <= n < 0x20_0000_0000_0000 ==> exists|t: nat|
            is_rounded(t, n * 100, 1_073_741_824) && #[trigger] writes_with_decimals(
                size_text(n),
                t,
                2,
                " GB"@,
            ),
        0x20_0000_0000_0000 <= n ==> exists|t: nat|
            is_rounded(t, as_double(n) * 100, 1_073_741_824) && #[trigger] writes_with_decimals(
                size_text(n),
                t,
                2,
                " GB"@,
            ),
{
    if 1024 <= n < 1_048_576 {
        let t = half_even(n * 10, 1024);
        lemma_half_even_is_rounded(n * 10, 1024);
        lemma_tenths_are_written(t, " KB"@);
        assert(writes_with_decimals(size_text(n), t, 1, " KB"@));
    } else if 1_048_576 <= n < 1_073_741_824 {
        let t = half_even(n * 10, 1_048_576);
        lemma_half_even_is_rounded(n * 10, 1_048_576);
        lemma_tenths_are_written(t, " MB"@);
        assert(writes_with_decimals(size_text(n), t, 1, " MB"@));
    } else if 1_073_741_824 <= n {
        if n < 0x20_0000_0000_0000 {
            law_small_numbers_are_exact(n);
        }
        let t = half_even(as_double(n) * 100, 1_073_741_824);
        lemma_half_even_is_rounded(as_double(n) * 100, 1_073_741_824);
        lemma_hundredths_are_written(t, " GB"@);
        assert(writes_with_decimals(size_text(n), t, 2, " GB"@));
    }
}

/// In double precision a number keeps its 53 highest binary digits: it is rounded to a multiple
/// of the power of two that leaves so many, and changes by at most half of it.
pub proof fn law_doubles_keep_53_digits(n: nat)
    requires
        n <= u64::MAX,
    ensures
        exists|k: nat|
            k <= 11 && ({
                let step = #[trigger] vstd::arithmetic::power2::pow2(k);
                &&& n < step * 0x20_0000_0000_0000
                &&& k > 0 ==> n >= step * 0x10_0000_0000_0000
                &&& as_double(n) % step == 0
                &&& is_rounded(as_double(n) / step, n, step)
            }),
{
    let k = lemma_double_step(n, 0);
    let step = vstd::arithmetic::power2::pow2(k);
    vstd::arithmetic::power2::lemma2_to64();
    vstd::arithmetic::power2::lemma_pow2_pos(k);
    assert(double_step(n, 1) == step);
    let q = half_even(n, step);
    lemma_half_even_is_rounded(n, step);
    assert(as_double(n) == q * step);
    vstd::arithmetic::div_mod::lemma_mod_multiples_basic(q as int, step as int);
    vstd::arithmetic::div_mod::lemma_div_by_multiple(q as int, step as int);
}

proof fn lemma_double_step(n: nat, j: nat) -> (k: nat)
    requires
        n <= u64::MAX,
        j <= 11,
        j > 0 ==> n >= vstd::arithmetic::power2::pow2(j) * 0x10_0000_0000_0000,
    ensures
        k <= 11,
        double_step(n, vstd::arithmetic::power2::pow2(j)) == vstd::arithmetic::power2::pow2(k),
        n < vstd::arithmetic::power2::pow2(k) * 0x20_0000_0000_0000,
        k > 0 ==> n >= vstd::arithmetic::power2::pow2(k) * 0x10_0000_0000_0000,
    decreases 11 - j,
{
    let step = vstd::arithmetic::power2::pow2(j);
    vstd::arithmetic::power2::lemma_pow2_pos(j);
    vstd::arithmetic::power2::lemma2_to64();
    if n < step * 0x20_0000_0000_0000 {
        j
    } else {
        vstd::arithmetic::power2::lemma_pow2_unfold(j + 1);
        lemma_double_step(n, j + 1)
    }
}

} // verus!
