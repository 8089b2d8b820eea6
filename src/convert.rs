use vstd::prelude::*;
use vstd::arithmetic::power2::pow2;
use vstd::string::StringExecFns;
use vstd::utf8::is_ascii_chars;
use crate::fraction::BinaryFraction;
use crate::power::pow2_u128;

verus! {

/// The largest number of fractional digits a conversion produces.
pub const MAX_DIGITS: u32 = 8;

/// `x * 2^i`, as a numerator over `x.denom()`.
pub open spec fn scaled(x: BinaryFraction, i: nat) -> int {
    x.mantissa * pow2(i)
}

/// The integer part of `x * 2^i`: the first `i` binary digits of `x`.
pub open spec fn leading(x: BinaryFraction, i: nat) -> nat {
    (scaled(x, i) / x.denom() as int) as nat
}

/// `x * 2^i` is an integer: nothing of `x` is left after `i` binary digits.
pub open spec fn exact_after(x: BinaryFraction, i: nat) -> bool {
    scaled(x, i) % x.denom() as int == 0
}

/// The number of digits produced when the first `i - 1` digits left a remainder.
pub open spec fn digit_count_from(x: BinaryFraction, i: nat) -> nat
    decreases MAX_DIGITS - i,
{
    if i >= MAX_DIGITS || exact_after(x, i) {
        i
    } else {
        digit_count_from(x, i + 1)
    }
}

/// The number of digits produced for `x`: the first `i` after which nothing is
/// left, or `MAX_DIGITS` when there is none. For a value in `[0, 1)` this is
/// zero only for zero itself.
pub open spec fn digit_count(x: BinaryFraction) -> nat {
    digit_count_from(x, 0)
}

/// The `len` lowest binary digits of `n`, most significant first.
pub open spec fn bits_of(n: nat, len: nat) -> Seq<char>
    decreases len,
{
    if len == 0 {
        Seq::empty()
    } else {
        bits_of(n / 2, (len - 1) as nat).push(if n % 2 == 1 { '1' } else { '0' })
    }
}

/// The digits after the point: `x` truncated to `digit_count(x)` binary places.
pub open spec fn binary_digits(x: BinaryFraction) -> Seq<char> {
    bits_of(leading(x, digit_count(x)), digit_count(x))
}

/// `"0."` followed by the binary digits of `x`.
pub open spec fn binary_string(x: BinaryFraction) -> Seq<char> {
    seq!['0', '.'] + binary_digits(x)
}

/// Before any digit, nothing is left exactly when the value is zero.
proof fn lemma_zero_place(x: BinaryFraction)
    requires
        x.wf(),
    ensures
        exact_after(x, 0) <==> x.mantissa == 0,
        leading(x, 0) == 0,
{
    vstd::arithmetic::power2::lemma2_to64();
    vstd::arithmetic::power2::lemma_pow2_pos(x.scale as nat);
    assert(scaled(x, 0) == x.mantissa);
    vstd::arithmetic::div_mod::lemma_small_mod(x.mantissa as nat, x.denom());
    vstd::arithmetic::div_mod::lemma_basic_div(x.mantissa as int, x.denom() as int);
}

proof fn lemma_exact_when_scale_small(x: BinaryFraction, i: nat)
    requires
        x.scale <= i,
    ensures
        exact_after(x, i),
{
    let k = (i - x.scale) as nat;
    vstd::arithmetic::power2::lemma_pow2_adds(x.scale as nat, k);
    vstd::arithmetic::power2::lemma_pow2_pos(x.scale as nat);
    assert(scaled(x, i) == (x.mantissa * pow2(k)) * x.denom()) by (nonlinear_arith)
        requires
            scaled(x, i) == x.mantissa * pow2(i),
            pow2(i) == pow2(x.scale as nat) * pow2(k),
            x.denom() == pow2(x.scale as nat),
    ;
    vstd::arithmetic::div_mod::lemma_mod_multiples_basic(
        x.mantissa * pow2(k) as int,
        x.denom() as int,
    );
}

/// With `i <= scale`, the first `i` digits and what is left after them can be
/// read from the mantissa shifted right by `scale - i` places.
proof fn lemma_shifted(x: BinaryFraction, i: nat)
    requires
        i <= x.scale,
    ensures
        leading(x, i) == x.mantissa as nat / pow2((x.scale - i) as nat),
        exact_after(x, i) <==> x.mantissa as nat % pow2((x.scale - i) as nat) == 0,
{
    let k = (x.scale - i) as nat;
    let a = pow2(i) as int;
    let b = pow2(k) as int;
    let m = x.mantissa as int;
    vstd::arithmetic::power2::lemma_pow2_adds(i, k);
    vstd::arithmetic::power2::lemma_pow2_pos(i);
    vstd::arithmetic::power2::lemma_pow2_pos(k);
    assert(i + k == x.scale as nat);
    assert(x.denom() == a * b);
    assert(scaled(x, i) == a * m) by (nonlinear_arith)
        requires
            scaled(x, i) == m * a,
    ;
    assert(m * a >= 0) by (nonlinear_arith)
        requires
            m >= 0,
            a > 0,
    ;
    vstd::arithmetic::div_mod::lemma_div_multiples_vanish(m, a);
    vstd::arithmetic::div_mod::lemma_div_denominator(a * m, a, b);
    vstd::arithmetic::div_mod::lemma_mod_breakdown(a * m, a, b);
    vstd::arithmetic::div_mod::lemma_mod_multiples_basic(m, a);
    assert(a * m == m * a) by (nonlinear_arith);
    let r = m % b;
    assert(a * r == 0 <==> r == 0) by (nonlinear_arith)
        requires
            a > 0,
    ;
}

/// Each further digit extends the earlier ones by one place.
proof fn lemma_next_leading(x: BinaryFraction, i: nat)
    requires
        1 <= i <= x.scale,
    ensures
        leading(x, i) / 2 == leading(x, (i - 1) as nat),
{
    let k = (x.scale - i) as nat;
    lemma_shifted(x, i);
    lemma_shifted(x, (i - 1) as nat);
    vstd::arithmetic::power2::lemma_pow2_unfold(k + 1);
    vstd::arithmetic::power2::lemma_pow2_pos(k);
    assert((x.scale - (i - 1)) as nat == k + 1);
    vstd::arithmetic::div_mod::lemma_div_denominator(x.mantissa as int, pow2(k) as int, 2);
    assert(pow2(k) * 2 == 2 * pow2(k)) by (nonlinear_arith);
}

proof fn lemma_count_is(x: BinaryFraction, j: nat, i: nat)
    requires
        j <= i <= MAX_DIGITS,
        forall|t: nat| j <= t < i ==> !exact_after(x, t),
        exact_after(x, i) || i == MAX_DIGITS,
    ensures
        digit_count_from(x, j) == i,
    decreases i - j,
{
    if j < i {
        lemma_count_is(x, j + 1, i);
    }
}

proof fn lemma_bits_push(n: nat, len: nat)
    ensures
        bits_of(n, len + 1) == bits_of(n / 2, len).push(if n % 2 == 1 { '1' } else { '0' }),
{
}

/// Writes `x` in base `target_base` as `"0."` followed by its digits, truncated
/// to `MAX_DIGITS` places. Digits are produced one at a time by doubling the
/// remainder. Before each digit the remainder is checked, and the conversion
/// stops once nothing is left: zero gives `"0."` with no digits, and any other
/// value gets at least one.
pub fn convert_from_decimal_to_binary(x: &BinaryFraction, target_base: u32) -> (r: String)
    requires
        x.wf(),
        target_base == 2,
    ensures
        r@ == binary_string(*x),
        x.mantissa == 0 ==> r@ == seq!['0', '.'],
{
    let mut result = String::from_str("0.");
    proof {
        reveal_strlit("0.");
        reveal_strlit("0");
        reveal_strlit("1");
    }
    if x.mantissa == 0 {
        proof {
            lemma_zero_place(*x);
            lemma_count_is(*x, 0, 0);
            assert(result@ =~= seq!['0', '.'] + bits_of(leading(*x, 0), 0));
        }
        return result;
    }
    proof {
        lemma_zero_place(*x);
    }
    let mut i: u32 = 0;
    let mut done = false;
    while !done && i < MAX_DIGITS
        invariant
            x.wf(),
            x.mantissa > 0,
            i <= MAX_DIGITS,
            result@ == seq!['0', '.'] + bits_of(leading(*x, i as nat), i as nat),
            forall|j: nat| j <= i && (j < i || !done) ==> !exact_after(*x, j),
            done ==> i >= 1 && exact_after(*x, i as nat),
        decreases MAX_DIGITS - i,
    {
        let n: u32 = i + 1;
        proof {
            if x.scale < n {
                if i == 0 {
                    vstd::arithmetic::power2::lemma2_to64();
                } else {
                    lemma_exact_when_scale_small(*x, i as nat);
                }
            }
        }
        let k: u32 = x.scale - n;
        let digit_is_one: bool;
        let exact: bool;
        if k >= 64 {
            proof {
                vstd::arithmetic::power2::lemma2_to64();
                if k > 64 {
                    vstd::arithmetic::power2::lemma_pow2_strictly_increases(64, k as nat);
                }
                vstd::arithmetic::div_mod::lemma_basic_div(x.mantissa as int, pow2(k as nat) as int);
                vstd::arithmetic::div_mod::lemma_small_mod(x.mantissa as nat, pow2(k as nat));
            }
            digit_is_one = false;
            exact = false;
        } else {
            let p = pow2_u128(k);
            proof {
                vstd::arithmetic::power2::lemma_pow2_pos(k as nat);
            }
            let m = x.mantissa as u128;
            digit_is_one = (m / p) % 2 == 1;
            exact = m % p == 0;
        }
        proof {
            lemma_shifted(*x, n as nat);
            lemma_next_leading(*x, n as nat);
            lemma_bits_push(leading(*x, n as nat), i as nat);
        }
        let ghost before = result@;
        if digit_is_one {
            result.append("1");
            proof {
                reveal_strlit("1");
                assert(result@ =~= before.push('1'));
            }
        } else {
            result.append("0");
            proof {
                reveal_strlit("0");
                assert(result@ =~= before.push('0'));
            }
        }
        assert(result@ =~= seq!['0', '.'] + bits_of(leading(*x, n as nat), n as nat));
        i = n;
        done = exact;
    }
    proof {
        lemma_count_is(*x, 0, i as nat);
    }
    result
}

/// The number a string of binary digits stands for, most significant first.
pub open spec fn digits_value(s: Seq<char>) -> nat
    decreases s.len(),
{
    if s.len() == 0 {
        0
    } else {
        2 * digits_value(s.drop_last()) + if s.last() == '1' { 1nat } else { 0nat }
    }
}

proof fn lemma_exact_stays(x: BinaryFraction, i: nat, j: nat)
    requires
        i <= j,
        exact_after(x, i),
    ensures
        exact_after(x, j),
{
    let e = (j - i) as nat;
    let d = x.denom() as int;
    vstd::arithmetic::power2::lemma_pow2_adds(i, e);
    vstd::arithmetic::power2::lemma_pow2_pos(x.scale as nat);
    assert(scaled(x, j) == scaled(x, i) * pow2(e)) by (nonlinear_arith)
        requires
            scaled(x, j) == x.mantissa * pow2(j),
            scaled(x, i) == x.mantissa * pow2(i),
            pow2(j) == pow2(i) * pow2(e),
    ;
    vstd::arithmetic::div_mod::lemma_mul_mod_noop_left(scaled(x, i), pow2(e) as int, d);
    assert((scaled(x, i) % d) * pow2(e) == 0);
    assert(0int % d == 0);
}

proof fn lemma_count_from(x: BinaryFraction, i: nat)
    requires
        i <= MAX_DIGITS,
    ensures
        i <= digit_count_from(x, i) <= MAX_DIGITS,
        forall|j: nat| i <= j < digit_count_from(x, i) ==> !exact_after(x, j),
        digit_count_from(x, i) < MAX_DIGITS ==> exact_after(x, digit_count_from(x, i)),
    decreases MAX_DIGITS - i,
{
    if i < MAX_DIGITS && !exact_after(x, i) {
        lemma_count_from(x, i + 1);
    }
}

/// The digit count is the first place after which nothing is left, if that
/// comes within `MAX_DIGITS` places, and `MAX_DIGITS` otherwise.
pub proof fn lemma_digit_count(x: BinaryFraction)
    ensures
        digit_count(x) <= MAX_DIGITS,
        forall|j: nat| j < digit_count(x) ==> !exact_after(x, j),
        digit_count(x) < MAX_DIGITS ==> exact_after(x, digit_count(x)),
        exact_after(x, MAX_DIGITS as nat) ==> exact_after(x, digit_count(x)),
{
    lemma_count_from(x, 0);
}

proof fn lemma_bits_len(n: nat, len: nat)
    ensures
        bits_of(n, len).len() == len,
    decreases len,
{
    if len > 0 {
        lemma_bits_len(n / 2, (len - 1) as nat);
    }
}

proof fn lemma_bits_value(n: nat, len: nat)
    ensures
        digits_value(bits_of(n, len)) == n % pow2(len),
    decreases len,
{
    vstd::arithmetic::power2::lemma_pow2_pos(len);
    if len == 0 {
        vstd::arithmetic::power2::lemma2_to64();
    } else {
        let l1 = (len - 1) as nat;
        lemma_bits_value(n / 2, l1);
        let s = bits_of(n, len);
        assert(s.drop_last() == bits_of(n / 2, l1));
        vstd::arithmetic::power2::lemma_pow2_unfold(len);
        vstd::arithmetic::power2::lemma_pow2_pos(l1);
        vstd::arithmetic::div_mod::lemma_mod_breakdown(n as int, 2, pow2(l1) as int);
    }
}

proof fn lemma_leading_bound(x: BinaryFraction, i: nat)
    requires
        x.wf(),
    ensures
        leading(x, i) < pow2(i),
        leading(x, i) * x.denom() <= scaled(x, i) < leading(x, i) * x.denom() + x.denom(),
{
    let d = x.denom() as int;
    let a = pow2(i) as int;
    vstd::arithmetic::power2::lemma_pow2_pos(x.scale as nat);
    vstd::arithmetic::power2::lemma_pow2_pos(i);
    vstd::arithmetic::div_mod::lemma_fundamental_div_mod(scaled(x, i), d);
    assert(scaled(x, i) < a * d) by (nonlinear_arith)
        requires
            scaled(x, i) == x.mantissa * a,
            x.mantissa < d,
            a > 0,
    ;
    assert(scaled(x, i) >= 0) by (nonlinear_arith)
        requires
            scaled(x, i) == x.mantissa * a,
            a > 0,
    ;
    vstd::arithmetic::div_mod::lemma_div_pos_is_pos(scaled(x, i), d);
    let q = scaled(x, i) / d;
    let r = scaled(x, i) % d;
    assert(q < a) by (nonlinear_arith)
        requires
            scaled(x, i) == d * q + r,
            0 <= r < d,
            scaled(x, i) < a * d,
            d > 0,
    ;
    assert(d * q == q * d) by (nonlinear_arith);
}

/// The digits read back as a whole number: the value truncated to the
/// number of places that were written.
proof fn lemma_digits_value(x: BinaryFraction)
    requires
        x.wf(),
    ensures
        binary_digits(x).len() == digit_count(x),
        digits_value(binary_digits(x)) == leading(x, digit_count(x)),
{
    let l = digit_count(x);
    lemma_bits_len(leading(x, l), l);
    lemma_bits_value(leading(x, l), l);
    lemma_leading_bound(x, l);
    vstd::arithmetic::div_mod::lemma_small_mod(leading(x, l), pow2(l));
}

/// A value with no more than eight binary places is written out exactly: the
/// digits read back give the value itself, and the last digit is a one (zero,
/// written `"0."` with no digits, is left out). Where seven places suffice, fewer than eight
/// digits are written.
pub proof fn lemma_short_fraction_exact(x: BinaryFraction)
    requires
        x.wf(),
        x.mantissa != 0,
        exact_after(x, MAX_DIGITS as nat),
    ensures
        digits_value(binary_digits(x)) * x.denom() == scaled(x, binary_digits(x).len()),
        binary_digits(x).last() == '1',
        exact_after(x, 7) ==> binary_digits(x).len() < MAX_DIGITS,
{
    let l = digit_count(x);
    let d = x.denom() as int;
    lemma_digit_count(x);
    lemma_zero_place(x);
    assert(l >= 1);
    lemma_digits_value(x);
    lemma_leading_bound(x, l);
    vstd::arithmetic::power2::lemma_pow2_pos(x.scale as nat);
    let q = leading(x, l) as int;
    vstd::arithmetic::div_mod::lemma_fundamental_div_mod(scaled(x, l), d);
    assert(q * d == scaled(x, l)) by (nonlinear_arith)
        requires
            scaled(x, l) == d * q + scaled(x, l) % d,
            scaled(x, l) % d == 0,
    ;
    if q % 2 == 0 {
        let t = q / 2;
        let l1 = (l - 1) as nat;
        vstd::arithmetic::power2::lemma_pow2_unfold(l);
        assert(scaled(x, l1) == t * d) by (nonlinear_arith)
            requires
                q * d == scaled(x, l),
                scaled(x, l) == x.mantissa * pow2(l),
                scaled(x, l1) == x.mantissa * pow2(l1),
                pow2(l) == 2 * pow2(l1),
                q == 2 * t,
        ;
        vstd::arithmetic::div_mod::lemma_mod_multiples_basic(t, d);
        assert(exact_after(x, l1));
        if l1 == 0 {
            vstd::arithmetic::power2::lemma2_to64();
            vstd::arithmetic::div_mod::lemma_small_mod(x.mantissa as nat, d as nat);
        }
    }
    lemma_bits_len(leading(x, l), l);
    if exact_after(x, 7) {
        assert(l <= 7);
    }
}

/// A value that needs more than eight binary places is cut off after exactly
/// eight digits.
pub proof fn lemma_long_fraction_truncated(x: BinaryFraction)
    requires
        x.wf(),
        !exact_after(x, MAX_DIGITS as nat),
    ensures
        binary_digits(x).len() == MAX_DIGITS,
{
    lemma_digit_count(x);
    lemma_digits_value(x);
    if digit_count(x) < MAX_DIGITS {
        lemma_exact_stays(x, digit_count(x), MAX_DIGITS as nat);
    }
}

/// The digits read back as a fraction differ from the value by less than
/// `2^-8`, from below: with `D` the digits as a number and `L` their count,
/// `D / 2^L <= x < D / 2^L + 2^-8`, here multiplied through by `2^8 * 2^scale`.
pub proof fn lemma_truncation_error(x: BinaryFraction)
    requires
        x.wf(),
    ensures
        ({
            let l = binary_digits(x).len();
            let dv = digits_value(binary_digits(x));
            let e = pow2((MAX_DIGITS - l) as nat);
            &&& dv * e * x.denom() <= x.mantissa * pow2(MAX_DIGITS as nat)
            &&& x.mantissa * pow2(MAX_DIGITS as nat) < dv * e * x.denom() + x.denom()
        }),
{
    let l = digit_count(x);
    let d = x.denom() as int;
    lemma_digit_count(x);
    lemma_digits_value(x);
    lemma_leading_bound(x, l);
    let e = pow2((MAX_DIGITS - l) as nat) as int;
    let q = leading(x, l) as int;
    vstd::arithmetic::power2::lemma_pow2_adds(l, (MAX_DIGITS - l) as nat);
    vstd::arithmetic::power2::lemma_pow2_pos((MAX_DIGITS - l) as nat);
    vstd::arithmetic::power2::lemma_pow2_pos(x.scale as nat);
    assert(x.mantissa * pow2(MAX_DIGITS as nat) == scaled(x, l) * e) by (nonlinear_arith)
        requires
            scaled(x, l) == x.mantissa * pow2(l),
            pow2(MAX_DIGITS as nat) == pow2(l) * e,
    ;
    assert(q * e * d <= scaled(x, l) * e) by (nonlinear_arith)
        requires
            q * d <= scaled(x, l),
            e > 0,
    ;
    if l < MAX_DIGITS {
        vstd::arithmetic::div_mod::lemma_fundamental_div_mod(scaled(x, l), d);
        assert(scaled(x, l) * e == q * e * d) by (nonlinear_arith)
            requires
                scaled(x, l) == d * q + scaled(x, l) % d,
                scaled(x, l) % d == 0,
        ;
    } else {
        assert(e == 1) by {
            vstd::arithmetic::power2::lemma2_to64();
        }
        assert(scaled(x, l) * e == scaled(x, l)) by (nonlinear_arith)
            requires
                e == 1,
        ;
        assert(q * e * d == q * d) by (nonlinear_arith)
            requires
                e == 1,
        ;
    }
}

proof fn lemma_bits_ascii(n: nat, len: nat)
    ensures
        is_ascii_chars(bits_of(n, len)),
        forall|i: int| 0 <= i < len ==> #[trigger] bits_of(n, len)[i] == '0' || bits_of(n, len)[i] == '1',
    decreases len,
{
    lemma_bits_len(n, len);
    if len > 0 {
        lemma_bits_ascii(n / 2, (len - 1) as nat);
        lemma_bits_len(n / 2, (len - 1) as nat);
    }
}

/// The result is `"0."` followed by at most `MAX_DIGITS` digits, each `0` or
/// `1`; a nonzero value gets at least one.
pub proof fn lemma_binary_string_shape(x: BinaryFraction)
    ensures
        is_ascii_chars(binary_string(x)),
        2 <= binary_string(x).len() <= 2 + MAX_DIGITS,
        x.wf() && x.mantissa != 0 ==> 3 <= binary_string(x).len(),
        forall|i: int|
            2 <= i < binary_string(x).len() ==> #[trigger] binary_string(x)[i] == '0'
                || binary_string(x)[i] == '1',
{
    let l = digit_count(x);
    let ds = binary_digits(x);
    lemma_digit_count(x);
    if x.wf() {
        lemma_zero_place(x);
    }
    lemma_bits_len(leading(x, l), l);
    lemma_bits_ascii(leading(x, l), l);
    let t = binary_string(x);
    assert forall|i: int| 0 <= i < t.len() implies '\0' <= #[trigger] t[i] <= '\u{7f}' by {
        if i >= 2 {
            assert(t[i] == ds[i - 2]);
        }
    }
    assert forall|i: int| 2 <= i < t.len() implies #[trigger] t[i] == '0' || t[i] == '1' by {
        assert(t[i] == ds[i - 2]);
    }
}

proof fn lemma_cancel(a: int, b: int, c: int)
    requires
        a >= 0,
        b > 0,
        c > 0,
    ensures
        (a * c) / (b * c) == a / b,
        (a * c) % (b * c) == 0 <==> a % b == 0,
{
    assert(a * c == c * a) by (nonlinear_arith);
    assert(b * c == c * b) by (nonlinear_arith);
    assert(a * c >= 0) by (nonlinear_arith)
        requires
            a >= 0,
            c > 0,
    ;
    vstd::arithmetic::div_mod::lemma_div_multiples_vanish(a, c);
    vstd::arithmetic::div_mod::lemma_mod_multiples_basic(a, c);
    vstd::arithmetic::div_mod::lemma_div_denominator(a * c, c, b);
    vstd::arithmetic::div_mod::lemma_mod_breakdown(a * c, c, b);
    let r = a % b;
    assert(c * r == 0 <==> r == 0) by (nonlinear_arith)
        requires
            c > 0,
    ;
}

proof fn lemma_same_value_step(x: BinaryFraction, y: BinaryFraction, i: nat)
    requires
        x.mantissa * y.denom() == y.mantissa * x.denom(),
    ensures
        leading(x, i) == leading(y, i),
        exact_after(x, i) <==> exact_after(y, i),
{
    let d1 = x.denom() as int;
    let d2 = y.denom() as int;
    let p = pow2(i) as int;
    vstd::arithmetic::power2::lemma_pow2_pos(x.scale as nat);
    vstd::arithmetic::power2::lemma_pow2_pos(y.scale as nat);
    vstd::arithmetic::power2::lemma_pow2_pos(i);
    assert(scaled(x, i) * d2 == scaled(y, i) * d1) by (nonlinear_arith)
        requires
            x.mantissa * d2 == y.mantissa * d1,
            scaled(x, i) == x.mantissa * p,
            scaled(y, i) == y.mantissa * p,
    ;
    assert(scaled(x, i) >= 0 && scaled(y, i) >= 0) by (nonlinear_arith)
        requires
            scaled(x, i) == x.mantissa * p,
            scaled(y, i) == y.mantissa * p,
            p > 0,
    ;
    lemma_cancel(scaled(x, i), d1, d2);
    lemma_cancel(scaled(y, i), d2, d1);
    assert(d1 * d2 == d2 * d1) by (nonlinear_arith);
}

proof fn lemma_same_value_count(x: BinaryFraction, y: BinaryFraction, i: nat)
    requires
        x.mantissa * y.denom() == y.mantissa * x.denom(),
    ensures
        digit_count_from(x, i) == digit_count_from(y, i),
    decreases MAX_DIGITS - i,
{
    lemma_same_value_step(x, y, i);
    if i < MAX_DIGITS && !exact_after(x, i) {
        lemma_same_value_count(x, y, i + 1);
    }
}

/// The conversion depends on the value alone: two fractions that stand for
/// the same number (`x.mantissa / 2^x.scale == y.mantissa / 2^y.scale`) are
/// written the same way. In particular, converting one value twice gives the
/// same string.
pub proof fn lemma_conversion_depends_on_value(x: BinaryFraction, y: BinaryFraction)
    requires
        x.mantissa * y.denom() == y.mantissa * x.denom(),
    ensures
        binary_string(x) == binary_string(y),
{
    lemma_same_value_count(x, y, 0);
    lemma_same_value_step(x, y, digit_count(x));
}

} // verus!
