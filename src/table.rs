use vstd::prelude::*;
use vstd::arithmetic::power2::pow2;
use vstd::string::StringExecFns;
use vstd::utf8::is_ascii_chars;
use crate::convert::MAX_DIGITS;
use crate::fraction::BinaryFraction;
use crate::power::pow2_u128;

verus! {

/// `10^MAX_DIGITS`: the decimal column counts in units of its last place.
pub const DECIMAL_UNITS: u128 = 100_000_000;

/// `x * 10^MAX_DIGITS` rounded to the nearest integer, ties to even.
pub open spec fn rounded_units(x: BinaryFraction) -> nat {
    let n = x.mantissa * DECIMAL_UNITS;
    let d = x.denom() as int;
    let q = n / d;
    let r = n % d;
    if 2 * r > d || (2 * r == d && q % 2 == 1) {
        (q + 1) as nat
    } else {
        q as nat
    }
}

/// The character of a decimal digit.
pub open spec fn digit_char(d: nat) -> char {
    if d == 0 {
        '0'
    } else if d == 1 {
        '1'
    } else if d == 2 {
        '2'
    } else if d == 3 {
        '3'
    } else if d == 4 {
        '4'
    } else if d == 5 {
        '5'
    } else if d == 6 {
        '6'
    } else if d == 7 {
        '7'
    } else if d == 8 {
        '8'
    } else {
        '9'
    }
}

/// The `len` lowest decimal digits of `n`, most significant first.
pub open spec fn decimal_digits(n: nat, len: nat) -> Seq<char>
    decreases len,
{
    if len == 0 {
        Seq::empty()
    } else {
        decimal_digits(n / 10, (len - 1) as nat).push(digit_char(n % 10))
    }
}

/// `x` in decimal notation with `MAX_DIGITS` places, rounded.
pub open spec fn decimal_text(x: BinaryFraction) -> Seq<char> {
    decimal_digits(rounded_units(x) / DECIMAL_UNITS as nat, 1) + seq!['.'] + decimal_digits(
        rounded_units(x) % DECIMAL_UNITS as nat,
        MAX_DIGITS as nat,
    )
}

/// `s` followed by spaces up to `width` characters.
pub open spec fn pad_right(s: Seq<char>, width: nat) -> Seq<char> {
    if s.len() >= width {
        s
    } else {
        s + Seq::new((width - s.len()) as nat, |_i: int| ' ')
    }
}

/// The first line of the table: the two column titles.
pub open spec fn header_line() -> Seq<char> {
    "|  Base 10   |   Base 2   |"@
}

/// The second line of the table: both columns left-aligned.
pub open spec fn separator_line() -> Seq<char> {
    "|:-----------|:-----------|"@
}

/// One row of the table: the decimal text and the binary text, padded.
pub open spec fn row_line(decimal: Seq<char>, binary: Seq<char>) -> Seq<char> {
    seq!['|', ' '] + pad_right(decimal, 7) + seq![' ', '|', ' '] + pad_right(binary, 10) + seq![
        ' ',
        '|',
    ]
}

fn push_digit(out: &mut String, d: u128)
    requires
        d < 10,
    ensures
        final(out)@ == old(out)@.push(digit_char(d as nat)),
{
    let ghost before = out@;
    let t = if d == 0 {
        "0"
    } else if d == 1 {
        "1"
    } else if d == 2 {
        "2"
    } else if d == 3 {
        "3"
    } else if d == 4 {
        "4"
    } else if d == 5 {
        "5"
    } else if d == 6 {
        "6"
    } else if d == 7 {
        "7"
    } else if d == 8 {
        "8"
    } else {
        "9"
    };
    proof {
        reveal_strlit("0");
        reveal_strlit("1");
        reveal_strlit("2");
        reveal_strlit("3");
        reveal_strlit("4");
        reveal_strlit("5");
        reveal_strlit("6");
        reveal_strlit("7");
        reveal_strlit("8");
        reveal_strlit("9");
    }
    assert(t@ =~= seq![digit_char(d as nat)]);
    out.append(t);
    assert(out@ =~= before.push(digit_char(d as nat)));
}

fn push_decimal_digits(out: &mut String, n: u128, len: u32)
    ensures
        final(out)@ == old(out)@ + decimal_digits(n as nat, len as nat),
    decreases len,
{
    if len == 0 {
        assert(out@ =~= old(out)@ + decimal_digits(n as nat, 0));
    } else {
        push_decimal_digits(out, n / 10, len - 1);
        push_digit(out, n % 10);
        assert(out@ =~= old(out)@ + decimal_digits(n as nat, len as nat));
    }
}

/// Writes `x` in decimal with `MAX_DIGITS` places after the point, rounding
/// to the nearest last place and ties to an even last digit.
pub fn format_decimal(x: &BinaryFraction) -> (r: String)
    requires
        x.wf(),
    ensures
        r@ == decimal_text(*x),
{
    let n: u128 = (x.mantissa as u128) * DECIMAL_UNITS;
    let units: u128;
    if x.scale >= 100 {
        proof {
            vstd::arithmetic::power2::lemma2_to64();
            vstd::arithmetic::power2::lemma_pow2_adds(64, 32);
            vstd::arithmetic::power2::lemma_pow2_adds(96, 4);
            if x.scale > 100 {
                vstd::arithmetic::power2::lemma_pow2_strictly_increases(100, x.scale as nat);
            }
            vstd::arithmetic::div_mod::lemma_basic_div(n as int, x.denom() as int);
            vstd::arithmetic::div_mod::lemma_small_mod(n as nat, x.denom());
        }
        units = 0;
    } else {
        let p = pow2_u128(x.scale);
        proof {
            vstd::arithmetic::power2::lemma2_to64();
            vstd::arithmetic::power2::lemma_pow2_adds(64, 32);
            vstd::arithmetic::power2::lemma_pow2_adds(96, 4);
            vstd::arithmetic::power2::lemma_pow2_pos(x.scale as nat);
            vstd::arithmetic::power2::lemma_pow2_strictly_increases(x.scale as nat, 100);
        }
        let q = n / p;
        let r = n % p;
        if 2 * r > p || (2 * r == p && q % 2 == 1) {
            units = q + 1;
        } else {
            units = q;
        }
    }
    let mut out = String::new();
    push_decimal_digits(&mut out, units / DECIMAL_UNITS, 1);
    out.append(".");
    proof {
        reveal_strlit(".");
    }
    push_decimal_digits(&mut out, units % DECIMAL_UNITS, MAX_DIGITS);
    assert(out@ =~= decimal_text(*x));
    out
}

proof fn lemma_decimal_digits_ascii(n: nat, len: nat)
    ensures
        is_ascii_chars(decimal_digits(n, len)),
        decimal_digits(n, len).len() == len,
    decreases len,
{
    if len > 0 {
        lemma_decimal_digits_ascii(n / 10, (len - 1) as nat);
    }
}

/// The decimal text is ten ASCII characters: one digit, the point and eight places.
pub proof fn lemma_decimal_text_shape(x: BinaryFraction)
    ensures
        is_ascii_chars(decimal_text(x)),
        decimal_text(x).len() == 2 + MAX_DIGITS,
{
    lemma_decimal_digits_ascii(rounded_units(x) / DECIMAL_UNITS as nat, 1);
    lemma_decimal_digits_ascii(rounded_units(x) % DECIMAL_UNITS as nat, MAX_DIGITS as nat);
    let t = decimal_text(x);
    assert forall|i: int| 0 <= i < t.len() implies '\0' <= #[trigger] t[i] <= '\u{7f}' by {
        let a = decimal_digits(rounded_units(x) / DECIMAL_UNITS as nat, 1);
        let b = decimal_digits(rounded_units(x) % DECIMAL_UNITS as nat, MAX_DIGITS as nat);
        if i < a.len() {
            assert(t[i] == a[i]);
        } else if i == a.len() {
            assert(t[i] == '.');
        } else {
            assert(t[i] == b[i - a.len() - 1]);
        }
    }
}

/// Appends `t` followed by spaces up to `width` characters.
fn push_padded(out: &mut String, t: &String, width: usize)
    requires
        is_ascii_chars(t@),
    ensures
        final(out)@ == old(out)@ + pad_right(t@, width as nat),
{
    let ts = t.as_str();
    proof {
        vstd::string::is_ascii_spec_bytes(ts);
    }
    let len = ts.as_bytes().len();
    assert(len == t@.len());
    out.append(ts);
    if len < width {
        let ghost start = out@;
        let mut k: usize = len;
        while k < width
            invariant
                len <= k <= width,
                out@ == start + Seq::new((k - len) as nat, |_i: int| ' '),
            decreases width - k,
        {
            let ghost before = out@;
            out.append(" ");
            proof {
                reveal_strlit(" ");
            }
            assert(out@ =~= start + Seq::new((k + 1 - len) as nat, |_i: int| ' '));
            k = k + 1;
        }
    }
    assert(out@ =~= old(out)@ + pad_right(t@, width as nat));
}

/// Lays out the table: a title line, a separator line, then one row per value
/// holding its decimal text and, beside it, the text at the same position of
/// `binaries`.
pub fn display(values: &Vec<BinaryFraction>, binaries: &Vec<String>) -> (r: Vec<String>)
    requires
        values.len() == binaries.len(),
        forall|i: int| 0 <= i < values.len() ==> (#[trigger] values[i]).wf(),
        forall|i: int| 0 <= i < binaries.len() ==> is_ascii_chars((#[trigger] binaries[i])@),
    ensures
        r.len() == values.len() + 2,
        r[0]@ == header_line(),
        r[1]@ == separator_line(),
        forall|i: int|
            0 <= i < values.len() ==> #[trigger] r[i + 2]@ == row_line(
                decimal_text(values[i]),
                binaries[i]@,
            ),
{
    let mut lines: Vec<String> = Vec::new();
    lines.push(String::from_str("|  Base 10   |   Base 2   |"));
    lines.push(String::from_str("|:-----------|:-----------|"));
    let mut i: usize = 0;
    while i < values.len()
        invariant
            values.len() == binaries.len(),
            forall|j: int| 0 <= j < values.len() ==> (#[trigger] values[j]).wf(),
            forall|j: int| 0 <= j < binaries.len() ==> is_ascii_chars((#[trigger] binaries[j])@),
            i <= values.len(),
            lines.len() == i + 2,
            lines[0]@ == header_line(),
            lines[1]@ == separator_line(),
            forall|j: int|
                0 <= j < i ==> #[trigger] lines[j + 2]@ == row_line(
                    decimal_text(values[j]),
                    binaries[j]@,
                ),
        decreases values.len() - i,
    {
        let decimal = format_decimal(&values[i]);
        proof {
            lemma_decimal_text_shape(values[i as int]);
            reveal_strlit("| ");
            reveal_strlit(" | ");
            reveal_strlit(" |");
        }
        let mut line = String::from_str("| ");
        push_padded(&mut line, &decimal, 7);
        line.append(" | ");
        push_padded(&mut line, &binaries[i], 10);
        line.append(" |");
        assert(line@ =~= row_line(decimal_text(values[i as int]), binaries[i as int]@));
        lines.push(line);
        i = i + 1;
    }
    lines
}

} // verus!
