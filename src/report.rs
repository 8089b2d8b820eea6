use vstd::prelude::*;
use crate::convert::{binary_string, convert_from_decimal_to_binary, lemma_binary_string_shape};
use crate::fraction::{decoded, in_unit_interval, BinaryFraction};
use crate::table::{decimal_text, display, header_line, row_line, separator_line};

verus! {

/// The values kept from a list of parsed arguments, in order: each argument
/// that parsed (`Some`, holding the bits of a double) to a value in `[0, 1)`.
/// Arguments that did not parse, and values outside that range, are left out.
pub open spec fn kept(parsed: Seq<Option<u64>>) -> Seq<BinaryFraction>
    decreases parsed.len(),
{
    if parsed.len() == 0 {
        Seq::empty()
    } else {
        let rest = kept(parsed.drop_last());
        match parsed.last() {
            Some(bits) => if in_unit_interval(bits) {
                rest.push(decoded(bits))
            } else {
                rest
            },
            None => rest,
        }
    }
}

/// Keeps, in order, the arguments that parsed to a value in `[0, 1)`.
pub fn parse_input(parsed: &Vec<Option<u64>>) -> (r: Vec<BinaryFraction>)
    ensures
        r@ == kept(parsed@),
        forall|i: int| 0 <= i < r.len() ==> (#[trigger] r[i]).wf(),
{
    let mut values: Vec<BinaryFraction> = Vec::new();
    let mut i: usize = 0;
    while i < parsed.len()
        invariant
            i <= parsed.len(),
            values@ == kept(parsed@.subrange(0, i as int)),
            forall|j: int| 0 <= j < values.len() ==> (#[trigger] values[j]).wf(),
        decreases parsed.len() - i,
    {
        assert(parsed@.subrange(0, i as int + 1).drop_last() =~= parsed@.subrange(0, i as int));
        match parsed[i] {
            Some(bits) => match BinaryFraction::from_f64_bits(bits) {
                Some(x) => values.push(x),
                None => {},
            },
            None => {},
        }
        i = i + 1;
    }
    assert(parsed@.subrange(0, parsed.len() as int) =~= parsed@);
    values
}

/// Converts each value to binary.
pub fn convert_all(values: &Vec<BinaryFraction>) -> (r: Vec<String>)
    requires
        forall|i: int| 0 <= i < values.len() ==> (#[trigger] values[i]).wf(),
    ensures
        r.len() == values.len(),
        forall|i: int| 0 <= i < values.len() ==> #[trigger] r[i]@ == binary_string(values[i]),
{
    let mut out: Vec<String> = Vec::new();
    let mut i: usize = 0;
    while i < values.len()
        invariant
            i <= values.len(),
            forall|j: int| 0 <= j < values.len() ==> (#[trigger] values[j]).wf(),
            out.len() == i,
            forall|j: int| 0 <= j < i ==> #[trigger] out[j]@ == binary_string(values[j]),
        decreases values.len() - i,
    {
        out.push(convert_from_decimal_to_binary(&values[i], 2));
        i = i + 1;
    }
    out
}

/// The whole table for a list of parsed arguments: the title line, the
/// separator line, and one row for each kept value with its decimal text and
/// its binary conversion.
pub fn report(parsed: &Vec<Option<u64>>) -> (r: Vec<String>)
    ensures
        r.len() == kept(parsed@).len() + 2,
        r[0]@ == header_line(),
        r[1]@ == separator_line(),
        forall|i: int|
            0 <= i < kept(parsed@).len() ==> #[trigger] r[i + 2]@ == row_line(
                decimal_text(kept(parsed@)[i]),
                binary_string(kept(parsed@)[i]),
            ),
{
    let values = parse_input(parsed);
    let binaries = convert_all(&values);
    assert forall|i: int| 0 <= i < binaries.len() implies vstd::utf8::is_ascii_chars(
        (#[trigger] binaries[i])@,
    ) by {
        lemma_binary_string_shape(values[i]);
    }
    display(&values, &binaries)
}

} // verus!
