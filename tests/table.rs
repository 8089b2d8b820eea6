use decimal_to_binary::fraction::BinaryFraction;
use decimal_to_binary::report::{convert_all, parse_input, report};
use decimal_to_binary::table::{display, format_decimal};

fn value(v: f64) -> BinaryFraction {
    BinaryFraction::from_f64_bits(v.to_bits()).unwrap()
}

#[test]
fn decimal_text_has_eight_places() {
    assert_eq!(format_decimal(&value(0.5)), "0.50000000");
    assert_eq!(format_decimal(&value(0.1)), "0.10000000");
    assert_eq!(format_decimal(&value(0.0)), "0.00000000");
    assert_eq!(format_decimal(&value(0.123456789)), "0.12345679");
}

#[test]
fn decimal_text_rounds_ties_to_even() {
    assert_eq!(format_decimal(&value(0.001953125)), "0.00195312");
    assert_eq!(format_decimal(&value(0.005859375)), "0.00585938");
}

#[test]
fn decimal_text_can_round_up_to_one() {
    assert_eq!(format_decimal(&value(0.999999999)), "1.00000000");
}

#[test]
fn display_lays_out_rows() {
    let lines = display(
        &vec![value(0.5), value(0.25)],
        &vec!["0.1".to_string(), "0.01".to_string()],
    );
    assert_eq!(
        lines,
        vec![
            "|  Base 10   |   Base 2   |",
            "|:-----------|:-----------|",
            "| 0.50000000 | 0.1        |",
            "| 0.25000000 | 0.01       |",
        ]
    );
}

#[test]
fn display_pads_short_decimal_text() {
    let lines = display(&vec![value(0.5)], &vec!["0.10110011".to_string()]);
    assert_eq!(lines[2], "| 0.50000000 | 0.10110011 |");
}

#[test]
fn malformed_token_is_left_out() {
    let parsed = vec![Some(0.5f64.to_bits()), None, Some(0.25f64.to_bits())];
    let lines = report(&parsed);
    assert_eq!(lines.len(), 4);
    assert_eq!(lines[2], "| 0.50000000 | 0.1        |");
    assert_eq!(lines[3], "| 0.25000000 | 0.01       |");
}

#[test]
fn no_arguments_give_header_only() {
    let lines = report(&vec![]);
    assert_eq!(
        lines,
        vec!["|  Base 10   |   Base 2   |", "|:-----------|:-----------|"]
    );
}

#[test]
fn values_outside_unit_interval_are_left_out() {
    let parsed = vec![
        Some(1.5f64.to_bits()),
        Some(0.1f64.to_bits()),
        Some((-0.5f64).to_bits()),
        Some(f64::NAN.to_bits()),
        Some(0.7f64.to_bits()),
    ];
    let values = parse_input(&parsed);
    assert_eq!(values, vec![value(0.1), value(0.7)]);
    assert_eq!(convert_all(&values), vec!["0.00011001", "0.10110011"]);
}

#[test]
fn report_keeps_argument_order() {
    let parsed = vec![Some(0.7f64.to_bits()), Some(0.1f64.to_bits())];
    let lines = report(&parsed);
    assert_eq!(lines[2], "| 0.70000000 | 0.10110011 |");
    assert_eq!(lines[3], "| 0.10000000 | 0.00011001 |");
}
