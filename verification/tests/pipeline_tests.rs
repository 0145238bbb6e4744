use keystats::parse::RecordError;
use keystats::report::process_lines;

fn run(lines: &[&str]) -> Result<String, RecordError> {
    let v: Vec<String> = lines.iter().map(|l| l.to_string()).collect();
    process_lines(&v)
}

#[test]
fn empty_input_renders_empty_braces() {
    assert_eq!(run(&[]).unwrap(), "{}");
}

#[test]
fn single_record() {
    assert_eq!(run(&["A;10.0"]).unwrap(), "{A=10.0/10.0/10.0}");
}

#[test]
fn two_records_same_key() {
    assert_eq!(run(&["A;10.0", "A;20.0"]).unwrap(), "{A=10.0/15.0/20.0}");
}

#[test]
fn two_distinct_keys_sorted() {
    assert_eq!(run(&["B;5.0", "A;1.0"]).unwrap(), "{A=1.0/1.0/1.0, B=5.0/5.0/5.0}");
}

#[test]
fn three_fields_is_malformed() {
    assert_eq!(run(&["A;x;1.0"]), Err(RecordError::MalformedRecord));
}

#[test]
fn non_numeric_value_is_invalid() {
    assert_eq!(run(&["A;notanumber"]), Err(RecordError::InvalidNumber));
}

#[test]
fn no_separator_is_malformed() {
    assert_eq!(run(&["A10.0"]), Err(RecordError::MalformedRecord));
}

#[test]
fn empty_line_is_malformed() {
    assert_eq!(run(&[""]), Err(RecordError::MalformedRecord));
}

#[test]
fn first_bad_line_decides_the_error() {
    assert_eq!(run(&["A;1.0", "B;x;2.0", "C;bad"]), Err(RecordError::MalformedRecord));
    assert_eq!(run(&["A;1.0", "C;bad", "B;x;2.0"]), Err(RecordError::InvalidNumber));
}

#[test]
fn permuted_input_renders_identically() {
    let a = run(&["B;5.0", "A;1.0", "A;3.0", "C;-2.5", "B;5.0"]).unwrap();
    let b = run(&["A;3.0", "B;5.0", "C;-2.5", "B;5.0", "A;1.0"]).unwrap();
    assert_eq!(a, b);
    assert_eq!(a, "{A=1.0/2.0/3.0, B=5.0/5.0/5.0, C=-2.5/-2.5/-2.5}");
}

#[test]
fn negative_values() {
    assert_eq!(run(&["A;-5.5", "A;-1.5"]).unwrap(), "{A=-5.5/-3.5/-1.5}");
}

#[test]
fn plus_sign_accepted() {
    assert_eq!(run(&["A;+3.5"]).unwrap(), "{A=3.5/3.5/3.5}");
}

#[test]
fn values_round_to_one_decimal() {
    // 10.06 rounds up to 10.1; ties round away from zero.
    assert_eq!(run(&["A;10.06"]).unwrap(), "{A=10.1/10.1/10.1}");
    assert_eq!(run(&["A;0.05"]).unwrap(), "{A=0.1/0.1/0.1}");
    assert_eq!(run(&["A;-0.05"]).unwrap(), "{A=-0.1/-0.1/-0.1}");
}

#[test]
fn mean_rounds_to_one_decimal() {
    // Mean of 0.2 and 0.1 is 0.15, shown as 0.2 (half away from zero).
    assert_eq!(run(&["A;0.2", "A;0.1"]).unwrap(), "{A=0.1/0.2/0.2}");
    // Mean of 1.0, 2.0 and 2.0 is 1.666..., shown as 1.7.
    assert_eq!(run(&["A;1.0", "A;2.0", "A;2.0"]).unwrap(), "{A=1.0/1.7/2.0}");
}

#[test]
fn empty_key_is_a_key() {
    assert_eq!(run(&[";1.0"]).unwrap(), "{=1.0/1.0/1.0}");
}

#[test]
fn keys_sort_by_code_point() {
    // U+00E9 orders after every ASCII letter, byte-wise and by code point.
    assert_eq!(
        run(&["é;1.0", "z;2.0"]).unwrap(),
        "{z=2.0/2.0/2.0, é=1.0/1.0/1.0}"
    );
}

#[test]
fn keys_are_taken_verbatim() {
    assert_eq!(
        run(&[" A ;1.0", "a;2.0"]).unwrap(),
        "{ A =1.0/1.0/1.0, a=2.0/2.0/2.0}"
    );
}

#[test]
fn integer_values_without_fraction() {
    assert_eq!(run(&["A;7"]).unwrap(), "{A=7.0/7.0/7.0}");
}

#[test]
fn four_fraction_digits_accepted_five_rejected() {
    assert_eq!(run(&["A;1.2345"]).unwrap(), "{A=1.2/1.2/1.2}");
    assert_eq!(run(&["A;1.23456"]), Err(RecordError::InvalidNumber));
}

#[test]
fn oversized_integer_part_rejected() {
    // Fourteen integer digits overflow the representation.
    assert_eq!(run(&["A;123456789012345.0"]), Err(RecordError::InvalidNumber));
    assert_eq!(run(&["A;99999999999999.0"]).unwrap(), "{A=99999999999999.0/99999999999999.0/99999999999999.0}");
}

#[test]
fn bare_point_forms_rejected() {
    assert_eq!(run(&["A;.5"]), Err(RecordError::InvalidNumber));
    assert_eq!(run(&["A;1."]), Err(RecordError::InvalidNumber));
    assert_eq!(run(&["A;"]), Err(RecordError::InvalidNumber));
    assert_eq!(run(&["A;-"]), Err(RecordError::InvalidNumber));
}
