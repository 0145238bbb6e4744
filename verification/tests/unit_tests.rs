use keystats::aggregate::Aggregator;
use keystats::lex::str_lex_lt;
use keystats::number::parse_number;
use keystats::number::tenths_to_string;
use keystats::number::whole_to_string;
use keystats::parse::parse_line;
use keystats::parse::RecordError;
use keystats::station::Station;

#[test]
fn parse_number_scales_by_ten_thousand() {
    assert_eq!(parse_number("10.0"), Some(100000));
    assert_eq!(parse_number("0"), Some(0));
    assert_eq!(parse_number("-2.5"), Some(-25000));
    assert_eq!(parse_number("+2.5"), Some(25000));
    assert_eq!(parse_number("3.1415"), Some(31415));
    assert_eq!(parse_number("00042"), Some(420000));
}

#[test]
fn parse_number_rejects_bad_forms() {
    assert_eq!(parse_number(""), None);
    assert_eq!(parse_number("abc"), None);
    assert_eq!(parse_number("1e5"), None);
    assert_eq!(parse_number("1.2.3"), None);
    assert_eq!(parse_number("1 "), None);
    assert_eq!(parse_number(" 1"), None);
    assert_eq!(parse_number("--1"), None);
}

#[test]
fn parse_line_splits_key_and_value() {
    assert_eq!(parse_line("K;1.5"), Ok(("K".to_string(), 15000)));
    assert_eq!(parse_line("a;b;c"), Err(RecordError::MalformedRecord));
    assert_eq!(parse_line("a;1,5"), Err(RecordError::InvalidNumber));
}

#[test]
fn station_folds_min_sum_count_max() {
    let mut st = Station::new();
    st.update(100000);
    st.update(200000);
    st.update(-50000);
    assert_eq!(st.min, -50000);
    assert_eq!(st.max, 200000);
    assert_eq!(st.sum, 250000);
    assert_eq!(st.count, 3);
}

#[test]
fn aggregator_renders_sorted_report() {
    let mut agg = Aggregator::new();
    agg.update("b".to_string(), 10000);
    agg.update("a".to_string(), 20000);
    agg.update("b".to_string(), 30000);
    assert_eq!(agg.render(), "{a=2.0/2.0/2.0, b=1.0/2.0/3.0}");
}

#[test]
fn aggregator_empty_renders_braces() {
    let agg = Aggregator::new();
    assert_eq!(agg.render(), "{}");
}

#[test]
fn lex_order_is_byte_order() {
    assert!(str_lex_lt("a", "b"));
    assert!(!str_lex_lt("b", "a"));
    assert!(str_lex_lt("a", "ab"));
    assert!(!str_lex_lt("ab", "a"));
    assert!(!str_lex_lt("a", "a"));
    assert!(str_lex_lt("", "a"));
    assert!(str_lex_lt("z", "é"));
}

#[test]
fn numbers_render_with_one_fraction_digit() {
    assert_eq!(whole_to_string(0), "0");
    assert_eq!(whole_to_string(1234567890123456789012345678901234567), "1234567890123456789012345678901234567");
    assert_eq!(tenths_to_string(0), "0.0");
    assert_eq!(tenths_to_string(105), "10.5");
    assert_eq!(tenths_to_string(-5), "-0.5");
    assert_eq!(tenths_to_string(-105), "-10.5");
}
