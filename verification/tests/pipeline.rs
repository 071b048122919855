use make_predict_data::aggregate;
use make_predict_data::record::PredictError;

fn lines(v: &[&str]) -> Vec<String> {
    v.iter().map(|s| s.to_string()).collect()
}

fn run(v: &[&str], filter: Option<u32>, cap: Option<usize>) -> Result<Vec<String>, PredictError> {
    aggregate(&lines(v), filter, cap)
}

#[test]
fn example_two_records_capped() {
    let out = run(&["ab cd\t5", "ab cd\t3", "xy\t10"], None, Some(1)).unwrap();
    assert_eq!(out, vec!["ab\tcd\t5".to_string(), "x\ty\t10".to_string()]);
}

#[test]
fn prefix_fanout_single_token() {
    let out = run(&["abc\t4"], None, None).unwrap();
    assert_eq!(out, vec!["a\tbc\t4".to_string(), "ab\tc\t4".to_string()]);
}

#[test]
fn single_char_token_yields_nothing() {
    let out = run(&["x\t5"], None, None).unwrap();
    assert!(out.is_empty());
}

#[test]
fn empty_key_yields_nothing() {
    let out = run(&["\t5"], None, None).unwrap();
    assert!(out.is_empty());
}

#[test]
fn sentinel_tail_discards_record() {
    let out = run(&["X $\t9"], None, None).unwrap();
    assert!(out.is_empty());
}

#[test]
fn sentinel_as_head_is_kept() {
    let out = run(&["$ x\t5"], None, None).unwrap();
    assert_eq!(out, vec!["$\tx\t5".to_string()]);
}

#[test]
fn empty_head_phrase_is_kept() {
    let out = run(&[" b\t3"], None, None).unwrap();
    assert_eq!(out, vec!["\tb\t3".to_string()]);
}

#[test]
fn max_weight_wins_across_lines() {
    let out = run(&["k v\t3", "k v\t7"], None, None).unwrap();
    assert_eq!(out, vec!["k\tv\t7".to_string()]);
    let out = run(&["k v\t7", "k v\t3"], None, None).unwrap();
    assert_eq!(out, vec!["k\tv\t7".to_string()]);
}

#[test]
fn ranking_sorts_by_weight_descending() {
    let out = run(&["k a\t2", "k b\t9", "k c\t5"], None, None).unwrap();
    assert_eq!(
        out,
        vec![
            "k\tb\t9".to_string(),
            "k\tc\t5".to_string(),
            "k\ta\t2".to_string()
        ]
    );
}

#[test]
fn equal_weights_keep_insertion_order() {
    let out = run(&["k a\t5", "k b\t5", "k c\t5"], None, None).unwrap();
    assert_eq!(
        out,
        vec![
            "k\ta\t5".to_string(),
            "k\tb\t5".to_string(),
            "k\tc\t5".to_string()
        ]
    );
}

#[test]
fn cap_keeps_highest_weighted() {
    let out = run(&["k a\t2", "k b\t9", "k c\t5"], None, Some(2)).unwrap();
    assert_eq!(out, vec!["k\tb\t9".to_string(), "k\tc\t5".to_string()]);
}

#[test]
fn cap_larger_than_list_changes_nothing() {
    let out = run(&["k a\t2", "k b\t9"], None, Some(10)).unwrap();
    assert_eq!(out, vec!["k\tb\t9".to_string(), "k\ta\t2".to_string()]);
}

#[test]
fn filter_drops_strictly_below() {
    let out = run(&["k a\t4", "k b\t5"], Some(5), None).unwrap();
    assert_eq!(out, vec!["k\tb\t5".to_string()]);
}

#[test]
fn filter_monotone_without_cap() {
    let low = run(&["k a\t3", "k b\t10"], None, None).unwrap();
    let high = run(&["k a\t3", "k b\t10"], Some(5), None).unwrap();
    assert_eq!(low, vec!["k\tb\t10".to_string(), "k\ta\t3".to_string()]);
    assert_eq!(high, vec!["k\tb\t10".to_string()]);
    for line in &high {
        assert!(low.contains(line));
    }
}

#[test]
fn filter_changes_insertion_order_under_cap() {
    // A raised filter may drop an early observation and so change which of
    // two equally weighted candidates is inserted first and survives a cap.
    let input = &["k a\t3", "k b\t10", "k a\t10"];
    let low = run(input, None, Some(1)).unwrap();
    let high = run(input, Some(5), Some(1)).unwrap();
    assert_eq!(low, vec!["k\ta\t10".to_string()]);
    assert_eq!(high, vec!["k\tb\t10".to_string()]);
}

#[test]
fn filter_drops_prefix_observations_transitively() {
    let out = run(&["abc\t2"], Some(3), None).unwrap();
    assert!(out.is_empty());
}

#[test]
fn keys_output_in_insertion_order() {
    let out = run(&["b x\t1", "a y\t2"], None, None).unwrap();
    assert_eq!(out, vec!["b\tx\t1".to_string(), "a\ty\t2".to_string()]);
}

#[test]
fn weight_zero_and_large_render_exactly() {
    let out = run(&["k v\t0", "k w\t4294967295"], None, None).unwrap();
    assert_eq!(
        out,
        vec!["k\tw\t4294967295".to_string(), "k\tv\t0".to_string()]
    );
}

#[test]
fn leading_zeros_parse_as_value() {
    let out = run(&["k v\t007"], None, None).unwrap();
    assert_eq!(out, vec!["k\tv\t7".to_string()]);
}

#[test]
fn no_tab_is_format_error() {
    assert_eq!(run(&["noTab"], None, None), Err(PredictError::FormatError));
}

#[test]
fn two_tabs_is_format_error() {
    assert_eq!(
        run(&["a\t5\tb"], None, None),
        Err(PredictError::FormatError)
    );
}

#[test]
fn two_spaces_is_format_error() {
    assert_eq!(
        run(&["a b c\t5"], None, None),
        Err(PredictError::FormatError)
    );
}

#[test]
fn filtered_record_skips_key_format_check() {
    // The filter acts on the raw record before decomposition, so a malformed
    // key below the filter weight is dropped, not rejected.
    assert_eq!(run(&["a b c\t3"], Some(5), None), Ok(vec![]));
}

#[test]
fn empty_weight_is_parse_error() {
    assert_eq!(
        run(&["k\t"], None, None),
        Err(PredictError::WeightParseError)
    );
}

#[test]
fn negative_weight_is_parse_error() {
    assert_eq!(
        run(&["k\t-5"], None, None),
        Err(PredictError::WeightParseError)
    );
}

#[test]
fn non_numeric_weight_is_parse_error() {
    assert_eq!(
        run(&["k\tx9"], None, None),
        Err(PredictError::WeightParseError)
    );
}

#[test]
fn overflowing_weight_is_parse_error() {
    assert_eq!(
        run(&["k\t4294967296"], None, None),
        Err(PredictError::WeightParseError)
    );
    assert_eq!(
        run(&["k\t99999999999999999999"], None, None),
        Err(PredictError::WeightParseError)
    );
}

#[test]
fn first_bad_line_aborts() {
    assert_eq!(
        run(&["k v\t5", "bad", "k w\t9"], None, None),
        Err(PredictError::FormatError)
    );
}

#[test]
fn no_lines_no_output() {
    let out = run(&[], None, None).unwrap();
    assert!(out.is_empty());
}
