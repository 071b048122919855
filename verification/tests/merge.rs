use make_predict_data::new_table;
use make_predict_data::rank::finalize;
use make_predict_data::record::process_line;
use make_predict_data::record::PredictError;
use make_predict_data::render::render_lines;
use make_predict_data::table::{add_record, get_weight};

#[test]
fn add_record_inserts_new_pair() {
    let mut t = new_table();
    add_record(&mut t, "k", "v", 5);
    assert_eq!(get_weight(&t, "k", "v"), Some(5));
    assert_eq!(get_weight(&t, "k", "w"), None);
    assert_eq!(get_weight(&t, "j", "v"), None);
}

#[test]
fn add_record_keeps_maximum_weight() {
    let mut t = new_table();
    add_record(&mut t, "k", "v", 3);
    add_record(&mut t, "k", "v", 7);
    assert_eq!(get_weight(&t, "k", "v"), Some(7));
    add_record(&mut t, "k", "v", 4);
    assert_eq!(get_weight(&t, "k", "v"), Some(7));
    add_record(&mut t, "k", "v", 7);
    assert_eq!(get_weight(&t, "k", "v"), Some(7));
}

#[test]
fn add_record_twice_same_as_once() {
    let mut once = new_table();
    add_record(&mut once, "k", "v", 5);
    let mut twice = new_table();
    add_record(&mut twice, "k", "v", 5);
    add_record(&mut twice, "k", "v", 5);
    finalize(&mut once, None);
    finalize(&mut twice, None);
    assert_eq!(render_lines(&once), render_lines(&twice));
}

#[test]
fn add_record_separates_values_and_keys() {
    let mut t = new_table();
    add_record(&mut t, "k", "a", 1);
    add_record(&mut t, "k", "b", 2);
    add_record(&mut t, "j", "a", 3);
    assert_eq!(get_weight(&t, "k", "a"), Some(1));
    assert_eq!(get_weight(&t, "k", "b"), Some(2));
    assert_eq!(get_weight(&t, "j", "a"), Some(3));
}

#[test]
fn process_line_leaves_table_unchanged_on_error() {
    let mut t = new_table();
    add_record(&mut t, "k", "v", 5);
    assert_eq!(
        process_line(&mut t, "bad line no tab", None),
        Err(PredictError::FormatError)
    );
    assert_eq!(
        process_line(&mut t, "k\tnine", None),
        Err(PredictError::WeightParseError)
    );
    assert_eq!(get_weight(&t, "k", "v"), Some(5));
    finalize(&mut t, None);
    assert_eq!(render_lines(&t), vec!["k\tv\t5".to_string()]);
}

#[test]
fn process_line_merges_phrase_record() {
    let mut t = new_table();
    assert_eq!(process_line(&mut t, "hello world\t42", None), Ok(()));
    assert_eq!(get_weight(&t, "hello", "world"), Some(42));
}

#[test]
fn process_line_fans_out_token() {
    let mut t = new_table();
    assert_eq!(process_line(&mut t, "abcd\t6", None), Ok(()));
    assert_eq!(get_weight(&t, "a", "bcd"), Some(6));
    assert_eq!(get_weight(&t, "ab", "cd"), Some(6));
    assert_eq!(get_weight(&t, "abc", "d"), Some(6));
    assert_eq!(get_weight(&t, "abcd", ""), None);
}

#[test]
fn process_line_respects_filter_boundary() {
    let mut t = new_table();
    assert_eq!(process_line(&mut t, "k v\t5", Some(5)), Ok(()));
    assert_eq!(get_weight(&t, "k", "v"), Some(5));
    assert_eq!(process_line(&mut t, "k w\t4", Some(5)), Ok(()));
    assert_eq!(get_weight(&t, "k", "w"), None);
}

#[test]
fn finalize_caps_each_key_separately() {
    let mut t = new_table();
    add_record(&mut t, "k", "a", 2);
    add_record(&mut t, "k", "b", 9);
    add_record(&mut t, "k", "c", 5);
    add_record(&mut t, "j", "x", 1);
    finalize(&mut t, Some(2));
    assert_eq!(
        render_lines(&t),
        vec![
            "k\tb\t9".to_string(),
            "k\tc\t5".to_string(),
            "j\tx\t1".to_string()
        ]
    );
}

#[test]
fn unicode_token_fans_out_by_character() {
    let mut t = new_table();
    assert_eq!(process_line(&mut t, "日本語\t8", None), Ok(()));
    assert_eq!(get_weight(&t, "日", "本語"), Some(8));
    assert_eq!(get_weight(&t, "日本", "語"), Some(8));
    finalize(&mut t, None);
    assert_eq!(
        render_lines(&t),
        vec!["日\t本語\t8".to_string(), "日本\t語\t8".to_string()]
    );
}
