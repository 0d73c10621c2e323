use linesort::fields::split_fields;
use linesort::fields::trim_trailing;
use linesort::fieldspec::ConfigError;
use linesort::fieldspec::parse_field_spec;
use linesort::keys::SortKey;
use linesort::month::month_key;
use linesort::numparse::parse_plain;
use linesort::numparse::parse_with_suffix;
use linesort::numparse::render_num;
use linesort::numkey::cmp_num;
use linesort::order::Relation;
use linesort::order::cmp_str;
use linesort::sortseq::is_sorted;

fn suffix_rendered(s: &str) -> String {
    render_num(&parse_with_suffix(s))
}

#[test]
fn suffix_k_multiplies_by_thousand() {
    assert_eq!(suffix_rendered("1k"), "1000");
}

#[test]
fn suffix_m_with_fraction() {
    assert_eq!(suffix_rendered("2.5m"), "2500000");
}

#[test]
fn suffix_t_multiplies_by_trillion() {
    assert_eq!(suffix_rendered("3t"), "3000000000000");
}

#[test]
fn no_suffix_is_plain_value() {
    assert_eq!(suffix_rendered("7"), "7");
}

#[test]
fn unparsable_prefix_is_zero_times_multiplier() {
    assert_eq!(suffix_rendered("xyzk"), "0");
    assert_eq!(suffix_rendered("k"), "0");
}

#[test]
fn suffix_is_case_insensitive() {
    assert_eq!(suffix_rendered("1K"), "1000");
    assert_eq!(suffix_rendered("1B"), "1000000000");
}

#[test]
fn plain_parse_normalizes() {
    assert_eq!(render_num(&parse_plain("007")), "7");
    assert_eq!(render_num(&parse_plain("2.50")), "2.5");
    assert_eq!(render_num(&parse_plain("-0.5")), "-0.5");
    assert_eq!(render_num(&parse_plain("+.5")), "0.5");
    assert_eq!(render_num(&parse_plain("0.0001")), "0.0001");
}

#[test]
fn plain_parse_rejects_to_zero() {
    assert_eq!(render_num(&parse_plain("")), "0");
    assert_eq!(render_num(&parse_plain(".")), "0");
    assert_eq!(render_num(&parse_plain("1.2.3")), "0");
    assert_eq!(render_num(&parse_plain("1e5")), "0");
}

#[test]
fn numeric_comparison_is_by_value() {
    let a = parse_plain("0.25");
    let b = parse_plain("0.5");
    assert_eq!(cmp_num(&a, &b), Relation::Less);
    let c = parse_plain("-10");
    let d = parse_plain("-2");
    assert_eq!(cmp_num(&c, &d), Relation::Less);
    let e = parse_plain("3.0");
    let f = parse_plain("3");
    assert_eq!(cmp_num(&e, &f), Relation::Equal);
}

#[test]
fn split_discards_separator_runs() {
    let fs = split_fields("  alpha\t beta  ");
    assert_eq!(fs, vec!["alpha".to_string(), "beta".to_string()]);
    let empty = split_fields("   ");
    assert!(empty.is_empty());
}

#[test]
fn trim_removes_only_trailing_whitespace() {
    assert_eq!(trim_trailing("  a b \t "), "  a b");
    assert_eq!(trim_trailing("abc"), "abc");
    assert_eq!(trim_trailing(""), "");
}

#[test]
fn month_key_table() {
    assert_eq!(month_key("jan"), 1);
    assert_eq!(month_key("DEC"), 12);
    assert_eq!(month_key("Sep"), 9);
    assert_eq!(month_key("january"), 0);
    assert_eq!(month_key(""), 0);
}

#[test]
fn field_spec_accepts_positive_indices() {
    assert_eq!(parse_field_spec("1,2,10").unwrap(), vec![1, 2, 10]);
    assert_eq!(parse_field_spec("3").unwrap(), vec![3]);
}

#[test]
fn field_spec_rejects_non_numeric() {
    assert_eq!(parse_field_spec("a"), Err(ConfigError::NonNumeric));
    assert_eq!(parse_field_spec(""), Err(ConfigError::NonNumeric));
    assert_eq!(parse_field_spec("1,,2"), Err(ConfigError::NonNumeric));
    assert_eq!(parse_field_spec("1,x"), Err(ConfigError::NonNumeric));
    assert_eq!(parse_field_spec("99999999999999999999999"), Err(ConfigError::NonNumeric));
}

#[test]
fn field_spec_rejects_zero_index() {
    assert_eq!(parse_field_spec("0"), Err(ConfigError::ZeroIndex));
    assert_eq!(parse_field_spec("1,0"), Err(ConfigError::ZeroIndex));
}

#[test]
fn cmp_str_is_lexicographic() {
    assert_eq!(cmp_str("abc", "abd"), Relation::Less);
    assert_eq!(cmp_str("ab", "abc"), Relation::Less);
    assert_eq!(cmp_str("b", "a"), Relation::Greater);
    assert_eq!(cmp_str("same", "same"), Relation::Equal);
}

#[test]
fn is_sorted_on_keys() {
    let sorted = vec![
        SortKey::Text("a".to_string()),
        SortKey::Text("b".to_string()),
        SortKey::Text("b".to_string()),
    ];
    assert!(is_sorted(&sorted));
    let unsorted = vec![SortKey::Text("b".to_string()), SortKey::Text("a".to_string())];
    assert!(!is_sorted(&unsorted));
    let empty: Vec<SortKey> = Vec::new();
    assert!(is_sorted(&empty));
}
