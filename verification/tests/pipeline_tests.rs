use linesort::pipeline::CheckOutcome;
use linesort::pipeline::Config;
use linesort::pipeline::dedup_adjacent;
use linesort::pipeline::reverse_lines;
use linesort::pipeline::run;
use linesort::keys::SortMode;

fn strings(v: &[&str]) -> Vec<String> {
    v.iter().map(|s| s.to_string()) .collect()
}

fn cfg(mode: SortMode) -> Config {
    Config { mode, reverse: false, unique: false, trim_trailing: false, check_only: false }
}

#[test]
fn text_sort_basic() {
    let out = run(&cfg(SortMode::Text), strings(&["pear", "apple", "banana"]));
    assert_eq!(out.report, CheckOutcome::NotRequested);
    assert_eq!(out.lines.unwrap(), strings(&["apple", "banana", "pear"]));
}

#[test]
fn text_sort_already_sorted_identical() {
    // sorting an already-sorted sequence yields the identical sequence
    let input = strings(&["a", "b", "b", "c"]);
    let out = run(&cfg(SortMode::Text), input.clone());
    assert_eq!(out.lines.unwrap(), input);
}

#[test]
fn dedup_is_adjacency_only() {
    // fed directly, non-adjacent duplicates survive
    let direct = dedup_adjacent(&strings(&["b", "a", "b"]));
    assert_eq!(direct, strings(&["b", "a", "b"]));
    // sorted first, the duplicates become adjacent and one is removed
    let mut c = cfg(SortMode::Text);
    c.unique = true;
    let out = run(&c, strings(&["b", "a", "b"]));
    assert_eq!(out.lines.unwrap(), strings(&["a", "b"]));
}

#[test]
fn reverse_unique_composition_numeric() {
    // ascending [1,1,2,3], reversed [3,2,1,1], dedup-adjacent [3,2,1]
    let mut c = cfg(SortMode::Numeric);
    c.reverse = true;
    c.unique = true;
    let out = run(&c, strings(&["3", "1", "2", "1"]));
    assert_eq!(out.lines.unwrap(), strings(&["3", "2", "1"]));
}

#[test]
fn columns_tie_break() {
    let c = cfg(SortMode::Columns(vec![1, 2]));
    let out = run(&c, strings(&["a 2", "a 1"]));
    assert_eq!(out.lines.unwrap(), strings(&["a 1", "a 2"]));
}

#[test]
fn columns_stability_unconsidered_column() {
    // equal keys on column 1; the third column is not considered, so the
    // original relative order is kept
    let c = cfg(SortMode::Columns(vec![1]));
    let out = run(&c, strings(&["k z", "k a", "b q"]));
    assert_eq!(out.lines.unwrap(), strings(&["b q", "k z", "k a"]));
}

#[test]
fn columns_missing_column_is_empty() {
    // a line without the requested column contributes the empty string,
    // which orders first
    let c = cfg(SortMode::Columns(vec![2]));
    let out = run(&c, strings(&["b x", "a"]));
    assert_eq!(out.lines.unwrap(), strings(&["a", "b x"]));
}

#[test]
fn check_only_sorted_reports_and_emits_nothing() {
    let mut c = cfg(SortMode::Text);
    c.check_only = true;
    let out = run(&c, strings(&["a", "b", "c"]));
    assert_eq!(out.report, CheckOutcome::AlreadySorted);
    assert!(out.lines.is_none());
}

#[test]
fn check_only_unsorted_reports_and_sorts() {
    let mut c = cfg(SortMode::Text);
    c.check_only = true;
    let out = run(&c, strings(&["b", "a"]));
    assert_eq!(out.report, CheckOutcome::NotSorted);
    assert_eq!(out.lines.unwrap(), strings(&["a", "b"]));
}

#[test]
fn trim_trailing_applies_before_keying() {
    let mut c = cfg(SortMode::Text);
    c.trim_trailing = true;
    let out = run(&c, strings(&["b  ", "a\t"]));
    assert_eq!(out.lines.unwrap(), strings(&["a", "b"]));
}

#[test]
fn numeric_sort_emits_values() {
    let out = run(&cfg(SortMode::Numeric), strings(&["10", "2", "-3", "0.5"]));
    assert_eq!(out.lines.unwrap(), strings(&["-3", "0.5", "2", "10"]));
}

#[test]
fn numeric_unparsable_falls_back_to_zero() {
    let out = run(&cfg(SortMode::Numeric), strings(&["2", "oops", "-1"]));
    assert_eq!(out.lines.unwrap(), strings(&["-1", "0", "2"]));
}

#[test]
fn month_sort_unrecognized_lowest() {
    let out = run(&cfg(SortMode::Month), strings(&["mar", "JAN", "feb", "xxx"]));
    assert_eq!(out.lines.unwrap(), strings(&["xxx", "JAN", "feb", "mar"]));
}

#[test]
fn month_all_twelve_in_order() {
    let input = strings(&[
        "dec", "nov", "oct", "sep", "aug", "jul", "jun", "may", "apr", "mar", "feb", "jan",
    ]);
    let out = run(&cfg(SortMode::Month), input);
    assert_eq!(
        out.lines.unwrap(),
        strings(&[
            "jan", "feb", "mar", "apr", "may", "jun", "jul", "aug", "sep", "oct", "nov", "dec",
        ])
    );
}

#[test]
fn reverse_lines_basic() {
    let r = reverse_lines(&strings(&["a", "b", "c"]));
    assert_eq!(r, strings(&["c", "b", "a"]));
}

#[test]
fn empty_input_sorts_to_empty() {
    let out = run(&cfg(SortMode::Text), strings(&[]));
    assert_eq!(out.lines.unwrap(), strings(&[]));
}
