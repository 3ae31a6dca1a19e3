use s3_dedupe::source::{select_by_outcomes, select_matching_keys};

fn keys(v: &[&str]) -> Vec<String> {
    v.iter().map(|k| k.to_string()).collect()
}

#[test]
fn pattern_applies_to_file_name() {
    let listed = keys(&["data/2021/a.json", "data/readme.txt", "b.json", "data/json/c.csv"]);
    let got = select_matching_keys(&listed, "*.json").unwrap();
    assert_eq!(got, keys(&["data/2021/a.json", "b.json"]));
}

#[test]
fn pattern_classes_and_single_chars() {
    let listed = keys(&["p/x1.json", "p/x2.json", "p/x10.json", "p/y1.json"]);
    let got = select_matching_keys(&listed, "x?.json").unwrap();
    assert_eq!(got, keys(&["p/x1.json", "p/x2.json"]));
    let got = select_matching_keys(&listed, "[xy]1.json").unwrap();
    assert_eq!(got, keys(&["p/x1.json", "p/y1.json"]));
}

#[test]
fn trailing_slash_has_empty_name() {
    let listed = keys(&["dir/", "dir/a.json"]);
    let got = select_matching_keys(&listed, "*").unwrap();
    assert_eq!(got, keys(&["dir/", "dir/a.json"]));
    let got = select_matching_keys(&listed, "?*").unwrap();
    assert_eq!(got, keys(&["dir/a.json"]));
}

#[test]
fn invalid_pattern_is_reported() {
    let listed = keys(&["a.json"]);
    assert!(select_matching_keys(&listed, "a**.json").is_none());
    assert_eq!(select_matching_keys(&Vec::new(), "a**.json"), Some(Vec::new()));
}

#[test]
fn selection_by_given_outcomes() {
    let listed = keys(&["a", "b", "c"]);
    assert_eq!(
        select_by_outcomes(&listed, &vec![Some(true), Some(false), Some(true)]),
        Some(keys(&["a", "c"]))
    );
    assert_eq!(select_by_outcomes(&listed, &vec![Some(true), None, Some(true)]), None);
}
