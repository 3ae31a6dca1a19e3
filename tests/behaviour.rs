use s3_dedupe::dedup::{extract_by_keys, DedupExtract};
use s3_dedupe::json::Json;
use s3_dedupe::merge::{append_document, merge_documents, merge_raw_documents};
use s3_dedupe::path::Dotnotation;
use s3_dedupe::sort::{texts_in_order, values_in_order, SortByDotnotation};

fn s(v: &str) -> Json {
    Json::Str(v.to_string())
}

fn n(v: u64) -> Json {
    Json::Number(serde_json::Number::from(v))
}

fn obj(members: Vec<(&str, Json)>) -> Json {
    Json::Object(members.into_iter().map(|(k, v)| (k.to_string(), v)).collect())
}

fn text(v: Option<&Json>) -> Option<String> {
    match v {
        Some(Json::Str(t)) => Some(t.clone()),
        _ => None,
    }
}

fn num(v: Option<&Json>) -> Option<u64> {
    match v {
        Some(Json::Number(x)) => x.as_u64(),
        _ => None,
    }
}

fn ids(records: &[Json]) -> Vec<String> {
    records.iter().map(|r| text(r.get("id")).unwrap_or_default()).collect()
}

#[test]
fn path_through_three_levels() {
    let v = obj(vec![("a", obj(vec![("b", obj(vec![("c", n(7))]))]))]);
    let by_hand = v.get("a").unwrap().get("b").unwrap().get("c");
    assert_eq!(num(v.get_by_dotnotation("a.b.c")), Some(7));
    assert_eq!(num(by_hand), Some(7));
    assert!(v.get_by_dotnotation("a.b.d").is_none());
    assert!(v.get_by_dotnotation("a.b.c.d").is_none());
    assert!(matches!(v.get_by_dotnotation("a.b"), Some(Json::Object(_))));
}

#[test]
fn path_single_segment_and_empty_segments() {
    let v = obj(vec![("", obj(vec![("x", n(1))])), ("id", s("r1"))]);
    assert_eq!(text(v.get_by_dotnotation("id")), Some("r1".to_string()));
    assert_eq!(num(v.get_by_dotnotation(".x")), Some(1));
    assert!(v.get_by_dotnotation("id.").is_none());
    assert!(v.get_by_dotnotation("x").is_none());
}

#[test]
fn path_does_not_index_arrays() {
    let v = obj(vec![("list", Json::Array(vec![n(1), n(2)]))]);
    assert!(v.get_by_dotnotation("list.0").is_none());
    assert!(n(3).get_by_dotnotation("a").is_none());
    let w = obj(vec![("0", n(9))]);
    assert_eq!(num(w.get_by_dotnotation("0")), Some(9));
}

#[test]
fn later_batch_wins_for_shared_identifier() {
    let mut records = vec![
        obj(vec![("id", s("x1")), ("payload", s("first"))]),
        obj(vec![("id", s("x2")), ("payload", s("only"))]),
    ];
    records.append(&mut vec![
        obj(vec![("id", s("x1")), ("payload", s("second"))]),
        obj(vec![("id", s("x2")), ("payload", s("again"))]),
    ]);
    let result = records.dedup_extract_by_dotnotation("id");
    assert_eq!(result.len(), 2);
    let x1: Vec<&Json> = result.iter().filter(|r| text(r.get("id")) == Some("x1".to_string())).collect();
    assert_eq!(x1.len(), 1);
    assert_eq!(text(x1[0].get("payload")), Some("second".to_string()));
    assert_eq!(ids(&records), vec!["x1", "x2"]);
    assert_eq!(text(records[0].get("payload")), Some("second".to_string()));
}

#[test]
fn unresolvable_records_are_dropped() {
    let mut records = vec![
        obj(vec![("id", s("a"))]),
        obj(vec![("other", s("b"))]),
        obj(vec![("id", s("a"))]),
        n(5),
        obj(vec![("id", s("c"))]),
        obj(vec![("id", s("a"))]),
    ];
    let result = records.dedup_extract_by_dotnotation("id");
    // 6 records, 2 without the key, 2 distinct keys: 2 are left behind.
    assert_eq!(records.len(), 2);
    assert_eq!(result.len(), 2);
    assert_eq!(ids(&records), vec!["a", "a"]);
}

#[test]
fn no_record_has_the_key() {
    let mut records = vec![obj(vec![("x", n(1))]), obj(vec![("y", n(2))])];
    let result = records.dedup_extract_by_dotnotation("id");
    assert!(result.is_empty());
    assert!(records.is_empty());
}

#[test]
fn number_and_string_keys_differ() {
    let mut records = vec![obj(vec![("id", n(1))]), obj(vec![("id", s("1"))])];
    let result = records.dedup_extract_by_dotnotation("id");
    assert_eq!(result.len(), 2);
    assert!(records.is_empty());
}

#[test]
fn equal_objects_share_a_key() {
    let mut records = vec![
        obj(vec![("id", obj(vec![("k", n(1))])), ("v", n(1))]),
        obj(vec![("id", obj(vec![("k", n(1))])), ("v", n(2))]),
    ];
    let result = records.dedup_extract_by_dotnotation("id");
    assert_eq!(result.len(), 1);
    assert_eq!(num(result[0].get("v")), Some(2));
    assert_eq!(num(records[0].get("v")), Some(2));
}

#[test]
fn extraction_by_given_keys() {
    let mut records = vec![
        obj(vec![("v", n(1))]),
        obj(vec![("v", n(2))]),
        obj(vec![("v", n(3))]),
        obj(vec![("v", n(4))]),
    ];
    let keys = vec![Some("k".to_string()), None, Some("k".to_string()), Some("j".to_string())];
    let result = extract_by_keys(&mut records, &keys);
    assert_eq!(records.len(), 1);
    assert_eq!(num(records[0].get("v")), Some(3));
    let mut vs: Vec<u64> = result.iter().map(|r| num(r.get("v")).unwrap()).collect();
    vs.sort();
    assert_eq!(vs, vec![3, 4]);
}

#[test]
fn strings_sort_lexicographically() {
    let mut records = vec![
        obj(vec![("k", s("b"))]),
        obj(vec![("k", s("a"))]),
        obj(vec![("k", s("c"))]),
    ];
    records.sort_by_dotnotation("k");
    let got: Vec<String> = records.iter().map(|r| text(r.get("k")).unwrap()).collect();
    assert_eq!(got, vec!["a", "b", "c"]);
}

#[test]
fn numbers_sort_by_their_text() {
    let mut records = vec![obj(vec![("k", n(2))]), obj(vec![("k", n(10))]), obj(vec![("k", n(1))])];
    records.sort_by_dotnotation("k");
    let got: Vec<u64> = records.iter().map(|r| num(r.get("k")).unwrap()).collect();
    assert_eq!(got, vec![1, 10, 2]);
}

#[test]
fn timestamps_sort_chronologically() {
    let mut records = vec![
        obj(vec![("id", s("late")), ("t", s("2020-01-01T09:00:00Z"))]),
        obj(vec![("id", s("early")), ("t", s("2020-01-01T10:00:00+02:00"))]),
        obj(vec![("id", s("middle")), ("t", s("2020-01-01T08:30:00Z"))]),
    ];
    records.sort_by_dotnotation("t");
    assert_eq!(ids(&records), vec!["early", "middle", "late"]);
}

#[test]
fn comparator_on_given_readings() {
    assert!(texts_in_order("b", Some((5, 0)), "a", Some((6, 0))));
    assert!(!texts_in_order("a", Some((6, 0)), "b", Some((5, 0))));
    assert!(texts_in_order("x", Some((5, 1)), "y", Some((5, 1))));
    assert!(!texts_in_order("x", Some((5, 2)), "y", Some((5, 1))));
    assert!(texts_in_order("a", None, "b", Some((1, 0))));
    assert!(!texts_in_order("b", Some((1, 0)), "a", None));
    assert!(texts_in_order("ab", None, "abc", None));
    assert!(!texts_in_order("abc", None, "ab", None));
    assert!(texts_in_order("", None, "", None));
}

#[test]
fn comparator_on_values() {
    assert!(values_in_order(&s("2020-01-01T10:00:00+02:00"), &s("2020-01-01T09:00:00Z")));
    assert!(!values_in_order(&s("2020-01-01T09:00:00Z"), &s("2020-01-01T10:00:00+02:00")));
    assert!(values_in_order(&n(10), &n(2)));
    assert!(values_in_order(&s("a"), &s("b")));
    assert!(!values_in_order(&s("b"), &s("a")));
}

#[test]
fn array_and_object_documents_merge() {
    let docs = vec![
        br#"[{"id": 1}, {"id": 2}, {"id": 3}]"#.to_vec(),
        br#"{"id": 4}"#.to_vec(),
    ];
    let records = merge_raw_documents(&docs);
    assert_eq!(records.len(), 4);
    let got: Vec<u64> = records.iter().map(|r| num(r.get("id")).unwrap()).collect();
    assert_eq!(got, vec![1, 2, 3, 4]);
}

#[test]
fn other_documents_are_skipped() {
    let docs = vec![
        b"not json".to_vec(),
        b"42".to_vec(),
        br#"{"id": "a", "data": {"x": [1, 2]}}"#.to_vec(),
        br#""text""#.to_vec(),
    ];
    let records = merge_raw_documents(&docs);
    assert_eq!(records.len(), 1);
    assert_eq!(text(records[0].get("id")), Some("a".to_string()));
    assert!(matches!(records[0].get_by_dotnotation("data.x"), Some(Json::Array(v)) if v.len() == 2));
}

#[test]
fn documents_append_in_order() {
    let mut records = vec![obj(vec![("id", s("first"))])];
    assert!(append_document(&mut records, Some(Json::Array(vec![obj(vec![("id", s("second"))])]))));
    assert!(append_document(&mut records, Some(obj(vec![("id", s("third"))]))));
    assert!(!append_document(&mut records, Some(n(1))));
    assert!(!append_document(&mut records, None));
    assert_eq!(ids(&records), vec!["first", "second", "third"]);
    let merged = merge_documents(vec![None, Some(obj(vec![("id", s("x"))])), Some(Json::Array(vec![]))]);
    assert_eq!(ids(&merged), vec!["x"]);
}

#[test]
fn deep_copy_keeps_the_tree() {
    let v = obj(vec![("a", Json::Array(vec![n(1), s("t"), Json::Null, Json::Bool(true)]))]);
    let c = v.deep_copy();
    match c.get("a") {
        Some(Json::Array(items)) => {
            assert_eq!(items.len(), 4);
            assert_eq!(num(items.first()), Some(1));
            assert!(matches!(items[3], Json::Bool(true)));
        }
        _ => panic!("copy lost the array"),
    }
}
