use logview::store::{Col, PubData, PubTypes, Store};
use logview::types::{normalize_json_each_types, DataType};

fn ingest(store: &mut Store, lines: &[&str]) {
    let owned: Vec<String> = lines.iter().map(|s| s.to_string()).collect();
    let (progress, meta) = store.ingest_lines(owned);
    assert_eq!(progress.pub_type, PubTypes::Progress);
    match progress.data {
        PubData::Progress { parsing_percent } => assert_eq!(parsing_percent, 100),
        _ => panic!("progress envelope carries the wrong kind"),
    }
    assert_eq!(meta.pub_type, PubTypes::ColumnMeta);
}

fn columns(store: &Store) -> Vec<Col> {
    match store.get(PubTypes::ColumnMeta) {
        PubData::ColumnMeta { cols } => cols,
        _ => panic!("snapshot carries the wrong kind"),
    }
}

fn col<'a>(cols: &'a [Col], name: &str) -> &'a Col {
    cols.iter().find(|c| c.name == name).expect("column missing")
}

#[test]
fn normalize_single_integer_is_real() {
    assert_eq!(normalize_json_each_types("integer".to_string()), DataType::Real);
}

#[test]
fn normalize_integer_and_text_is_text() {
    assert_eq!(normalize_json_each_types("integer,text".to_string()), DataType::Text);
}

#[test]
fn normalize_true_false_is_bool() {
    assert_eq!(normalize_json_each_types("true,false".to_string()), DataType::Bool);
}

#[test]
fn normalize_array_is_json() {
    assert_eq!(normalize_json_each_types("array".to_string()), DataType::JSON);
}

#[test]
fn normalize_empty_is_text() {
    assert_eq!(normalize_json_each_types("".to_string()), DataType::Text);
}

#[test]
fn normalize_null_alone_is_text() {
    assert_eq!(normalize_json_each_types("null".to_string()), DataType::Text);
}

#[test]
fn normalize_null_with_real_is_real() {
    assert_eq!(normalize_json_each_types("null,real".to_string()), DataType::Real);
}

#[test]
fn normalize_unknown_token_is_text() {
    assert_eq!(normalize_json_each_types("integer,widget".to_string()), DataType::Text);
}

#[test]
fn store_counts_nonempty_lines_only() {
    let mut store = Store::new();
    ingest(
        &mut store,
        &["{\"a\":1}", "", "not json at all", "", "{\"a\":2}"],
    );
    assert_eq!(store.records().len(), 3);
}

#[test]
fn malformed_records_are_stored_but_not_analyzed() {
    let mut store = Store::new();
    ingest(&mut store, &["not json at all", "[1,2,3]", "42"]);
    assert_eq!(store.records().len(), 3);
    assert_eq!(columns(&store).len(), 0);
}

#[test]
fn scenario_numbers_and_texts() {
    let mut store = Store::new();
    ingest(
        &mut store,
        &["{\"a\":1,\"b\":\"x\"}", "{\"a\":2,\"b\":\"y\"}", "{\"a\":3,\"b\":\"z\"}"],
    );
    let cols = columns(&store);
    assert_eq!(cols.len(), 2);

    let a = col(&cols, "a").meta.as_ref().expect("a has meta");
    assert_eq!(a.data_type, DataType::Real);
    assert_eq!(a.min, 1);
    assert_eq!(a.max, 3);
    assert!(!a.is_datetime);
    assert!(!a.is_json);

    let b = col(&cols, "b").meta.as_ref().expect("b has meta");
    assert_eq!(b.data_type, DataType::Text);
    assert_eq!(b.vals, vec!["x".to_string(), "y".to_string(), "z".to_string()]);
    assert!(!b.is_datetime);
}

#[test]
fn scenario_timestamps() {
    let mut store = Store::new();
    ingest(
        &mut store,
        &["{\"t\":\"2024-01-01T00:00:00Z\"}", "{\"t\":\"2024-01-02T00:00:00Z\"}"],
    );
    let cols = columns(&store);
    let t = col(&cols, "t").meta.as_ref().expect("t has meta");
    assert_eq!(t.data_type, DataType::Text);
    assert!(t.is_datetime);
    let first = "2024-01-01T00:00:00Z"
        .parse::<chrono::DateTime<chrono::Utc>>()
        .unwrap()
        .timestamp_millis();
    let second = "2024-01-02T00:00:00Z"
        .parse::<chrono::DateTime<chrono::Utc>>()
        .unwrap()
        .timestamp_millis();
    assert_eq!(first, 1_704_067_200_000);
    assert_eq!(second, 1_704_153_600_000);
    assert_eq!(t.min, first);
    assert_eq!(t.max, second);
}

#[test]
fn one_bad_value_clears_the_timestamp_flag() {
    let mut store = Store::new();
    ingest(
        &mut store,
        &["{\"t\":\"2024-01-01T00:00:00Z\"}", "{\"t\":\"not a moment\"}"],
    );
    let cols = columns(&store);
    let t = col(&cols, "t").meta.as_ref().expect("t has meta");
    assert!(!t.is_datetime);

    // A fresh analysis over corrected data restores the flag.
    ingest(&mut store, &["{\"t\":\"2024-01-01T00:00:00Z\"}"]);
    let cols = columns(&store);
    let t = col(&cols, "t").meta.as_ref().expect("t has meta");
    assert!(t.is_datetime);
}

#[test]
fn empty_text_clears_the_timestamp_flag() {
    let mut store = Store::new();
    ingest(&mut store, &["{\"t\":\"\"}"]);
    let cols = columns(&store);
    let t = col(&cols, "t").meta.as_ref().expect("t has meta");
    assert!(!t.is_datetime);
}

#[test]
fn nested_values_are_opaque_json() {
    let mut store = Store::new();
    ingest(&mut store, &["{\"o\":{\"x\":1},\"l\":[1,2]}"]);
    let cols = columns(&store);
    let o = col(&cols, "o").meta.as_ref().expect("o has meta");
    assert_eq!(o.data_type, DataType::JSON);
    assert!(o.is_json);
    let l = col(&cols, "l").meta.as_ref().expect("l has meta");
    assert_eq!(l.data_type, DataType::JSON);
    assert!(l.is_json);
}

#[test]
fn booleans_normalize_to_bool() {
    let mut store = Store::new();
    ingest(&mut store, &["{\"f\":true}", "{\"f\":false}"]);
    let cols = columns(&store);
    let f = col(&cols, "f").meta.as_ref().expect("f has meta");
    assert_eq!(f.data_type, DataType::Bool);
}

#[test]
fn mixed_numbers_and_text_normalize_to_text() {
    let mut store = Store::new();
    ingest(&mut store, &["{\"v\":1}", "{\"v\":\"one\"}"]);
    let cols = columns(&store);
    let v = col(&cols, "v").meta.as_ref().expect("v has meta");
    assert_eq!(v.data_type, DataType::Text);
}

#[test]
fn filter_update_keeps_meta_and_meta_update_keeps_filter() {
    let mut store = Store::new();
    ingest(&mut store, &["{\"a\":1}"]);
    store.configure_column("a".to_string(), true, None);
    let cols = columns(&store);
    let a = col(&cols, "a");
    assert!(a.meta.is_some(), "a filter edit must not clear the meta facet");
    assert!(a.filter.is_some());

    // A fresh analysis pass merges meta without clearing the filter.
    let (_, _) = store.ingest_lines(vec!["{\"a\":5}".to_string()]);
    store.configure_column("a".to_string(), false, None);
    let before = columns(&store);
    assert!(col(&before, "a").filter.is_some());
}

#[test]
fn configuring_an_unknown_column_inserts_a_bare_one() {
    let mut store = Store::new();
    store.configure_column("later".to_string(), true, None);
    let cols = columns(&store);
    let c = col(&cols, "later");
    assert!(c.meta.is_none());
    assert!(c.filter.is_some());
}

#[test]
fn progress_snapshot_follows_ingestion() {
    let mut store = Store::new();
    match store.get(PubTypes::Progress) {
        PubData::Progress { parsing_percent } => assert_eq!(parsing_percent, 0),
        _ => panic!("snapshot carries the wrong kind"),
    }
    ingest(&mut store, &["{\"a\":1}"]);
    match store.get(PubTypes::Progress) {
        PubData::Progress { parsing_percent } => assert_eq!(parsing_percent, 100),
        _ => panic!("snapshot carries the wrong kind"),
    }
}

#[test]
fn storage_key_follows_the_base_name() {
    assert_eq!(
        logview::store::storage_key("logview", "/var/log/service.jsonl"),
        Some("logview/service.db".to_string())
    );
    assert_eq!(
        logview::store::storage_key("logview", "service.jsonl"),
        Some("logview/service.db".to_string())
    );
    assert_eq!(
        logview::store::storage_key("logview", "a\\b\\trace.tar.gz"),
        Some("logview/trace.tar.db".to_string())
    );
    assert_eq!(
        logview::store::storage_key("logview", ".bashrc"),
        Some("logview/.bashrc.db".to_string())
    );
    assert_eq!(
        logview::store::storage_key("logview", "plain"),
        Some("logview/plain.db".to_string())
    );
    assert_eq!(logview::store::storage_key("logview", "/var/log/"), None);
    assert_eq!(logview::store::storage_key("logview", ""), None);
}
