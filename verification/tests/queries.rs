use logview::query::{BindValue, CellData};
use logview::store::{Condition, PubData, PubTypes, Store};
use logview::EngineError;

fn ingest(store: &mut Store, lines: &[&str]) {
    let owned: Vec<String> = lines.iter().map(|s| s.to_string()).collect();
    store.ingest_lines(owned);
}

fn scenario_store() -> Store {
    let mut store = Store::new();
    ingest(
        &mut store,
        &["{\"a\":1,\"b\":\"x\"}", "{\"a\":2,\"b\":\"y\"}", "{\"a\":3,\"b\":\"z\"}"],
    );
    store
}

#[test]
fn selection_projects_only_selected_columns() {
    let mut store = scenario_store();
    store.configure_column("a".to_string(), true, None);
    store.configure_column("b".to_string(), false, None);
    let out = store.query(10).expect("query succeeds");
    assert_eq!(out.rows.len(), 3);
    let mut seen: Vec<i64> = Vec::new();
    for row in &out.rows {
        assert_eq!(row.len(), 1);
        let (name, cell) = &row[0];
        assert_eq!(name, "a");
        match cell {
            CellData::Real(n) => seen.push(*n),
            _ => panic!("a is a numeric column"),
        }
    }
    assert_eq!(seen, vec![1, 2, 3]);
    assert!(!out.statement.contains("b"));
}

#[test]
fn rendered_statement_has_the_projection_shape() {
    let mut store = scenario_store();
    store.configure_column("a".to_string(), true, None);
    let out = store.query(10).expect("query succeeds");
    assert_eq!(
        out.statement,
        "SELECT json_extract(entry, '$.a') AS a FROM log LIMIT 10"
    );
    assert!(out.bindings.is_empty());
}

#[test]
fn numeric_range_keeps_matching_rows_only() {
    let mut store = scenario_store();
    store.configure_column("a".to_string(), true, Some(Condition::NumRange(1, 2)));
    let out = store.query(10).expect("query succeeds");
    assert_eq!(out.rows.len(), 2);
    for row in &out.rows {
        match &row[0].1 {
            CellData::Real(n) => assert!(1 <= *n && *n <= 2),
            _ => panic!("a is a numeric column"),
        }
    }
    assert_eq!(
        out.statement,
        "SELECT json_extract(entry, '$.a') AS a FROM log WHERE \
         json_extract(entry, '$.a') BETWEEN ? AND ? LIMIT 10"
    );
    assert_eq!(out.bindings, vec![BindValue::Num(1), BindValue::Num(2)]);
}

#[test]
fn limit_caps_the_row_count() {
    let mut store = scenario_store();
    store.configure_column("a".to_string(), true, None);
    let out = store.query(2).expect("query succeeds");
    assert_eq!(out.rows.len(), 2);
    match &out.rows[0][0].1 {
        CellData::Real(n) => assert_eq!(*n, 1),
        _ => panic!("a is a numeric column"),
    }
}

#[test]
fn membership_test_honors_reverse() {
    let mut store = scenario_store();
    store.configure_column(
        "b".to_string(),
        true,
        Some(Condition::Select { items: vec!["x".to_string(), "y".to_string()], reverse: false }),
    );
    let out = store.query(10).expect("query succeeds");
    assert_eq!(out.rows.len(), 2);
    assert_eq!(
        out.bindings,
        vec![BindValue::Text("x".to_string()), BindValue::Text("y".to_string())]
    );
    assert_eq!(
        out.statement,
        "SELECT json_extract(entry, '$.b') AS b FROM log WHERE \
         COALESCE(json_extract(entry, '$.b') IN (?, ?), 0) LIMIT 10"
    );

    store.configure_column(
        "b".to_string(),
        true,
        Some(Condition::Select { items: vec!["x".to_string(), "y".to_string()], reverse: true }),
    );
    let out = store.query(10).expect("query succeeds");
    assert_eq!(out.rows.len(), 1);
    match &out.rows[0][0].1 {
        CellData::Text(s) => assert_eq!(s, "z"),
        _ => panic!("b is a text column"),
    }
}

#[test]
fn text_match_folds_case_only_when_asked() {
    let mut store = Store::new();
    ingest(&mut store, &["{\"s\":\"HeLLo world\"}", "{\"s\":\"bye\"}"]);
    store.configure_column(
        "s".to_string(),
        true,
        Some(Condition::TextMatch {
            term: "hello".to_string(),
            reverse: false,
            case: false,
            regex: false,
        }),
    );
    let out = store.query(10).expect("query succeeds");
    assert_eq!(out.rows.len(), 1);
    match &out.rows[0][0].1 {
        CellData::Text(s) => assert_eq!(s, "HeLLo world"),
        _ => panic!("s is a text column"),
    }

    store.configure_column(
        "s".to_string(),
        true,
        Some(Condition::TextMatch {
            term: "hello".to_string(),
            reverse: false,
            case: true,
            regex: false,
        }),
    );
    let out = store.query(10).expect("query succeeds");
    assert_eq!(out.rows.len(), 0);
}

#[test]
fn invalid_column_name_is_refused_before_rendering() {
    let mut store = Store::new();
    ingest(&mut store, &["{\"bad name\":1}"]);
    store.configure_column("bad name".to_string(), true, None);
    assert!(matches!(store.query(10), Err(EngineError::ValidationError)));
}

#[test]
fn regex_match_filters_rows() {
    let mut store = Store::new();
    ingest(&mut store, &["{\"s\":\"HeLLo world\"}", "{\"s\":\"bye\"}"]);
    store.configure_column(
        "s".to_string(),
        true,
        Some(Condition::TextMatch {
            term: "w.rld$".to_string(),
            reverse: false,
            case: true,
            regex: true,
        }),
    );
    let out = store.query(10).expect("query succeeds");
    assert_eq!(out.rows.len(), 1);
    match &out.rows[0][0].1 {
        CellData::Text(s) => assert_eq!(s, "HeLLo world"),
        _ => panic!("s is a text column"),
    }
    assert_eq!(
        out.statement,
        "SELECT json_extract(entry, '$.s') AS s FROM log WHERE \
         COALESCE(json_extract(entry, '$.s') REGEXP ?, 0) LIMIT 10"
    );
    assert_eq!(out.bindings, vec![BindValue::Text("w.rld$".to_string())]);
}

#[test]
fn regex_match_honors_case_sensitivity() {
    let mut store = Store::new();
    ingest(&mut store, &["{\"s\":\"HeLLo\"}"]);
    store.configure_column(
        "s".to_string(),
        true,
        Some(Condition::TextMatch {
            term: "^hello$".to_string(),
            reverse: false,
            case: true,
            regex: true,
        }),
    );
    assert_eq!(store.query(10).expect("query succeeds").rows.len(), 0);

    store.configure_column(
        "s".to_string(),
        true,
        Some(Condition::TextMatch {
            term: "^hello$".to_string(),
            reverse: false,
            case: false,
            regex: true,
        }),
    );
    assert_eq!(store.query(10).expect("query succeeds").rows.len(), 1);
}

#[test]
fn invalid_regex_pattern_is_refused_before_evaluation() {
    let mut store = scenario_store();
    store.configure_column(
        "b".to_string(),
        true,
        Some(Condition::TextMatch {
            term: "(".to_string(),
            reverse: false,
            case: true,
            regex: true,
        }),
    );
    assert!(matches!(store.query(10), Err(EngineError::QueryError)));
}

#[test]
fn reversed_matches_keep_rows_lacking_the_column() {
    let mut store = Store::new();
    ingest(&mut store, &["{\"a\":1,\"b\":\"x\"}", "{\"a\":2}"]);
    store.configure_column(
        "b".to_string(),
        true,
        Some(Condition::TextMatch {
            term: "x".to_string(),
            reverse: true,
            case: true,
            regex: false,
        }),
    );
    let out = store.query(10).expect("query succeeds");
    assert_eq!(out.rows.len(), 1);
    match &out.rows[0][0].1 {
        CellData::Text(s) => assert_eq!(s, ""),
        _ => panic!("b is a text column"),
    }
    assert_eq!(
        out.statement,
        "SELECT json_extract(entry, '$.b') AS b FROM log WHERE \
         NOT COALESCE(instr(json_extract(entry, '$.b'), ?) > 0, 0) LIMIT 10"
    );
}

#[test]
fn unanalyzed_columns_do_not_reach_the_projection() {
    let mut store = scenario_store();
    store.configure_column("ghostly".to_string(), true, None);
    store.configure_column("a".to_string(), true, None);
    let out = store.query(10).expect("query succeeds");
    for row in &out.rows {
        assert_eq!(row.len(), 1);
        assert_eq!(row[0].0, "a");
    }
}

#[test]
fn missing_keys_yield_typed_defaults() {
    let mut store = Store::new();
    ingest(&mut store, &["{\"a\":1,\"b\":\"x\"}", "{\"a\":2}"]);
    store.configure_column("b".to_string(), true, None);
    let out = store.query(10).expect("query succeeds");
    assert_eq!(out.rows.len(), 2);
    match &out.rows[1][0].1 {
        CellData::Text(s) => assert_eq!(s, ""),
        _ => panic!("b is a text column"),
    }
}

#[test]
fn json_cells_carry_the_raw_span() {
    let mut store = Store::new();
    ingest(&mut store, &["{\"o\":{\"x\": 1}}"]);
    store.configure_column("o".to_string(), true, None);
    let out = store.query(10).expect("query succeeds");
    match &out.rows[0][0].1 {
        CellData::JSON(s) => assert_eq!(s, "{\"x\": 1}"),
        _ => panic!("o is a json column"),
    }
}

#[test]
fn bool_cells_follow_the_stored_value() {
    let mut store = Store::new();
    ingest(&mut store, &["{\"f\":true}", "{\"f\":false}", "{\"x\":1}"]);
    store.configure_column("f".to_string(), true, None);
    let out = store.query(10).expect("query succeeds");
    let got: Vec<bool> = out
        .rows
        .iter()
        .map(|row| match &row[0].1 {
            CellData::Bool(b) => *b,
            _ => panic!("f is a bool-typed cell"),
        })
        .collect();
    assert_eq!(got, vec![true, false, false]);
}

#[test]
fn timestamp_range_filters_on_epoch_millis() {
    let mut store = Store::new();
    ingest(
        &mut store,
        &["{\"t\":\"2024-01-01T00:00:00Z\"}", "{\"t\":\"2024-01-02T00:00:00Z\"}"],
    );
    store.configure_column(
        "t".to_string(),
        true,
        Some(Condition::NumRange(1_704_067_200_000, 1_704_067_200_000)),
    );
    let out = store.query(10).expect("query succeeds");
    assert_eq!(out.rows.len(), 1);
    match &out.rows[0][0].1 {
        CellData::Text(s) => assert_eq!(s, "2024-01-01T00:00:00Z"),
        _ => panic!("t is a text column"),
    }
}

#[test]
fn escaped_strings_are_decoded() {
    let mut store = Store::new();
    ingest(&mut store, &["{\"s\":\"a\\nb \\u0041 \\ud83d\\ude00\"}"]);
    let cols = match store.get(PubTypes::ColumnMeta) {
        PubData::ColumnMeta { cols } => cols,
        _ => panic!("snapshot carries the wrong kind"),
    };
    let meta = cols[0].meta.as_ref().expect("s has meta");
    assert_eq!(meta.vals, vec!["a\nb A \u{1F600}".to_string()]);
}

#[test]
fn numbers_with_fraction_or_exponent_are_reals() {
    let mut store = Store::new();
    ingest(&mut store, &["{\"v\":1.75}", "{\"v\":2e3}", "{\"v\":-4}"]);
    store.configure_column("v".to_string(), true, None);
    let out = store.query(10).expect("query succeeds");
    let got: Vec<i64> = out
        .rows
        .iter()
        .map(|row| match &row[0].1 {
            CellData::Real(n) => *n,
            _ => panic!("v is a numeric column"),
        })
        .collect();
    assert_eq!(got, vec![1, 2000, -4]);
}

#[test]
fn two_selected_columns_render_comma_separated() {
    let mut store = scenario_store();
    store.configure_column("a".to_string(), true, None);
    store.configure_column("b".to_string(), true, None);
    let out = store.query(10).expect("query succeeds");
    assert_eq!(
        out.statement,
        "SELECT json_extract(entry, '$.a') AS a, \
         json_extract(entry, '$.b') AS b FROM log LIMIT 10"
    );
    assert_eq!(out.rows.len(), 3);
    assert_eq!(out.rows[0].len(), 2);
}

#[test]
fn case_folding_match_renders_with_lower() {
    let mut store = Store::new();
    ingest(&mut store, &["{\"s\":\"HeLLo\"}"]);
    store.configure_column(
        "s".to_string(),
        true,
        Some(Condition::TextMatch {
            term: "hello".to_string(),
            reverse: false,
            case: false,
            regex: false,
        }),
    );
    let out = store.query(10).expect("query succeeds");
    assert_eq!(
        out.statement,
        "SELECT json_extract(entry, '$.s') AS s FROM log WHERE \
         COALESCE(instr(lower(json_extract(entry, '$.s')), lower(?)) > 0, 0) LIMIT 10"
    );
    assert_eq!(out.bindings, vec![BindValue::Text("hello".to_string())]);
}
