use tempfile::TempDir;
use trecs::config::resolve_side;
use trecs::errors::{ConfigError, ExtractError};
use trecs::extract::{KeyExtractor, Strategy};
use trecs::merge::{merge_diff, Diff};
use trecs::pipeline::{stage_all, ErrorPolicy};
use trecs::record::parse_record;

#[test]
fn test_literal_extraction_joins_fields_with_bar() {
    let rec = parse_record(b"{\"a\":\"1\",\"b\":\"2\"}").unwrap();
    let kx = KeyExtractor::new(vec![b"a".to_vec(), b"b".to_vec()]).unwrap();
    assert_eq!(kx.strategy, Strategy::Literal);
    let key = kx
        .extract(&rec, &b"{\"a\":\"1\",\"b\":\"2\"}".to_vec())
        .unwrap();
    assert_eq!(key, b"1|2".to_vec());
}

#[test]
fn test_literal_extraction_missing_or_non_string() {
    let doc = b"{\"a\":\"1\",\"n\":7}".to_vec();
    let rec = parse_record(&doc).unwrap();
    let kx = KeyExtractor::new(vec![b"z".to_vec()]).unwrap();
    assert_eq!(
        kx.extract(&rec, &doc).unwrap_err(),
        ExtractError::MissingOrNonString
    );
    let kx = KeyExtractor::new(vec![b"n".to_vec()]).unwrap();
    assert_eq!(
        kx.extract(&rec, &doc).unwrap_err(),
        ExtractError::MissingOrNonString
    );
}

#[test]
fn test_string_escapes_are_decoded_before_keying() {
    let doc = b"{\"k\":\"a\\n\\\"b\"}".to_vec();
    let rec = parse_record(&doc).unwrap();
    let kx = KeyExtractor::new(vec![b"k".to_vec()]).unwrap();
    let key = kx.extract(&rec, &doc).unwrap();
    assert_eq!(key, b"a\n\"b".to_vec());
}

#[test]
fn test_strategy_selection_switches_on_dot() {
    let kx = KeyExtractor::new(vec![b"plain".to_vec()]).unwrap();
    assert_eq!(kx.strategy, Strategy::Literal);
    let kx = KeyExtractor::new(vec![b"plain".to_vec(), b"a.b".to_vec()]).unwrap();
    assert_eq!(kx.strategy, Strategy::Expression);
}

#[test]
fn test_strategy_equivalence_on_bare_identifiers() {
    // The literal and the expression strategies agree wherever the key
    // fields are bare identifiers.
    let doc = b"{\"id\":\"7\",\"name\":\"x\"}".to_vec();
    let rec = parse_record(&doc).unwrap();
    let fields = vec![b"id".to_vec(), b"name".to_vec()];
    let literal = KeyExtractor::new(fields.clone()).unwrap();
    assert_eq!(literal.strategy, Strategy::Literal);
    let expression = KeyExtractor::new_expression(fields.clone()).unwrap();
    assert_eq!(expression.strategy, Strategy::Expression);
    let k1 = literal.extract(&rec, &doc).unwrap();
    let k2 = expression.extract(&rec, &doc).unwrap();
    assert_eq!(k1, k2);
    assert_eq!(k1, b"7|x".to_vec());
}

#[test]
fn test_expression_strategy_nested_path_and_auto_quote() {
    // A hyphen-led field is auto-quoted for the expression grammar, and a
    // dotted field reaches into the nested record.
    let doc = b"{\"-RefId\":\"r1\",\"a\":{\"b\":\"r2\"}}".to_vec();
    let rec = parse_record(&doc).unwrap();
    let kx = KeyExtractor::new(vec![b"-RefId".to_vec(), b"a.b".to_vec()]).unwrap();
    assert_eq!(kx.strategy, Strategy::Expression);
    let key = kx.extract(&rec, &doc).unwrap();
    assert_eq!(key, b"r1|r2".to_vec());
}

#[test]
fn test_unparsable_descriptor_fails_compilation() {
    // A descriptor the expression grammar refuses fails extractor
    // construction with QueryFailed, under either constructor.
    match KeyExtractor::new(vec![b"a..b".to_vec()]) {
        Err(e) => assert_eq!(e, ExtractError::QueryFailed),
        Ok(_) => panic!("expected compilation to fail"),
    }
    match KeyExtractor::new_expression(vec![b"][".to_vec()]) {
        Err(e) => assert_eq!(e, ExtractError::QueryFailed),
        Ok(_) => panic!("expected compilation to fail"),
    }
}

#[test]
fn test_expression_failure_is_query_failed() {
    let doc = b"{\"a\":{\"b\":\"r2\"}}".to_vec();
    let rec = parse_record(&doc).unwrap();
    let kx = KeyExtractor::new(vec![b"a.missing".to_vec()]).unwrap();
    assert_eq!(
        kx.extract(&rec, &doc).unwrap_err(),
        ExtractError::QueryFailed
    );
    // A non-string result is a query failure too.
    let kx = KeyExtractor::new(vec![b"a".to_vec(), b"a.b".to_vec()]).unwrap();
    assert_eq!(
        kx.extract(&rec, &doc).unwrap_err(),
        ExtractError::QueryFailed
    );
}

#[test]
fn test_merge_classifies_all_four_cases() {
    // Left keys {A,B,D}, right keys {A,C,D}, equal records at A and
    // differing records at D.
    let ra = b"rec-a".to_vec();
    let rb = b"rec-b".to_vec();
    let rc = b"rec-c".to_vec();
    let rd1 = b"rec-d-left".to_vec();
    let rd2 = b"rec-d-right".to_vec();
    let left = vec![
        (b"A".to_vec(), ra.clone()),
        (b"B".to_vec(), rb.clone()),
        (b"D".to_vec(), rd1.clone()),
    ];
    let right = vec![
        (b"A".to_vec(), ra.clone()),
        (b"C".to_vec(), rc.clone()),
        (b"D".to_vec(), rd2.clone()),
    ];
    let diffs = merge_diff(&left, &right);
    assert_eq!(
        diffs,
        vec![
            Diff::BothUnchanged(b"A".to_vec(), ra),
            Diff::LeftOnly(b"B".to_vec(), rb),
            Diff::RightOnly(b"C".to_vec(), rc),
            Diff::BothChanged(b"D".to_vec(), rd1, rd2),
        ]
    );
}

#[test]
fn test_merge_independent_of_arrival_order() {
    // The same sides staged in different arrival orders classify alike,
    // since staging reorders by key.
    let mk = |lines: &[&str]| {
        let mut src = String::new();
        for l in lines {
            src.push_str(l);
            src.push('\n');
        }
        src
    };
    let kx = KeyExtractor::new(vec![b"id".to_vec()]).unwrap();
    let run = |lines: &[&str]| {
        let dir = TempDir::new().unwrap();
        let src = mk(lines);
        let (st, _) = stage_all(
            dir.path().to_str().unwrap(),
            1 << 20,
            &kx,
            src.as_bytes(),
            ErrorPolicy::AbortOnFirst,
        )
        .unwrap();
        st.iterate_from_start().unwrap()
    };
    let a = "{\"id\":\"A\",\"v\":1}";
    let b = "{\"id\":\"B\",\"v\":2}";
    let c = "{\"id\":\"C\",\"v\":3}";
    let d1 = "{\"id\":\"D\",\"v\":4}";
    let d2 = "{\"id\":\"D\",\"v\":5}";
    let left1 = run(&[a, b, d1]);
    let left2 = run(&[d1, b, a]);
    let right1 = run(&[a, c, d2]);
    let right2 = run(&[c, d2, a]);
    assert_eq!(left1, left2);
    assert_eq!(right1, right2);
    let diffs1 = merge_diff(&left1, &right1);
    let diffs2 = merge_diff(&left2, &right2);
    assert_eq!(diffs1, diffs2);
    assert_eq!(
        diffs1,
        vec![
            Diff::BothUnchanged(b"A".to_vec(), a.as_bytes().to_vec()),
            Diff::LeftOnly(b"B".to_vec(), b.as_bytes().to_vec()),
            Diff::RightOnly(b"C".to_vec(), c.as_bytes().to_vec()),
            Diff::BothChanged(b"D".to_vec(), d1.as_bytes().to_vec(), d2.as_bytes().to_vec()),
        ]
    );
}

#[test]
fn test_duplicate_key_pairs_then_left_only() {
    // Left key K twice, right key K once: one both-classification plus one
    // left-only for the unmatched duplicate, in arrival order.
    let r1 = b"payload-1".to_vec();
    let r2 = b"payload-2".to_vec();
    let left = vec![(b"K".to_vec(), r1.clone()), (b"K".to_vec(), r2.clone())];
    let right = vec![(b"K".to_vec(), r1.clone())];
    let diffs = merge_diff(&left, &right);
    assert_eq!(
        diffs,
        vec![
            Diff::BothUnchanged(b"K".to_vec(), r1),
            Diff::LeftOnly(b"K".to_vec(), r2),
        ]
    );
}

#[test]
fn test_resolve_side_errors() {
    assert_eq!(
        resolve_side(None, None).unwrap_err(),
        ConfigError::MissingDataset
    );
    assert_eq!(
        resolve_side(Some(b"left.jsonl".to_vec()), None).unwrap_err(),
        ConfigError::MissingKeyFields
    );
    assert_eq!(
        resolve_side(Some(b"left.jsonl".to_vec()), Some(vec![])).unwrap_err(),
        ConfigError::EmptyKeyFields
    );
    let sc = resolve_side(
        Some(b"left.jsonl".to_vec()),
        Some(vec![b"id".to_vec()]),
    )
    .unwrap();
    assert_eq!(sc.path, b"left.jsonl".to_vec());
    assert_eq!(sc.key_fields, vec![b"id".to_vec()]);
}
