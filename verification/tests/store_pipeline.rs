use tempfile::TempDir;
use trecs::errors::StoreError;
use trecs::extract::KeyExtractor;
use trecs::pipeline::{stage_all, ErrorPolicy, Issue, PipelineError};
use trecs::stager::Stager;

fn store_dir() -> TempDir {
    TempDir::new().unwrap()
}

#[test]
fn test_round_trip_single_record() {
    let dir = store_dir();
    let mut st = Stager::open_fresh(dir.path().to_str().unwrap(), 1024).unwrap();
    let key = b"K".to_vec();
    let record = b"{\"id\":\"K\",\"v\":1}".to_vec();
    st.stage(key.clone(), record.clone()).unwrap();
    st.commit().unwrap();
    let rows = st.iterate_from_start().unwrap();
    assert_eq!(rows, vec![(key, record)]);
}

#[test]
fn test_ordered_iteration_sorts_keys() {
    let dir = store_dir();
    let mut st = Stager::open_fresh(dir.path().to_str().unwrap(), 4096).unwrap();
    st.stage(b"b".to_vec(), b"2".to_vec()).unwrap();
    st.stage(b"a".to_vec(), b"1".to_vec()).unwrap();
    st.stage(b"c".to_vec(), b"3".to_vec()).unwrap();
    st.commit().unwrap();
    let rows = st.iterate_from_start().unwrap();
    assert_eq!(
        rows,
        vec![
            (b"a".to_vec(), b"1".to_vec()),
            (b"b".to_vec(), b"2".to_vec()),
            (b"c".to_vec(), b"3".to_vec()),
        ]
    );
}

#[test]
fn test_duplicate_keys_keep_arrival_order() {
    let dir = store_dir();
    let mut st = Stager::open_fresh(dir.path().to_str().unwrap(), 4096).unwrap();
    st.stage(b"k".to_vec(), b"first".to_vec()).unwrap();
    st.stage(b"a".to_vec(), b"other".to_vec()).unwrap();
    st.stage(b"k".to_vec(), b"second".to_vec()).unwrap();
    st.stage(b"k".to_vec(), b"first".to_vec()).unwrap();
    st.commit().unwrap();
    let rows = st.iterate_from_start().unwrap();
    assert_eq!(
        rows,
        vec![
            (b"a".to_vec(), b"other".to_vec()),
            (b"k".to_vec(), b"first".to_vec()),
            (b"k".to_vec(), b"second".to_vec()),
            (b"k".to_vec(), b"first".to_vec()),
        ]
    );
}

#[test]
fn test_capacity_boundary_fails_triggering_write_only() {
    let dir = store_dir();
    // Each entry below costs 1 (key) + 5 (value) + 8 (framing) = 14 bytes.
    let mut st = Stager::open_fresh(dir.path().to_str().unwrap(), 20).unwrap();
    st.stage(b"a".to_vec(), b"aaaaa".to_vec()).unwrap();
    let err = st.stage(b"b".to_vec(), b"bbbbb".to_vec()).unwrap_err();
    assert_eq!(err, StoreError::CapacityExceeded);
    // Prior writes stay committable and readable afterward.
    st.commit().unwrap();
    let rows = st.iterate_from_start().unwrap();
    assert_eq!(rows, vec![(b"a".to_vec(), b"aaaaa".to_vec())]);
}

#[test]
fn test_location_with_existing_staged_data_is_refused() {
    // A location that already holds the staging database is refused rather
    // than silently reused, whatever flags that database may carry.
    let dir = store_dir();
    let path = dir.path().to_str().unwrap().to_string();
    let mut st = Stager::open_fresh(&path, 1024).unwrap();
    st.stage(b"a".to_vec(), b"1".to_vec()).unwrap();
    st.commit().unwrap();
    drop(st);
    match Stager::open_fresh(&path, 1024) {
        Err(e) => assert_eq!(e, StoreError::IoFailure),
        Ok(_) => panic!("expected the reused location to be refused"),
    }
}

#[test]
fn test_stage_after_commit_is_already_committed() {
    let dir = store_dir();
    let mut st = Stager::open_fresh(dir.path().to_str().unwrap(), 1024).unwrap();
    st.stage(b"a".to_vec(), b"1".to_vec()).unwrap();
    st.commit().unwrap();
    let err = st.stage(b"b".to_vec(), b"2".to_vec()).unwrap_err();
    assert_eq!(err, StoreError::AlreadyCommitted);
    let err = st.commit().unwrap_err();
    assert_eq!(err, StoreError::AlreadyCommitted);
}

#[test]
fn test_concrete_scenario_two_records() {
    // Input records keyed by "id" with the literal strategy: staged keys are
    // "7" and "9" and ordered iteration yields "7" then "9".
    let dir = store_dir();
    let src = b"{\"id\":\"7\",\"v\":1}\n{\"id\":\"9\",\"v\":2}\n";
    let kx = KeyExtractor::new(vec![b"id".to_vec()]).unwrap();
    let (st, report) = stage_all(
        dir.path().to_str().unwrap(),
        1 << 20,
        &kx,
        src,
        ErrorPolicy::AbortOnFirst,
    )
    .unwrap();
    assert_eq!(report.staged_count, 2);
    assert_eq!(report.issues.len(), 0);
    let rows = st.iterate_from_start().unwrap();
    assert_eq!(
        rows,
        vec![
            (b"7".to_vec(), b"{\"id\":\"7\",\"v\":1}".to_vec()),
            (b"9".to_vec(), b"{\"id\":\"9\",\"v\":2}".to_vec()),
        ]
    );
}

#[test]
fn test_skip_policy_collects_issues_with_offsets() {
    let dir = store_dir();
    let src = b"{\"k\":\"x\"}\noops\n{\"k\":\"y\"}\n{\"k\":5}\n";
    let kx = KeyExtractor::new(vec![b"k".to_vec()]).unwrap();
    let (st, report) = stage_all(
        dir.path().to_str().unwrap(),
        1 << 20,
        &kx,
        src,
        ErrorPolicy::SkipAndContinue,
    )
    .unwrap();
    assert_eq!(report.staged_count, 2);
    assert_eq!(report.issues.len(), 2);
    match &report.issues[0] {
        Issue::Decode(d) => {
            assert_eq!(d.offset, 10);
            assert_eq!(d.snippet, b"oops".to_vec());
        }
        other => panic!("expected a decode issue, got {:?}", other),
    }
    match &report.issues[1] {
        Issue::Extract(offset, _) => assert_eq!(*offset, 25),
        other => panic!("expected an extract issue, got {:?}", other),
    }
    let rows = st.iterate_from_start().unwrap();
    assert_eq!(
        rows,
        vec![
            (b"x".to_vec(), b"{\"k\":\"x\"}".to_vec()),
            (b"y".to_vec(), b"{\"k\":\"y\"}".to_vec()),
        ]
    );
}

#[test]
fn test_abort_policy_returns_first_failure() {
    let dir = store_dir();
    let src = b"{\"k\":\"x\"}\nbroken here\n{\"k\":\"y\"}\n";
    let kx = KeyExtractor::new(vec![b"k".to_vec()]).unwrap();
    match stage_all(
        dir.path().to_str().unwrap(),
        1 << 20,
        &kx,
        src,
        ErrorPolicy::AbortOnFirst,
    ) {
        Err(PipelineError::Decode(d)) => {
            assert_eq!(d.offset, 10);
            assert_eq!(d.snippet, b"broken here".to_vec());
        }
        Err(other) => panic!("expected a decode failure, got {:?}", other),
        Ok(_) => panic!("expected a decode failure, got a successful run"),
    }
}

#[test]
fn test_capacity_error_is_fatal_through_pipeline() {
    let dir = store_dir();
    let src = b"{\"k\":\"x\"}\n{\"k\":\"y\"}\n";
    let kx = KeyExtractor::new(vec![b"k".to_vec()]).unwrap();
    // Each staged entry costs 1 + 9 + 8 = 18 bytes; the second exceeds 30.
    match stage_all(
        dir.path().to_str().unwrap(),
        30,
        &kx,
        src,
        ErrorPolicy::AbortOnFirst,
    ) {
        Err(e) => assert_eq!(e, PipelineError::Store(StoreError::CapacityExceeded)),
        Ok(_) => panic!("expected a capacity failure, got a successful run"),
    }
}

#[test]
fn test_long_malformed_record_snippet_is_capped() {
    let dir = store_dir();
    let mut src: Vec<u8> = Vec::new();
    for _ in 0..100 {
        src.push(b'z');
    }
    src.push(b'\n');
    src.extend_from_slice(b"{\"k\":\"a\"}\n");
    let kx = KeyExtractor::new(vec![b"k".to_vec()]).unwrap();
    let (_, report) = stage_all(
        dir.path().to_str().unwrap(),
        1 << 20,
        &kx,
        &src,
        ErrorPolicy::SkipAndContinue,
    )
    .unwrap();
    assert_eq!(report.staged_count, 1);
    match &report.issues[0] {
        Issue::Decode(d) => {
            assert_eq!(d.offset, 0);
            assert_eq!(d.snippet.len(), 64);
            assert!(d.snippet.iter().all(|b| *b == b'z'));
        }
        other => panic!("expected a decode issue, got {:?}", other),
    }
}

#[test]
fn test_empty_source_stages_nothing() {
    let dir = store_dir();
    let kx = KeyExtractor::new(vec![b"k".to_vec()]).unwrap();
    let (st, report) = stage_all(
        dir.path().to_str().unwrap(),
        1 << 20,
        &kx,
        b"",
        ErrorPolicy::AbortOnFirst,
    )
    .unwrap();
    assert_eq!(report.staged_count, 0);
    assert_eq!(st.iterate_from_start().unwrap(), vec![]);
}

#[test]
fn test_blank_lines_are_skipped_not_records() {
    let dir = store_dir();
    let src = b"\n{\"k\":\"a\"}\n\n\n{\"k\":\"b\"}";
    let kx = KeyExtractor::new(vec![b"k".to_vec()]).unwrap();
    let (st, report) = stage_all(
        dir.path().to_str().unwrap(),
        1 << 20,
        &kx,
        src,
        ErrorPolicy::AbortOnFirst,
    )
    .unwrap();
    assert_eq!(report.staged_count, 2);
    let rows = st.iterate_from_start().unwrap();
    assert_eq!(rows.len(), 2);
    assert_eq!(rows[0].0, b"a".to_vec());
    assert_eq!(rows[1].0, b"b".to_vec());
}
