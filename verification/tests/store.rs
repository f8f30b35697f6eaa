use std::path::Path;

use sarnaut::store::{
    blob_path, check_blob, display_path, is_blake3, logical_path, lookup_matches, manifest_path,
    reference_totals, reuse_cached, tally_ingest, validate_label, verify_result, LabelError,
    Manifest, ManifestEntry, ManifestError, ManifestHeader, ManifestRunReport, ProcessResult,
};

#[test]
fn rejects_traversal_in_labels() {
    assert!(validate_label("../outside").is_err());
    assert!(validate_label("good/source-1.0").is_ok());
}

#[test]
fn manifest_filename_preserves_dots_in_label() {
    assert_eq!(
        Path::new(&manifest_path("store", "classic-1.1-server")),
        Path::new("store").join("manifests").join("classic-1.1-server.jsonl")
    );
}

#[test]
fn labels_paths_and_digests() {
    assert_eq!(validate_label(""), Err(LabelError::Empty));
    assert_eq!(
        validate_label("a//b").unwrap_err().message(),
        "invalid label \"a//b\"; use slash-separated ASCII letters, digits, '.', '_', or '-'"
    );
    assert!(validate_label("a/./b").is_err());
    assert!(validate_label("a b").is_err());
    assert_eq!(manifest_path("/s", "a/b"), "/s/manifests/a/b.jsonl");
    let hash = "ab".repeat(32);
    assert!(is_blake3(&hash));
    assert!(is_blake3(&hash.to_uppercase()));
    assert!(!is_blake3("abc"));
    assert_eq!(blob_path("/s", &hash), format!("/s/blobs/ab/{hash}"));
    assert_eq!(logical_path("./x/../y"), "x/../y");
    assert_eq!(logical_path("/x/y"), "//x/y");
    assert_eq!(display_path("\\\\?\\UNC\\server\\share"), "\\\\server\\share");
    assert_eq!(display_path("\\\\?\\C:\\store"), "C:\\store");
    assert_eq!(display_path("/plain"), "/plain");
}

fn entry(path: &str, size: u64, hash: &str) -> ManifestEntry {
    ManifestEntry { path: path.into(), size, blake3: hash.into(), mtime: 1 }
}

fn manifest(label: &str, files: Vec<ManifestEntry>) -> Manifest {
    Manifest {
        header: ManifestHeader { label: label.into(), root: "/r".into(), created: "t".into(), tool_version: "1".into() },
        files,
        run_report: ManifestRunReport {
            started: "t".into(),
            finished: "t".into(),
            discovered_files: 0,
            recorded_files: 0,
            cache_hits: 0,
            new_blobs: 0,
            existing_blobs: 0,
            bytes_read: 0,
            errors: vec![],
        },
    }
}

#[test]
fn totals_count_each_blob_once() {
    let a = "a".repeat(64);
    let b = "b".repeat(64);
    let manifests = vec![
        manifest("zeta", vec![entry("one.txt", 10, &a), entry("two.txt", 5, &b)]),
        manifest("alpha", vec![entry("copy.txt", 10, &a)]),
    ];
    let totals = reference_totals(&manifests);
    assert_eq!(totals.manifests.iter().map(|m| m.label.as_str()).collect::<Vec<_>>(), vec!["alpha", "zeta"]);
    assert_eq!(totals.referenced_files, 3);
    assert_eq!(totals.referenced_bytes, 25);
    assert_eq!(totals.unique_referenced_blobs, 2);
    assert_eq!(totals.unique_referenced_bytes, 15);
    assert_eq!(totals.dedup_saved_bytes, 10);

    let found = lookup_matches(&a.to_uppercase(), &manifests);
    assert_eq!(found.iter().map(|m| (m.label.as_str(), m.path.as_str())).collect::<Vec<_>>(),
        vec![("alpha", "copy.txt"), ("zeta", "one.txt")]);
    let by_path = lookup_matches("two.txt", &manifests);
    assert_eq!(by_path.len(), 1);
    assert_eq!(by_path[0].size, 5);
}

#[test]
fn caching_verification_and_ingest_tallies() {
    let e = entry("x", 3, "h");
    assert!(reuse_cached(&e, 3, 1, true));
    assert!(!reuse_cached(&e, 3, 1, false));
    assert!(!reuse_cached(&e, 4, 1, true));
    let ok = check_blob("h", "/b/h", Ok(("h".into(), 7)));
    assert_eq!(ok.0, 7);
    assert!(ok.1.is_none());
    let bad = check_blob("h", "/b/h", Ok(("g".into(), 7)));
    assert_eq!(bad.1.unwrap().error, "hash mismatch: got g");
    let gone = check_blob("h", "/b/h", Err("missing".into()));
    assert_eq!(gone.0, 0);
    let result = verify_result(vec![ok, (u64::MAX, None), gone]);
    assert_eq!(result.checked, 3);
    assert_eq!(result.checked_bytes, u64::MAX);
    assert_eq!(result.failures.len(), 1);

    let tally = tally_ingest(
        vec![
            ProcessResult::Stored { entry: entry("b", 1, "x"), new_blob: true, bytes_read: 1 },
            ProcessResult::Cached(entry("a", 2, "y")),
            ProcessResult::Stored { entry: entry("c", 3, "z"), new_blob: false, bytes_read: 3 },
            ProcessResult::Error(ManifestError { path: "d".into(), operation: "ingest".into(), message: "m".into() }),
        ],
        vec![ManifestError { path: "0".into(), operation: "walk".into(), message: "m".into() }],
    );
    assert_eq!(tally.files.iter().map(|f| f.path.as_str()).collect::<Vec<_>>(), vec!["a", "b", "c"]);
    assert_eq!(tally.errors.iter().map(|f| f.path.as_str()).collect::<Vec<_>>(), vec!["0", "d"]);
    assert_eq!((tally.new_blobs, tally.existing_blobs, tally.bytes_read), (1, 1, 4));
}

#[test]
fn a_literal_percent_is_escaped_and_found_by_either_spelling() {
    assert_eq!(logical_path("100%.txt"), "100%25.txt");
    assert_eq!(logical_path("a%b/c%%"), "a%25b/c%25%25");
    let a = "a".repeat(64);
    let manifests = vec![manifest("test-fixture-1.0", vec![entry(&logical_path("100%.txt"), 10, &a)])];
    let by_source = lookup_matches("100%.txt", &manifests);
    let by_logical = lookup_matches("100%25.txt", &manifests);
    assert_eq!(by_source, by_logical);
    assert_eq!(by_logical.len(), 1);
    assert_eq!(by_logical[0].path, "100%25.txt");
}

#[test]
fn verifying_a_manifest_checks_each_recorded_digest_once() {
    let a = "a".repeat(64);
    let b = "b".repeat(64);
    let m = manifest("test-fixture-1.0", vec![
        entry("one.txt", 10, &b),
        entry("nested/two.txt", 10, &a),
        entry("100%25.txt", 10, &b),
        entry("three.txt", 9, &a),
    ]);
    assert_eq!(sarnaut::store::distinct_hashes(&m), vec![a.clone(), b.clone()]);
}

#[test]
fn an_unchanged_reingest_takes_every_entry_from_the_last_manifest() {
    let a = "a".repeat(64);
    let b = "b".repeat(64);
    let previous = vec![
        entry("100%25.txt", 10, &a),
        entry("nested/two.txt", 10, &a),
        entry("one.txt", 10, &a),
        entry("three.txt", 9, &b),
    ];
    assert!(previous.iter().all(|e| reuse_cached(e, e.size, e.mtime, true)));
    let results: Vec<ProcessResult> = previous.iter().cloned().map(ProcessResult::Cached).collect();
    let tally = tally_ingest(results, vec![]);
    assert_eq!(tally.files, previous);
    assert_eq!((tally.new_blobs, tally.existing_blobs, tally.bytes_read), (0, 0, 0));
    assert!(tally.errors.is_empty());
}
