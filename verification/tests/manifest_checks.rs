//! Manifest engine checks: fingerprint entries, sorted collection,
//! verification, and the canonical JSON round trip.

use safetar::manifest::{
    collect_manifest, verify_manifest, ManifestEntry, ManifestError, ManifestItem, ManifestKind,
};
use safetar::manifest_json::{parse_manifest_json, render_manifest_json};

fn hex_digest(bytes: &[u8]) -> String {
    hex::encode(<sha2::Sha256 as sha2::Digest>::digest(bytes))
}

fn file_item(relative: &str, absolute: &str, size: u64, mtime: Option<u64>) -> ManifestItem {
    ManifestItem {
        relative: relative.to_string(),
        absolute: absolute.to_string(),
        kind: ManifestKind::File,
        link_target: None,
        size,
        mtime,
    }
}

#[test]
fn write_and_read_manifest() {
    let items = vec![
        file_item("file.txt", "/data/file.txt", 5, Some(1_700_000_000)),
        ManifestItem {
            relative: "dir".to_string(),
            absolute: "/data/dir".to_string(),
            kind: ManifestKind::Directory,
            link_target: None,
            size: 0,
            mtime: None,
        },
    ];
    let digests = vec![hex_digest(b"hello"), String::new()];
    let entries = collect_manifest(&items, &digests);
    let text = render_manifest_json(&entries);
    let reloaded = parse_manifest_json(text.as_str()).expect("canonical manifest parses");
    assert_eq!(entries, reloaded);
}

#[test]
fn manifest_verification_detects_mismatch() {
    let expected_item = file_item("file.txt", "/a/expected.txt", 5, None);
    let actual_item = file_item("file.txt", "/a/actual.txt", 5, None);
    let expected = collect_manifest(&vec![expected_item], &vec![hex_digest(b"hello")]);
    let actual = collect_manifest(&vec![actual_item], &vec![hex_digest(b"world")]);
    let result = verify_manifest(&expected, &actual, false);
    assert!(result.is_err());
}

#[test]
fn relaxed_manifest_allows_new_entries() {
    let expected_item = file_item("expected.txt", "/base/expected.txt", 5, None);
    let extra_item = file_item("extra.txt", "/base/extra.txt", 5, None);
    let expected = collect_manifest(
        &vec![expected_item.clone()],
        &vec![hex_digest(b"hello")],
    );
    let actual = collect_manifest(
        &vec![expected_item, extra_item],
        &vec![hex_digest(b"hello"), hex_digest(b"world")],
    );
    verify_manifest(&expected, &actual, true).expect("relaxed mode allows extras");
}

#[test]
fn verification_is_reflexive() {
    let items = vec![
        file_item("a.txt", "/b/a.txt", 3, Some(7)),
        ManifestItem {
            relative: "link".to_string(),
            absolute: "/b/link".to_string(),
            kind: ManifestKind::Symlink,
            link_target: Some("a.txt".to_string()),
            size: 0,
            mtime: None,
        },
    ];
    let entries = collect_manifest(&items, &vec![hex_digest(b"abc"), String::new()]);
    verify_manifest(&entries, &entries, false).expect("a set verifies against itself");
}

#[test]
fn missing_and_unexpected_entries_are_reported() {
    let one = file_item("one.txt", "/m/one.txt", 1, None);
    let two = file_item("two.txt", "/m/two.txt", 1, None);
    let both = collect_manifest(
        &vec![one.clone(), two.clone()],
        &vec![hex_digest(b"1"), hex_digest(b"2")],
    );
    let only_one = collect_manifest(&vec![one], &vec![hex_digest(b"1")]);

    let missing = verify_manifest(&both, &only_one, false).expect_err("one entry is missing");
    assert!(matches!(missing, ManifestError::MissingEntry(p) if p == "two.txt"));

    let unexpected = verify_manifest(&only_one, &both, false).expect_err("one entry is extra");
    assert!(matches!(unexpected, ManifestError::UnexpectedEntry(p) if p == "two.txt"));

    verify_manifest(&only_one, &both, true).expect("relaxed mode permits additive drift");
}

#[test]
fn mismatched_kind_is_a_mismatch() {
    let as_file = collect_manifest(
        &vec![file_item("x", "/k/x", 0, None)],
        &vec![hex_digest(b"")],
    );
    let as_dir = collect_manifest(
        &vec![ManifestItem {
            relative: "x".to_string(),
            absolute: "/k/x".to_string(),
            kind: ManifestKind::Directory,
            link_target: None,
            size: 0,
            mtime: None,
        }],
        &vec![String::new()],
    );
    let err = verify_manifest(&as_file, &as_dir, false).expect_err("kinds differ");
    assert!(matches!(err, ManifestError::Mismatch { .. }));
}

#[test]
fn entries_are_sorted_by_path() {
    let items = vec![
        file_item("zebra.txt", "/s/zebra.txt", 1, None),
        file_item("alpha.txt", "/s/alpha.txt", 1, None),
        file_item("middle/keep.txt", "/s/middle/keep.txt", 1, None),
    ];
    let digests = vec![hex_digest(b"z"), hex_digest(b"a"), hex_digest(b"m")];
    let entries = collect_manifest(&items, &digests);
    assert_eq!(entries.len(), 3);
    assert_eq!(entries[0].path, "alpha.txt".to_string());
    assert_eq!(entries[1].path, "middle/keep.txt".to_string());
    assert_eq!(entries[2].path, "zebra.txt".to_string());
}

#[test]
fn directory_fingerprint_is_digest_of_nothing() {
    let entry = ManifestEntry::for_directory("some/dir", Some(42));
    assert_eq!(entry.sha256, hex_digest(b""));
    assert_eq!(
        entry.sha256,
        "e3b0c44298fc1c149afbf4c8996fb92427ae41e4649b934ca495991b7852b855".to_string()
    );
    assert_eq!(entry.size, 0);
    assert!(matches!(entry.kind, ManifestKind::Directory));
    assert_eq!(entry.mtime, Some(42));
}

#[test]
fn symlink_fingerprint_hashes_the_target_string() {
    let entry = ManifestEntry::for_symlink("dir/file.link", "file.txt");
    assert_eq!(entry.sha256, hex_digest(b"file.txt"));
    assert!(matches!(entry.kind, ManifestKind::Symlink));
    assert_eq!(entry.target, Some("file.txt".to_string()));
    assert_eq!(entry.mtime, None);
}

#[test]
fn manifest_round_trip_with_escapes() {
    let entries = vec![
        ManifestEntry {
            path: "plain.txt".to_string(),
            size: 18446744073709551615,
            sha256: hex_digest(b"x"),
            kind: ManifestKind::File,
            target: None,
            mtime: Some(0),
        },
        ManifestEntry {
            path: "quote\"back\\slash\ttab\nnewline\u{1}ctl".to_string(),
            size: 0,
            sha256: hex_digest(b"odd"),
            kind: ManifestKind::Symlink,
            target: Some("up/\u{7}bell".to_string()),
            mtime: None,
        },
        ManifestEntry {
            path: "dir".to_string(),
            size: 0,
            sha256: hex_digest(b""),
            kind: ManifestKind::Directory,
            target: None,
            mtime: Some(1234567890),
        },
    ];
    let text = render_manifest_json(&entries);
    let reloaded = parse_manifest_json(text.as_str()).expect("round trip parses");
    assert_eq!(entries, reloaded);
}

#[test]
fn empty_manifest_renders_and_parses() {
    let entries: Vec<ManifestEntry> = Vec::new();
    let text = render_manifest_json(&entries);
    assert_eq!(text, "[]".to_string());
    let reloaded = parse_manifest_json(text.as_str()).expect("empty array parses");
    assert!(reloaded.is_empty());
}

#[test]
fn rendered_manifest_is_pretty_printed_json() {
    let entries = collect_manifest(
        &vec![file_item("a.txt", "/p/a.txt", 5, Some(99))],
        &vec![hex_digest(b"hello")],
    );
    let text = render_manifest_json(&entries);
    let expected = format!(
        "[\n  {{\n    \"path\": \"a.txt\",\n    \"size\": 5,\n    \"sha256\": \"{}\",\n    \"kind\": \"File\",\n    \"target\": null,\n    \"mtime\": 99\n  }}\n]",
        hex_digest(b"hello")
    );
    assert_eq!(text, expected);
}

#[test]
fn malformed_manifest_text_is_rejected() {
    assert!(parse_manifest_json("").is_err());
    assert!(parse_manifest_json("{}").is_err());
    assert!(parse_manifest_json("[\n  {\n    \"path\": \"x\"\n  }\n]").is_err());
}
