//! Archive pipeline checks: walk decisions, exclusion, extraction planning,
//! entry classification and codec detection.

use std::io::Read;
use std::io::Write;

use safetar::archive::{
    classify_entry_byte, exclude_patterns_from_text, extract_step, list_entry, walk_step,
    ArchiveEntry, EntryKind, ExcludeSet, ExtractAction, WalkDecision, WalkError, WalkEvent,
};
use safetar::cli::{base_policy, choose_compression, CompressionChoice, CompressionFlags};
use safetar::compress::Compression;
use safetar::manifest::{collect_manifest, ManifestKind};
use safetar::policy::{PolicyError, SecurityPolicy};

const INPUT_ROOT: &str = "/base/input";
const DEST_ROOT: &str = "/dest";

fn hex_digest(bytes: &[u8]) -> String {
    hex::encode(<sha2::Sha256 as sha2::Digest>::digest(bytes))
}

fn dir_event(abs: &str) -> WalkEvent {
    WalkEvent {
        abs_path: abs.to_string(),
        ft_is_dir: true,
        meta_is_file: false,
        meta_is_dir: true,
        meta_is_symlink: false,
        size: 0,
        link_target: None,
        mtime: Some(10),
    }
}

fn file_event(abs: &str, size: u64) -> WalkEvent {
    WalkEvent {
        abs_path: abs.to_string(),
        ft_is_dir: false,
        meta_is_file: true,
        meta_is_dir: false,
        meta_is_symlink: false,
        size,
        link_target: None,
        mtime: Some(20),
    }
}

fn symlink_event(abs: &str, target: &str) -> WalkEvent {
    WalkEvent {
        abs_path: abs.to_string(),
        ft_is_dir: false,
        meta_is_file: false,
        meta_is_dir: false,
        meta_is_symlink: true,
        size: 0,
        link_target: Some(target.to_string()),
        mtime: None,
    }
}

fn include_entry(decision: WalkDecision) -> ArchiveEntry {
    match decision {
        WalkDecision::Include(entry) => entry,
        other => panic!("expected an included entry, got {:?}", other),
    }
}

#[test]
fn create_plan_respects_excludes() {
    let policy = SecurityPolicy::new();
    let mut usage = policy.usage();
    let excludes = ExcludeSet::compile(vec!["*.log".to_string()]).expect("valid globs");

    let root_decision = walk_step(&policy, &mut usage, INPUT_ROOT, &excludes, &dir_event(INPUT_ROOT))
        .expect("walk root");
    assert!(matches!(root_decision, WalkDecision::Skip));

    let nested = walk_step(
        &policy,
        &mut usage,
        INPUT_ROOT,
        &excludes,
        &dir_event("/base/input/nested"),
    )
    .expect("walk nested");
    let nested_entry = include_entry(nested);
    assert_eq!(nested_entry.relative, "nested".to_string());
    assert!(matches!(nested_entry.kind, EntryKind::Directory));

    let keep = walk_step(
        &policy,
        &mut usage,
        INPUT_ROOT,
        &excludes,
        &file_event("/base/input/nested/keep.txt", 4),
    )
    .expect("walk keep");
    let keep_entry = include_entry(keep);
    assert_eq!(keep_entry.relative, "nested/keep.txt".to_string());
    assert_eq!(keep_entry.size, 4);

    let skip = walk_step(
        &policy,
        &mut usage,
        INPUT_ROOT,
        &excludes,
        &file_event("/base/input/nested/skip.log", 4),
    )
    .expect("walk skip");
    assert!(matches!(skip, WalkDecision::Skip));

    let items = vec![nested_entry.to_manifest_item(), keep_entry.to_manifest_item()];
    let digests = vec![String::new(), hex_digest(b"keep")];
    let manifest = collect_manifest(&items, &digests);
    assert!(!manifest.iter().any(|entry| entry.path.ends_with("skip.log")));
    assert!(manifest.iter().any(|entry| entry.path == "nested/keep.txt"));
}

#[test]
fn excluded_directories_are_pruned() {
    let policy = SecurityPolicy::new();
    let mut usage = policy.usage();
    let excludes = ExcludeSet::compile(vec!["target".to_string()]).expect("valid globs");
    let decision = walk_step(
        &policy,
        &mut usage,
        INPUT_ROOT,
        &excludes,
        &dir_event("/base/input/target"),
    )
    .expect("walk pruned dir");
    assert!(matches!(decision, WalkDecision::PruneDir));
    assert_eq!(usage.files_seen(), 0);
}

#[test]
fn rejects_symlink_escape_at_creation() {
    let policy = SecurityPolicy::new();
    let mut usage = policy.usage();
    let excludes = ExcludeSet::compile(Vec::new()).expect("empty globs");
    let err = walk_step(
        &policy,
        &mut usage,
        INPUT_ROOT,
        &excludes,
        &symlink_event("/base/input/escape.link", "../../etc/passwd"),
    )
    .expect_err("symlink escape should be rejected");
    assert!(matches!(
        err,
        WalkError::Policy(PolicyError::LinkOutsideRoot(_))
    ));
    assert_eq!(usage.files_seen(), 0);
}

#[test]
fn confined_symlinks_are_included() {
    let policy = SecurityPolicy::new();
    let mut usage = policy.usage();
    let excludes = ExcludeSet::compile(Vec::new()).expect("empty globs");
    let decision = walk_step(
        &policy,
        &mut usage,
        INPUT_ROOT,
        &excludes,
        &symlink_event("/base/input/dir/file.link", "file.txt"),
    )
    .expect("confined symlink");
    let entry = include_entry(decision);
    assert!(matches!(entry.kind, EntryKind::Symlink));
    assert_eq!(entry.link_target, Some("file.txt".to_string()));
    assert_eq!(entry.relative, "dir/file.link".to_string());
}

#[test]
fn walk_rejects_paths_outside_base() {
    let policy = SecurityPolicy::new();
    let mut usage = policy.usage();
    let excludes = ExcludeSet::compile(Vec::new()).expect("empty globs");
    let err = walk_step(
        &policy,
        &mut usage,
        INPUT_ROOT,
        &excludes,
        &file_event("/elsewhere/file.txt", 1),
    )
    .expect_err("path outside the base");
    assert!(matches!(err, WalkError::Input(_)));
}

#[test]
fn extract_plans_a_regular_file() {
    let policy = SecurityPolicy::new();
    let mut usage = policy.usage();
    let plan = extract_step(
        &policy,
        &mut usage,
        DEST_ROOT,
        b'0',
        "nested/file.txt",
        7,
        None,
        Some(33),
    )
    .expect("file entry");
    assert!(matches!(plan.action, ExtractAction::WriteFile));
    assert_eq!(plan.validated.abs, "/dest/nested/file.txt".to_string());
    assert_eq!(plan.validated.rel, "nested/file.txt".to_string());
    assert!(matches!(plan.item.kind, ManifestKind::File));
    assert_eq!(plan.item.size, 7);
    assert_eq!(plan.item.mtime, Some(33));
    assert_eq!(usage.files_seen(), 1);
    assert_eq!(usage.total_bytes(), 7);
}

#[test]
fn extract_plans_a_directory() {
    let policy = SecurityPolicy::new();
    let mut usage = policy.usage();
    let plan = extract_step(&policy, &mut usage, DEST_ROOT, b'5', "sub/dir", 0, None, None)
        .expect("dir entry");
    assert!(matches!(plan.action, ExtractAction::CreateDir));
    assert!(matches!(plan.item.kind, ManifestKind::Directory));
    assert_eq!(plan.item.size, 0);
}

#[test]
fn extract_rejects_escaping_paths() {
    let policy = SecurityPolicy::new();
    let mut usage = policy.usage();
    let abs = extract_step(
        &policy,
        &mut usage,
        DEST_ROOT,
        b'0',
        "/etc/passwd",
        1,
        None,
        None,
    )
    .expect_err("absolute entry path");
    assert!(matches!(abs, PolicyError::AbsolutePath(_)));

    let up = extract_step(
        &policy,
        &mut usage,
        DEST_ROOT,
        b'0',
        "../outside",
        1,
        None,
        None,
    )
    .expect_err("traversing entry path");
    assert!(matches!(
        up,
        PolicyError::ParentTraversal(_) | PolicyError::RootEscape(_)
    ));
}

#[test]
fn extract_rejects_escaping_symlink_target() {
    let policy = SecurityPolicy::new();
    let mut usage = policy.usage();
    let err = extract_step(
        &policy,
        &mut usage,
        DEST_ROOT,
        b'2',
        "evil.link",
        0,
        Some("../../etc/passwd"),
        None,
    )
    .expect_err("escaping link target");
    assert!(matches!(err, PolicyError::LinkOutsideRoot(_)));
}

#[test]
fn extract_allows_confined_symlink_target() {
    let policy = SecurityPolicy::new();
    let mut usage = policy.usage();
    let plan = extract_step(
        &policy,
        &mut usage,
        DEST_ROOT,
        b'2',
        "dir/file.link",
        0,
        Some("file.txt"),
        None,
    )
    .expect("confined link");
    assert!(matches!(plan.action, ExtractAction::WriteSymlink));
    assert_eq!(plan.item.link_target, Some("file.txt".to_string()));
}

#[test]
fn classifies_tar_entry_types() {
    assert!(matches!(classify_entry_byte(b'0'), EntryKind::File));
    assert!(matches!(classify_entry_byte(0), EntryKind::File));
    assert!(matches!(classify_entry_byte(b'5'), EntryKind::Directory));
    assert!(matches!(classify_entry_byte(b'2'), EntryKind::Symlink));
    assert!(matches!(classify_entry_byte(b'1'), EntryKind::File));
    assert!(matches!(classify_entry_byte(b'7'), EntryKind::File));
    assert!(matches!(classify_entry_byte(b'S'), EntryKind::File));
    assert!(matches!(classify_entry_byte(b'x'), EntryKind::File));
}

#[test]
fn list_entry_builds_manifest_entries() {
    let file = list_entry(b'0', "a.txt", 5, Some(9), None, hex_digest(b"hello"));
    assert!(matches!(file.kind, ManifestKind::File));
    assert_eq!(file.sha256, hex_digest(b"hello"));
    assert_eq!(file.size, 5);
    assert_eq!(file.mtime, Some(9));

    let dir = list_entry(b'5', "d", 0, Some(9), None, String::new());
    assert!(matches!(dir.kind, ManifestKind::Directory));
    assert_eq!(dir.sha256, hex_digest(b""));

    let link = list_entry(b'2', "l", 0, Some(9), Some("a.txt"), String::new());
    assert!(matches!(link.kind, ManifestKind::Symlink));
    assert_eq!(link.sha256, hex_digest(b"a.txt"));
    assert_eq!(link.target, Some("a.txt".to_string()));
    assert_eq!(link.mtime, None);
}

#[test]
fn exclude_pattern_files_are_parsed_line_by_line() {
    let text = "*.log\n  spaced/pattern  \n\n# a comment\n\t\nfinal";
    let patterns = exclude_patterns_from_text(text);
    assert_eq!(
        patterns,
        vec![
            "*.log".to_string(),
            "spaced/pattern".to_string(),
            "final".to_string()
        ]
    );
}

#[test]
fn invalid_glob_patterns_are_rejected() {
    let result = ExcludeSet::compile(vec!["[".to_string()]);
    assert!(result.is_err());
}

#[test]
fn detects_codecs_from_magic_bytes() {
    assert!(matches!(
        Compression::detect(&[0x1f, 0x8b, 0x08, 0x00]),
        Compression::Gzip
    ));
    assert!(matches!(
        Compression::detect(&[0xfd, b'7', b'z', b'X', b'Z', 0x00, 0x00]),
        Compression::Xz
    ));
    assert!(matches!(
        Compression::detect(&[0x28, 0xb5, 0x2f, 0xfd, 0x10]),
        Compression::Zstd
    ));
    assert!(matches!(Compression::detect(b"ustar"), Compression::Plain));
    assert!(matches!(Compression::detect(&[]), Compression::Plain));
}

#[test]
fn codec_round_trips_preserve_bytes() {
    let payload = b"safetar makes archives safe".to_vec();

    let mut gz = flate2::write::GzEncoder::new(Vec::new(), flate2::Compression::default());
    gz.write_all(&payload).unwrap();
    let gz_bytes = gz.finish().unwrap();
    assert!(matches!(Compression::detect(&gz_bytes), Compression::Gzip));
    let mut gz_out = Vec::new();
    flate2::read::MultiGzDecoder::new(gz_bytes.as_slice())
        .read_to_end(&mut gz_out)
        .unwrap();
    assert_eq!(gz_out, payload);

    let mut xz = xz2::write::XzEncoder::new(Vec::new(), 6);
    xz.write_all(&payload).unwrap();
    let xz_bytes = xz.finish().unwrap();
    assert!(matches!(Compression::detect(&xz_bytes), Compression::Xz));
    let mut xz_out = Vec::new();
    xz2::read::XzDecoder::new(xz_bytes.as_slice())
        .read_to_end(&mut xz_out)
        .unwrap();
    assert_eq!(xz_out, payload);

    let zs_bytes = zstd::stream::encode_all(payload.as_slice(), 3).unwrap();
    assert!(matches!(Compression::detect(&zs_bytes), Compression::Zstd));
    let zs_out = zstd::stream::decode_all(zs_bytes.as_slice()).unwrap();
    assert_eq!(zs_out, payload);

    assert!(matches!(Compression::detect(&payload), Compression::Plain));
}

#[test]
fn compression_flags_resolve_as_documented() {
    let none = CompressionFlags::default();
    assert!(matches!(none.resolve(), CompressionChoice::Plain));
    let gz = CompressionFlags { gzip: true, xz: false, zstd: false };
    assert!(matches!(gz.resolve(), CompressionChoice::Gzip));
    let xz = CompressionFlags { gzip: false, xz: true, zstd: false };
    assert!(matches!(xz.resolve(), CompressionChoice::Xz));
    let zs = CompressionFlags { gzip: false, xz: false, zstd: true };
    assert!(matches!(zs.resolve(), CompressionChoice::Zstd));
    let both = CompressionFlags { gzip: true, xz: true, zstd: false };
    assert!(matches!(both.resolve(), CompressionChoice::Auto));
    assert!(matches!(choose_compression(both), Compression::Zstd));
    assert!(matches!(choose_compression(none), Compression::Plain));
}

#[test]
fn base_policy_applies_limit_overrides() {
    let policy = base_policy(Some(3), None, Some(1024), None);
    let limits = policy.limits();
    assert_eq!(limits.max_files, 3);
    assert_eq!(limits.max_single_file, 1024);
    assert_eq!(limits.max_total_bytes, 0x2_0000_0000);
    assert_eq!(limits.max_depth, 64);
}

#[test]
fn extract_steps_accept_a_real_tar_stream() {
    let payload = b"payload";
    let mut builder = tar::Builder::new(Vec::new());
    builder.mode(tar::HeaderMode::Deterministic);
    let mut header = tar::Header::new_gnu();
    header.set_size(payload.len() as u64);
    header.set_mode(0o644);
    header.set_cksum();
    builder
        .append_data(&mut header, "nested/file.txt", payload.as_slice())
        .unwrap();
    let bytes = builder.into_inner().unwrap();
    assert!(matches!(Compression::detect(&bytes), Compression::Plain));

    let policy = SecurityPolicy::new();
    let mut usage = policy.usage();
    let mut archive = tar::Archive::new(std::io::Cursor::new(bytes));
    let mut seen = 0;
    for entry in archive.entries().unwrap() {
        let mut entry = entry.unwrap();
        let header = entry.header().clone();
        let path = entry.path().unwrap().to_str().unwrap().to_string();
        let plan = extract_step(
            &policy,
            &mut usage,
            DEST_ROOT,
            header.entry_type().as_byte(),
            &path,
            header.size().unwrap(),
            None,
            header.mtime().ok(),
        )
        .expect("benign entry");
        assert!(matches!(plan.action, ExtractAction::WriteFile));
        assert_eq!(plan.validated.abs, "/dest/nested/file.txt".to_string());
        let mut content = Vec::new();
        entry.read_to_end(&mut content).unwrap();
        assert_eq!(content, payload.to_vec());
        seen += 1;
    }
    assert_eq!(seen, 1);
    assert_eq!(usage.files_seen(), 1);
    assert_eq!(usage.total_bytes(), payload.len() as u64);
}
