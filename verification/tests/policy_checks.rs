//! Policy-level checks: path validation, link confinement, quota tracking.

use safetar::policy::{LinkType, PolicyError, PolicyLimits, SecurityPolicy};

const ROOT: &str = "/work/archive-root";

#[test]
fn mod_rejects_absolute_path() {
    let policy = SecurityPolicy::new();
    let err = policy
        .normalize_and_validate("/etc/passwd", ROOT)
        .expect_err("expected rejection");
    assert!(matches!(err, PolicyError::AbsolutePath(_)));
}

#[test]
fn rejects_parent_traversal() {
    let policy = SecurityPolicy::new();
    let err = policy
        .normalize_and_validate("../escape", ROOT)
        .expect_err("expected rejection");
    assert!(matches!(
        err,
        PolicyError::RootEscape(_) | PolicyError::ParentTraversal(_)
    ));
}

#[test]
fn validates_relative_path() {
    let policy = SecurityPolicy::new();
    let validated = policy
        .normalize_and_validate("subdir/file.txt", ROOT)
        .expect("valid path");
    assert!(validated.abs.starts_with(ROOT));
    assert_eq!(validated.rel, "subdir/file.txt".to_string());
}

#[test]
fn link_policy_blocks_escape() {
    let policy = SecurityPolicy::new();
    let err = policy
        .enforce_link_policy("../../etc/passwd", ROOT, LinkType::Symlink)
        .expect_err("expected escape rejection");
    assert!(matches!(err, PolicyError::LinkOutsideRoot(_)));
}

#[test]
fn usage_tracker_enforces_limits() {
    let limits = PolicyLimits {
        max_files: 1,
        max_total_bytes: 10,
        max_single_file: 8,
        max_depth: 1,
    };
    let policy = SecurityPolicy::new().with_limits(limits);
    let validated = policy.normalize_and_validate("item", ROOT).unwrap();
    let mut usage = policy.usage();
    usage.observe(&validated, 4).unwrap();
    let second = policy.normalize_and_validate("other", ROOT).unwrap();
    let err = usage.observe(&second, 2).expect_err("limit exceeded");
    assert!(matches!(err, PolicyError::FileCountExceeded { .. }));
}

#[test]
fn policy_e2e_rejects_absolute_path() {
    let policy = SecurityPolicy::new();
    let result = policy.normalize_and_validate("/tmp/escape", ROOT);
    assert!(matches!(result, Err(PolicyError::AbsolutePath(_))));
}

#[test]
fn rejects_parent_components() {
    let policy = SecurityPolicy::new();
    let result = policy.normalize_and_validate("../escape", ROOT);
    assert!(matches!(
        result,
        Err(PolicyError::ParentTraversal(_)) | Err(PolicyError::RootEscape(_))
    ));
}

#[test]
fn enforces_limits() {
    let policy = SecurityPolicy::new().with_max_files(Some(1));
    let validated = policy.normalize_and_validate("file.txt", ROOT).unwrap();
    let mut usage = policy.usage();
    usage.observe(&validated, 10).unwrap();
    let second = policy.normalize_and_validate("other.txt", ROOT).unwrap();
    let result = usage.observe(&second, 10);
    assert!(matches!(result, Err(PolicyError::FileCountExceeded { .. })));
}

#[test]
fn revalidating_returned_relative_path_is_stable() {
    let policy = SecurityPolicy::new();
    let first = policy
        .normalize_and_validate("a/./b//c", ROOT)
        .expect("valid path");
    assert_eq!(first.rel, "a/b/c".to_string());
    let second = policy
        .normalize_and_validate(first.rel.as_str(), ROOT)
        .expect("valid path");
    assert_eq!(second.rel, first.rel);
    assert_eq!(second.abs, first.abs);
}

#[test]
fn interior_parent_components_cancel_lexically() {
    let policy = SecurityPolicy::new();
    let validated = policy
        .normalize_and_validate("a/../b/file.txt", ROOT)
        .expect("valid path");
    assert_eq!(validated.rel, "b/file.txt".to_string());
    assert!(validated.abs.starts_with(ROOT));
}

#[test]
fn surviving_parent_components_escape_and_are_rejected() {
    let policy = SecurityPolicy::new();
    let result = policy.normalize_and_validate("a/../../b", ROOT);
    assert!(matches!(
        result,
        Err(PolicyError::ParentTraversal(_)) | Err(PolicyError::RootEscape(_))
    ));
}

#[test]
fn rejected_observation_keeps_earlier_state() {
    let policy = SecurityPolicy::new().with_max_files(Some(1));
    let first = policy.normalize_and_validate("one", ROOT).unwrap();
    let mut usage = policy.usage();
    usage.observe(&first, 4).unwrap();
    assert_eq!(usage.files_seen(), 1);
    assert_eq!(usage.total_bytes(), 4);
    let second = policy.normalize_and_validate("two", ROOT).unwrap();
    let err = usage.observe(&second, 2).expect_err("count limit");
    assert!(matches!(err, PolicyError::FileCountExceeded { .. }));
    // The rejected entry was counted before the check tripped; counters never
    // roll back, and the byte total of the rejected entry was never added.
    assert_eq!(usage.files_seen(), 2);
    assert_eq!(usage.total_bytes(), 4);
}

#[test]
fn oversized_single_file_is_rejected_without_mutation() {
    let policy = SecurityPolicy::new().with_max_single_file(Some(8));
    let validated = policy.normalize_and_validate("big.bin", ROOT).unwrap();
    let mut usage = policy.usage();
    let err = usage.observe(&validated, 9).expect_err("size limit");
    assert!(matches!(err, PolicyError::SingleFileTooLarge { .. }));
    assert_eq!(usage.files_seen(), 0);
    assert_eq!(usage.total_bytes(), 0);
}

#[test]
fn depth_limit_is_enforced() {
    let policy = SecurityPolicy::new().with_max_depth(Some(2));
    let validated = policy.normalize_and_validate("a/b/c/file", ROOT).unwrap();
    let mut usage = policy.usage();
    let err = usage.observe(&validated, 1).expect_err("depth limit");
    assert!(matches!(err, PolicyError::DepthExceeded { .. }));
}

#[test]
fn total_bytes_limit_is_enforced() {
    let policy = SecurityPolicy::new().with_max_total_bytes(Some(10));
    let mut usage = policy.usage();
    let first = policy.normalize_and_validate("one", ROOT).unwrap();
    usage.observe(&first, 6).unwrap();
    let second = policy.normalize_and_validate("two", ROOT).unwrap();
    let err = usage.observe(&second, 6).expect_err("byte limit");
    assert!(matches!(err, PolicyError::TotalBytesExceeded { .. }));
    assert_eq!(usage.total_bytes(), 12);
}

#[test]
fn empty_path_is_rejected() {
    let policy = SecurityPolicy::new();
    let result = policy.normalize_and_validate("", ROOT);
    assert!(matches!(result, Err(PolicyError::EmptyPath)));
}

#[test]
fn absolute_link_target_inside_root_is_allowed() {
    let policy = SecurityPolicy::new();
    policy
        .enforce_link_policy("/work/archive-root/sub/file", ROOT, LinkType::Symlink)
        .expect("target inside root");
}

#[test]
fn relative_link_target_inside_root_is_allowed() {
    let policy = SecurityPolicy::new();
    policy
        .enforce_link_policy("sub/file", ROOT, LinkType::Hardlink)
        .expect("target inside root");
}
