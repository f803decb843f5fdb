//! Default-on security policy enforcement: lexical path validation against a
//! root, link-target confinement, and resource-quota accounting.

use vstd::prelude::*;

use crate::pathlex::{
    all_segs_wf, any_dotdot, chars_of, clean_exec, clean_from, clean_segs, has_dotdot, is_abs,
    is_dotdot, is_prefix_exec, is_seg_prefix, join_segs, join_string, path_string, seg_is_dotdot,
    segments, split_segments, string_of_path, tail_segments, vec_is_abs,
};

verus! {

/// Resource limits enforced by [`SecurityPolicy`].
#[derive(Debug, Clone, Copy, PartialEq, Eq, Structural)]
pub struct PolicyLimits {
    pub max_files: u64,
    pub max_total_bytes: u64,
    pub max_single_file: u64,
    pub max_depth: u32,
}

/// The built-in limits.
pub open spec fn default_limits() -> PolicyLimits {
    PolicyLimits {
        max_files: 200000,
        max_total_bytes: 0x2_0000_0000,
        max_single_file: 0x8000_0000,
        max_depth: 64,
    }
}

impl Default for PolicyLimits {
    fn default() -> (r: Self)
        ensures
            r == default_limits(),
    {
        PolicyLimits {
            max_files: 200000,
            max_total_bytes: 0x2_0000_0000,
            max_single_file: 0x8000_0000,
            max_depth: 64,
        }
    }
}

/// Types of links enforced by the policy.
#[derive(Debug, Clone, Copy, PartialEq, Eq, Structural)]
pub enum LinkType {
    Symlink,
    Hardlink,
}

/// Security policy configuration.
#[derive(Debug, Clone, Copy)]
pub struct SecurityPolicy {
    pub limits: PolicyLimits,
    pub allow_absolute: bool,
    pub allow_parent_components: bool,
    pub follow_symlinks: bool,
    pub allow_symlink_outside_root: bool,
    pub allow_hardlink_outside_root: bool,
}

/// The default policy: built-in limits, every relaxation switched off.
pub open spec fn default_policy() -> SecurityPolicy {
    SecurityPolicy {
        limits: default_limits(),
        allow_absolute: false,
        allow_parent_components: false,
        follow_symlinks: false,
        allow_symlink_outside_root: false,
        allow_hardlink_outside_root: false,
    }
}

impl Default for SecurityPolicy {
    fn default() -> (r: Self)
        ensures
            r == default_policy(),
    {
        SecurityPolicy {
            limits: PolicyLimits::default(),
            allow_absolute: false,
            allow_parent_components: false,
            follow_symlinks: false,
            allow_symlink_outside_root: false,
            allow_hardlink_outside_root: false,
        }
    }
}

/// Validated absolute and relative paths. `abs` is the cleaned path under the
/// operation's root; `rel` is `abs` with the root stripped.
#[derive(Debug)]
pub struct ValidatedPath {
    pub rel: String,
    pub abs: String,
}

/// Tracks resource usage against enforced limits.
#[derive(Debug, Clone, Copy)]
pub struct UsageTracker {
    pub policy: SecurityPolicy,
    pub files_seen: u64,
    pub total_bytes: u64,
    pub max_depth_observed: u32,
}

/// Policy violations; every one aborts the whole operation.
#[derive(Debug)]
#[allow(inconsistent_fields)]
pub enum PolicyError {
    EmptyPath,
    AbsolutePath(String),
    RootEscape(String),
    ParentTraversal(String),
    InvalidUtf8(String),
    LinkOutsideRoot(String),
    FileCountExceeded { limit: u64, actual: u64 },
    TotalBytesExceeded { limit: u64, actual: u64 },
    SingleFileTooLarge { path: String, actual: u64, limit: u64 },
    DepthExceeded { path: String, actual: u32, limit: u32 },
}

/// Whether joining `p` to `r` yields an absolute path.
pub open spec fn joined_is_abs(p: Seq<char>, r: Seq<char>) -> bool {
    if is_abs(p) {
        true
    } else {
        is_abs(r)
    }
}

/// The segments of `p` joined to root `r` (an absolute `p` stands alone).
pub open spec fn joined_segments(p: Seq<char>, r: Seq<char>) -> Seq<Seq<char>> {
    if is_abs(p) {
        segments(p)
    } else {
        segments(r) + segments(p)
    }
}

/// The cleaned segments of `p` joined to `r`.
pub open spec fn cleaned_segments(p: Seq<char>, r: Seq<char>) -> Seq<Seq<char>> {
    clean_segs(joined_is_abs(p, r), joined_segments(p, r))
}

/// The cleaned path of `p` joined to `r`, as a string.
pub open spec fn cleaned_path_string(p: Seq<char>, r: Seq<char>) -> Seq<char> {
    path_string(joined_is_abs(p, r), cleaned_segments(p, r))
}

/// Containment: the cleaned path has the root as a component-wise prefix.
pub open spec fn root_contains(p: Seq<char>, r: Seq<char>) -> bool {
    joined_is_abs(p, r) == is_abs(r) && is_seg_prefix(segments(r), cleaned_segments(p, r))
}

/// The relative part of the validated path: the cleaned segments beyond the
/// root, joined with `/`.
pub open spec fn validated_rel_string(p: Seq<char>, r: Seq<char>) -> Seq<char> {
    join_segs(cleaned_segments(p, r).skip(segments(r).len() as int))
}

/// When validation of `p` against `r` succeeds.
pub open spec fn validate_ok(policy: SecurityPolicy, p: Seq<char>, r: Seq<char>) -> bool {
    &&& p.len() > 0
    &&& !(is_abs(p) && !policy.allow_absolute)
    &&& !(has_dotdot(cleaned_segments(p, r)) && !policy.allow_parent_components)
    &&& root_contains(p, r)
}

/// Full description of what `normalize_and_validate` returns.
pub open spec fn validate_result_spec(
    policy: SecurityPolicy,
    p: Seq<char>,
    r: Seq<char>,
    res: Result<ValidatedPath, PolicyError>,
) -> bool {
    if p.len() == 0 {
        res matches Err(PolicyError::EmptyPath)
    } else if is_abs(p) && !policy.allow_absolute {
        res matches Err(PolicyError::AbsolutePath(q)) && q@ == p
    } else if has_dotdot(cleaned_segments(p, r)) && !policy.allow_parent_components {
        res matches Err(PolicyError::ParentTraversal(q)) && q@ == cleaned_path_string(p, r)
    } else if !root_contains(p, r) {
        res matches Err(PolicyError::RootEscape(q)) && q@ == cleaned_path_string(p, r)
    } else {
        res matches Ok(v) && v.abs@ == cleaned_path_string(p, r) && v.rel@ == validated_rel_string(
            p,
            r,
        )
    }
}

/// When a link target is confined: allowed outright by the applicable
/// toggle, or a cleaned absolute target under the root, or a relative target
/// that validates against the root.
pub open spec fn link_target_ok(
    policy: SecurityPolicy,
    t: Seq<char>,
    r: Seq<char>,
    kind: LinkType,
) -> bool {
    let allow_outside = match kind {
        LinkType::Symlink => policy.allow_symlink_outside_root,
        LinkType::Hardlink => policy.allow_hardlink_outside_root,
    };
    ||| allow_outside
    ||| (is_abs(t) && is_abs(r) && is_seg_prefix(segments(r), clean_segs(true, segments(t))))
    ||| (!is_abs(t) && validate_ok(policy, t, r))
}

/// What `enforce_link_policy` returns.
pub open spec fn link_policy_spec(
    policy: SecurityPolicy,
    t: Seq<char>,
    r: Seq<char>,
    kind: LinkType,
    res: Result<(), PolicyError>,
) -> bool {
    if link_target_ok(policy, t, r, kind) {
        res matches Ok(())
    } else {
        res matches Err(PolicyError::LinkOutsideRoot(q)) && q@ == t
    }
}

impl SecurityPolicy {
    /// Create a new policy using default settings.
    #[must_use]
    pub fn new() -> (r: Self)
        ensures
            r == default_policy(),
    {
        Self::default()
    }

    /// Replace built-in limits with the supplied values.
    #[must_use]
    pub fn with_limits(self, limits: PolicyLimits) -> (r: Self)
        ensures
            r == (SecurityPolicy { limits, ..self }),
    {
        SecurityPolicy { limits, ..self }
    }

    /// Return the active limits.
    #[must_use]
    pub fn limits(&self) -> (r: PolicyLimits)
        ensures
            r == self.limits,
    {
        self.limits
    }

    /// Adjust maximum files.
    #[must_use]
    pub fn with_max_files(self, value: Option<u64>) -> (r: Self)
        ensures
            r.limits.max_files == (if value is Some {
                value->0
            } else {
                self.limits.max_files
            }),
            r.limits.max_total_bytes == self.limits.max_total_bytes,
            r.limits.max_single_file == self.limits.max_single_file,
            r.limits.max_depth == self.limits.max_depth,
            r.allow_absolute == self.allow_absolute,
            r.allow_parent_components == self.allow_parent_components,
            r.follow_symlinks == self.follow_symlinks,
            r.allow_symlink_outside_root == self.allow_symlink_outside_root,
            r.allow_hardlink_outside_root == self.allow_hardlink_outside_root,
    {
        let mut out = self;
        if let Some(value) = value {
            out.limits.max_files = value;
        }
        out
    }

    /// Adjust maximum total bytes.
    #[must_use]
    pub fn with_max_total_bytes(self, value: Option<u64>) -> (r: Self)
        ensures
            r.limits.max_total_bytes == (if value is Some {
                value->0
            } else {
                self.limits.max_total_bytes
            }),
            r.limits.max_files == self.limits.max_files,
            r.limits.max_single_file == self.limits.max_single_file,
            r.limits.max_depth == self.limits.max_depth,
            r.allow_absolute == self.allow_absolute,
            r.allow_parent_components == self.allow_parent_components,
            r.follow_symlinks == self.follow_symlinks,
            r.allow_symlink_outside_root == self.allow_symlink_outside_root,
            r.allow_hardlink_outside_root == self.allow_hardlink_outside_root,
    {
        let mut out = self;
        if let Some(value) = value {
            out.limits.max_total_bytes = value;
        }
        out
    }

    /// Adjust maximum single file size.
    #[must_use]
    pub fn with_max_single_file(self, value: Option<u64>) -> (r: Self)
        ensures
            r.limits.max_single_file == (if value is Some {
                value->0
            } else {
                self.limits.max_single_file
            }),
            r.limits.max_files == self.limits.max_files,
            r.limits.max_total_bytes == self.limits.max_total_bytes,
            r.limits.max_depth == self.limits.max_depth,
            r.allow_absolute == self.allow_absolute,
            r.allow_parent_components == self.allow_parent_components,
            r.follow_symlinks == self.follow_symlinks,
            r.allow_symlink_outside_root == self.allow_symlink_outside_root,
            r.allow_hardlink_outside_root == self.allow_hardlink_outside_root,
    {
        let mut out = self;
        if let Some(value) = value {
            out.limits.max_single_file = value;
        }
        out
    }

    /// Adjust maximum depth.
    #[must_use]
    pub fn with_max_depth(self, value: Option<u32>) -> (r: Self)
        ensures
            r.limits.max_depth == (if value is Some {
                value->0
            } else {
                self.limits.max_depth
            }),
            r.limits.max_files == self.limits.max_files,
            r.limits.max_total_bytes == self.limits.max_total_bytes,
            r.limits.max_single_file == self.limits.max_single_file,
            r.allow_absolute == self.allow_absolute,
            r.allow_parent_components == self.allow_parent_components,
            r.follow_symlinks == self.follow_symlinks,
            r.allow_symlink_outside_root == self.allow_symlink_outside_root,
            r.allow_hardlink_outside_root == self.allow_hardlink_outside_root,
    {
        let mut out = self;
        if let Some(value) = value {
            out.limits.max_depth = value;
        }
        out
    }

    /// Normalise and validate `path` against `root`: lexically clean the
    /// joined path, reject surviving `..` components and any result that the
    /// root does not contain.
    #[verifier::loop_isolation(false)]
    pub fn normalize_and_validate(&self, path: &str, root: &str) -> (res: Result<
        ValidatedPath,
        PolicyError,
    >)
        ensures
            validate_result_spec(*self, path@, root@, res),
    {
        broadcast use crate::pathlex::lemma_chars_deep_view;

        let pv = chars_of(path);
        if pv.len() == 0 {
            return Err(PolicyError::EmptyPath);
        }
        let p_abs = vec_is_abs(&pv);
        if p_abs && !self.allow_absolute {
            return Err(PolicyError::AbsolutePath(path.to_owned()));
        }
        let rv = chars_of(root);
        let r_abs = vec_is_abs(&rv);
        let r_segs = split_segments(&rv);
        let j_abs = if p_abs {
            true
        } else {
            r_abs
        };
        let joined: Vec<Vec<char>> = if p_abs {
            split_segments(&pv)
        } else {
            let mut j = tail_segments(&r_segs, 0);
            let mut ps = split_segments(&pv);
            let ghost j0 = j.deep_view();
            let ghost ps0 = ps.deep_view();
            let ghost jv0 = j@;
            let ghost psv0 = ps@;
            j.append(&mut ps);
            proof {
                assert forall|k: int| 0 <= k < j.deep_view().len() implies j.deep_view()[k]
                    == (j0 + ps0)[k] by {
                    if k < j0.len() {
                        assert(j@[k] == jv0[k]);
                    } else {
                        assert(j@[k] == psv0[k - j0.len()]);
                    }
                }
                assert(j.deep_view() =~~= segments(root@) + segments(path@));
            }
            j
        };
        proof {
            assert(joined.deep_view() == joined_segments(path@, root@));
        }
        let cleaned = clean_exec(j_abs, &joined);
        if any_dotdot(&cleaned) && !self.allow_parent_components {
            return Err(PolicyError::ParentTraversal(string_of_path(j_abs, &cleaned)));
        }
        let contains = j_abs == r_abs && is_prefix_exec(&r_segs, &cleaned);
        if !contains {
            return Err(PolicyError::RootEscape(string_of_path(j_abs, &cleaned)));
        }
        let rel_segs = tail_segments(&cleaned, r_segs.len());
        let rel = join_string(&rel_segs);
        let abs = string_of_path(j_abs, &cleaned);
        Ok(ValidatedPath { rel, abs })
    }

    /// Enforce link targets to remain within `root`. Relative targets are
    /// resolved through the validator; callers pre-join them to the link's
    /// own parent directory.
    pub fn enforce_link_policy(&self, target: &str, root: &str, kind: LinkType) -> (res: Result<
        (),
        PolicyError,
    >)
        ensures
            link_policy_spec(*self, target@, root@, kind, res),
    {
        let allow_outside = match kind {
            LinkType::Symlink => self.allow_symlink_outside_root,
            LinkType::Hardlink => self.allow_hardlink_outside_root,
        };
        if allow_outside {
            return Ok(());
        }
        let tv = chars_of(target);
        if vec_is_abs(&tv) {
            let rv = chars_of(root);
            let r_abs = vec_is_abs(&rv);
            let r_segs = split_segments(&rv);
            let t_segs = split_segments(&tv);
            let cleaned = clean_exec(true, &t_segs);
            if r_abs && is_prefix_exec(&r_segs, &cleaned) {
                return Ok(());
            }
            return Err(PolicyError::LinkOutsideRoot(target.to_owned()));
        }
        match self.normalize_and_validate(target, root) {
            Ok(_) => Ok(()),
            Err(_) => Err(PolicyError::LinkOutsideRoot(target.to_owned())),
        }
    }

    /// Create a usage tracker that enforces quota counters.
    #[must_use]
    pub fn usage(&self) -> (r: UsageTracker)
        ensures
            r.policy == *self,
            r.files_seen == 0,
            r.total_bytes == 0,
            r.max_depth_observed == 0,
    {
        UsageTracker { policy: *self, files_seen: 0, total_bytes: 0, max_depth_observed: 0 }
    }

    /// Whether the policy follows symlinks during traversal.
    #[must_use]
    pub fn follow_symlinks(&self) -> (r: bool)
        ensures
            r == self.follow_symlinks,
    {
        self.follow_symlinks
    }
}

/// Scanning a relative path for its depth: `Ok` is the number of normal
/// segments; `Err(true)` marks a surviving `..` segment, `Err(false)` a
/// count beyond `u32::MAX`.
pub open spec fn depth_scan(segs: Seq<Seq<char>>, acc: int) -> Result<int, bool>
    decreases segs.len(),
{
    if segs.len() == 0 {
        Ok(acc)
    } else if is_dotdot(segs[0]) {
        Err(true)
    } else if acc + 1 > u32::MAX {
        Err(false)
    } else {
        depth_scan(segs.drop_first(), acc + 1)
    }
}

/// When an `observe` call is accepted: the relative path scans to a depth
/// within bounds and no quota is exceeded by this entry.
pub open spec fn observe_accepts(pre: UsageTracker, rel: Seq<char>, size: u64) -> bool {
    let limits = pre.policy.limits;
    let scan = depth_scan(segments(rel), 0);
    &&& scan is Ok
    &&& size <= limits.max_single_file
    &&& scan->Ok_0 <= limits.max_depth
    &&& (if pre.files_seen == u64::MAX {
        u64::MAX as int
    } else {
        pre.files_seen + 1
    }) <= limits.max_files
    &&& (if pre.total_bytes + size > u64::MAX {
        u64::MAX as int
    } else {
        pre.total_bytes + size
    }) <= limits.max_total_bytes
}

/// Full description of one `observe` call: checks run in a fixed order, and
/// counters mutated by earlier checks stay mutated when a later check fails.
pub open spec fn observe_result_spec(
    pre: UsageTracker,
    post: UsageTracker,
    rel: Seq<char>,
    size: u64,
    res: Result<(), PolicyError>,
) -> bool {
    let limits = pre.policy.limits;
    let scan = depth_scan(segments(rel), 0);
    if scan == Err::<int, bool>(true) {
        post == pre && (res matches Err(PolicyError::ParentTraversal(q)) && q@ == rel)
    } else if scan == Err::<int, bool>(false) {
        post == pre && (res matches Err(PolicyError::DepthExceeded { path, actual, limit })
            && path@ == rel && actual == u32::MAX && limit == u32::MAX)
    } else {
        let depth = scan->Ok_0;
        if size > limits.max_single_file {
            post == pre && (res matches Err(PolicyError::SingleFileTooLarge { path, actual, limit })
                && path@ == rel && actual == size && limit == limits.max_single_file)
        } else if depth > limits.max_depth {
            post == pre && (res matches Err(PolicyError::DepthExceeded { path, actual, limit })
                && path@ == rel && actual == depth && limit == limits.max_depth)
        } else {
            let md = if depth > pre.max_depth_observed {
                depth
            } else {
                pre.max_depth_observed as int
            };
            let fs = if pre.files_seen == u64::MAX {
                u64::MAX as int
            } else {
                pre.files_seen + 1
            };
            if fs > limits.max_files {
                &&& post == (UsageTracker {
                    files_seen: fs as u64,
                    max_depth_observed: md as u32,
                    ..pre
                })
                &&& (res matches Err(PolicyError::FileCountExceeded { limit, actual })
                    && limit == limits.max_files && actual == fs)
            } else {
                let tb = if pre.total_bytes + size > u64::MAX {
                    u64::MAX as int
                } else {
                    pre.total_bytes + size
                };
                &&& post == (UsageTracker {
                    files_seen: fs as u64,
                    total_bytes: tb as u64,
                    max_depth_observed: md as u32,
                    ..pre
                })
                &&& if tb > limits.max_total_bytes {
                    res matches Err(PolicyError::TotalBytesExceeded { limit, actual })
                        && limit == limits.max_total_bytes && actual == tb
                } else {
                    res matches Ok(())
                }
            }
        }
    }
}

impl UsageTracker {
    /// Record an entry with the provided size. Counters only ever grow:
    /// a rejected call never rolls back what earlier accepted calls added.
    #[verifier::loop_isolation(false)]
    pub fn observe(&mut self, validated: &ValidatedPath, size: u64) -> (res: Result<
        (),
        PolicyError,
    >)
        ensures
            observe_result_spec(*old(self), *final(self), validated.rel@, size, res),
            final(self).files_seen >= old(self).files_seen,
            final(self).total_bytes >= old(self).total_bytes,
            final(self).policy == old(self).policy,
    {
        let rel_chars = chars_of(self_rel(validated));
        let segs = split_segments(&rel_chars);
        let ghost full = segments(validated.rel@);
        let n = segs.len();
        let mut depth: u32 = 0;
        let mut i: usize = 0;
        proof {
            assert(full.skip(0) =~~= full);
        }
        while i < n
            invariant
                n == segs@.len(),
                n == full.len(),
                segs.deep_view() == full,
                i <= n,
                depth <= i,
                depth_scan(full, 0) == depth_scan(full.skip(i as int), depth as int),
            decreases n - i,
        {
            proof {
                crate::pathlex::lemma_chars_deep_view(segs@[i as int]);
                assert(full.skip(i as int).len() == n - i);
                assert(full.skip(i as int)[0] == full[i as int]);
                assert(full.skip(i as int).drop_first() =~~= full.skip(i + 1));
            }
            if seg_is_dotdot(&segs[i]) {
                return Err(PolicyError::ParentTraversal(validated.rel.clone()));
            }
            if depth == u32::MAX {
                return Err(PolicyError::DepthExceeded {
                    path: validated.rel.clone(),
                    actual: u32::MAX,
                    limit: u32::MAX,
                });
            }
            depth = depth + 1;
            i += 1;
        }
        proof {
            assert(full.skip(n as int).len() == 0);
        }
        let limits = self.policy.limits;
        if size > limits.max_single_file {
            return Err(PolicyError::SingleFileTooLarge {
                path: validated.rel.clone(),
                actual: size,
                limit: limits.max_single_file,
            });
        }
        if depth > limits.max_depth {
            return Err(PolicyError::DepthExceeded {
                path: validated.rel.clone(),
                actual: depth,
                limit: limits.max_depth,
            });
        }
        if depth > self.max_depth_observed {
            self.max_depth_observed = depth;
        }
        self.files_seen = self.files_seen.saturating_add(1);
        if self.files_seen > limits.max_files {
            return Err(PolicyError::FileCountExceeded {
                limit: limits.max_files,
                actual: self.files_seen,
            });
        }
        self.total_bytes = self.total_bytes.saturating_add(size);
        if self.total_bytes > limits.max_total_bytes {
            return Err(PolicyError::TotalBytesExceeded {
                limit: limits.max_total_bytes,
                actual: self.total_bytes,
            });
        }
        Ok(())
    }

    /// Files accounted so far.
    #[must_use]
    pub fn files_seen(&self) -> (r: u64)
        ensures
            r == self.files_seen,
    {
        self.files_seen
    }

    /// Total bytes accounted so far.
    #[must_use]
    pub fn total_bytes(&self) -> (r: u64)
        ensures
            r == self.total_bytes,
    {
        self.total_bytes
    }
}

/// Law: with `allow_absolute` off, validating any absolute path fails with
/// `AbsolutePath`.
pub proof fn lemma_absolute_path_rejected(
    policy: SecurityPolicy,
    p: Seq<char>,
    r: Seq<char>,
    res: Result<ValidatedPath, PolicyError>,
)
    requires
        is_abs(p),
        !policy.allow_absolute,
        validate_result_spec(policy, p, r, res),
    ensures
        res matches Err(e) && e is AbsolutePath,
{
}

/// Law: with `allow_parent_components` off, a relative path whose lexical
/// cleaning leaves `k` surviving `..` segments is rejected with
/// `ParentTraversal` or `RootEscape` (under an absolute, `..`-free root) —
/// unless what follows the climb re-enters the root by naming the removed
/// components again, which the last premise rules out.
pub proof fn lemma_parent_traversal_rejected(
    policy: SecurityPolicy,
    p: Seq<char>,
    r: Seq<char>,
    k: int,
    res: Result<ValidatedPath, PolicyError>,
)
    requires
        !policy.allow_parent_components,
        !is_abs(p),
        is_abs(r),
        !has_dotdot(segments(r)),
        has_dotdot(clean_segs(false, segments(p))),
        k == crate::pathlex::dd_prefix_len(clean_segs(false, segments(p))),
        !is_seg_prefix(
            segments(r).skip(
                if k <= segments(r).len() {
                    segments(r).len() - k
                } else {
                    0
                },
            ),
            clean_segs(false, segments(p)).skip(k),
        ),
        validate_result_spec(policy, p, r, res),
    ensures
        res matches Err(e) && (e is ParentTraversal || e is RootEscape),
{
    let rsegs = segments(r);
    let psegs = segments(p);
    let n = rsegs.len() as int;
    let c = clean_segs(false, psegs);
    crate::pathlex::lemma_clean_rel_shape(psegs);
    crate::pathlex::lemma_dd_prefix(c);
    assert(k >= 1) by {
        if k == 0 {
            let w = choose|i: int| 0 <= i < c.len() && is_dotdot(#[trigger] c[i]);
        }
    }
    assert(p.len() > 0) by {
        if p.len() == 0 {
            assert(segments(p) =~~= Seq::<Seq<char>>::empty());
            assert(c =~~= Seq::<Seq<char>>::empty());
        }
    }
    let joined = joined_segments(p, r);
    assert(joined == rsegs + psegs);
    crate::pathlex::lemma_clean_append(true, seq![], rsegs, psegs);
    crate::pathlex::lemma_clean_normals(true, seq![], rsegs);
    assert(clean_from(true, seq![], rsegs) =~~= rsegs);
    crate::pathlex::lemma_clean_action(rsegs, psegs);
    let climbs = c.take(k);
    let descent = c.skip(k);
    assert(c =~~= climbs + descent);
    crate::pathlex::lemma_clean_append(true, rsegs, climbs, descent);
    assert(forall|i: int| 0 <= i < climbs.len() ==> is_dotdot(#[trigger] climbs[i])) by {
        assert(forall|i: int| 0 <= i < climbs.len() ==> climbs[i] == c[i]);
    }
    crate::pathlex::lemma_clean_pops(rsegs, climbs);
    let m = if k <= n {
        n - k
    } else {
        0
    };
    let stacked = if climbs.len() <= rsegs.len() {
        rsegs.take(n - k)
    } else {
        Seq::<Seq<char>>::empty()
    };
    assert(stacked =~~= rsegs.take(m));
    assert(!has_dotdot(descent)) by {
        if has_dotdot(descent) {
            let w = choose|i: int| 0 <= i < descent.len() && is_dotdot(#[trigger] descent[i]);
            assert(descent[w] == c[w + k]);
        }
    }
    crate::pathlex::lemma_clean_normals(true, rsegs.take(m), descent);
    let cleaned = cleaned_segments(p, r);
    assert(cleaned == rsegs.take(m) + descent);
    assert(!has_dotdot(cleaned)) by {
        if has_dotdot(cleaned) {
            let w = choose|i: int| 0 <= i < cleaned.len() && is_dotdot(#[trigger] cleaned[i]);
            if w < m {
                assert(cleaned[w] == rsegs[w]);
            } else {
                assert(cleaned[w] == descent[w - m]);
            }
        }
    }
    assert(!is_seg_prefix(rsegs, cleaned)) by {
        if is_seg_prefix(rsegs, cleaned) {
            assert(descent.len() >= n - m);
            assert(forall|i: int|
                0 <= i < n - m ==> #[trigger] descent[i] == cleaned.subrange(0, n)[m + i]);
            assert(descent.subrange(0, n - m) =~~= rsegs.skip(m));
            assert(is_seg_prefix(rsegs.skip(m), descent));
        }
    }
    assert(!root_contains(p, r));
}

/// Law: a nonempty relative path free of `..` components always validates
/// under a root itself free of `..`; the validated absolute path has the root
/// as a component-wise prefix, and re-validating the returned relative path
/// reproduces exactly the same result.
pub proof fn lemma_validate_idempotent(
    policy: SecurityPolicy,
    p: Seq<char>,
    r: Seq<char>,
    res: Result<ValidatedPath, PolicyError>,
)
    requires
        p.len() > 0,
        !is_abs(p),
        !has_dotdot(segments(p)),
        segments(p).len() > 0,
        !has_dotdot(segments(r)),
        validate_result_spec(policy, p, r, res),
    ensures
        res matches Ok(v) && {
            &&& is_seg_prefix(segments(r), segments(v.abs@))
            &&& v.rel@.len() > 0
            &&& !is_abs(v.rel@)
            &&& !has_dotdot(segments(v.rel@))
            &&& forall|res2: Result<ValidatedPath, PolicyError>|
                validate_result_spec(policy, v.rel@, r, res2) ==> (res2 matches Ok(v2) && v2.abs@
                    == v.abs@ && v2.rel@ == v.rel@)
        },
{
    let rsegs = segments(r);
    let psegs = segments(p);
    let js = rsegs + psegs;
    assert(!has_dotdot(js)) by {
        if has_dotdot(js) {
            let i = choose|i: int| 0 <= i < js.len() && is_dotdot(#[trigger] js[i]);
            if i < rsegs.len() {
                assert(js[i] == rsegs[i]);
            } else {
                assert(js[i] == psegs[i - rsegs.len()]);
            }
        }
    }
    crate::pathlex::lemma_clean_normals(joined_is_abs(p, r), seq![], js);
    let cleaned = cleaned_segments(p, r);
    assert(cleaned =~~= js);
    assert(root_contains(p, r)) by {
        assert(cleaned.subrange(0, rsegs.len() as int) =~~= rsegs);
    }
    let v = res->Ok_0;
    assert(v.abs@ == cleaned_path_string(p, r));
    assert(v.rel@ == join_segs(cleaned.skip(rsegs.len() as int)));
    assert(cleaned.skip(rsegs.len() as int) =~~= psegs);
    crate::pathlex::lemma_segments_wf(p);
    crate::pathlex::lemma_segments_wf(r);
    crate::pathlex::lemma_join_inverse(psegs);
    assert(segments(v.rel@) == psegs);
    assert(all_segs_wf(js)) by {
        assert(forall|i: int|
            rsegs.len() <= i < js.len() ==> #[trigger] js[i] == psegs[i - rsegs.len()]);
        assert(forall|i: int| 0 <= i < rsegs.len() ==> #[trigger] js[i] == rsegs[i]);
    }
    crate::pathlex::lemma_join_inverse(js);
    assert(segments(v.abs@) == js) by {
        if joined_is_abs(p, r) {
            assert(v.abs@ == seq!['/'] + join_segs(js));
            assert((seq!['/'] + join_segs(js))[0] == '/');
            assert((seq!['/'] + join_segs(js)).drop_first() =~= join_segs(js));
            assert(segments(seq!['/'] + join_segs(js)) =~~= Seq::<Seq<char>>::empty() + segments(
                join_segs(js),
            ));
            assert(Seq::<Seq<char>>::empty() + segments(join_segs(js)) =~~= segments(
                join_segs(js),
            ));
        } else {
            assert(v.abs@ == join_segs(js));
        }
    }
    assert(is_seg_prefix(rsegs, segments(v.abs@))) by {
        assert(js.subrange(0, rsegs.len() as int) =~~= rsegs);
    }
    assert forall|res2: Result<ValidatedPath, PolicyError>|
        validate_result_spec(policy, v.rel@, r, res2) implies (res2 matches Ok(v2) && v2.abs@
        == v.abs@ && v2.rel@ == v.rel@) by {
        assert(joined_segments(v.rel@, r) == rsegs + psegs);
        assert(cleaned_segments(v.rel@, r) == cleaned);
        assert(root_contains(v.rel@, r));
        assert(cleaned_path_string(v.rel@, r) == v.abs@);
        assert(validated_rel_string(v.rel@, r) == v.rel@);
    }
}

fn self_rel(validated: &ValidatedPath) -> (s: &str)
    ensures
        s@ == validated.rel@,
{
    validated.rel.as_str()
}

} // verus!
