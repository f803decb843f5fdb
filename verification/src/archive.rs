//! Archive entry pipeline: the per-entry decisions of creation (walking),
//! extraction, and listing. The surrounding I/O loops feed each filesystem
//! or tar event through these verified steps.

use vstd::prelude::*;

use crate::error::UserInputError;
use crate::manifest::{ManifestEntry, ManifestItem, ManifestKind, dir_entry_v};
use crate::outside::{
    glob_patterns_ok, glob_patterns_valid, glob_set_is_match, glob_set_matches, sha256_hex,
    sha256_hex_of, str_utf8_bytes, utf8_bytes,
};
use crate::pathlex::{
    chars_of, is_abs, is_seg_prefix, is_prefix_exec, join_segs, join_string, path_string,
    segments, split_segments, string_of_path, tail_segments, vec_is_abs,
};
use crate::policy::{
    LinkType, PolicyError, SecurityPolicy, UsageTracker, ValidatedPath, link_target_ok,
    observe_accepts, observe_result_spec, validate_ok, validate_result_spec,
    validated_rel_string, cleaned_path_string,
};

verus! {

/// The kinds of filesystem objects an archive carries.
#[derive(Debug, Clone, Copy, PartialEq, Eq, Structural)]
pub enum EntryKind {
    File,
    Directory,
    Symlink,
}

/// The kind a tar entry-type byte stands for: directories and symlinks are
/// materialized as such; regular, continuous, sparse and hard-link entries
/// (and anything unrecognized) default to files.
pub open spec fn spec_classify(type_byte: u8) -> EntryKind {
    if type_byte == 53u8 {
        EntryKind::Directory
    } else if type_byte == 50u8 {
        EntryKind::Symlink
    } else {
        EntryKind::File
    }
}

/// Classify a tar entry-type byte (the `typeflag` field of the header).
pub fn classify_entry_byte(type_byte: u8) -> (r: EntryKind)
    ensures
        r == spec_classify(type_byte),
{
    if type_byte == 53u8 {
        EntryKind::Directory
    } else if type_byte == 50u8 {
        EntryKind::Symlink
    } else {
        EntryKind::File
    }
}

/// One accepted entry of the create walk.
#[derive(Debug)]
pub struct ArchiveEntry {
    pub absolute: String,
    pub relative: String,
    pub kind: EntryKind,
    pub size: u64,
    pub link_target: Option<String>,
    pub mtime: Option<u64>,
}

/// The manifest kind of an entry kind.
pub open spec fn manifest_kind_of(kind: EntryKind) -> ManifestKind {
    match kind {
        EntryKind::File => ManifestKind::File,
        EntryKind::Directory => ManifestKind::Directory,
        EntryKind::Symlink => ManifestKind::Symlink,
    }
}

impl ArchiveEntry {
    /// A short label for the entry's kind.
    #[must_use]
    pub fn kind_label(&self) -> (r: &'static str)
        ensures
            self.kind == EntryKind::File ==> r@ == "file"@,
            self.kind == EntryKind::Directory ==> r@ == "dir"@,
            self.kind == EntryKind::Symlink ==> r@ == "symlink"@,
    {
        match self.kind {
            EntryKind::File => "file",
            EntryKind::Directory => "dir",
            EntryKind::Symlink => "symlink",
        }
    }

    /// The manifest item that fingerprinting starts from.
    #[must_use]
    pub fn to_manifest_item(&self) -> (r: ManifestItem)
        ensures
            r.relative@ == self.relative@,
            r.absolute@ == self.absolute@,
            r.kind == manifest_kind_of(self.kind),
            r.size == self.size,
            r.mtime == self.mtime,
            (match (r.link_target, self.link_target) {
                (Option::Some(a), Option::Some(b)) => a@ == b@,
                (Option::None, Option::None) => true,
                _ => false,
            }),
    {
        ManifestItem {
            relative: self.relative.clone(),
            absolute: self.absolute.clone(),
            kind: match self.kind {
                EntryKind::File => ManifestKind::File,
                EntryKind::Directory => ManifestKind::Directory,
                EntryKind::Symlink => ManifestKind::Symlink,
            },
            link_target: match &self.link_target {
                Some(t) => Some(t.clone()),
                None => None,
            },
            size: self.size,
            mtime: self.mtime,
        }
    }
}

/// A compiled set of exclude patterns, known to be valid globs.
pub struct ExcludeSet {
    patterns: Vec<String>,
}

#[verifier::type_invariant]
pub closed spec fn exclude_set_wf(s: &ExcludeSet) -> bool {
    glob_patterns_ok(s.patterns.deep_view())
}

impl ExcludeSet {
    /// The patterns the set was compiled from.
    pub closed spec fn spec_patterns(&self) -> Seq<Seq<char>> {
        self.patterns.deep_view()
    }

    /// Compile exclude patterns; rejects the set when any pattern is not a
    /// valid glob.
    pub fn compile(patterns: Vec<String>) -> (res: Result<ExcludeSet, UserInputError>)
        ensures
            res matches Ok(s) ==> s.spec_patterns() == patterns.deep_view() && glob_patterns_ok(
                patterns.deep_view(),
            ),
            res is Err ==> !glob_patterns_ok(patterns.deep_view()),
    {
        if glob_patterns_valid(&patterns) {
            Ok(ExcludeSet { patterns })
        } else {
            let mut msg = String::new();
            msg.append("invalid exclude pattern");
            Err(UserInputError::new(msg))
        }
    }

    /// Whether the set matches a relative path.
    pub fn is_match(&self, rel: &str) -> (r: bool)
        ensures
            r == glob_set_matches(self.spec_patterns(), rel@),
    {
        proof {
            use_type_invariant(self);
        }
        glob_set_is_match(&self.patterns, rel)
    }
}

/// Characters trimmed around exclude patterns.
pub open spec fn is_trim_space(c: char) -> bool {
    c == ' ' || c == '\t' || c == '\r'
}

/// Drop trimmed characters from the front.
pub open spec fn trim_front(s: Seq<char>) -> Seq<char>
    decreases s.len(),
{
    if s.len() > 0 && is_trim_space(s[0]) {
        trim_front(s.drop_first())
    } else {
        s
    }
}

/// Drop trimmed characters from the back.
pub open spec fn trim_back(s: Seq<char>) -> Seq<char>
    decreases s.len(),
{
    if s.len() > 0 && is_trim_space(s.last()) {
        trim_back(s.drop_last())
    } else {
        s
    }
}

/// A line trimmed of surrounding spaces.
pub open spec fn trim_line(s: Seq<char>) -> Seq<char> {
    trim_back(trim_front(s))
}

/// A line carries a pattern when, trimmed, it is nonempty and no comment.
pub open spec fn keep_line(s: Seq<char>) -> bool {
    trim_line(s).len() > 0 && trim_line(s)[0] != '#'
}

/// The trimmed patterns of the remaining text, `cur` the partial line.
pub open spec fn patterns_from(s: Seq<char>, cur: Seq<char>) -> Seq<Seq<char>>
    decreases s.len(),
{
    if s.len() == 0 {
        if keep_line(cur) {
            seq![trim_line(cur)]
        } else {
            seq![]
        }
    } else if s[0] == '\n' {
        (if keep_line(cur) {
            seq![trim_line(cur)]
        } else {
            seq![]
        }) + patterns_from(s.drop_first(), seq![])
    } else {
        patterns_from(s.drop_first(), cur.push(s[0]))
    }
}

/// The exclude patterns of a pattern file's text: one per line, trimmed,
/// empty lines and `#` comment lines dropped.
pub open spec fn exclude_patterns_spec(s: Seq<char>) -> Seq<Seq<char>> {
    patterns_from(s, seq![])
}

/// What extraction does with one accepted entry.
#[derive(Debug, Clone, Copy, PartialEq, Eq, Structural)]
pub enum ExtractAction {
    /// Create the directory (and missing parents) idempotently.
    CreateDir,
    /// Ensure parents exist, then write the file's content.
    WriteFile,
    /// Ensure parents exist, then write the (confined) symlink.
    WriteSymlink,
}

/// One accepted extraction step: where to materialize, and the manifest item
/// to record.
#[derive(Debug)]
pub struct ExtractPlan {
    pub action: ExtractAction,
    pub validated: ValidatedPath,
    pub item: ManifestItem,
}

/// A symlink target as checked at extraction: an absolute target stands
/// alone; a relative one resolves against the parent of the validated
/// path; a path without a parent leaves the target unchecked.
pub open spec fn extract_link_ok(
    policy: SecurityPolicy,
    target: Seq<char>,
    vabs: Seq<char>,
    root: Seq<char>,
) -> bool {
    if is_abs(target) {
        link_target_ok(policy, target, root, LinkType::Symlink)
    } else if segments(vabs).len() > 0 {
        link_target_ok(
            policy,
            path_string(is_abs(vabs), segments(vabs).drop_last() + segments(target)),
            root,
            LinkType::Symlink,
        )
    } else {
        true
    }
}

/// The manifest item recorded for one extracted entry.
pub open spec fn extract_item_ok(
    item: ManifestItem,
    kind: EntryKind,
    vrel: Seq<char>,
    vabs: Seq<char>,
    size: u64,
    link_target: Option<Seq<char>>,
    mtime: Option<u64>,
) -> bool {
    &&& item.relative@ == vrel
    &&& item.absolute@ == vabs
    &&& item.kind == manifest_kind_of(kind)
    &&& item.size == (if kind == EntryKind::File {
        size
    } else {
        0u64
    })
    &&& item.mtime == mtime
    &&& (match (item.link_target, link_target) {
        (Option::Some(a), Option::Some(b)) => kind == EntryKind::Symlink && a@ == b,
        (Option::None, Option::None) => true,
        _ => false,
    })
}

/// Full description of one extraction step.
pub open spec fn extract_step_spec(
    policy: SecurityPolicy,
    pre: UsageTracker,
    post: UsageTracker,
    root: Seq<char>,
    type_byte: u8,
    path: Seq<char>,
    size: u64,
    link_target: Option<Seq<char>>,
    mtime: Option<u64>,
    res: Result<ExtractPlan, PolicyError>,
) -> bool {
    let kind = spec_classify(type_byte);
    if !validate_ok(policy, path, root) {
        post == pre && (res matches Err(e) && validate_result_spec(
            policy,
            path,
            root,
            Err::<ValidatedPath, PolicyError>(e),
        ))
    } else {
        let vrel = validated_rel_string(path, root);
        let vabs = cleaned_path_string(path, root);
        if !observe_accepts(pre, vrel, size) {
            res matches Err(e) && observe_result_spec(
                pre,
                post,
                vrel,
                size,
                Err::<(), PolicyError>(e),
            )
        } else {
            &&& observe_result_spec(pre, post, vrel, size, Ok::<(), PolicyError>(()))
            &&& (match kind {
                EntryKind::Directory => res matches Ok(plan) && plan.action
                    == ExtractAction::CreateDir && plan.validated.rel@ == vrel
                    && plan.validated.abs@ == vabs && extract_item_ok(
                    plan.item,
                    kind,
                    vrel,
                    vabs,
                    size,
                    Option::None,
                    mtime,
                ),
                EntryKind::File => res matches Ok(plan) && plan.action == ExtractAction::WriteFile
                    && plan.validated.rel@ == vrel && plan.validated.abs@ == vabs
                    && extract_item_ok(plan.item, kind, vrel, vabs, size, Option::None, mtime),
                EntryKind::Symlink => match link_target {
                    Option::None => res matches Ok(plan) && plan.action
                        == ExtractAction::WriteSymlink && plan.validated.rel@ == vrel
                        && plan.validated.abs@ == vabs && extract_item_ok(
                        plan.item,
                        kind,
                        vrel,
                        vabs,
                        size,
                        Option::None,
                        mtime,
                    ),
                    Option::Some(t) => {
                        if extract_link_ok(policy, t, vabs, root) {
                            res matches Ok(plan) && plan.action == ExtractAction::WriteSymlink
                                && plan.validated.rel@ == vrel && plan.validated.abs@ == vabs
                                && extract_item_ok(
                                plan.item,
                                kind,
                                vrel,
                                vabs,
                                size,
                                Option::Some(t),
                                mtime,
                            )
                        } else {
                            res matches Err(e) && e matches PolicyError::LinkOutsideRoot(_)
                        }
                    },
                },
            })
        }
    }
}

/// Decide one entry of the extraction stream: classify its kind, validate
/// its path against the destination root, account it against the quotas, and
/// confine a symlink's target before anything is written.
#[verifier::rlimit(60)]
pub fn extract_step(
    policy: &SecurityPolicy,
    usage: &mut UsageTracker,
    dest_root: &str,
    type_byte: u8,
    path: &str,
    size: u64,
    link_target: Option<&str>,
    mtime: Option<u64>,
) -> (res: Result<ExtractPlan, PolicyError>)
    ensures
        extract_step_spec(
            *policy,
            *old(usage),
            *final(usage),
            dest_root@,
            type_byte,
            path@,
            size,
            (match link_target {
                Option::Some(t) => Option::Some(t@),
                Option::None => Option::None,
            }),
            mtime,
            res,
        ),
{
    broadcast use crate::pathlex::lemma_chars_deep_view;

    let kind = classify_entry_byte(type_byte);
    let validated = match policy.normalize_and_validate(path, dest_root) {
        Ok(v) => v,
        Err(e) => {
            return Err(e);
        },
    };
    match usage.observe(&validated, size) {
        Ok(_) => {},
        Err(e) => {
            return Err(e);
        },
    }
    proof {
        assert(validate_ok(*policy, path@, dest_root@));
        assert(validated.rel@ == validated_rel_string(path@, dest_root@));
        assert(observe_result_spec(*old(usage), *usage, validated.rel@, size, Ok::<
            (),
            PolicyError,
        >(())));
        let scan = crate::policy::depth_scan(segments(validated.rel@), 0);
        if scan is Err {
            if scan->Err_0 {
                assert(scan == Err::<int, bool>(true));
            } else {
                assert(scan == Err::<int, bool>(false));
            }
        }
        assert(observe_accepts(*old(usage), validated_rel_string(path@, dest_root@), size));
    }
    let action = match kind {
        EntryKind::Directory => ExtractAction::CreateDir,
        EntryKind::File => ExtractAction::WriteFile,
        EntryKind::Symlink => {
            match link_target {
                None => ExtractAction::WriteSymlink,
                Some(target) => {
                    let t_chars = chars_of(target);
                    if vec_is_abs(&t_chars) {
                        match policy.enforce_link_policy(target, dest_root, LinkType::Symlink) {
                            Ok(_) => {},
                            Err(e) => {
                                return Err(e);
                            },
                        }
                    } else {
                        let v_chars = chars_of(validated.abs.as_str());
                        let v_flag = vec_is_abs(&v_chars);
                        let v_segs = split_segments(&v_chars);
                        if v_segs.len() > 0 {
                            let t_segs = split_segments(&t_chars);
                            let mut all = tail_segments(&v_segs, 0);
                            proof {
                                assert(v_segs.deep_view().skip(0) =~~= segments(validated.abs@));
                            }
                            let ghost whole_v = all@;
                            all.pop();
                            let ghost parent_dv = all.deep_view();
                            proof {
                                assert(all@ =~= whole_v.subrange(0, whole_v.len() - 1));
                                assert forall|k: int|
                                    0 <= k < parent_dv.len() implies parent_dv[k] == segments(
                                    validated.abs@,
                                ).drop_last()[k] by {
                                    assert(all@[k] == whole_v[k]);
                                }
                                assert(parent_dv =~~= segments(validated.abs@).drop_last());
                            }
                            let mut ts = t_segs;
                            let ghost ts_dv = ts.deep_view();
                            let ghost all_v0 = all@;
                            let ghost ts_v0 = ts@;
                            all.append(&mut ts);
                            proof {
                                assert forall|k: int|
                                    0 <= k < all.deep_view().len() implies all.deep_view()[k] == (
                                parent_dv + ts_dv)[k] by {
                                    if k < parent_dv.len() {
                                        assert(all@[k] == all_v0[k]);
                                    } else {
                                        assert(all@[k] == ts_v0[k - parent_dv.len()]);
                                    }
                                }
                                assert(all.deep_view() =~~= segments(validated.abs@).drop_last()
                                    + segments(target@));
                            }
                            let resolved = string_of_path(v_flag, &all);
                            match policy.enforce_link_policy(
                                resolved.as_str(),
                                dest_root,
                                LinkType::Symlink,
                            ) {
                                Ok(_) => {},
                                Err(e) => {
                                    return Err(e);
                                },
                            }
                        }
                    }
                    ExtractAction::WriteSymlink
                },
            }
        },
    };
    let item = ManifestItem {
        relative: validated.rel.clone(),
        absolute: validated.abs.clone(),
        kind: match kind {
            EntryKind::File => ManifestKind::File,
            EntryKind::Directory => ManifestKind::Directory,
            EntryKind::Symlink => ManifestKind::Symlink,
        },
        link_target: match (kind, link_target) {
            (EntryKind::Symlink, Some(t)) => Some(t.to_owned()),
            _ => None,
        },
        size: if kind == EntryKind::File {
            size
        } else {
            0u64
        },
        mtime,
    };
    Ok(ExtractPlan { action, validated, item })
}

/// The manifest entry that listing records for one archive entry, the
/// content digest supplied for file entries.
pub fn list_entry(
    type_byte: u8,
    path: &str,
    size: u64,
    mtime: Option<u64>,
    link_target: Option<&str>,
    file_sha256: String,
) -> (r: ManifestEntry)
    ensures
        spec_classify(type_byte) == EntryKind::File ==> r.deep_view() == (
        crate::manifest::ManifestEntryV {
            path: path@,
            size: size,
            sha256: file_sha256@,
            kind: ManifestKind::File,
            target: Option::None,
            mtime: mtime,
        }),
        spec_classify(type_byte) == EntryKind::Directory ==> r.deep_view() == dir_entry_v(
            path@,
            mtime,
        ),
        spec_classify(type_byte) == EntryKind::Symlink ==> r.deep_view() == (
        crate::manifest::ManifestEntryV {
            path: path@,
            size: 0,
            sha256: sha256_hex_of(
                utf8_bytes(
                    match link_target {
                        Option::Some(t) => t@,
                        Option::None => Seq::<char>::empty(),
                    },
                ),
            ),
            kind: ManifestKind::Symlink,
            target: (match link_target {
                Option::Some(t) => Option::Some(t@),
                Option::None => Option::None,
            }),
            mtime: Option::None,
        }),
{
    let kind = classify_entry_byte(type_byte);
    match kind {
        EntryKind::File => ManifestEntry {
            path: path.to_owned(),
            size,
            sha256: file_sha256,
            kind: ManifestKind::File,
            target: None,
            mtime,
        },
        EntryKind::Directory => ManifestEntry::for_directory(path, mtime),
        EntryKind::Symlink => {
            let target_str = match link_target {
                Some(t) => t.to_owned(),
                None => String::new(),
            };
            ManifestEntry {
                path: path.to_owned(),
                size: 0,
                sha256: sha256_hex(str_utf8_bytes(target_str.as_str())),
                kind: ManifestKind::Symlink,
                target: match link_target {
                    Some(t) => Some(t.to_owned()),
                    None => None,
                },
                mtime: None,
            }
        },
    }
}

fn trim_chars(line: &Vec<char>) -> (r: String)
    ensures
        r@ == trim_line(line@),
{
    let n = line.len();
    let mut lo: usize = 0;
    proof {
        assert(line@.skip(0) =~= line@);
    }
    while lo < n && (line[lo] == ' ' || line[lo] == '\t' || line[lo] == '\r')
        invariant
            n == line@.len(),
            lo <= n,
            trim_front(line@) == trim_front(line@.skip(lo as int)),
        decreases n - lo,
    {
        proof {
            assert(line@.skip(lo as int).len() == n - lo);
            assert(line@.skip(lo as int)[0] == line@[lo as int]);
            assert(line@.skip(lo as int).drop_first() =~= line@.skip(lo + 1));
        }
        lo += 1;
    }
    proof {
        assert(line@.skip(lo as int).len() == n - lo);
        if lo < n {
            assert(line@.skip(lo as int)[0] == line@[lo as int]);
        }
        assert(trim_front(line@) == line@.skip(lo as int));
    }
    let mut hi: usize = n;
    proof {
        assert(line@.skip(lo as int).take(n - lo as int) =~= line@.skip(lo as int));
    }
    while hi > lo && (line[hi - 1] == ' ' || line[hi - 1] == '\t' || line[hi - 1] == '\r')
        invariant
            n == line@.len(),
            lo <= hi <= n,
            trim_front(line@) == line@.skip(lo as int),
            trim_back(line@.skip(lo as int)) == trim_back(
                line@.skip(lo as int).take(hi - lo as int),
            ),
        decreases hi,
    {
        proof {
            let cur = line@.skip(lo as int).take(hi - lo as int);
            assert(cur.len() == hi - lo);
            assert(cur.last() == line@[hi - 1]);
            assert(cur.drop_last() =~= line@.skip(lo as int).take(hi - 1 - lo as int));
        }
        hi -= 1;
    }
    proof {
        let cur = line@.skip(lo as int).take(hi - lo as int);
        if hi > lo {
            assert(cur.last() == line@[hi - 1]);
        }
        assert(trim_back(line@.skip(lo as int)) == cur);
    }
    let mut out = String::new();
    let mut i: usize = lo;
    while i < hi
        invariant
            lo <= i <= hi <= n,
            n == line@.len(),
            out@ == line@.subrange(lo as int, i as int),
        decreases hi - i,
    {
        crate::outside::string_push(&mut out, line[i]);
        i += 1;
    }
    proof {
        assert(line@.subrange(lo as int, hi as int) =~= line@.skip(lo as int).take(
            hi - lo as int,
        ));
    }
    out
}

/// One filesystem event of the create walk, as the traversal reports it.
#[derive(Debug)]
pub struct WalkEvent {
    /// The visited path, absolute.
    pub abs_path: String,
    /// Whether the directory-entry type is a directory (decides pruning).
    pub ft_is_dir: bool,
    /// Whether the metadata says regular file.
    pub meta_is_file: bool,
    /// Whether the metadata says directory.
    pub meta_is_dir: bool,
    /// Whether the metadata says symlink.
    pub meta_is_symlink: bool,
    /// The file length from the metadata.
    pub size: u64,
    /// The raw symlink target, where the entry is a symlink.
    pub link_target: Option<String>,
    /// Modification time in Unix seconds, where known.
    pub mtime: Option<u64>,
}

/// What the walk does with one event.
#[derive(Debug)]
pub enum WalkDecision {
    /// An excluded directory: do not descend into it.
    PruneDir,
    /// Leave this entry out and continue.
    Skip,
    /// Archive this entry.
    Include(ArchiveEntry),
}

/// A failure of the create walk.
#[derive(Debug)]
pub enum WalkError {
    Policy(PolicyError),
    Input(UserInputError),
}

/// The visited path strips against the allowed root component-wise.
pub open spec fn strip_ok(abs: Seq<char>, root: Seq<char>) -> bool {
    is_abs(abs) == is_abs(root) && is_seg_prefix(segments(root), segments(abs))
}

/// The visited path made relative to the allowed root.
pub open spec fn stripped_rel(abs: Seq<char>, root: Seq<char>) -> Seq<char> {
    join_segs(segments(abs).skip(segments(root).len() as int))
}

/// The kind of a walk event, in metadata order; anything else is skipped.
pub open spec fn event_kind(ev: WalkEvent) -> Option<EntryKind> {
    if ev.meta_is_file {
        Option::Some(EntryKind::File)
    } else if ev.meta_is_dir {
        Option::Some(EntryKind::Directory)
    } else if ev.meta_is_symlink {
        Option::Some(EntryKind::Symlink)
    } else {
        Option::None
    }
}

/// A symlink target resolved for the confinement check: absolute targets
/// stand alone; relative targets resolve against the link's own parent
/// directory, or against the allowed root when the link path has no parent.
pub open spec fn resolved_link_target(target: Seq<char>, abs: Seq<char>, root: Seq<char>) -> Seq<
    char,
> {
    if is_abs(target) {
        target
    } else if segments(abs).len() > 0 {
        path_string(is_abs(abs), segments(abs).drop_last() + segments(target))
    } else {
        path_string(is_abs(root), segments(root) + segments(target))
    }
}

/// Full description of one walk step.
pub open spec fn walk_step_spec(
    policy: SecurityPolicy,
    pre: UsageTracker,
    post: UsageTracker,
    root: Seq<char>,
    ev: WalkEvent,
    excl: Seq<Seq<char>>,
    res: Result<WalkDecision, WalkError>,
) -> bool {
    let abs = ev.abs_path@;
    if !strip_ok(abs, root) {
        post == pre && (res matches Err(WalkError::Input(_)))
    } else {
        let rel = stripped_rel(abs, root);
        if ev.ft_is_dir && glob_set_matches(excl, rel) {
            post == pre && (res matches Ok(WalkDecision::PruneDir))
        } else if glob_set_matches(excl, rel) {
            post == pre && (res matches Ok(WalkDecision::Skip))
        } else {
            match event_kind(ev) {
                Option::None => post == pre && (res matches Ok(WalkDecision::Skip)),
                Option::Some(kind) => {
                    let esize = if kind == EntryKind::File {
                        ev.size
                    } else {
                        0u64
                    };
                    if kind == EntryKind::Symlink && ev.link_target is None {
                        post == pre && (res matches Err(WalkError::Input(_)))
                    } else if kind == EntryKind::Symlink && !link_target_ok(
                        policy,
                        resolved_link_target((ev.link_target->0)@, abs, root),
                        root,
                        LinkType::Symlink,
                    ) {
                        post == pre && (res matches Err(WalkError::Policy(e))
                            && e matches PolicyError::LinkOutsideRoot(q) && q@
                            == resolved_link_target((ev.link_target->0)@, abs, root))
                    } else if rel.len() == 0 {
                        post == pre && (res matches Ok(WalkDecision::Skip))
                    } else if !validate_ok(policy, rel, root) {
                        post == pre && (res matches Err(WalkError::Policy(e))
                            && validate_result_spec(
                            policy,
                            rel,
                            root,
                            Err::<ValidatedPath, PolicyError>(e),
                        ))
                    } else if !observe_accepts(pre, validated_rel_string(rel, root), esize) {
                        res matches Err(WalkError::Policy(e)) && observe_result_spec(
                            pre,
                            post,
                            validated_rel_string(rel, root),
                            esize,
                            Err::<(), PolicyError>(e),
                        )
                    } else {
                        &&& observe_result_spec(
                            pre,
                            post,
                            validated_rel_string(rel, root),
                            esize,
                            Ok::<(), PolicyError>(()),
                        )
                        &&& (res matches Ok(WalkDecision::Include(entry)) && {
                            &&& entry.absolute@ == cleaned_path_string(rel, root)
                            &&& entry.relative@ == rel
                            &&& entry.kind == kind
                            &&& entry.size == esize
                            &&& (match (entry.link_target, ev.link_target) {
                                (Option::Some(a), Option::Some(b)) => a@ == b@,
                                (Option::None, Option::None) => true,
                                _ => false,
                            })
                            &&& entry.mtime == ev.mtime
                        })
                    }
                },
            }
        }
    }
}

/// Decide one event of the create walk: strip the path against the allowed
/// root, apply the exclude set, confine a symlink's target, validate the
/// relative path and account it against the quotas.
#[verifier::rlimit(60)]
pub fn walk_step(
    policy: &SecurityPolicy,
    usage: &mut UsageTracker,
    allowed_root: &str,
    excludes: &ExcludeSet,
    ev: &WalkEvent,
) -> (res: Result<WalkDecision, WalkError>)
    ensures
        walk_step_spec(
            *policy,
            *old(usage),
            *final(usage),
            allowed_root@,
            *ev,
            excludes.spec_patterns(),
            res,
        ),
{
    broadcast use crate::pathlex::lemma_chars_deep_view;

    let abs_chars = chars_of(ev.abs_path.as_str());
    let abs_flag = vec_is_abs(&abs_chars);
    let root_chars = chars_of(allowed_root);
    let root_flag = vec_is_abs(&root_chars);
    let abs_segs = split_segments(&abs_chars);
    let root_segs = split_segments(&root_chars);
    if !(abs_flag == root_flag && is_prefix_exec(&root_segs, &abs_segs)) {
        let mut msg = String::new();
        msg.append("input ");
        msg.append(ev.abs_path.as_str());
        msg.append(" escapes base ");
        msg.append(allowed_root);
        return Err(WalkError::Input(UserInputError::new(msg)));
    }
    let rel_segs = tail_segments(&abs_segs, root_segs.len());
    let rel = join_string(&rel_segs);
    proof {
        assert(rel@ == stripped_rel(ev.abs_path@, allowed_root@));
    }
    let excluded = excludes.is_match(rel.as_str());
    if ev.ft_is_dir && excluded {
        return Ok(WalkDecision::PruneDir);
    }
    if excluded {
        return Ok(WalkDecision::Skip);
    }
    let kind = if ev.meta_is_file {
        EntryKind::File
    } else if ev.meta_is_dir {
        EntryKind::Directory
    } else if ev.meta_is_symlink {
        EntryKind::Symlink
    } else {
        return Ok(WalkDecision::Skip);
    };
    let esize = if kind == EntryKind::File {
        ev.size
    } else {
        0u64
    };
    if kind == EntryKind::Symlink {
        match &ev.link_target {
            None => {
                let mut msg = String::new();
                msg.append("missing symlink target for ");
                msg.append(ev.abs_path.as_str());
                return Err(WalkError::Input(UserInputError::new(msg)));
            },
            Some(target) => {
                let t_chars = chars_of(target.as_str());
                let resolved: String = if vec_is_abs(&t_chars) {
                    target.clone()
                } else {
                    let t_segs = split_segments(&t_chars);
                    if abs_segs.len() > 0 {
                        let mut all = tail_segments(&abs_segs, 0);
                        proof {
                            assert(abs_segs.deep_view().skip(0) =~~= segments(ev.abs_path@));
                        }
                        let ghost whole = all.deep_view();
                        let ghost whole_v = all@;
                        all.pop();
                        let ghost parent_dv = all.deep_view();
                        proof {
                            assert(all@ =~= whole_v.subrange(0, whole_v.len() - 1));
                            assert forall|k: int|
                                0 <= k < parent_dv.len() implies parent_dv[k] == whole.drop_last()[
                                k
                            ] by {
                                assert(all@[k] == whole_v[k]);
                            }
                            assert(parent_dv =~~= segments(ev.abs_path@).drop_last());
                        }
                        let mut ts = t_segs;
                        let ghost ts_dv = ts.deep_view();
                        let ghost all_v0 = all@;
                        let ghost ts_v0 = ts@;
                        all.append(&mut ts);
                        proof {
                            assert forall|k: int|
                                0 <= k < all.deep_view().len() implies all.deep_view()[k] == (
                            parent_dv + ts_dv)[k] by {
                                if k < parent_dv.len() {
                                    assert(all@[k] == all_v0[k]);
                                } else {
                                    assert(all@[k] == ts_v0[k - parent_dv.len()]);
                                }
                            }
                            assert(all.deep_view() =~~= segments(ev.abs_path@).drop_last()
                                + segments(target@));
                        }
                        string_of_path(abs_flag, &all)
                    } else {
                        let mut all = tail_segments(&root_segs, 0);
                        proof {
                            assert(root_segs.deep_view().skip(0) =~~= segments(allowed_root@));
                        }
                        let mut ts = t_segs;
                        let ghost all_dv0 = all.deep_view();
                        let ghost ts_dv = ts.deep_view();
                        let ghost all_v0 = all@;
                        let ghost ts_v0 = ts@;
                        all.append(&mut ts);
                        proof {
                            assert forall|k: int|
                                0 <= k < all.deep_view().len() implies all.deep_view()[k] == (
                            all_dv0 + ts_dv)[k] by {
                                if k < all_dv0.len() {
                                    assert(all@[k] == all_v0[k]);
                                } else {
                                    assert(all@[k] == ts_v0[k - all_dv0.len()]);
                                }
                            }
                            assert(all.deep_view() =~~= segments(allowed_root@) + segments(
                                target@,
                            ));
                        }
                        string_of_path(root_flag, &all)
                    }
                };
                proof {
                    assert(resolved@ == resolved_link_target(target@, ev.abs_path@, allowed_root@));
                }
                match policy.enforce_link_policy(resolved.as_str(), allowed_root, LinkType::Symlink)
                    {
                    Ok(_) => {},
                    Err(e) => {
                        return Err(WalkError::Policy(e));
                    },
                }
            },
        }
    }
    if rel.unicode_len() == 0 {
        return Ok(WalkDecision::Skip);
    }
    let validated = match policy.normalize_and_validate(rel.as_str(), allowed_root) {
        Ok(v) => v,
        Err(e) => {
            return Err(WalkError::Policy(e));
        },
    };
    match usage.observe(&validated, esize) {
        Ok(_) => {},
        Err(e) => {
            return Err(WalkError::Policy(e));
        },
    }
    proof {
        assert(validate_ok(*policy, rel@, allowed_root@));
        assert(validated.rel@ == validated_rel_string(rel@, allowed_root@));
        assert(observe_result_spec(*old(usage), *usage, validated.rel@, esize, Ok::<
            (),
            PolicyError,
        >(())));
        let scan = crate::policy::depth_scan(segments(validated.rel@), 0);
        if scan is Err {
            if scan->Err_0 {
                assert(scan == Err::<int, bool>(true));
            } else {
                assert(scan == Err::<int, bool>(false));
            }
        }
        assert(observe_accepts(*old(usage), validated_rel_string(rel@, allowed_root@), esize));
    }
    Ok(
        WalkDecision::Include(
            ArchiveEntry {
                absolute: validated.abs,
                relative: rel,
                kind,
                size: esize,
                link_target: match &ev.link_target {
                    Some(t) => Some(t.clone()),
                    None => None,
                },
                mtime: ev.mtime,
            },
        ),
    )
}

/// Parse the text of an exclude-pattern file: one pattern per line, trimmed;
/// empty lines and lines starting with `#` are dropped.
#[verifier::loop_isolation(false)]
pub fn exclude_patterns_from_text(content: &str) -> (r: Vec<String>)
    ensures
        r.deep_view() == exclude_patterns_spec(content@),
{
    let v = chars_of(content);
    let n = v.len();
    let mut out: Vec<String> = Vec::new();
    let mut cur: Vec<char> = Vec::new();
    let mut i: usize = 0;
    proof {
        assert(v@.skip(0) =~= v@);
        assert(out.deep_view() =~= Seq::<Seq<char>>::empty());
        assert(Seq::<Seq<char>>::empty() + patterns_from(v@, cur@) =~= patterns_from(v@, cur@));
    }
    while i < n
        invariant
            n == v@.len(),
            i <= n,
            exclude_patterns_spec(content@) == out.deep_view() + patterns_from(
                v@.skip(i as int),
                cur@,
            ),
        decreases n - i,
    {
        let ghost pre_out = out.deep_view();
        let ghost pre_cur = cur@;
        proof {
            assert(v@.skip(i as int).len() == n - i);
            assert(v@.skip(i as int)[0] == v@[i as int]);
            assert(v@.skip(i as int).drop_first() =~= v@.skip(i + 1));
        }
        if v[i] == '\n' {
            let trimmed = trim_chars(&cur);
            let keep = trimmed.unicode_len() > 0 && trimmed.as_str().get_char(0) != '#';
            if keep {
                out.push(trimmed);
            }
            cur = Vec::new();
            proof {
                assert(keep == keep_line(pre_cur));
                if keep {
                    assert(out.deep_view() =~= pre_out.push(trim_line(pre_cur)));
                }
                assert(pre_out + patterns_from(v@.skip(i as int), pre_cur) =~= out.deep_view()
                    + patterns_from(v@.skip(i + 1), Seq::<char>::empty()));
            }
        } else {
            cur.push(v[i]);
        }
        i += 1;
    }
    let trimmed = trim_chars(&cur);
    let keep = trimmed.unicode_len() > 0 && trimmed.as_str().get_char(0) != '#';
    let ghost pre_out = out.deep_view();
    let ghost pre_cur = cur@;
    if keep {
        out.push(trimmed);
    }
    proof {
        assert(v@.skip(n as int).len() == 0);
        assert(keep == keep_line(pre_cur));
        if keep {
            assert(out.deep_view() =~= pre_out.push(trim_line(pre_cur)));
        }
        assert(pre_out + patterns_from(v@.skip(n as int), pre_cur) =~= out.deep_view());
    }
    out
}

} // verus!
