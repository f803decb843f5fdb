//! Manifest collection and verification: content fingerprints for archive
//! entries, sorted deterministically by path, and comparison of an expected
//! set against an actual set.

use vstd::prelude::*;

use crate::outside::{sha256_hex, sha256_hex_of, str_utf8_bytes, utf8_bytes};

verus! {

/// Types of entries captured in the manifest.
#[derive(Debug, Clone, Copy, PartialEq, Eq, Structural)]
pub enum ManifestKind {
    File,
    Directory,
    Symlink,
}

/// Entry describing a filesystem object stored in the manifest.
#[derive(Debug, Clone)]
pub struct ManifestEntry {
    pub path: String,
    pub size: u64,
    pub sha256: String,
    pub kind: ManifestKind,
    pub target: Option<String>,
    pub mtime: Option<u64>,
}

/// The mathematical shape of a manifest entry.
#[verifier::ext_equal]
pub struct ManifestEntryV {
    pub path: Seq<char>,
    pub size: u64,
    pub sha256: Seq<char>,
    pub kind: ManifestKind,
    pub target: Option<Seq<char>>,
    pub mtime: Option<u64>,
}

impl DeepView for ManifestEntry {
    type V = ManifestEntryV;

    open spec fn deep_view(&self) -> ManifestEntryV {
        ManifestEntryV {
            path: self.path@,
            size: self.size,
            sha256: self.sha256@,
            kind: self.kind,
            target: match self.target {
                Option::Some(t) => Option::Some(t@),
                Option::None => Option::None,
            },
            mtime: self.mtime,
        }
    }
}

impl PartialEq for ManifestEntry {
    fn eq(&self, other: &Self) -> (r: bool) {
        let targets_eq = match (&self.target, &other.target) {
            (Some(a), Some(b)) => *a == *b,
            (None, None) => true,
            _ => false,
        };
        let mtimes_eq = match (self.mtime, other.mtime) {
            (Some(a), Some(b)) => a == b,
            (None, None) => true,
            _ => false,
        };
        let r = self.path == other.path && self.size == other.size && self.sha256
            == other.sha256 && self.kind == other.kind && targets_eq && mtimes_eq;
        proof {
            if r {
                assert(self.deep_view() =~~= other.deep_view());
            } else {
                if self.deep_view() == other.deep_view() {
                    assert(self.path@ == other.path@);
                    assert(self.sha256@ == other.sha256@);
                    match (&self.target, &other.target) {
                        (Some(a), Some(b)) => {
                            assert(a@ == b@);
                        },
                        _ => {},
                    }
                }
            }
        }
        r
    }
}

impl vstd::std_specs::cmp::PartialEqSpecImpl for ManifestEntry {
    open spec fn obeys_eq_spec() -> bool {
        true
    }

    open spec fn eq_spec(&self, other: &Self) -> bool {
        self.deep_view() == other.deep_view()
    }
}

/// Source item used to compute a manifest.
#[derive(Debug, Clone)]
pub struct ManifestItem {
    pub relative: String,
    pub absolute: String,
    pub kind: ManifestKind,
    pub link_target: Option<String>,
    pub size: u64,
    pub mtime: Option<u64>,
}

/// The mathematical shape of a manifest item.
#[verifier::ext_equal]
pub struct ManifestItemV {
    pub relative: Seq<char>,
    pub absolute: Seq<char>,
    pub kind: ManifestKind,
    pub link_target: Option<Seq<char>>,
    pub size: u64,
    pub mtime: Option<u64>,
}

impl DeepView for ManifestItem {
    type V = ManifestItemV;

    open spec fn deep_view(&self) -> ManifestItemV {
        ManifestItemV {
            relative: self.relative@,
            absolute: self.absolute@,
            kind: self.kind,
            link_target: match self.link_target {
                Option::Some(t) => Option::Some(t@),
                Option::None => Option::None,
            },
            size: self.size,
            mtime: self.mtime,
        }
    }
}

/// The fingerprint entry of a directory: the digest of the empty byte
/// sequence, a canonical content-independent marker.
pub open spec fn dir_entry_v(path: Seq<char>, mtime: Option<u64>) -> ManifestEntryV {
    ManifestEntryV {
        path,
        size: 0,
        sha256: sha256_hex_of(Seq::<u8>::empty()),
        kind: ManifestKind::Directory,
        target: Option::None,
        mtime,
    }
}

/// The fingerprint entry of a symlink: the digest of the UTF-8 bytes of the
/// target string, not of whatever the link resolves to.
pub open spec fn symlink_entry_v(path: Seq<char>, target: Seq<char>) -> ManifestEntryV {
    ManifestEntryV {
        path,
        size: 0,
        sha256: sha256_hex_of(utf8_bytes(target)),
        kind: ManifestKind::Symlink,
        target: Option::Some(target),
        mtime: Option::None,
    }
}

/// The entry computed for one manifest item, with `digest` the content digest
/// supplied for file items.
pub open spec fn entry_of_item(item: ManifestItemV, digest: Seq<char>) -> ManifestEntryV {
    match item.kind {
        ManifestKind::File => ManifestEntryV {
            path: item.relative,
            size: item.size,
            sha256: digest,
            kind: ManifestKind::File,
            target: Option::None,
            mtime: item.mtime,
        },
        ManifestKind::Directory => dir_entry_v(item.relative, item.mtime),
        ManifestKind::Symlink => ManifestEntryV {
            path: item.relative,
            size: 0,
            sha256: sha256_hex_of(utf8_bytes(
                match item.link_target {
                    Option::Some(t) => t,
                    Option::None => Seq::<char>::empty(),
                },
            )),
            kind: ManifestKind::Symlink,
            target: item.link_target,
            mtime: item.mtime,
        },
    }
}

impl ManifestEntry {
    /// The entry recorded for a directory.
    #[must_use]
    pub fn for_directory(path: &str, mtime: Option<u64>) -> (r: ManifestEntry)
        ensures
            r.deep_view() == dir_entry_v(path@, mtime),
    {
        let empty: Vec<u8> = Vec::new();
        ManifestEntry {
            path: path.to_owned(),
            size: 0,
            sha256: sha256_hex(empty.as_slice()),
            kind: ManifestKind::Directory,
            target: None,
            mtime,
        }
    }

    /// The entry recorded for a symlink, fingerprinting the target string.
    #[must_use]
    pub fn for_symlink(path: &str, target: &str) -> (r: ManifestEntry)
        ensures
            r.deep_view() == symlink_entry_v(path@, target@),
    {
        ManifestEntry {
            path: path.to_owned(),
            size: 0,
            sha256: sha256_hex(str_utf8_bytes(target)),
            kind: ManifestKind::Symlink,
            target: Some(target.to_owned()),
            mtime: None,
        }
    }
}

/// Lexicographic order on character sequences (the order of `str` comparison
/// for the sorted manifest).
pub open spec fn lex_le(a: Seq<char>, b: Seq<char>) -> bool
    decreases a.len(),
{
    if a.len() == 0 {
        true
    } else if b.len() == 0 {
        false
    } else if a[0] == b[0] {
        lex_le(a.drop_first(), b.drop_first())
    } else {
        a[0] < b[0]
    }
}

/// The order is total.
pub proof fn lemma_lex_le_total(a: Seq<char>, b: Seq<char>)
    ensures
        lex_le(a, b) || lex_le(b, a),
    decreases a.len(),
{
    if a.len() > 0 && b.len() > 0 {
        if a[0] == b[0] {
            lemma_lex_le_total(a.drop_first(), b.drop_first());
        }
    }
}

/// The order is reflexive.
pub proof fn lemma_lex_le_refl(a: Seq<char>)
    ensures
        lex_le(a, a),
    decreases a.len(),
{
    if a.len() > 0 {
        lemma_lex_le_refl(a.drop_first());
    }
}

/// Entries in ascending path order.
pub open spec fn entries_sorted(s: Seq<ManifestEntryV>) -> bool {
    forall|i: int, j: int| 0 <= i < j < s.len() ==> lex_le(#[trigger] s[i].path, #[trigger] s[j].path)
}

/// The entries computed for a list of items and their file digests.
pub open spec fn collected_entries(items: Seq<ManifestItemV>, digests: Seq<Seq<char>>) -> Seq<
    ManifestEntryV,
> {
    Seq::new(items.len(), |i: int| entry_of_item(items[i], digests[i]))
}

/// Whether `a` is at most every entry of `s` by path, from index `from` on.
spec fn le_all_from(a: Seq<char>, s: Seq<ManifestEntryV>, from: int) -> bool {
    forall|j: int| from <= j < s.len() ==> lex_le(a, #[trigger] s[j].path)
}

fn chars_le(a: &str, b: &str) -> (r: bool)
    ensures
        r == lex_le(a@, b@),
{
    let av = crate::pathlex::chars_of(a);
    let bv = crate::pathlex::chars_of(b);
    let n = av.len();
    let m = bv.len();
    let mut i: usize = 0;
    proof {
        assert(a@.skip(0) =~= a@);
        assert(b@.skip(0) =~= b@);
    }
    while i < n && i < m
        invariant
            n == a@.len(),
            m == b@.len(),
            av@ == a@,
            bv@ == b@,
            i <= n,
            i <= m,
            lex_le(a@, b@) == lex_le(a@.skip(i as int), b@.skip(i as int)),
        decreases n - i,
    {
        proof {
            assert(a@.skip(i as int).len() == n - i);
            assert(b@.skip(i as int).len() == m - i);
            assert(a@.skip(i as int)[0] == a@[i as int]);
            assert(b@.skip(i as int)[0] == b@[i as int]);
            assert(a@.skip(i as int).drop_first() =~= a@.skip(i + 1));
            assert(b@.skip(i as int).drop_first() =~= b@.skip(i + 1));
        }
        if av[i] != bv[i] {
            proof {
                assert(lex_le(a@.skip(i as int), b@.skip(i as int)) == (a@[i as int]
                    < b@[i as int]));
            }
            return av[i] < bv[i];
        }
        i += 1;
    }
    proof {
        assert(a@.skip(i as int).len() == n - i);
        assert(b@.skip(i as int).len() == m - i);
        if i >= n {
            assert(lex_le(a@.skip(i as int), b@.skip(i as int)));
        } else {
            assert(!lex_le(a@.skip(i as int), b@.skip(i as int)));
        }
    }
    n <= m
}

/// Compute the manifest entries for the provided items, file digests supplied
/// alongside (consulted only for `File` items), sorted ascending by path.
pub fn collect_manifest(items: &Vec<ManifestItem>, file_digests: &Vec<String>) -> (r: Vec<
    ManifestEntry,
>)
    requires
        file_digests@.len() == items@.len(),
    ensures
        entries_sorted(r.deep_view()),
        r.deep_view().to_multiset() == collected_entries(
            items.deep_view(),
            file_digests.deep_view(),
        ).to_multiset(),
{
    broadcast use vstd::seq_lib::group_to_multiset_ensures;

    let ghost goal = collected_entries(items.deep_view(), file_digests.deep_view());
    let n = items.len();
    let mut raw: Vec<ManifestEntry> = Vec::new();
    let mut i: usize = 0;
    while i < n
        invariant
            n == items@.len(),
            n == file_digests@.len(),
            i <= n,
            raw.deep_view() =~~= goal.subrange(0, i as int),
            goal == collected_entries(items.deep_view(), file_digests.deep_view()),
        decreases n - i,
    {
        let item = &items[i];
        let entry = match item.kind {
            ManifestKind::File => ManifestEntry {
                path: item.relative.clone(),
                size: item.size,
                sha256: file_digests[i].clone(),
                kind: ManifestKind::File,
                target: None,
                mtime: item.mtime,
            },
            ManifestKind::Directory => ManifestEntry::for_directory(
                item.relative.as_str(),
                item.mtime,
            ),
            ManifestKind::Symlink => {
                let target_str = match &item.link_target {
                    Some(t) => t.clone(),
                    None => String::new(),
                };
                ManifestEntry {
                    path: item.relative.clone(),
                    size: 0,
                    sha256: sha256_hex(str_utf8_bytes(target_str.as_str())),
                    kind: ManifestKind::Symlink,
                    target: match &item.link_target {
                        Some(t) => Some(t.clone()),
                        None => None,
                    },
                    mtime: item.mtime,
                }
            },
        };
        proof {
            assert(entry.deep_view() =~~= entry_of_item(
                items.deep_view()[i as int],
                file_digests.deep_view()[i as int],
            ));
        }
        let ghost pre_raw = raw.deep_view();
        raw.push(entry);
        proof {
            assert(raw.deep_view() =~~= pre_raw.push(
                entry_of_item(items.deep_view()[i as int], file_digests.deep_view()[i as int]),
            ));
            assert(raw.deep_view() =~~= goal.subrange(0, i + 1));
        }
        i += 1;
    }
    proof {
        assert(goal.subrange(0, n as int) =~~= goal);
        assert(raw.deep_view() == goal);
    }
    sort_entries(raw)
}

/// Selection sort by path: repeatedly move a minimal remaining entry over.
fn sort_entries(entries: Vec<ManifestEntry>) -> (r: Vec<ManifestEntry>)
    ensures
        entries_sorted(r.deep_view()),
        r.deep_view().to_multiset() == entries.deep_view().to_multiset(),
{
    broadcast use vstd::seq_lib::group_to_multiset_ensures;

    let ghost orig = entries.deep_view();
    let mut rem = entries;
    let mut out: Vec<ManifestEntry> = Vec::new();
    proof {
        assert(out.deep_view() =~~= Seq::<ManifestEntryV>::empty());
        assert(out.deep_view().to_multiset().add(rem.deep_view().to_multiset())
            =~= orig.to_multiset());
    }
    while rem.len() > 0
        invariant
            entries_sorted(out.deep_view()),
            forall|i: int, j: int|
                0 <= i < out.deep_view().len() && 0 <= j < rem.deep_view().len() ==> lex_le(
                    #[trigger] out.deep_view()[i].path,
                    #[trigger] rem.deep_view()[j].path,
                ),
            out.deep_view().to_multiset().add(rem.deep_view().to_multiset()) == orig.to_multiset(),
        decreases rem.len(),
    {
        broadcast use vstd::seq_lib::group_to_multiset_ensures;

        let m = rem.len();
        let mut best: usize = 0;
        let mut k: usize = 1;
        proof {
            lemma_lex_le_refl(rem.deep_view()[0].path);
        }
        while k < m
            invariant
                m == rem.deep_view().len(),
                m == rem@.len(),
                best < k,
                k <= m,
                forall|j: int|
                    0 <= j < k ==> lex_le(
                        rem.deep_view()[best as int].path,
                        #[trigger] rem.deep_view()[j].path,
                    ),
            decreases m - k,
        {
            if chars_le(entry_path(&rem[k]), entry_path(&rem[best])) {
                proof {
                    lemma_lex_le_total(
                        rem.deep_view()[k as int].path,
                        rem.deep_view()[best as int].path,
                    );
                    assert forall|j: int|
                        0 <= j < k + 1 implies lex_le(
                        rem.deep_view()[k as int].path,
                        #[trigger] rem.deep_view()[j].path,
                    ) by {
                        if j == k {
                            lemma_lex_le_refl(rem.deep_view()[k as int].path);
                        } else {
                            lemma_lex_le_trans(
                                rem.deep_view()[k as int].path,
                                rem.deep_view()[best as int].path,
                                rem.deep_view()[j].path,
                            );
                        }
                    }
                }
                best = k;
            } else {
                proof {
                    lemma_lex_le_total(
                        rem.deep_view()[best as int].path,
                        rem.deep_view()[k as int].path,
                    );
                }
            }
            k += 1;
        }
        let ghost pre_rem = rem.deep_view();
        let ghost pre_out = out.deep_view();
        let picked = rem.remove(best);
        proof {
            assert(rem.deep_view() =~~= pre_rem.remove(best as int));
        }
        out.push(picked);
        proof {
            assert(out.deep_view() =~~= pre_out.push(pre_rem[best as int]));
            assert(out.deep_view().to_multiset().add(rem.deep_view().to_multiset())
                =~= orig.to_multiset());
            assert forall|i: int, j: int|
                0 <= i < out.deep_view().len() && 0 <= j < rem.deep_view().len() implies lex_le(
                #[trigger] out.deep_view()[i].path,
                #[trigger] rem.deep_view()[j].path,
            ) by {
                let old_j = if j < best { j } else { j + 1 };
                assert(rem.deep_view()[j] == pre_rem[old_j]);
                if i < pre_out.len() {
                    assert(lex_le(pre_out[i].path, pre_rem[old_j].path));
                } else {
                    assert(out.deep_view()[i] == pre_rem[best as int]);
                }
            }
            assert forall|i: int, j: int|
                0 <= i < j < out.deep_view().len() implies lex_le(
                #[trigger] out.deep_view()[i].path,
                #[trigger] out.deep_view()[j].path,
            ) by {
                if j == out.deep_view().len() - 1 {
                    assert(lex_le(pre_out[i].path, pre_rem[best as int].path));
                }
            }
        }
    }
    proof {
        assert(rem.deep_view().to_multiset().len() == 0);
        assert(out.deep_view().to_multiset().add(rem.deep_view().to_multiset())
            =~= out.deep_view().to_multiset());
    }
    out
}

/// The order is transitive.
pub proof fn lemma_lex_le_trans(a: Seq<char>, b: Seq<char>, c: Seq<char>)
    requires
        lex_le(a, b),
        lex_le(b, c),
    ensures
        lex_le(a, c),
    decreases a.len(),
{
    if a.len() > 0 && b.len() > 0 && c.len() > 0 {
        if a[0] == b[0] && b[0] == c[0] {
            lemma_lex_le_trans(a.drop_first(), b.drop_first(), c.drop_first());
        }
    }
}

fn entry_path(e: &ManifestEntry) -> (s: &str)
    ensures
        s@ == e.deep_view().path,
{
    e.path.as_str()
}

/// Manifest verification errors.
#[derive(Debug)]
pub enum ManifestError {
    MissingEntry(String),
    Mismatch { path: String, expected: String, actual: String },
    UnexpectedEntry(String),
}

/// A manifest set as a map keyed by path; a later entry overrides an earlier
/// one with the same path.
#[verifier::opaque]
pub open spec fn entries_map(s: Seq<ManifestEntryV>) -> Map<Seq<char>, ManifestEntryV>
    decreases s.len(),
{
    if s.len() == 0 {
        Map::empty()
    } else {
        entries_map(s.drop_last()).insert(s.last().path, s.last())
    }
}

/// Some entry carries this path.
pub open spec fn has_entry_path(s: Seq<ManifestEntryV>, p: Seq<char>) -> bool {
    exists|i: int| 0 <= i < s.len() && (#[trigger] s[i]).path == p
}

/// No later entry shares the path of the entry at `i`.
pub open spec fn is_last_occurrence(s: Seq<ManifestEntryV>, i: int) -> bool {
    forall|j: int| i < j < s.len() ==> (#[trigger] s[j]).path != s[i].path
}

/// A path is in the map exactly when some entry carries it.
pub proof fn lemma_entries_map_dom(s: Seq<ManifestEntryV>, p: Seq<char>)
    ensures
        entries_map(s).dom().contains(p) <==> has_entry_path(s, p),
    decreases s.len(),
{
    reveal(entries_map);
    if s.len() > 0 {
        lemma_entries_map_dom(s.drop_last(), p);
        if entries_map(s).dom().contains(p) {
            if s.last().path != p {
                let i = choose|i: int|
                    0 <= i < s.drop_last().len() && (#[trigger] s.drop_last()[i]).path == p;
                assert(s[i].path == p);
            } else {
                assert(s[s.len() - 1].path == p);
            }
        }
        if has_entry_path(s, p) {
            let i = choose|i: int| 0 <= i < s.len() && (#[trigger] s[i]).path == p;
            if i < s.len() - 1 {
                assert(s.drop_last()[i].path == p);
            }
        }
    }
}

/// The map holds the last entry with each path.
pub proof fn lemma_entries_map_last(s: Seq<ManifestEntryV>, i: int)
    requires
        0 <= i < s.len(),
        is_last_occurrence(s, i),
    ensures
        entries_map(s).dom().contains(s[i].path),
        entries_map(s)[s[i].path] == s[i],
    decreases s.len(),
{
    reveal(entries_map);
    if i == s.len() - 1 {
    } else {
        assert(is_last_occurrence(s.drop_last(), i)) by {
            assert(forall|j: int|
                i < j < s.drop_last().len() ==> #[trigger] s.drop_last()[j] == s[j]);
            assert(s.drop_last()[i] == s[i]);
        }
        lemma_entries_map_last(s.drop_last(), i);
        assert(s.drop_last()[i] == s[i]);
        assert(s.last().path != s[i].path);
    }
}

/// Among the entries with a given path there is a last one.
pub proof fn lemma_exists_last(s: Seq<ManifestEntryV>, p: Seq<char>)
    requires
        has_entry_path(s, p),
    ensures
        exists|i: int|
            0 <= i < s.len() && (#[trigger] s[i]).path == p && is_last_occurrence(s, i),
    decreases s.len(),
{
    if s.last().path == p {
        let i = s.len() - 1;
        assert(0 <= i < s.len() && s[i].path == p && is_last_occurrence(s, i));
    } else {
        let w = choose|i: int| 0 <= i < s.len() && (#[trigger] s[i]).path == p;
        assert(s.drop_last()[w].path == p);
        assert(has_entry_path(s.drop_last(), p));
        lemma_exists_last(s.drop_last(), p);
        let i = choose|i: int|
            0 <= i < s.drop_last().len() && (#[trigger] s.drop_last()[i]).path == p
                && is_last_occurrence(s.drop_last(), i);
        assert(s[i].path == p) by {
            assert(s.drop_last()[i] == s[i]);
        }
        assert(is_last_occurrence(s, i)) by {
            assert(forall|j: int|
                i < j < s.len() - 1 ==> #[trigger] s[j] == s.drop_last()[j]);
            assert(s.drop_last()[i] == s[i]);
        }
        assert(0 <= i < s.len() && s[i].path == p && is_last_occurrence(s, i));
    }
}

/// Two entries agree for verification purposes: same fingerprint, same kind.
pub open spec fn manifest_entry_matches(e: ManifestEntryV, a: ManifestEntryV) -> bool {
    e.sha256 == a.sha256 && e.kind == a.kind
}

/// Every path of the expected map is in the actual map, with agreeing
/// entries.
pub open spec fn expected_all_match(e: Seq<ManifestEntryV>, a: Seq<ManifestEntryV>) -> bool {
    forall|p: Seq<char>|
        #[trigger] entries_map(e).dom().contains(p) ==> entries_map(a).dom().contains(p)
            && manifest_entry_matches(entries_map(e)[p], entries_map(a)[p])
}

/// Every path of the actual map also appears in the expected map.
pub open spec fn no_unexpected(e: Seq<ManifestEntryV>, a: Seq<ManifestEntryV>) -> bool {
    forall|p: Seq<char>|
        #[trigger] entries_map(a).dom().contains(p) ==> entries_map(e).dom().contains(p)
}

/// When verification of `actual` against `expected` succeeds: every expected
/// path is present with an agreeing entry, and (unless relaxed) no actual
/// path is unexpected.
pub open spec fn verify_ok_spec(
    e: Seq<ManifestEntryV>,
    a: Seq<ManifestEntryV>,
    relaxed: bool,
) -> bool {
    expected_all_match(e, a) && (relaxed || no_unexpected(e, a))
}

/// The index of the last entry with the given path, if any.
fn find_last_by_path(v: &Vec<ManifestEntry>, path: &String) -> (r: Option<usize>)
    ensures
        match r {
            Some(k) => k < v@.len() && v.deep_view()[k as int].path == path@
                && is_last_occurrence(v.deep_view(), k as int),
            None => !has_entry_path(v.deep_view(), path@),
        },
{
    let mut k = v.len();
    while k > 0
        invariant
            k <= v@.len(),
            forall|j: int| k <= j < v@.len() ==> (#[trigger] v.deep_view()[j]).path != path@,
        decreases k,
    {
        k -= 1;
        if v[k].path == *path {
            return Some(k);
        }
    }
    proof {
        if has_entry_path(v.deep_view(), path@) {
            let i = choose|i: int|
                0 <= i < v.deep_view().len() && (#[trigger] v.deep_view()[i]).path == path@;
            assert(false);
        }
    }
    None
}

/// Entries checked so far are covered: each that is the last with its path
/// agrees with the actual map.
spec fn expected_checked_upto(e: Seq<ManifestEntryV>, a: Seq<ManifestEntryV>, n: int) -> bool {
    forall|ii: int|
        0 <= ii < n && is_last_occurrence(e, ii) ==> entries_map(a).dom().contains(
            (#[trigger] e[ii]).path,
        ) && manifest_entry_matches(e[ii], entries_map(a)[e[ii].path])
}

/// Check that every expected path is present in `actual` with an agreeing
/// entry.
fn check_expected_entries(expected: &Vec<ManifestEntry>, actual: &Vec<ManifestEntry>) -> (res:
    Result<(), ManifestError>)
    ensures
        res is Ok <==> expected_all_match(expected.deep_view(), actual.deep_view()),
        res matches Err(ManifestError::MissingEntry(p)) ==> entries_map(
            expected.deep_view(),
        ).dom().contains(p@) && !entries_map(actual.deep_view()).dom().contains(p@),
        res matches Err(ManifestError::Mismatch { path, expected: exs, actual: acs }) ==> {
            let em = entries_map(expected.deep_view());
            let am = entries_map(actual.deep_view());
            &&& em.dom().contains(path@)
            &&& am.dom().contains(path@)
            &&& !manifest_entry_matches(em[path@], am[path@])
            &&& exs@ == em[path@].sha256
            &&& acs@ == am[path@].sha256
        },
        !(res matches Err(ManifestError::UnexpectedEntry(_))),
{
    let ghost e = expected.deep_view();
    let ghost a = actual.deep_view();
    let n = expected.len();
    let mut i: usize = 0;
    while i < n
        invariant
            n == expected@.len(),
            e == expected.deep_view(),
            a == actual.deep_view(),
            i <= n,
            expected_checked_upto(e, a, i as int),
        decreases n - i,
    {
        let is_last = match find_last_by_path(expected, &expected[i].path) {
            Some(k) => k == i,
            None => false,
        };
        if is_last {
            match find_last_by_path(actual, &expected[i].path) {
                None => {
                    proof {
                        lemma_entries_map_dom(a, e[i as int].path);
                        lemma_entries_map_last(e, i as int);
                    }
                    return Err(ManifestError::MissingEntry(expected[i].path.clone()));
                },
                Some(k) => {
                    proof {
                        lemma_entries_map_last(a, k as int);
                    }
                    let sha_eq = expected[i].sha256 == actual[k].sha256;
                    let kind_eq = expected[i].kind == actual[k].kind;
                    if !(sha_eq && kind_eq) {
                        proof {
                            lemma_entries_map_last(e, i as int);
                        }
                        return Err(ManifestError::Mismatch {
                            path: expected[i].path.clone(),
                            expected: expected[i].sha256.clone(),
                            actual: actual[k].sha256.clone(),
                        });
                    }
                },
            }
        }
        proof {
            assert forall|ii: int|
                0 <= ii < i + 1 && is_last_occurrence(e, ii) implies entries_map(
                a,
            ).dom().contains((#[trigger] e[ii]).path) && manifest_entry_matches(
                e[ii],
                entries_map(a)[e[ii].path],
            ) by {
                if ii == i {
                    assert(is_last);
                }
            }
        }
        i += 1;
    }
    proof {
        assert forall|p: Seq<char>| #[trigger] entries_map(e).dom().contains(p) implies entries_map(
            a,
        ).dom().contains(p) && manifest_entry_matches(entries_map(e)[p], entries_map(a)[p]) by {
            lemma_entries_map_dom(e, p);
            lemma_exists_last(e, p);
            let ii = choose|ii: int|
                0 <= ii < e.len() && (#[trigger] e[ii]).path == p && is_last_occurrence(e, ii);
            lemma_entries_map_last(e, ii);
        }
    }
    Ok(())
}

/// Actual entries checked so far are all expected.
spec fn actual_checked_upto(e: Seq<ManifestEntryV>, a: Seq<ManifestEntryV>, n: int) -> bool {
    forall|tt: int|
        0 <= tt < n && is_last_occurrence(a, tt) ==> entries_map(e).dom().contains(
            (#[trigger] a[tt]).path,
        )
}

/// Check that every actual path also appears among the expected entries.
fn check_no_unexpected_entries(
    expected: &Vec<ManifestEntry>,
    actual: &Vec<ManifestEntry>,
) -> (res: Result<(), ManifestError>)
    ensures
        res is Ok <==> no_unexpected(expected.deep_view(), actual.deep_view()),
        res matches Err(err) ==> err matches ManifestError::UnexpectedEntry(p) && entries_map(
            actual.deep_view(),
        ).dom().contains(p@) && !entries_map(expected.deep_view()).dom().contains(p@),
{
    let ghost e = expected.deep_view();
    let ghost a = actual.deep_view();
    let m = actual.len();
    let mut t: usize = 0;
    while t < m
        invariant
            m == actual@.len(),
            e == expected.deep_view(),
            a == actual.deep_view(),
            t <= m,
            actual_checked_upto(e, a, t as int),
        decreases m - t,
    {
        let is_last = match find_last_by_path(actual, &actual[t].path) {
            Some(k) => k == t,
            None => false,
        };
        if is_last {
            match find_last_by_path(expected, &actual[t].path) {
                None => {
                    proof {
                        lemma_entries_map_dom(e, a[t as int].path);
                        lemma_entries_map_last(a, t as int);
                    }
                    return Err(ManifestError::UnexpectedEntry(actual[t].path.clone()));
                },
                Some(_) => {
                    proof {
                        lemma_entries_map_dom(e, a[t as int].path);
                    }
                },
            }
        }
        proof {
            assert forall|tt: int|
                0 <= tt < t + 1 && is_last_occurrence(a, tt) implies entries_map(
                e,
            ).dom().contains((#[trigger] a[tt]).path) by {
                if tt == t {
                    assert(is_last);
                }
            }
        }
        t += 1;
    }
    proof {
        assert forall|p: Seq<char>| #[trigger] entries_map(a).dom().contains(p) implies entries_map(
            e,
        ).dom().contains(p) by {
            lemma_entries_map_dom(a, p);
            lemma_exists_last(a, p);
            let tt = choose|tt: int|
                0 <= tt < a.len() && (#[trigger] a[tt]).path == p && is_last_occurrence(a, tt);
            lemma_entries_map_last(a, tt);
        }
    }
    Ok(())
}

/// Verify manifest contents against expectation: every expected path must be
/// present with identical fingerprint and kind; unless `relaxed`, every
/// actual path must also be expected.
pub fn verify_manifest(
    expected: &Vec<ManifestEntry>,
    actual: &Vec<ManifestEntry>,
    relaxed: bool,
) -> (res: Result<(), ManifestError>)
    ensures
        res is Ok <==> verify_ok_spec(expected.deep_view(), actual.deep_view(), relaxed),
        res matches Err(ManifestError::MissingEntry(p)) ==> entries_map(
            expected.deep_view(),
        ).dom().contains(p@) && !entries_map(actual.deep_view()).dom().contains(p@),
        res matches Err(ManifestError::Mismatch { path, expected: exs, actual: acs }) ==> {
            let em = entries_map(expected.deep_view());
            let am = entries_map(actual.deep_view());
            &&& em.dom().contains(path@)
            &&& am.dom().contains(path@)
            &&& !manifest_entry_matches(em[path@], am[path@])
            &&& exs@ == em[path@].sha256
            &&& acs@ == am[path@].sha256
        },
        res matches Err(ManifestError::UnexpectedEntry(p)) ==> !relaxed && entries_map(
            actual.deep_view(),
        ).dom().contains(p@) && !entries_map(expected.deep_view()).dom().contains(p@),
{
    match check_expected_entries(expected, actual) {
        Ok(()) => {},
        Err(err) => {
            return Err(err);
        },
    }
    if !relaxed {
        match check_no_unexpected_entries(expected, actual) {
            Ok(()) => {},
            Err(err) => {
                return Err(err);
            },
        }
    }
    Ok(())
}

/// Law: verifying any manifest set against itself succeeds in strict mode.
pub proof fn lemma_verify_reflexive(entries: Seq<ManifestEntryV>)
    ensures
        verify_ok_spec(entries, entries, false),
{
}

} // verus!
