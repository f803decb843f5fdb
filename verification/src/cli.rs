//! Resolution of command-line compression flags and resource-limit
//! overrides into library values.

use vstd::prelude::*;

use crate::compress::Compression;
use crate::policy::{PolicyLimits, SecurityPolicy, default_policy};

verus! {

/// Compression flags shared by multiple subcommands.
#[derive(Debug, Clone, Copy)]
pub struct CompressionFlags {
    pub gzip: bool,
    pub xz: bool,
    pub zstd: bool,
}

impl Default for CompressionFlags {
    fn default() -> (r: Self)
        ensures
            !r.gzip && !r.xz && !r.zstd,
    {
        CompressionFlags { gzip: false, xz: false, zstd: false }
    }
}

/// User-selected compression.
#[derive(Debug, Clone, Copy, PartialEq, Eq, Structural)]
pub enum CompressionChoice {
    Plain,
    Gzip,
    Xz,
    Zstd,
    /// Multiple flags set; let the library reconcile with defaults.
    Auto,
}

/// The choice that a flag combination resolves to.
pub open spec fn spec_resolve(gzip: bool, xz: bool, zstd: bool) -> CompressionChoice {
    if gzip && !xz && !zstd {
        CompressionChoice::Gzip
    } else if !gzip && xz && !zstd {
        CompressionChoice::Xz
    } else if !gzip && !xz && zstd {
        CompressionChoice::Zstd
    } else if !gzip && !xz && !zstd {
        CompressionChoice::Plain
    } else {
        CompressionChoice::Auto
    }
}

impl CompressionFlags {
    /// Resolve the desired compression scheme from CLI flags.
    #[must_use]
    pub fn resolve(self) -> (r: CompressionChoice)
        ensures
            r == spec_resolve(self.gzip, self.xz, self.zstd),
    {
        match (self.gzip, self.xz, self.zstd) {
            (true, false, false) => CompressionChoice::Gzip,
            (false, true, false) => CompressionChoice::Xz,
            (false, false, true) => CompressionChoice::Zstd,
            (false, false, false) => CompressionChoice::Plain,
            _ => CompressionChoice::Auto,
        }
    }
}

/// Resource limit overrides shared by create/extract.
#[derive(Debug, Clone, Copy)]
pub struct LimitArgs {
    /// Maximum number of filesystem entries processed.
    pub max_files: Option<u64>,
    /// Maximum total uncompressed bytes processed.
    pub max_total_bytes: Option<u64>,
    /// Maximum single file size allowed.
    pub max_single_file: Option<u64>,
    /// Maximum directory depth relative to the root.
    pub max_depth: Option<u32>,
}

impl Default for LimitArgs {
    fn default() -> (r: Self)
        ensures
            r.max_files is None,
            r.max_total_bytes is None,
            r.max_single_file is None,
            r.max_depth is None,
    {
        LimitArgs { max_files: None, max_total_bytes: None, max_single_file: None, max_depth: None }
    }
}

/// The codec the archive writer uses for a resolved choice; several flags at
/// once fall back to zstd.
pub open spec fn spec_choose_compression(c: CompressionChoice) -> Compression {
    match c {
        CompressionChoice::Plain => Compression::Plain,
        CompressionChoice::Gzip => Compression::Gzip,
        CompressionChoice::Xz => Compression::Xz,
        CompressionChoice::Zstd => Compression::Zstd,
        CompressionChoice::Auto => Compression::Zstd,
    }
}

/// Turn resolved CLI compression flags into the codec used by the writer.
pub fn choose_compression(flags: CompressionFlags) -> (r: Compression)
    ensures
        r == spec_choose_compression(spec_resolve(flags.gzip, flags.xz, flags.zstd)),
{
    match flags.resolve() {
        CompressionChoice::Plain => Compression::Plain,
        CompressionChoice::Gzip => Compression::Gzip,
        CompressionChoice::Xz => Compression::Xz,
        CompressionChoice::Zstd => Compression::Zstd,
        CompressionChoice::Auto => Compression::Zstd,
    }
}

/// The default policy with each supplied limit override applied.
pub fn base_policy(
    max_files: Option<u64>,
    max_total_bytes: Option<u64>,
    max_single_file: Option<u64>,
    max_depth: Option<u32>,
) -> (r: SecurityPolicy)
    ensures
        r.limits == (PolicyLimits {
            max_files: if max_files is Some {
                max_files->0
            } else {
                default_policy().limits.max_files
            },
            max_total_bytes: if max_total_bytes is Some {
                max_total_bytes->0
            } else {
                default_policy().limits.max_total_bytes
            },
            max_single_file: if max_single_file is Some {
                max_single_file->0
            } else {
                default_policy().limits.max_single_file
            },
            max_depth: if max_depth is Some {
                max_depth->0
            } else {
                default_policy().limits.max_depth
            },
        }),
        !r.allow_absolute,
        !r.allow_parent_components,
        !r.follow_symlinks,
        !r.allow_symlink_outside_root,
        !r.allow_hardlink_outside_root,
{
    SecurityPolicy::new().with_max_files(max_files).with_max_total_bytes(
        max_total_bytes,
    ).with_max_single_file(max_single_file).with_max_depth(max_depth)
}

} // verus!
