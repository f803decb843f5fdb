//! Compression codec selection: detection from leading magic bytes.

use vstd::prelude::*;

verus! {

/// Compression codecs supported by safetar.
#[derive(Debug, Clone, Copy, PartialEq, Eq, Structural)]
pub enum Compression {
    Plain,
    Gzip,
    Xz,
    Zstd,
}

/// Whether `p` is a prefix of `s`.
pub open spec fn bytes_prefix(p: Seq<u8>, s: Seq<u8>) -> bool {
    p.len() <= s.len() && s.subrange(0, p.len() as int) == p
}

/// The gzip magic bytes.
pub open spec fn gzip_magic() -> Seq<u8> {
    seq![0x1fu8, 0x8bu8]
}

/// The xz magic bytes.
pub open spec fn xz_magic() -> Seq<u8> {
    seq![0xfdu8, 0x37u8, 0x7au8, 0x58u8, 0x5au8, 0x00u8]
}

/// The zstd magic bytes.
pub open spec fn zstd_magic() -> Seq<u8> {
    seq![0x28u8, 0xb5u8, 0x2fu8, 0xfdu8]
}

/// The codec that a header announces.
pub open spec fn spec_detect(header: Seq<u8>) -> Compression {
    if bytes_prefix(gzip_magic(), header) {
        Compression::Gzip
    } else if bytes_prefix(xz_magic(), header) {
        Compression::Xz
    } else if bytes_prefix(zstd_magic(), header) {
        Compression::Zstd
    } else {
        Compression::Plain
    }
}

fn starts_with_bytes(header: &[u8], prefix: &[u8]) -> (r: bool)
    ensures
        r == bytes_prefix(prefix@, header@),
{
    if prefix.len() > header.len() {
        return false;
    }
    let n = prefix.len();
    let mut i: usize = 0;
    while i < n
        invariant
            n == prefix@.len(),
            n <= header@.len(),
            i <= n,
            forall|k: int| 0 <= k < i ==> header@[k] == prefix@[k],
        decreases n - i,
    {
        if header[i] != prefix[i] {
            proof {
                if bytes_prefix(prefix@, header@) {
                    assert(header@.subrange(0, n as int)[i as int] == prefix@[i as int]);
                }
            }
            return false;
        }
        i += 1;
    }
    proof {
        assert(header@.subrange(0, n as int) =~= prefix@);
    }
    true
}

impl Compression {
    /// Guess compression from header bytes.
    #[must_use]
    pub fn detect(header: &[u8]) -> (r: Self)
        ensures
            r == spec_detect(header@),
    {
        let gzip: [u8; 2] = [0x1f, 0x8b];
        let xz: [u8; 6] = [0xfd, 0x37, 0x7a, 0x58, 0x5a, 0x00];
        let zstd: [u8; 4] = [0x28, 0xb5, 0x2f, 0xfd];
        proof {
            assert(gzip@ =~= gzip_magic());
            assert(xz@ =~= xz_magic());
            assert(zstd@ =~= zstd_magic());
        }
        if starts_with_bytes(header, gzip.as_slice()) {
            Self::Gzip
        } else if starts_with_bytes(header, xz.as_slice()) {
            Self::Xz
        } else if starts_with_bytes(header, zstd.as_slice()) {
            Self::Zstd
        } else {
            Self::Plain
        }
    }
}

} // verus!
