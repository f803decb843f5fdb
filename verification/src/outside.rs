//! Contracts assumed about functions of other crates (and of std where vstd
//! gives none). Everything else in this library is verified against these.

use vstd::prelude::*;

verus! {

/// Relies on String::push: appends the given character to the end of the
/// string.
pub assume_specification[ String::push ](s: &mut String, ch: char)
    ensures
        final(s)@ == old(s)@.push(ch),
;

/// Append one character to a string (thin verified shim over `String::push`).
pub fn string_push(s: &mut String, ch: char)
    ensures
        final(s)@ == old(s)@.push(ch),
{
    s.push(ch);
}

/// The lowercase hex form of the SHA-256 digest of a byte sequence: a
/// function of the bytes alone.
pub uninterp spec fn sha256_hex_of(bytes: Seq<u8>) -> Seq<char>;

/// Relies on sha2's Sha256 (a 32-byte digest of the input bytes alone) and
/// hex::encode (two lowercase hex digits per byte), so the result has 64
/// characters.
#[verifier::external_body]
pub(crate) fn sha256_hex(bytes: &[u8]) -> (r: String)
    ensures
        r@ == sha256_hex_of(bytes@),
        r@.len() == 64,
{
    hex::encode(<sha2::Sha256 as sha2::Digest>::digest(bytes))
}

/// Whether every pattern in the list is a valid glob: a function of the
/// pattern strings alone.
pub uninterp spec fn glob_patterns_ok(patterns: Seq<Seq<char>>) -> bool;

/// Whether the glob set compiled from the patterns matches the path: a
/// function of the patterns and the path alone.
pub uninterp spec fn glob_set_matches(patterns: Seq<Seq<char>>, path: Seq<char>) -> bool;

/// Relies on globset's Glob::new: whether a pattern parses depends on the
/// pattern string alone.
#[verifier::external_body]
pub(crate) fn glob_patterns_valid(patterns: &Vec<String>) -> (r: bool)
    ensures
        r == glob_patterns_ok(patterns.deep_view()),
{
    for pattern in patterns {
        if globset::Glob::new(pattern).is_err() {
            return false;
        }
    }
    true
}

/// Relies on globset's GlobSetBuilder/GlobSet::is_match: the compiled set of
/// the given patterns matches or rejects a path as a function of the
/// patterns and the path alone.
#[verifier::external_body]
pub(crate) fn glob_set_is_match(patterns: &Vec<String>, path: &str) -> (r: bool)
    requires
        glob_patterns_ok(patterns.deep_view()),
    ensures
        r == glob_set_matches(patterns.deep_view(), path@),
{
    let mut builder = globset::GlobSetBuilder::new();
    for pattern in patterns {
        match globset::Glob::new(pattern) {
            Ok(glob) => {
                builder.add(glob);
            },
            Err(_) => return false,
        }
    }
    match builder.build() {
        Ok(set) => set.is_match(path),
        Err(_) => false,
    }
}

/// The UTF-8 encoding of a character sequence: a function of the characters
/// alone.
pub uninterp spec fn utf8_bytes(s: Seq<char>) -> Seq<u8>;

/// Relies on str::as_bytes: the UTF-8 encoding of the string's characters;
/// empty for the empty string.
#[verifier::external_body]
pub(crate) fn str_utf8_bytes(s: &str) -> (b: &[u8])
    ensures
        b@ == utf8_bytes(s@),
        s@.len() == 0 ==> b@ == Seq::<u8>::empty(),
{
    s.as_bytes()
}

} // verus!
