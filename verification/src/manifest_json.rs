//! The manifest file format: a pretty-printed JSON array of entries, two-
//! space indented, fields in a fixed order, strings escaped as JSON asks.
//! The writer emits exactly this canonical layout and the reader accepts it
//! back; writing and re-reading a manifest reproduces it exactly.

use vstd::prelude::*;

use crate::manifest::{ManifestEntry, ManifestEntryV, ManifestKind};

verus! {

/// The sixteen lowercase hex digits.
pub open spec fn hex_table() -> Seq<char> {
    seq!['0', '1', '2', '3', '4', '5', '6', '7', '8', '9', 'a', 'b', 'c', 'd', 'e', 'f']
}

/// The digit character for a value below sixteen.
pub open spec fn digit16(d: int) -> char {
    hex_table()[d]
}

/// The JSON escape of one character: quote and backslash escaped, the named
/// control escapes, and `\u00` hex escapes for the remaining control
/// characters; everything else stands for itself.
pub open spec fn esc_char(c: char) -> Seq<char> {
    if c == '"' {
        seq!['\\', '"']
    } else if c == '\\' {
        seq!['\\', '\\']
    } else if c == '\u{8}' {
        seq!['\\', 'b']
    } else if c == '\t' {
        seq!['\\', 't']
    } else if c == '\n' {
        seq!['\\', 'n']
    } else if c == '\u{c}' {
        seq!['\\', 'f']
    } else if c == '\r' {
        seq!['\\', 'r']
    } else if (c as u32) < 0x20 {
        seq!['\\', 'u', '0', '0', digit16((c as u32) as int / 16), digit16((c as u32) as int % 16)]
    } else {
        seq![c]
    }
}

/// The escaped form of a string's characters.
pub open spec fn esc_str(s: Seq<char>) -> Seq<char>
    decreases s.len(),
{
    if s.len() == 0 {
        seq![]
    } else {
        esc_char(s[0]) + esc_str(s.drop_first())
    }
}

/// A JSON string: the escaped characters between quotes.
pub open spec fn quoted(s: Seq<char>) -> Seq<char> {
    seq!['"'] + esc_str(s) + seq!['"']
}

/// The decimal digits of a nonnegative number.
pub open spec fn dec_digits(n: int) -> Seq<char>
    decreases n,
{
    if n < 10 {
        seq![digit16(if n < 0 {
            0
        } else {
            n
        })]
    } else {
        dec_digits(n / 10).push(digit16(n % 10))
    }
}

/// The name of a manifest kind.
pub open spec fn kind_name(k: ManifestKind) -> Seq<char> {
    match k {
        ManifestKind::File => seq!['F', 'i', 'l', 'e'],
        ManifestKind::Directory => seq!['D', 'i', 'r', 'e', 'c', 't', 'o', 'r', 'y'],
        ManifestKind::Symlink => seq!['S', 'y', 'm', 'l', 'i', 'n', 'k'],
    }
}

/// `null`.
pub open spec fn l_null() -> Seq<char> {
    seq!['n', 'u', 'l', 'l']
}

/// The text before the first entry.
pub open spec fn l_open() -> Seq<char> {
    seq!['[', '\n']
}

/// The text after the last entry.
pub open spec fn l_close() -> Seq<char> {
    seq!['\n', ']']
}

/// The separator between entries.
pub open spec fn l_sep() -> Seq<char> {
    seq![',', '\n']
}

/// The opening of an entry object up to the `path` value.
pub open spec fn l_entry_open() -> Seq<char> {
    seq![' ', ' ', '{', '\n', ' ', ' ', ' ', ' ', '"', 'p', 'a', 't', 'h', '"', ':', ' ']
}

/// Between the `path` value and the `size` value.
pub open spec fn l_size() -> Seq<char> {
    seq![',', '\n', ' ', ' ', ' ', ' ', '"', 's', 'i', 'z', 'e', '"', ':', ' ']
}

/// Between the `size` value and the `sha256` value.
pub open spec fn l_sha() -> Seq<char> {
    seq![',', '\n', ' ', ' ', ' ', ' ', '"', 's', 'h', 'a', '2', '5', '6', '"', ':', ' ']
}

/// Between the `sha256` value and the `kind` value.
pub open spec fn l_kind() -> Seq<char> {
    seq![',', '\n', ' ', ' ', ' ', ' ', '"', 'k', 'i', 'n', 'd', '"', ':', ' ']
}

/// Between the `kind` value and the `target` value.
pub open spec fn l_target() -> Seq<char> {
    seq![',', '\n', ' ', ' ', ' ', ' ', '"', 't', 'a', 'r', 'g', 'e', 't', '"', ':', ' ']
}

/// Between the `target` value and the `mtime` value.
pub open spec fn l_mtime() -> Seq<char> {
    seq![',', '\n', ' ', ' ', ' ', ' ', '"', 'm', 't', 'i', 'm', 'e', '"', ':', ' ']
}

/// The closing of an entry object.
pub open spec fn l_entry_close() -> Seq<char> {
    seq!['\n', ' ', ' ', '}']
}

/// An optional string value: `null` or a JSON string.
pub open spec fn render_opt_str(o: Option<Seq<char>>) -> Seq<char> {
    match o {
        Option::Some(s) => quoted(s),
        Option::None => l_null(),
    }
}

/// An optional number value: `null` or decimal digits.
pub open spec fn render_opt_num(o: Option<u64>) -> Seq<char> {
    match o {
        Option::Some(n) => dec_digits(n as int),
        Option::None => l_null(),
    }
}

/// One rendered entry object.
pub open spec fn render_entry(e: ManifestEntryV) -> Seq<char> {
    l_entry_open() + quoted(e.path) + l_size() + dec_digits(e.size as int) + l_sha() + quoted(
        e.sha256,
    ) + l_kind() + quoted(kind_name(e.kind)) + l_target() + render_opt_str(e.target) + l_mtime()
        + render_opt_num(e.mtime) + l_entry_close()
}

/// The rendered text after one entry: the next entries, then the closing.
pub open spec fn render_rest(es: Seq<ManifestEntryV>) -> Seq<char>
    decreases es.len(),
{
    if es.len() == 0 {
        l_close()
    } else {
        l_sep() + render_entry(es[0]) + render_rest(es.drop_first())
    }
}

/// The canonical manifest text of an entry list.
pub open spec fn spec_render_manifest(es: Seq<ManifestEntryV>) -> Seq<char> {
    if es.len() == 0 {
        seq!['[', ']']
    } else {
        l_open() + render_entry(es[0]) + render_rest(es.drop_first())
    }
}

fn hex_char(d: u32) -> (c: char)
    requires
        d < 16,
    ensures
        c == digit16(d as int),
{
    match d {
        0 => '0',
        1 => '1',
        2 => '2',
        3 => '3',
        4 => '4',
        5 => '5',
        6 => '6',
        7 => '7',
        8 => '8',
        9 => '9',
        10 => 'a',
        11 => 'b',
        12 => 'c',
        13 => 'd',
        14 => 'e',
        _ => 'f',
    }
}

fn push_escaped(out: &mut String, s: &str)
    ensures
        final(out)@ == old(out)@ + quoted(s@),
{
    crate::outside::string_push(out, '"');
    let ghost base = out@;
    let chars = crate::pathlex::chars_of(s);
    let n = chars.len();
    let mut i: usize = 0;
    proof {
        assert(s@.skip(0) =~= s@);
    }
    while i < n
        invariant
            n == s@.len(),
            chars@ == s@,
            i <= n,
            out@ + esc_str(s@.skip(i as int)) == base + esc_str(s@),
        decreases n - i,
    {
        let ghost pre = out@;
        proof {
            assert(s@.skip(i as int).len() == n - i);
            assert(s@.skip(i as int)[0] == s@[i as int]);
            assert(s@.skip(i as int).drop_first() =~= s@.skip(i + 1));
        }
        let c = chars[i];
        if c == '"' {
            crate::outside::string_push(out, '\\');
            crate::outside::string_push(out, '"');
            proof {
                assert(out@ =~= pre + esc_char(c));
            }
        } else if c == '\\' {
            crate::outside::string_push(out, '\\');
            crate::outside::string_push(out, '\\');
            proof {
                assert(out@ =~= pre + esc_char(c));
            }
        } else if c == '\u{8}' {
            crate::outside::string_push(out, '\\');
            crate::outside::string_push(out, 'b');
            proof {
                assert(out@ =~= pre + esc_char(c));
            }
        } else if c == '\t' {
            crate::outside::string_push(out, '\\');
            crate::outside::string_push(out, 't');
            proof {
                assert(out@ =~= pre + esc_char(c));
            }
        } else if c == '\n' {
            crate::outside::string_push(out, '\\');
            crate::outside::string_push(out, 'n');
            proof {
                assert(out@ =~= pre + esc_char(c));
            }
        } else if c == '\u{c}' {
            crate::outside::string_push(out, '\\');
            crate::outside::string_push(out, 'f');
            proof {
                assert(out@ =~= pre + esc_char(c));
            }
        } else if c == '\r' {
            crate::outside::string_push(out, '\\');
            crate::outside::string_push(out, 'r');
            proof {
                assert(out@ =~= pre + esc_char(c));
            }
        } else if (c as u32) < 0x20 {
            let code = c as u32;
            crate::outside::string_push(out, '\\');
            crate::outside::string_push(out, 'u');
            crate::outside::string_push(out, '0');
            crate::outside::string_push(out, '0');
            crate::outside::string_push(out, hex_char(code / 16));
            crate::outside::string_push(out, hex_char(code % 16));
            proof {
                assert(out@ =~= pre + esc_char(c));
            }
        } else {
            crate::outside::string_push(out, c);
            proof {
                assert(out@ =~= pre + esc_char(c));
            }
        }
        proof {
            assert(pre + (esc_char(c) + esc_str(s@.skip(i + 1))) =~= out@ + esc_str(
                s@.skip(i + 1),
            ));
        }
        i += 1;
    }
    proof {
        assert(esc_str(s@.skip(n as int)) =~= Seq::<char>::empty());
        assert(out@ =~= base + esc_str(s@));
    }
    crate::outside::string_push(out, '"');
    proof {
        assert(out@ =~= old(out)@ + quoted(s@));
    }
}

fn push_u64(out: &mut String, n: u64)
    ensures
        final(out)@ == old(out)@ + dec_digits(n as int),
    decreases n,
{
    if n < 10 {
        crate::outside::string_push(out, hex_char((n % 16) as u32));
        proof {
            assert(n % 16 == n as int);
            assert(out@ =~= old(out)@ + dec_digits(n as int));
        }
    } else {
        push_u64(out, n / 10);
        crate::outside::string_push(out, hex_char((n % 10) as u32));
        proof {
            assert((n % 10) as u32 as int == n as int % 10);
            assert(out@ =~= old(out)@ + dec_digits(n as int));
        }
    }
}

#[verifier::rlimit(100)]
fn push_entry(out: &mut String, e: &ManifestEntry)
    ensures
        final(out)@ == old(out)@ + render_entry(e.deep_view()),
{
    out.append("  {\n    \"path\": ");
    proof {
        reveal_strlit("  {\n    \"path\": ");
        assert("  {\n    \"path\": "@ =~= l_entry_open());
    }
    push_escaped(out, e.path.as_str());
    out.append(",\n    \"size\": ");
    proof {
        reveal_strlit(",\n    \"size\": ");
        assert(",\n    \"size\": "@ =~= l_size());
    }
    push_u64(out, e.size);
    out.append(",\n    \"sha256\": ");
    proof {
        reveal_strlit(",\n    \"sha256\": ");
        assert(",\n    \"sha256\": "@ =~= l_sha());
    }
    push_escaped(out, e.sha256.as_str());
    out.append(",\n    \"kind\": ");
    proof {
        reveal_strlit(",\n    \"kind\": ");
        assert(",\n    \"kind\": "@ =~= l_kind());
    }
    match e.kind {
        ManifestKind::File => {
            out.append("\"File\"");
            proof {
                reveal_strlit("\"File\"");
                reveal_strlit("File");
                assert("\"File\""@ =~= quoted(kind_name(ManifestKind::File))) by {
                    assert(esc_str(kind_name(ManifestKind::File)) =~= kind_name(
                        ManifestKind::File,
                    )) by {
                        lemma_esc_plain(kind_name(ManifestKind::File));
                    }
                }
            }
        },
        ManifestKind::Directory => {
            out.append("\"Directory\"");
            proof {
                reveal_strlit("\"Directory\"");
                assert("\"Directory\""@ =~= quoted(kind_name(ManifestKind::Directory))) by {
                    assert(esc_str(kind_name(ManifestKind::Directory)) =~= kind_name(
                        ManifestKind::Directory,
                    )) by {
                        lemma_esc_plain(kind_name(ManifestKind::Directory));
                    }
                }
            }
        },
        ManifestKind::Symlink => {
            out.append("\"Symlink\"");
            proof {
                reveal_strlit("\"Symlink\"");
                assert("\"Symlink\""@ =~= quoted(kind_name(ManifestKind::Symlink))) by {
                    assert(esc_str(kind_name(ManifestKind::Symlink)) =~= kind_name(
                        ManifestKind::Symlink,
                    )) by {
                        lemma_esc_plain(kind_name(ManifestKind::Symlink));
                    }
                }
            }
        },
    }
    out.append(",\n    \"target\": ");
    proof {
        reveal_strlit(",\n    \"target\": ");
        assert(",\n    \"target\": "@ =~= l_target());
    }
    match &e.target {
        Some(t) => {
            push_escaped(out, t.as_str());
        },
        None => {
            out.append("null");
            proof {
                reveal_strlit("null");
                assert("null"@ =~= l_null());
            }
        },
    }
    out.append(",\n    \"mtime\": ");
    proof {
        reveal_strlit(",\n    \"mtime\": ");
        assert(",\n    \"mtime\": "@ =~= l_mtime());
    }
    match e.mtime {
        Some(n) => {
            push_u64(out, n);
        },
        None => {
            out.append("null");
            proof {
                reveal_strlit("null");
                assert("null"@ =~= l_null());
            }
        },
    }
    out.append("\n  }");
    proof {
        reveal_strlit("\n  }");
        assert("\n  }"@ =~= l_entry_close());
        assert(out@ =~= old(out)@ + render_entry(e.deep_view()));
    }
}

/// A sequence of characters that escape to themselves: no quote, no
/// backslash, no control character.
pub open spec fn plain_chars(s: Seq<char>) -> bool {
    forall|i: int|
        0 <= i < s.len() ==> (#[trigger] s[i]) != '"' && s[i] != '\\' && (s[i] as u32) >= 0x20
}

/// Escaping leaves a plain sequence unchanged.
pub proof fn lemma_esc_plain(s: Seq<char>)
    requires
        plain_chars(s),
    ensures
        esc_str(s) == s,
    decreases s.len(),
{
    if s.len() > 0 {
        assert(esc_char(s[0]) =~= seq![s[0]]);
        assert(plain_chars(s.drop_first())) by {
            assert(forall|i: int|
                0 <= i < s.drop_first().len() ==> #[trigger] s.drop_first()[i] == s[i + 1]);
        }
        lemma_esc_plain(s.drop_first());
        assert(esc_str(s) =~= s);
    }
}

/// Render the manifest entries as canonical pretty-printed JSON.
#[verifier::loop_isolation(false)]
pub fn render_manifest_json(entries: &Vec<ManifestEntry>) -> (r: String)
    ensures
        r@ == spec_render_manifest(entries.deep_view()),
{
    let n = entries.len();
    let mut out = String::new();
    if n == 0 {
        out.append("[]");
        proof {
            reveal_strlit("[]");
            assert(out@ =~= spec_render_manifest(entries.deep_view()));
        }
        return out;
    }
    out.append("[\n");
    proof {
        reveal_strlit("[\n");
        assert("[\n"@ =~= l_open());
    }
    push_entry(&mut out, &entries[0]);
    let ghost dv = entries.deep_view();
    let mut i: usize = 1;
    proof {
        assert(out@ =~= l_open() + render_entry(dv[0]));
        assert(spec_render_manifest(dv) == out@ + render_rest(dv.skip(1)));
    }
    while i < n
        invariant
            1 <= i <= n,
            spec_render_manifest(dv) == out@ + render_rest(dv.skip(i as int)),
        decreases n - i,
    {
        let ghost rest = dv.skip(i as int);
        proof {
            assert(rest.len() == n - i);
            assert(rest[0] == dv[i as int]);
            assert(rest.drop_first() =~= dv.skip(i + 1));
        }
        out.append(",\n");
        proof {
            reveal_strlit(",\n");
            assert(",\n"@ =~= l_sep());
        }
        push_entry(&mut out, &entries[i]);
        proof {
            assert(out@ + render_rest(dv.skip(i + 1)) =~= spec_render_manifest(dv));
        }
        i += 1;
    }
    proof {
        assert(dv.skip(n as int).len() == 0);
        assert(out@ + l_close() =~= spec_render_manifest(dv));
    }
    out.append("\n]");
    proof {
        reveal_strlit("\n]");
        assert("\n]"@ =~= l_close());
        assert(out@ =~= spec_render_manifest(dv));
    }
    out
}

/// Expecting a fixed literal at `i`.
pub open spec fn sp_lit(s: Seq<char>, i: int, lit: Seq<char>) -> Option<int> {
    if 0 <= i && i + lit.len() <= s.len() && s.subrange(i, i + lit.len() as int) == lit {
        Option::Some(i + lit.len() as int)
    } else {
        Option::None
    }
}

pub open spec fn is_digit(c: char) -> bool {
    '0' <= c && c <= '9'
}

pub open spec fn digit_val(c: char) -> int {
    c as u32 - 48
}

/// The end of the digit run starting at `i`.
pub open spec fn run_end(s: Seq<char>, i: int) -> int
    decreases s.len() - i,
{
    if 0 <= i && i < s.len() && is_digit(s[i]) {
        run_end(s, i + 1)
    } else {
        i
    }
}

/// The value of a digit sequence.
pub open spec fn digits_val(ds: Seq<char>) -> int
    decreases ds.len(),
{
    if ds.len() == 0 {
        0
    } else {
        digits_val(ds.drop_last()) * 10 + digit_val(ds.last())
    }
}

/// Parsing a decimal number that must fit in a u64.
pub open spec fn sp_u64(s: Seq<char>, i: int) -> Option<(u64, int)> {
    if 0 <= i && i < s.len() && is_digit(s[i]) {
        let j = run_end(s, i);
        let v = digits_val(s.subrange(i, j));
        if v <= u64::MAX {
            Option::Some((v as u64, j))
        } else {
            Option::None
        }
    } else {
        Option::None
    }
}

/// The value of a hex digit, or a negative number for other characters.
pub open spec fn hex_val(c: char) -> int {
    if '0' <= c && c <= '9' {
        c as u32 - 48
    } else if 'a' <= c && c <= 'f' {
        c as u32 - 87
    } else if 'A' <= c && c <= 'F' {
        c as u32 - 55
    } else {
        -1
    }
}

/// The character of a small code point.
pub open spec fn code_char(code: int) -> char {
    (code as u8) as char
}

/// Parsing the body of a JSON string after the opening quote. The reader
/// takes the standard two-character escapes and `\u00` escapes of control
/// characters, the forms the canonical writer emits (plus `\/`).
pub open spec fn sp_str_body(s: Seq<char>, i: int, acc: Seq<char>) -> Option<(Seq<char>, int)>
    decreases s.len() - i,
{
    if i < 0 || i >= s.len() {
        Option::None
    } else if s[i] == '"' {
        Option::Some((acc, i + 1))
    } else if s[i] == '\\' {
        if i + 1 >= s.len() {
            Option::None
        } else {
            let c = s[i + 1];
            if c == '"' {
                sp_str_body(s, i + 2, acc.push('"'))
            } else if c == '\\' {
                sp_str_body(s, i + 2, acc.push('\\'))
            } else if c == '/' {
                sp_str_body(s, i + 2, acc.push('/'))
            } else if c == 'b' {
                sp_str_body(s, i + 2, acc.push('\u{8}'))
            } else if c == 't' {
                sp_str_body(s, i + 2, acc.push('\t'))
            } else if c == 'n' {
                sp_str_body(s, i + 2, acc.push('\n'))
            } else if c == 'f' {
                sp_str_body(s, i + 2, acc.push('\u{c}'))
            } else if c == 'r' {
                sp_str_body(s, i + 2, acc.push('\r'))
            } else if c == 'u' {
                if i + 6 <= s.len() && s[i + 2] == '0' && s[i + 3] == '0' && hex_val(s[i + 4]) >= 0
                    && hex_val(s[i + 5]) >= 0 && hex_val(s[i + 4]) * 16 + hex_val(s[i + 5])
                    < 0x20 {
                    sp_str_body(
                        s,
                        i + 6,
                        acc.push(code_char(hex_val(s[i + 4]) * 16 + hex_val(s[i + 5]))),
                    )
                } else {
                    Option::None
                }
            } else {
                Option::None
            }
        }
    } else {
        sp_str_body(s, i + 1, acc.push(s[i]))
    }
}

/// Parsing a JSON string.
pub open spec fn sp_string(s: Seq<char>, i: int) -> Option<(Seq<char>, int)> {
    if 0 <= i && i < s.len() && s[i] == '"' {
        sp_str_body(s, i + 1, seq![])
    } else {
        Option::None
    }
}

/// Parsing `null` or a JSON string.
pub open spec fn sp_opt_str(s: Seq<char>, i: int) -> Option<(Option<Seq<char>>, int)> {
    match sp_lit(s, i, l_null()) {
        Option::Some(j) => Option::Some((Option::None, j)),
        Option::None => match sp_string(s, i) {
            Option::Some((t, j)) => Option::Some((Option::Some(t), j)),
            Option::None => Option::None,
        },
    }
}

/// Parsing `null` or a decimal number.
pub open spec fn sp_opt_num(s: Seq<char>, i: int) -> Option<(Option<u64>, int)> {
    match sp_lit(s, i, l_null()) {
        Option::Some(j) => Option::Some((Option::None, j)),
        Option::None => match sp_u64(s, i) {
            Option::Some((n, j)) => Option::Some((Option::Some(n), j)),
            Option::None => Option::None,
        },
    }
}

/// The quoted kind names.
pub open spec fn l_qfile() -> Seq<char> {
    seq!['"', 'F', 'i', 'l', 'e', '"']
}

pub open spec fn l_qdirectory() -> Seq<char> {
    seq!['"', 'D', 'i', 'r', 'e', 'c', 't', 'o', 'r', 'y', '"']
}

pub open spec fn l_qsymlink() -> Seq<char> {
    seq!['"', 'S', 'y', 'm', 'l', 'i', 'n', 'k', '"']
}

/// Parsing a kind value.
pub open spec fn sp_kind(s: Seq<char>, i: int) -> Option<(ManifestKind, int)> {
    match sp_lit(s, i, l_qfile()) {
        Option::Some(j) => Option::Some((ManifestKind::File, j)),
        Option::None => match sp_lit(s, i, l_qdirectory()) {
            Option::Some(j) => Option::Some((ManifestKind::Directory, j)),
            Option::None => match sp_lit(s, i, l_qsymlink()) {
                Option::Some(j) => Option::Some((ManifestKind::Symlink, j)),
                Option::None => Option::None,
            },
        },
    }
}

/// Parsing one entry object.
#[verifier::opaque]
pub open spec fn sp_entry(s: Seq<char>, i: int) -> Option<(ManifestEntryV, int)> {
    match sp_lit(s, i, l_entry_open()) {
        Option::None => Option::None,
        Option::Some(i1) => match sp_string(s, i1) {
            Option::None => Option::None,
            Option::Some((path, i2)) => match sp_lit(s, i2, l_size()) {
                Option::None => Option::None,
                Option::Some(i3) => match sp_u64(s, i3) {
                    Option::None => Option::None,
                    Option::Some((size, i4)) => match sp_lit(s, i4, l_sha()) {
                        Option::None => Option::None,
                        Option::Some(i5) => match sp_string(s, i5) {
                            Option::None => Option::None,
                            Option::Some((sha, i6)) => match sp_lit(s, i6, l_kind()) {
                                Option::None => Option::None,
                                Option::Some(i7) => match sp_kind(s, i7) {
                                    Option::None => Option::None,
                                    Option::Some((kind, i8)) => match sp_lit(s, i8, l_target()) {
                                        Option::None => Option::None,
                                        Option::Some(i9) => match sp_opt_str(s, i9) {
                                            Option::None => Option::None,
                                            Option::Some((target, i10)) => match sp_lit(
                                                s,
                                                i10,
                                                l_mtime(),
                                            ) {
                                                Option::None => Option::None,
                                                Option::Some(i11) => match sp_opt_num(s, i11) {
                                                    Option::None => Option::None,
                                                    Option::Some((mtime, i12)) => match sp_lit(
                                                        s,
                                                        i12,
                                                        l_entry_close(),
                                                    ) {
                                                        Option::None => Option::None,
                                                        Option::Some(i13) => Option::Some(
                                                            (
                                                                ManifestEntryV {
                                                                    path,
                                                                    size,
                                                                    sha256: sha,
                                                                    kind,
                                                                    target,
                                                                    mtime,
                                                                },
                                                                i13,
                                                            ),
                                                        ),
                                                    },
                                                },
                                            },
                                        },
                                    },
                                },
                            },
                        },
                    },
                },
            },
        },
    }
}

/// Parsing the entries from the first one to the closing bracket, which
/// must end the text.
pub open spec fn sp_entries(s: Seq<char>, i: int) -> Option<(Seq<ManifestEntryV>, int)>
    decreases s.len() - i,
{
    if i < 0 {
        Option::None
    } else {
        match sp_entry(s, i) {
            Option::None => Option::None,
            Option::Some((e, j)) => if j <= i || j > s.len() {
                Option::None
            } else {
                match sp_lit(s, j, l_sep()) {
                    Option::Some(k) => if k <= j || k > s.len() {
                        Option::None
                    } else {
                        match sp_entries(s, k) {
                            Option::Some((rest, m)) => Option::Some((seq![e] + rest, m)),
                            Option::None => Option::None,
                        }
                    },
                    Option::None => match sp_lit(s, j, l_close()) {
                        Option::Some(k) => if k == s.len() {
                            Option::Some((seq![e], k))
                        } else {
                            Option::None
                        },
                        Option::None => Option::None,
                    },
                }
            },
        }
    }
}

#[verifier::loop_isolation(false)]
fn match_lit(s: &Vec<char>, i: usize, lit: &Vec<char>) -> (r: Option<usize>)
    ensures
        match r {
            Some(j) => sp_lit(s@, i as int, lit@) == Option::Some(j as int) && i <= j <= s@.len(),
            None => sp_lit(s@, i as int, lit@) is None,
        },
{
    let n = lit.len();
    if i > s.len() || n > s.len() - i {
        return None;
    }
    let mut k: usize = 0;
    while k < n
        invariant
            n == lit@.len(),
            i + n <= s@.len(),
            k <= n,
            forall|t: int| 0 <= t < k ==> s@[i + t] == lit@[t],
        decreases n - k,
    {
        if s[i + k] != lit[k] {
            proof {
                if s@.subrange(i as int, i + n as int) == lit@ {
                    assert(s@.subrange(i as int, i + n as int)[k as int] == lit@[k as int]);
                }
            }
            return None;
        }
        k += 1;
    }
    proof {
        assert(s@.subrange(i as int, i + n as int) =~= lit@);
    }
    Some(i + n)
}

fn hex_digit_val(c: char) -> (r: Option<u32>)
    ensures
        match r {
            Some(v) => hex_val(c) == v && v < 16,
            None => hex_val(c) < 0,
        },
{
    if c >= '0' && c <= '9' {
        Some(c as u32 - 48)
    } else if c >= 'a' && c <= 'f' {
        Some(c as u32 - 87)
    } else if c >= 'A' && c <= 'F' {
        Some(c as u32 - 55)
    } else {
        None
    }
}

#[verifier::loop_isolation(false)]
#[verifier::rlimit(60)]
fn p_string(s: &Vec<char>, i: usize) -> (r: Option<(String, usize)>)
    ensures
        match r {
            Some((t, j)) => sp_string(s@, i as int) == Option::Some((t@, j as int)) && i < j
                <= s@.len(),
            None => sp_string(s@, i as int) is None,
        },
{
    let n = s.len();
    if i >= n || s[i] != '"' {
        return None;
    }
    let mut acc = String::new();
    let mut cur: usize = i + 1;
    while cur < n
        invariant
            i < cur,
            cur <= n,
            sp_string(s@, i as int) == sp_str_body(s@, cur as int, acc@),
        decreases n - cur,
    {
        let c = s[cur];
        if c == '"' {
            return Some((acc, cur + 1));
        }
        if c == '\\' {
            if cur + 1 >= n {
                return None;
            }
            let e = s[cur + 1];
            if e == '"' {
                crate::outside::string_push(&mut acc, '"');
                cur = cur + 2;
            } else if e == '\\' {
                crate::outside::string_push(&mut acc, '\\');
                cur = cur + 2;
            } else if e == '/' {
                crate::outside::string_push(&mut acc, '/');
                cur = cur + 2;
            } else if e == 'b' {
                crate::outside::string_push(&mut acc, '\u{8}');
                cur = cur + 2;
            } else if e == 't' {
                crate::outside::string_push(&mut acc, '\t');
                cur = cur + 2;
            } else if e == 'n' {
                crate::outside::string_push(&mut acc, '\n');
                cur = cur + 2;
            } else if e == 'f' {
                crate::outside::string_push(&mut acc, '\u{c}');
                cur = cur + 2;
            } else if e == 'r' {
                crate::outside::string_push(&mut acc, '\r');
                cur = cur + 2;
            } else if e == 'u' {
                if n - cur < 6 {
                    return None;
                }
                if s[cur + 2] != '0' || s[cur + 3] != '0' {
                    return None;
                }
                let h1 = match hex_digit_val(s[cur + 4]) {
                    Some(v) => v,
                    None => {
                        return None;
                    },
                };
                let h2 = match hex_digit_val(s[cur + 5]) {
                    Some(v) => v,
                    None => {
                        return None;
                    },
                };
                let code = h1 * 16 + h2;
                if code >= 0x20 {
                    return None;
                }
                crate::outside::string_push(&mut acc, (code as u8) as char);
                proof {
                    assert((code as u8) as char == code_char(
                        hex_val(s@[cur + 4]) * 16 + hex_val(s@[cur + 5]),
                    ));
                }
                cur = cur + 6;
            } else {
                return None;
            }
        } else {
            crate::outside::string_push(&mut acc, c);
            cur = cur + 1;
        }
    }
    None
}

#[verifier::loop_isolation(false)]
fn p_u64(s: &Vec<char>, i: usize) -> (r: Option<(u64, usize)>)
    ensures
        match r {
            Some((v, j)) => sp_u64(s@, i as int) == Option::Some((v, j as int)) && i < j
                <= s@.len(),
            None => sp_u64(s@, i as int) is None,
        },
{
    let n = s.len();
    if i >= n || !(s[i] >= '0' && s[i] <= '9') {
        return None;
    }
    let mut acc: u64 = 0;
    let mut cur: usize = i;
    proof {
        assert(s@.subrange(i as int, i as int) =~= Seq::<char>::empty());
    }
    while cur < n && s[cur] >= '0' && s[cur] <= '9'
        invariant
            i <= cur <= n,
            run_end(s@, i as int) == run_end(s@, cur as int),
            forall|t: int| i <= t < cur ==> is_digit(#[trigger] s@[t]),
            acc == digits_val(s@.subrange(i as int, cur as int)),
        decreases n - cur,
    {
        let d: u64 = (s[cur] as u32 - 48) as u64;
        let next = match acc.checked_mul(10) {
            Some(m) => m.checked_add(d),
            None => None,
        };
        proof {
            lemma_run_end_props(s@, cur + 1);
            lemma_run_end_props(s@, i as int);
            assert(run_end(s@, cur as int) == run_end(s@, cur + 1));
            assert(run_end(s@, i as int) >= cur + 1);
            let ds = s@.subrange(i as int, run_end(s@, i as int));
            let k = cur - i as int;
            assert forall|t: int| 0 <= t < ds.len() implies is_digit(#[trigger] ds[t]) by {
                assert(ds[t] == s@[i + t]);
            }
            lemma_digits_val_mono(ds, k + 1);
            assert(ds.take(k + 1).drop_last() =~= s@.subrange(i as int, cur as int));
            assert(ds.take(k + 1).last() == s@[cur as int]);
            assert(digits_val(ds.take(k + 1)) == acc * 10 + d);
        }
        acc = match next {
            Some(v) => v,
            None => {
                return None;
            },
        };
        proof {
            assert(s@.subrange(i as int, cur + 1).drop_last() =~= s@.subrange(
                i as int,
                cur as int,
            ));
            assert(s@.subrange(i as int, cur + 1).last() == s@[cur as int]);
        }
        cur += 1;
    }
    proof {
        assert(run_end(s@, cur as int) == cur);
        assert(s@.subrange(i as int, cur as int) == s@.subrange(
            i as int,
            run_end(s@, i as int),
        ));
    }
    Some((acc, cur))
}

/// The digit run starting at `x` stays in bounds and holds only digits.
proof fn lemma_run_end_props(s: Seq<char>, x: int)
    requires
        0 <= x <= s.len(),
    ensures
        x <= run_end(s, x) <= s.len(),
        forall|t: int| x <= t < run_end(s, x) ==> is_digit(#[trigger] s[t]),
    decreases s.len() - x,
{
    if x < s.len() && is_digit(s[x]) {
        lemma_run_end_props(s, x + 1);
    }
}

/// The digit-run value only grows as the run extends, and is nonnegative.
proof fn lemma_digits_val_mono(ds: Seq<char>, k: int)
    requires
        0 <= k <= ds.len(),
        forall|t: int| 0 <= t < ds.len() ==> is_digit(#[trigger] ds[t]),
    ensures
        digits_val(ds) >= digits_val(ds.take(k)),
        digits_val(ds.take(k)) >= 0,
    decreases ds.len(),
{
    if ds.len() == 0 {
        assert(ds.take(k) =~= ds);
    } else if k == ds.len() {
        assert(ds.take(k) =~= ds);
        lemma_digits_val_mono(ds.drop_last(), ds.len() - 1);
        assert(ds.drop_last().take(ds.len() - 1) =~= ds.drop_last());
        assert(digits_val(ds.drop_last()) >= 0);
        assert(digits_val(ds) == digits_val(ds.drop_last()) * 10 + digit_val(ds.last()));
        assert(digit_val(ds.last()) >= 0);
    } else {
        lemma_digits_val_mono(ds.drop_last(), k);
        assert(ds.drop_last().take(k) =~= ds.take(k));
        assert(digits_val(ds) == digits_val(ds.drop_last()) * 10 + digit_val(ds.last()));
        assert(digit_val(ds.last()) >= 0);
        lemma_digits_val_mono(ds.drop_last(), ds.len() - 1);
        assert(ds.drop_last().take(ds.len() - 1) =~= ds.drop_last());
        assert(digits_val(ds.drop_last()) >= 0);
    }
}

fn lit_null() -> (r: Vec<char>)
    ensures
        r@ == l_null(),
{
    let lit = crate::pathlex::chars_of("null");
    proof {
        reveal_strlit("null");
        assert(lit@ =~= l_null());
    }
    lit
}

fn p_opt_str(s: &Vec<char>, i: usize) -> (r: Option<(Option<String>, usize)>)
    ensures
        match r {
            Some((t, j)) => sp_opt_str(s@, i as int) == Option::Some(
                (
                    match t {
                        Option::Some(x) => Option::Some(x@),
                        Option::None => Option::None,
                    },
                    j as int,
                ),
            ) && i <= j <= s@.len(),
            None => sp_opt_str(s@, i as int) is None,
        },
{
    let nl = lit_null();
    match match_lit(s, i, &nl) {
        Some(j) => Some((None, j)),
        None => match p_string(s, i) {
            Some((t, j)) => Some((Some(t), j)),
            None => None,
        },
    }
}

fn p_opt_num(s: &Vec<char>, i: usize) -> (r: Option<(Option<u64>, usize)>)
    ensures
        match r {
            Some((t, j)) => sp_opt_num(s@, i as int) == Option::Some((t, j as int)) && i <= j
                <= s@.len(),
            None => sp_opt_num(s@, i as int) is None,
        },
{
    let nl = lit_null();
    match match_lit(s, i, &nl) {
        Some(j) => Some((None, j)),
        None => match p_u64(s, i) {
            Some((v, j)) => Some((Some(v), j)),
            None => None,
        },
    }
}

fn p_kind(s: &Vec<char>, i: usize) -> (r: Option<(ManifestKind, usize)>)
    ensures
        match r {
            Some((k, j)) => sp_kind(s@, i as int) == Option::Some((k, j as int)) && i <= j
                <= s@.len(),
            None => sp_kind(s@, i as int) is None,
        },
{
    let qf = crate::pathlex::chars_of("\"File\"");
    let qd = crate::pathlex::chars_of("\"Directory\"");
    let qs = crate::pathlex::chars_of("\"Symlink\"");
    proof {
        reveal_strlit("\"File\"");
        reveal_strlit("\"Directory\"");
        reveal_strlit("\"Symlink\"");
        assert(qf@ =~= l_qfile());
        assert(qd@ =~= l_qdirectory());
        assert(qs@ =~= l_qsymlink());
    }
    match match_lit(s, i, &qf) {
        Some(j) => Some((ManifestKind::File, j)),
        None => match match_lit(s, i, &qd) {
            Some(j) => Some((ManifestKind::Directory, j)),
            None => match match_lit(s, i, &qs) {
                Some(j) => Some((ManifestKind::Symlink, j)),
                None => None,
            },
        },
    }
}

#[verifier::rlimit(100)]
fn p_entry(s: &Vec<char>, i: usize) -> (r: Option<(ManifestEntry, usize)>)
    ensures
        match r {
            Some((e, j)) => sp_entry(s@, i as int) == Option::Some((e.deep_view(), j as int)) && i
                < j <= s@.len(),
            None => sp_entry(s@, i as int) is None,
        },
{
    proof {
        reveal(sp_entry);
    }
    let lit_open = crate::pathlex::chars_of("  {\n    \"path\": ");
    let lit_size = crate::pathlex::chars_of(",\n    \"size\": ");
    let lit_sha = crate::pathlex::chars_of(",\n    \"sha256\": ");
    let lit_kind = crate::pathlex::chars_of(",\n    \"kind\": ");
    let lit_target = crate::pathlex::chars_of(",\n    \"target\": ");
    let lit_mtime = crate::pathlex::chars_of(",\n    \"mtime\": ");
    let lit_close = crate::pathlex::chars_of("\n  }");
    proof {
        reveal_strlit("  {\n    \"path\": ");
        reveal_strlit(",\n    \"size\": ");
        reveal_strlit(",\n    \"sha256\": ");
        reveal_strlit(",\n    \"kind\": ");
        reveal_strlit(",\n    \"target\": ");
        reveal_strlit(",\n    \"mtime\": ");
        reveal_strlit("\n  }");
        assert(lit_open@ =~= l_entry_open());
        assert(lit_size@ =~= l_size());
        assert(lit_sha@ =~= l_sha());
        assert(lit_kind@ =~= l_kind());
        assert(lit_target@ =~= l_target());
        assert(lit_mtime@ =~= l_mtime());
        assert(lit_close@ =~= l_entry_close());
    }
    let i1 = match match_lit(s, i, &lit_open) {
        Some(j) => j,
        None => {
            return None;
        },
    };
    let (path, i2) = match p_string(s, i1) {
        Some(x) => x,
        None => {
            return None;
        },
    };
    let i3 = match match_lit(s, i2, &lit_size) {
        Some(j) => j,
        None => {
            return None;
        },
    };
    let (size, i4) = match p_u64(s, i3) {
        Some(x) => x,
        None => {
            return None;
        },
    };
    let i5 = match match_lit(s, i4, &lit_sha) {
        Some(j) => j,
        None => {
            return None;
        },
    };
    let (sha, i6) = match p_string(s, i5) {
        Some(x) => x,
        None => {
            return None;
        },
    };
    let i7 = match match_lit(s, i6, &lit_kind) {
        Some(j) => j,
        None => {
            return None;
        },
    };
    let (kind, i8) = match p_kind(s, i7) {
        Some(x) => x,
        None => {
            return None;
        },
    };
    let i9 = match match_lit(s, i8, &lit_target) {
        Some(j) => j,
        None => {
            return None;
        },
    };
    let (target, i10) = match p_opt_str(s, i9) {
        Some(x) => x,
        None => {
            return None;
        },
    };
    let i11 = match match_lit(s, i10, &lit_mtime) {
        Some(j) => j,
        None => {
            return None;
        },
    };
    let (mtime, i12) = match p_opt_num(s, i11) {
        Some(x) => x,
        None => {
            return None;
        },
    };
    let i13 = match match_lit(s, i12, &lit_close) {
        Some(j) => j,
        None => {
            return None;
        },
    };
    Some((ManifestEntry { path, size, sha256: sha, kind, target, mtime }, i13))
}

/// A parse failure: the text is not a canonical manifest.
#[derive(Debug)]
pub struct ManifestParseError {
    pub offset: usize,
}

/// Parse a canonical manifest text back into its entries.
#[verifier::loop_isolation(false)]
#[verifier::rlimit(100)]
pub fn parse_manifest_json(text: &str) -> (res: Result<Vec<ManifestEntry>, ManifestParseError>)
    ensures
        match res {
            Ok(v) => spec_parse_manifest(text@) == Option::Some(v.deep_view()),
            Err(_) => spec_parse_manifest(text@) is None,
        },
{
    broadcast use crate::pathlex::lemma_chars_deep_view;

    let s = crate::pathlex::chars_of(text);
    if s.len() == 2 && s[0] == '[' && s[1] == ']' {
        let out: Vec<ManifestEntry> = Vec::new();
        proof {
            assert(text@ =~= seq!['[', ']']);
            assert(out.deep_view() =~~= Seq::<ManifestEntryV>::empty());
        }
        return Ok(out);
    }
    proof {
        if text@ == seq!['[', ']'] {
            assert(s@.len() == 2 && s@[0] == '[' && s@[1] == ']');
        }
    }
    let lit_o = crate::pathlex::chars_of("[\n");
    proof {
        reveal_strlit("[\n");
        assert(lit_o@ =~= l_open());
    }
    let mut i = match match_lit(&s, 0, &lit_o) {
        Some(j) => j,
        None => {
            return Err(ManifestParseError { offset: 0 });
        },
    };
    let lit_sep = crate::pathlex::chars_of(",\n");
    let lit_cl = crate::pathlex::chars_of("\n]");
    proof {
        reveal_strlit(",\n");
        reveal_strlit("\n]");
        assert(lit_sep@ =~= l_sep());
        assert(lit_cl@ =~= l_close());
    }
    let mut out: Vec<ManifestEntry> = Vec::new();
    let n = s.len();
    proof {
        assert(out.deep_view() =~~= Seq::<ManifestEntryV>::empty());
    }
    loop
        invariant
            i <= n,
            n == s@.len(),
            s@ == text@,
            lit_sep@ == l_sep(),
            lit_cl@ == l_close(),
            (match sp_entries(s@, i as int) {
                Option::Some((rest, m)) => spec_parse_manifest(text@) == Option::Some(
                    out.deep_view() + rest,
                ),
                Option::None => spec_parse_manifest(text@) is None,
            }),
        decreases n - i,
    {
        let (entry, j) = match p_entry(&s, i) {
            Some(x) => x,
            None => {
                return Err(ManifestParseError { offset: i });
            },
        };
        let ghost pre_out = out.deep_view();
        out.push(entry);
        proof {
            assert(out.deep_view() =~~= pre_out.push(entry.deep_view()));
        }
        match match_lit(&s, j, &lit_sep) {
            Some(k) => {
                proof {
                    let r0 = sp_entries(s@, i as int);
                    let r1 = sp_entries(s@, k as int);
                    assert(match r1 {
                        Option::Some((rest, m)) => r0 == Option::Some(
                            (seq![entry.deep_view()] + rest, m),
                        ),
                        Option::None => r0 is None,
                    });
                    if r1 is Some {
                        assert(pre_out + (seq![entry.deep_view()] + r1->Some_0.0)
                            =~~= out.deep_view() + r1->Some_0.0);
                    }
                }
                i = k;
            },
            None => {
                match match_lit(&s, j, &lit_cl) {
                    Some(k) => {
                        if k == n {
                            proof {
                                assert(sp_entries(s@, i as int) == Option::Some(
                                    (seq![entry.deep_view()], k as int),
                                ));
                                assert(pre_out + seq![entry.deep_view()] =~~= out.deep_view());
                            }
                            return Ok(out);
                        }
                        return Err(ManifestParseError { offset: k });
                    },
                    None => {
                        return Err(ManifestParseError { offset: j });
                    },
                }
            },
        }
    }
}

/// Parsing a whole manifest text.
pub open spec fn spec_parse_manifest(s: Seq<char>) -> Option<Seq<ManifestEntryV>> {
    if s == seq!['[', ']'] {
        Option::Some(seq![])
    } else {
        match sp_lit(s, 0, l_open()) {
            Option::Some(i) => match sp_entries(s, i) {
                Option::Some((es, _)) => Option::Some(es),
                Option::None => Option::None,
            },
            Option::None => Option::None,
        }
    }
}

/// A literal parses where the text holds it.
proof fn lemma_lit_at(s: Seq<char>, pre: Seq<char>, lit: Seq<char>, post: Seq<char>)
    requires
        s == pre + lit + post,
    ensures
        sp_lit(s, pre.len() as int, lit) == Option::Some(pre.len() + lit.len() as int),
{
    assert(s.subrange(pre.len() as int, pre.len() + lit.len() as int) =~= lit);
}

/// Each hex digit character carries its value back.
proof fn lemma_digit16_props(d: int)
    requires
        0 <= d < 16,
    ensures
        hex_val(digit16(d)) == d,
        d < 10 ==> is_digit(digit16(d)) && digit_val(digit16(d)) == d,
        d >= 10 ==> !is_digit(digit16(d)),
{
    if d == 0 {
        assert(digit16(0) == '0');
    } else if d == 1 {
        assert(digit16(1) == '1');
    } else if d == 2 {
        assert(digit16(2) == '2');
    } else if d == 3 {
        assert(digit16(3) == '3');
    } else if d == 4 {
        assert(digit16(4) == '4');
    } else if d == 5 {
        assert(digit16(5) == '5');
    } else if d == 6 {
        assert(digit16(6) == '6');
    } else if d == 7 {
        assert(digit16(7) == '7');
    } else if d == 8 {
        assert(digit16(8) == '8');
    } else if d == 9 {
        assert(digit16(9) == '9');
    } else if d == 10 {
        assert(digit16(10) == 'a');
    } else if d == 11 {
        assert(digit16(11) == 'b');
    } else if d == 12 {
        assert(digit16(12) == 'c');
    } else if d == 13 {
        assert(digit16(13) == 'd');
    } else if d == 14 {
        assert(digit16(14) == 'e');
    } else {
        assert(digit16(15) == 'f');
    }
}

/// An escaped string followed by the closing quote parses back to the
/// original characters.
proof fn lemma_esc_roundtrip(s: Seq<char>, pre: Seq<char>, t: Seq<char>, post: Seq<char>, acc: Seq<
    char,
>)
    requires
        s == pre + esc_str(t) + seq!['"'] + post,
    ensures
        sp_str_body(s, pre.len() as int, acc) == Option::Some(
            (acc + t, (pre.len() + esc_str(t).len() + 1) as int),
        ),
    decreases t.len(),
{
    let i = pre.len() as int;
    if t.len() == 0 {
        assert(esc_str(t) =~= Seq::<char>::empty());
        assert(s[i] == '"');
        assert(acc + t =~= acc);
    } else {
        let c = t[0];
        let rest = t.drop_first();
        let e = esc_char(c);
        assert(esc_str(t) == e + esc_str(rest));
        let pre2 = pre + e;
        assert(s =~= pre2 + esc_str(rest) + seq!['"'] + post);
        assert(forall|k: int| 0 <= k < e.len() ==> s[i + k] == e[k]) by {
            assert(forall|k: int| 0 <= k < e.len() ==> (pre + (e + esc_str(rest)) + seq!['"']
                + post)[i + k] == e[k]);
            assert(s =~= pre + (e + esc_str(rest)) + seq!['"'] + post);
        }
        lemma_esc_roundtrip(s, pre2, rest, post, acc.push(c));
        assert(acc.push(c) + rest =~= acc + t);
        assert(pre2.len() + esc_str(rest).len() + 1 == pre.len() + esc_str(t).len() + 1);
        if c == '"' {
            assert(s[i] == '\\' && s[i + 1] == '"');
            assert(sp_str_body(s, i, acc) == sp_str_body(s, i + 2, acc.push('"')));
        } else if c == '\\' {
            assert(s[i] == '\\' && s[i + 1] == '\\');
        } else if c == '\u{8}' {
            assert(s[i] == '\\' && s[i + 1] == 'b');
        } else if c == '\t' {
            assert(s[i] == '\\' && s[i + 1] == 't');
        } else if c == '\n' {
            assert(s[i] == '\\' && s[i + 1] == 'n');
        } else if c == '\u{c}' {
            assert(s[i] == '\\' && s[i + 1] == 'f');
        } else if c == '\r' {
            assert(s[i] == '\\' && s[i + 1] == 'r');
        } else if (c as u32) < 0x20 {
            let hi = (c as u32) as int / 16;
            let lo = (c as u32) as int % 16;
            assert(s[i] == '\\' && s[i + 1] == 'u' && s[i + 2] == '0' && s[i + 3] == '0');
            assert(s[i + 4] == digit16(hi) && s[i + 5] == digit16(lo));
            lemma_digit16_props(hi);
            lemma_digit16_props(lo);
            assert(hex_val(s[i + 4]) == hi && hex_val(s[i + 5]) == lo);
            assert(hi * 16 + lo == c as u32);
            assert(code_char(hi * 16 + lo) == c) by {
                let code: int = hi * 16 + lo;
                assert(code == c as u32);
                assert(0 <= code < 0x20);
                let u: u32 = code as u32;
                assert(u == c as u32);
                vstd::utf8::char_u32_cast(c, u);
                assert((u as char) == c);
                assert(((code as u8) as char) == (u as char));
            }
            assert(i + 6 <= s.len());
            assert(sp_str_body(s, i, acc) == sp_str_body(s, i + 6, acc.push(c)));
        } else {
            assert(s[i] == c);
            assert(c != '"' && c != '\\');
            assert(sp_str_body(s, i, acc) == sp_str_body(s, i + 1, acc.push(c)));
        }
    }
}

/// A quoted string parses back to the original characters.
proof fn lemma_quoted_roundtrip(s: Seq<char>, pre: Seq<char>, t: Seq<char>, post: Seq<char>)
    requires
        s == pre + quoted(t) + post,
    ensures
        sp_string(s, pre.len() as int) == Option::Some((t, pre.len() + quoted(t).len() as int)),
{
    let i = pre.len() as int;
    assert(s[i] == '"');
    let pre2 = pre + seq!['"'];
    assert(s =~= pre2 + esc_str(t) + seq!['"'] + post);
    lemma_esc_roundtrip(s, pre2, t, post, seq![]);
    assert(Seq::<char>::empty() + t =~= t);
}

/// The decimal digits of a number are digit characters.
proof fn lemma_dec_digits_are_digits(n: int)
    requires
        n >= 0,
    ensures
        dec_digits(n).len() >= 1,
        forall|k: int| 0 <= k < dec_digits(n).len() ==> is_digit(#[trigger] dec_digits(n)[k]),
    decreases n,
{
    if n < 10 {
        lemma_digit16_props(n);
    } else {
        lemma_dec_digits_are_digits(n / 10);
        lemma_digit16_props(n % 10);
        assert(forall|k: int|
            0 <= k < dec_digits(n / 10).len() ==> #[trigger] dec_digits(n)[k] == dec_digits(
                n / 10,
            )[k]);
        assert(dec_digits(n).last() == digit16(n % 10));
    }
}

/// The decimal digits of a number carry its value back.
proof fn lemma_digits_val_dec(n: int)
    requires
        n >= 0,
    ensures
        digits_val(dec_digits(n)) == n,
    decreases n,
{
    if n < 10 {
        lemma_digit16_props(n);
        assert(dec_digits(n).drop_last() =~= Seq::<char>::empty());
        assert(dec_digits(n).last() == digit16(n));
        assert(digits_val(Seq::<char>::empty()) == 0);
        assert(digits_val(dec_digits(n)) == digits_val(Seq::<char>::empty()) * 10 + digit_val(
            digit16(n),
        ));
    } else {
        lemma_digits_val_dec(n / 10);
        lemma_digit16_props(n % 10);
        assert(dec_digits(n).drop_last() =~= dec_digits(n / 10));
        assert(dec_digits(n).last() == digit16(n % 10));
        assert(digits_val(dec_digits(n)) == digits_val(dec_digits(n / 10)) * 10 + digit_val(
            digit16(n % 10),
        ));
        assert((n / 10) * 10 + (n % 10) == n);
    }
}

/// A digit run ends exactly where the digits end.
proof fn lemma_run_end_exact(s: Seq<char>, i: int, j: int)
    requires
        0 <= i <= j <= s.len(),
        forall|t: int| i <= t < j ==> is_digit(#[trigger] s[t]),
        j == s.len() || !is_digit(s[j]),
    ensures
        run_end(s, i) == j,
    decreases j - i,
{
    if i < j {
        lemma_run_end_exact(s, i + 1, j);
    }
}

/// A rendered number followed by a non-digit parses back to its value.
proof fn lemma_u64_roundtrip(s: Seq<char>, pre: Seq<char>, n: u64, post: Seq<char>)
    requires
        s == pre + dec_digits(n as int) + post,
        post.len() > 0,
        !is_digit(post[0]),
    ensures
        sp_u64(s, pre.len() as int) == Option::Some(
            (n, pre.len() + dec_digits(n as int).len() as int),
        ),
{
    let i = pre.len() as int;
    let ds = dec_digits(n as int);
    let j = i + ds.len();
    lemma_dec_digits_are_digits(n as int);
    assert(forall|t: int| i <= t < j ==> s[t] == ds[t - i]);
    assert(forall|t: int| i <= t < j ==> is_digit(#[trigger] s[t]));
    assert(s[j] == post[0]);
    lemma_run_end_exact(s, i, j);
    assert(s.subrange(i, j) =~= ds);
    lemma_digits_val_dec(n as int);
    assert(is_digit(s[i]));
}

/// A rendered kind parses back.
proof fn lemma_kind_roundtrip(s: Seq<char>, pre: Seq<char>, k: ManifestKind, post: Seq<char>)
    requires
        s == pre + quoted(kind_name(k)) + post,
    ensures
        sp_kind(s, pre.len() as int) == Option::Some(
            (k, pre.len() + quoted(kind_name(k)).len() as int),
        ),
{
    let i = pre.len() as int;
    lemma_esc_plain(kind_name(k));
    match k {
        ManifestKind::File => {
            assert(quoted(kind_name(k)) =~= l_qfile());
            lemma_lit_at(s, pre, l_qfile(), post);
        },
        ManifestKind::Directory => {
            assert(quoted(kind_name(k)) =~= l_qdirectory());
            assert(s[i + 1] == 'D');
            assert(sp_lit(s, i, l_qfile()) is None) by {
                if sp_lit(s, i, l_qfile()) is Some {
                    assert(s.subrange(i, i + l_qfile().len() as int)[1] == l_qfile()[1]);
                }
            }
            lemma_lit_at(s, pre, l_qdirectory(), post);
        },
        ManifestKind::Symlink => {
            assert(quoted(kind_name(k)) =~= l_qsymlink());
            assert(s[i + 1] == 'S');
            assert(sp_lit(s, i, l_qfile()) is None) by {
                if sp_lit(s, i, l_qfile()) is Some {
                    assert(s.subrange(i, i + l_qfile().len() as int)[1] == l_qfile()[1]);
                }
            }
            assert(sp_lit(s, i, l_qdirectory()) is None) by {
                if sp_lit(s, i, l_qdirectory()) is Some {
                    assert(s.subrange(i, i + l_qdirectory().len() as int)[1] == l_qdirectory()[1]);
                }
            }
            lemma_lit_at(s, pre, l_qsymlink(), post);
        },
    }
}

/// A rendered optional string parses back.
proof fn lemma_opt_str_roundtrip(s: Seq<char>, pre: Seq<char>, o: Option<Seq<char>>, post: Seq<
    char,
>)
    requires
        s == pre + render_opt_str(o) + post,
    ensures
        sp_opt_str(s, pre.len() as int) == Option::Some(
            (o, pre.len() + render_opt_str(o).len() as int),
        ),
{
    let i = pre.len() as int;
    match o {
        Option::None => {
            lemma_lit_at(s, pre, l_null(), post);
        },
        Option::Some(t) => {
            assert(s[i] == '"');
            assert(sp_lit(s, i, l_null()) is None) by {
                if sp_lit(s, i, l_null()) is Some {
                    assert(s.subrange(i, i + l_null().len() as int)[0] == l_null()[0]);
                }
            }
            lemma_quoted_roundtrip(s, pre, t, post);
        },
    }
}

/// A rendered optional number parses back when a non-digit follows.
proof fn lemma_opt_num_roundtrip(s: Seq<char>, pre: Seq<char>, o: Option<u64>, post: Seq<char>)
    requires
        s == pre + render_opt_num(o) + post,
        post.len() > 0,
        !is_digit(post[0]),
    ensures
        sp_opt_num(s, pre.len() as int) == Option::Some(
            (o, pre.len() + render_opt_num(o).len() as int),
        ),
{
    let i = pre.len() as int;
    match o {
        Option::None => {
            lemma_lit_at(s, pre, l_null(), post);
        },
        Option::Some(n) => {
            lemma_dec_digits_are_digits(n as int);
            assert(s[i] == dec_digits(n as int)[0]);
            assert(is_digit(s[i]));
            assert(sp_lit(s, i, l_null()) is None) by {
                if sp_lit(s, i, l_null()) is Some {
                    assert(s.subrange(i, i + l_null().len() as int)[0] == l_null()[0]);
                }
            }
            lemma_u64_roundtrip(s, pre, n, post);
        },
    }
}

/// Offsets of the pieces inside a rendered entry.
spec fn eo1(e: ManifestEntryV) -> int {
    l_entry_open().len() as int
}

spec fn eo2(e: ManifestEntryV) -> int {
    eo1(e) + quoted(e.path).len()
}

spec fn eo3(e: ManifestEntryV) -> int {
    eo2(e) + l_size().len()
}

spec fn eo4(e: ManifestEntryV) -> int {
    eo3(e) + dec_digits(e.size as int).len()
}

spec fn eo5(e: ManifestEntryV) -> int {
    eo4(e) + l_sha().len()
}

spec fn eo6(e: ManifestEntryV) -> int {
    eo5(e) + quoted(e.sha256).len()
}

spec fn eo7(e: ManifestEntryV) -> int {
    eo6(e) + l_kind().len()
}

spec fn eo8(e: ManifestEntryV) -> int {
    eo7(e) + quoted(kind_name(e.kind)).len()
}

spec fn eo9(e: ManifestEntryV) -> int {
    eo8(e) + l_target().len()
}

spec fn eo10(e: ManifestEntryV) -> int {
    eo9(e) + render_opt_str(e.target).len()
}

spec fn eo11(e: ManifestEntryV) -> int {
    eo10(e) + l_mtime().len()
}

spec fn eo12(e: ManifestEntryV) -> int {
    eo11(e) + render_opt_num(e.mtime).len()
}

spec fn eo13(e: ManifestEntryV) -> int {
    eo12(e) + l_entry_close().len()
}

/// Regrouping a concatenation around one piece.
proof fn lemma_shift(s: Seq<char>, pre: Seq<char>, x: Seq<char>, y: Seq<char>, post: Seq<char>)
    requires
        s == pre + (x + y) + post,
    ensures
        s == pre + x + (y + post),
        s == (pre + x) + (y + post),
        s == (pre + x) + y + post,
{
    assert(pre + (x + y) + post =~= pre + x + (y + post));
    assert(pre + (x + y) + post =~= (pre + x) + (y + post));
    assert(pre + (x + y) + post =~= (pre + x) + y + post);
}

/// Associativity of concatenation.
proof fn lemma_assoc(a: Seq<char>, b: Seq<char>, c: Seq<char>)
    ensures
        (a + b) + c == a + (b + c),
{
    assert((a + b) + c =~= a + (b + c));
}

/// The rendered entry, regrouped to nest to the right.
proof fn lemma_entry_shape(e: ManifestEntryV)
    ensures
        render_entry(e) == l_entry_open() + (quoted(e.path) + (l_size() + (dec_digits(
            e.size as int,
        ) + (l_sha() + (quoted(e.sha256) + (l_kind() + (quoted(kind_name(e.kind)) + (l_target() + (
        render_opt_str(e.target) + (l_mtime() + (render_opt_num(e.mtime) + l_entry_close()))))))))))),
{
    let a0 = l_entry_open();
    let v1 = quoted(e.path);
    let a1 = l_size();
    let v2 = dec_digits(e.size as int);
    let a2 = l_sha();
    let v3 = quoted(e.sha256);
    let a3 = l_kind();
    let v4 = quoted(kind_name(e.kind));
    let a4 = l_target();
    let v5 = render_opt_str(e.target);
    let a5 = l_mtime();
    let v6 = render_opt_num(e.mtime);
    let a6 = l_entry_close();
    let l1 = a0 + v1;
    let l2 = l1 + a1;
    let l3 = l2 + v2;
    let l4 = l3 + a2;
    let l5 = l4 + v3;
    let l6 = l5 + a3;
    let l7 = l6 + v4;
    let l8 = l7 + a4;
    let l9 = l8 + v5;
    let l10 = l9 + a5;
    let l11 = l10 + v6;
    let t13 = a6;
    let t12 = v6 + t13;
    let t11 = a5 + t12;
    let t10 = v5 + t11;
    let t9 = a4 + t10;
    let t8 = v4 + t9;
    let t7 = a3 + t8;
    let t6 = v3 + t7;
    let t5 = a2 + t6;
    let t4 = v2 + t5;
    let t3 = a1 + t4;
    let t2 = v1 + t3;
    assert(render_entry(e) == l11 + a6);
    lemma_assoc(l10, v6, t13);
    assert(render_entry(e) == l10 + t12);
    lemma_assoc(l9, a5, t12);
    assert(render_entry(e) == l9 + t11);
    lemma_assoc(l8, v5, t11);
    assert(render_entry(e) == l8 + t10);
    lemma_assoc(l7, a4, t10);
    assert(render_entry(e) == l7 + t9);
    lemma_assoc(l6, v4, t9);
    assert(render_entry(e) == l6 + t8);
    lemma_assoc(l5, a3, t8);
    assert(render_entry(e) == l5 + t7);
    lemma_assoc(l4, v3, t7);
    assert(render_entry(e) == l4 + t6);
    lemma_assoc(l3, a2, t6);
    assert(render_entry(e) == l3 + t5);
    lemma_assoc(l2, v2, t5);
    assert(render_entry(e) == l2 + t4);
    lemma_assoc(l1, a1, t4);
    assert(render_entry(e) == l1 + t3);
    lemma_assoc(a0, v1, t3);
    assert(render_entry(e) == a0 + t2);
}

/// The prefix of a rendered entry up to the size value, and the tails from
/// the size, kind and target values on.
spec fn pfx3(e: ManifestEntryV) -> Seq<char> {
    l_entry_open() + quoted(e.path) + l_size()
}

spec fn tail4(e: ManifestEntryV) -> Seq<char> {
    dec_digits(e.size as int) + (l_sha() + (quoted(e.sha256) + (l_kind() + (quoted(
        kind_name(e.kind),
    ) + (l_target() + (render_opt_str(e.target) + (l_mtime() + (render_opt_num(e.mtime)
        + l_entry_close()))))))))
}

spec fn pfx6(e: ManifestEntryV) -> Seq<char> {
    pfx3(e) + dec_digits(e.size as int) + l_sha() + quoted(e.sha256) + l_kind()
}

spec fn tail7(e: ManifestEntryV) -> Seq<char> {
    quoted(kind_name(e.kind)) + (l_target() + (render_opt_str(e.target) + (l_mtime() + (
    render_opt_num(e.mtime) + l_entry_close()))))
}

spec fn pfx9(e: ManifestEntryV) -> Seq<char> {
    pfx6(e) + quoted(kind_name(e.kind)) + l_target()
}

spec fn tail10(e: ManifestEntryV) -> Seq<char> {
    render_opt_str(e.target) + (l_mtime() + (render_opt_num(e.mtime) + l_entry_close()))
}

/// The first pieces of a rendered entry parse back, leaving the frame at
/// the size value.
#[verifier::rlimit(100)]
proof fn lemma_entry_parts_a1(s: Seq<char>, pre: Seq<char>, e: ManifestEntryV, post: Seq<char>)
    requires
        s == pre + render_entry(e) + post,
    ensures
        sp_lit(s, pre.len() as int, l_entry_open()) == Option::Some(pre.len() + eo1(e)),
        sp_string(s, pre.len() + eo1(e)) == Option::Some((e.path, pre.len() + eo2(e))),
        sp_lit(s, pre.len() + eo2(e), l_size()) == Option::Some(pre.len() + eo3(e)),
        s == (pre + pfx3(e)) + tail4(e) + post,
{
    let v1 = quoted(e.path);
    let v2 = dec_digits(e.size as int);
    let v3 = quoted(e.sha256);
    let v4 = quoted(kind_name(e.kind));
    let v5 = render_opt_str(e.target);
    let v6 = render_opt_num(e.mtime);
    let t13 = l_entry_close();
    let t12 = v6 + t13;
    let t11 = l_mtime() + t12;
    let t10 = v5 + t11;
    let t9 = l_target() + t10;
    let t8 = v4 + t9;
    let t7 = l_kind() + t8;
    let t6 = v3 + t7;
    let t5 = l_sha() + t6;
    let t4 = v2 + t5;
    let t3 = l_size() + t4;
    let t2 = v1 + t3;
    lemma_entry_shape(e);
    let p1 = pre + l_entry_open();
    let p2 = p1 + v1;
    let p3 = p2 + l_size();
    lemma_shift(s, pre, l_entry_open(), t2, post);
    lemma_lit_at(s, pre, l_entry_open(), t2 + post);
    lemma_shift(s, p1, v1, t3, post);
    lemma_quoted_roundtrip(s, p1, e.path, t3 + post);
    lemma_shift(s, p2, l_size(), t4, post);
    lemma_lit_at(s, p2, l_size(), t4 + post);
    assert(p3 =~= pre + pfx3(e));
    assert(t4 =~= tail4(e));
}

/// The size and fingerprint pieces parse back, leaving the frame at the
/// kind value.
#[verifier::rlimit(100)]
proof fn lemma_entry_parts_a2(s: Seq<char>, pre: Seq<char>, e: ManifestEntryV, post: Seq<char>)
    requires
        s == (pre + pfx3(e)) + tail4(e) + post,
    ensures
        sp_u64(s, pre.len() + eo3(e)) == Option::Some((e.size, pre.len() + eo4(e))),
        sp_lit(s, pre.len() + eo4(e), l_sha()) == Option::Some(pre.len() + eo5(e)),
        sp_string(s, pre.len() + eo5(e)) == Option::Some((e.sha256, pre.len() + eo6(e))),
        sp_lit(s, pre.len() + eo6(e), l_kind()) == Option::Some(pre.len() + eo7(e)),
        s == (pre + pfx6(e)) + tail7(e) + post,
{
    let v2 = dec_digits(e.size as int);
    let v3 = quoted(e.sha256);
    let t13 = l_entry_close();
    let t12 = render_opt_num(e.mtime) + t13;
    let t11 = l_mtime() + t12;
    let t10 = render_opt_str(e.target) + t11;
    let t9 = l_target() + t10;
    let t8 = quoted(kind_name(e.kind)) + t9;
    let t7 = l_kind() + t8;
    let t6 = v3 + t7;
    let t5 = l_sha() + t6;
    let p3 = pre + pfx3(e);
    let p4 = p3 + v2;
    let p5 = p4 + l_sha();
    let p6 = p5 + v3;
    assert(tail4(e) == v2 + t5);
    lemma_shift(s, p3, v2, t5, post);
    assert((t5 + post)[0] == ',');
    lemma_u64_roundtrip(s, p3, e.size, t5 + post);
    lemma_shift(s, p4, l_sha(), t6, post);
    lemma_lit_at(s, p4, l_sha(), t6 + post);
    lemma_shift(s, p5, v3, t7, post);
    lemma_quoted_roundtrip(s, p5, e.sha256, t7 + post);
    assert(p3.len() == pre.len() + eo3(e));
    lemma_shift(s, p6, l_kind(), t8, post);
    lemma_lit_at(s, p6, l_kind(), t8 + post);
    assert((p6 + l_kind()) =~= pre + pfx6(e));
    assert(t8 =~= tail7(e));
    assert(s == (p6 + l_kind()) + t8 + post);
}

/// The kind piece parses back, leaving the frame at the target value.
#[verifier::rlimit(100)]
proof fn lemma_entry_parts_b1(s: Seq<char>, pre: Seq<char>, e: ManifestEntryV, post: Seq<char>)
    requires
        s == (pre + pfx6(e)) + tail7(e) + post,
    ensures
        sp_kind(s, pre.len() + eo7(e)) == Option::Some((e.kind, pre.len() + eo8(e))),
        sp_lit(s, pre.len() + eo8(e), l_target()) == Option::Some(pre.len() + eo9(e)),
        s == (pre + pfx9(e)) + tail10(e) + post,
{
    let v4 = quoted(kind_name(e.kind));
    let t13 = l_entry_close();
    let t12 = render_opt_num(e.mtime) + t13;
    let t11 = l_mtime() + t12;
    let t10 = render_opt_str(e.target) + t11;
    let t9 = l_target() + t10;
    let p7 = pre + pfx6(e);
    let p8 = p7 + v4;
    let p9 = p8 + l_target();
    assert(tail7(e) == v4 + t9);
    assert(p7.len() == pre.len() + eo7(e));
    lemma_shift(s, p7, v4, t9, post);
    lemma_kind_roundtrip(s, p7, e.kind, t9 + post);
    lemma_shift(s, p8, l_target(), t10, post);
    lemma_lit_at(s, p8, l_target(), t10 + post);
    assert((p8 + l_target()) =~= pre + pfx9(e));
    assert(t10 =~= tail10(e));
}

/// The target, mtime and closing pieces parse back.
#[verifier::rlimit(100)]
proof fn lemma_entry_parts_b2(s: Seq<char>, pre: Seq<char>, e: ManifestEntryV, post: Seq<char>)
    requires
        s == (pre + pfx9(e)) + tail10(e) + post,
    ensures
        sp_opt_str(s, pre.len() + eo9(e)) == Option::Some((e.target, pre.len() + eo10(e))),
        sp_lit(s, pre.len() + eo10(e), l_mtime()) == Option::Some(pre.len() + eo11(e)),
        sp_opt_num(s, pre.len() + eo11(e)) == Option::Some((e.mtime, pre.len() + eo12(e))),
        sp_lit(s, pre.len() + eo12(e), l_entry_close()) == Option::Some(pre.len() + eo13(e)),
        eo13(e) == render_entry(e).len(),
{
    let v5 = render_opt_str(e.target);
    let v6 = render_opt_num(e.mtime);
    let t13 = l_entry_close();
    let t12 = v6 + t13;
    let t11 = l_mtime() + t12;
    let p10 = (pre + pfx9(e)) + v5;
    let p11 = p10 + l_mtime();
    let p12 = p11 + v6;
    assert(tail10(e) == v5 + t11);
    lemma_shift(s, pre + pfx9(e), v5, t11, post);
    lemma_opt_str_roundtrip(s, pre + pfx9(e), e.target, t11 + post);
    lemma_shift(s, p10, l_mtime(), t12, post);
    lemma_lit_at(s, p10, l_mtime(), t12 + post);
    lemma_shift(s, p11, v6, t13, post);
    assert((t13 + post)[0] == '\n');
    lemma_opt_num_roundtrip(s, p11, e.mtime, t13 + post);
    lemma_shift(s, p12, l_entry_close(), Seq::<char>::empty(), post);
    assert(l_entry_close() + Seq::<char>::empty() =~= l_entry_close());
    assert(Seq::<char>::empty() + post =~= post);
    lemma_lit_at(s, p12, l_entry_close(), post);
}

/// A rendered entry parses back to itself.
#[verifier::rlimit(100)]
proof fn lemma_entry_roundtrip(s: Seq<char>, pre: Seq<char>, e: ManifestEntryV, post: Seq<char>)
    requires
        s == pre + render_entry(e) + post,
    ensures
        sp_entry(s, pre.len() as int) == Option::Some(
            (e, pre.len() + render_entry(e).len() as int),
        ),
{
    reveal(sp_entry);
    lemma_entry_parts_a1(s, pre, e, post);
    lemma_entry_parts_a2(s, pre, e, post);
    lemma_entry_parts_b1(s, pre, e, post);
    lemma_entry_parts_b2(s, pre, e, post);
    assert(ManifestEntryV {
        path: e.path,
        size: e.size,
        sha256: e.sha256,
        kind: e.kind,
        target: e.target,
        mtime: e.mtime,
    } =~~= e);
}

/// A rendered entry list followed by the closing bracket parses back to the
/// list, consuming the whole text.
proof fn lemma_entries_roundtrip(s: Seq<char>, pre: Seq<char>, es: Seq<ManifestEntryV>)
    requires
        es.len() >= 1,
        s == pre + render_entry(es[0]) + render_rest(es.drop_first()),
    ensures
        sp_entries(s, pre.len() as int) == Option::Some((es, s.len() as int)),
    decreases es.len(),
{
    let re = render_entry(es[0]);
    let i = pre.len() as int;
    let j = pre.len() + re.len() as int;
    let rest = es.drop_first();
    lemma_entry_roundtrip(s, pre, es[0], render_rest(rest));
    assert(re.len() >= 16);
    if rest.len() == 0 {
        assert(render_rest(rest) == l_close());
        assert(s[j] == l_close()[0]);
        assert(s[j] == '\n');
        assert(sp_lit(s, j, l_sep()) is None) by {
            if sp_lit(s, j, l_sep()) is Some {
                assert(s.subrange(j, j + l_sep().len() as int)[0] == l_sep()[0]);
            }
        }
        assert(s =~= (pre + re) + l_close() + Seq::<char>::empty());
        lemma_lit_at(s, pre + re, l_close(), Seq::<char>::empty());
        assert(j + 2 == s.len());
        assert(seq![es[0]] =~= es);
    } else {
        assert(render_rest(rest) == l_sep() + render_entry(rest[0]) + render_rest(
            rest.drop_first(),
        ));
        assert(s =~= (pre + re) + l_sep() + (render_entry(rest[0]) + render_rest(
            rest.drop_first(),
        )));
        lemma_lit_at(
            s,
            pre + re,
            l_sep(),
            render_entry(rest[0]) + render_rest(rest.drop_first()),
        );
        let k = j + 2;
        assert(s =~= ((pre + re) + l_sep()) + render_entry(rest[0]) + render_rest(
            rest.drop_first(),
        ));
        lemma_entries_roundtrip(s, (pre + re) + l_sep(), rest);
        assert(sp_entries(s, k) == Option::Some((rest, s.len() as int)));
        assert(seq![es[0]] + rest =~= es);
    }
}

/// Law: reading back the canonical rendering of any manifest entry list
/// reproduces the list exactly.
pub proof fn lemma_manifest_round_trip(entries: Seq<ManifestEntryV>)
    ensures
        spec_parse_manifest(spec_render_manifest(entries)) == Option::Some(entries),
{
    let s = spec_render_manifest(entries);
    if entries.len() == 0 {
        assert(s == seq!['[', ']']);
        assert(spec_parse_manifest(s) == Option::Some(Seq::<ManifestEntryV>::empty()));
        assert(Seq::<ManifestEntryV>::empty() =~= entries);
    } else {
        let re = render_entry(entries[0]);
        let rr = render_rest(entries.drop_first());
        assert(re.len() >= 16);
        assert(rr.len() >= 2) by {
            if entries.drop_first().len() == 0 {
            } else {
            }
        }
        assert(s.len() > 2);
        assert(s != seq!['[', ']']) by {
            if s == seq!['[', ']'] {
                assert(s.len() == 2);
            }
        }
        assert(s =~= Seq::<char>::empty() + l_open() + (re + rr));
        lemma_lit_at(s, Seq::<char>::empty(), l_open(), re + rr);
        assert(s =~= l_open() + render_entry(entries[0]) + render_rest(entries.drop_first()));
        lemma_entries_roundtrip(s, l_open(), entries);
    }
}

} // verus!
