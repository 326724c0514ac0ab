//! The manifest file format.
//!
//! The baseline is persisted as a structured text document with the fields
//! `files` (objects with `name`, `path` and `sha256`), `folders`, `msg`
//! and `author`, in that order; a document written before folders were
//! recorded, which goes straight from `files` to `msg`, is still accepted
//! and read with an empty folder list.  The renderer emits the fields
//! without surrounding whitespace; the parser skips whitespace between
//! tokens, so pretty-printed documents load as well.  Rendering and
//! parsing are inverse: parsing a rendered manifest gives it back
//! unchanged, so re-persisting a loaded baseline never alters the file.

use vstd::prelude::*;
use crate::hashing::{hex_digit, hex_digit_char};
use crate::manifest::{entry_views, EntryV, FileEntry, Manifest, ManifestV};
use crate::order::push_char;
use vstd::string::{StrSliceExecFns, StringExecFns};

verus! {

// ---------------------------------------------------------------------
// Rendering
// ---------------------------------------------------------------------
/// How one character appears inside a quoted string: the quote, the
/// backslash and the common control characters by their escapes, any
/// other control character as a four-digit escape, everything else as
/// itself.
pub open spec fn esc_char(c: char) -> Seq<char> {
    if c == '"' {
        seq!['\\', '"']
    } else if c == '\\' {
        seq!['\\', '\\']
    } else if c == '\n' {
        seq!['\\', 'n']
    } else if c == '\t' {
        seq!['\\', 't']
    } else if c == '\r' {
        seq!['\\', 'r']
    } else if c == '\u{8}' {
        seq!['\\', 'b']
    } else if c == '\u{c}' {
        seq!['\\', 'f']
    } else if (c as u32) < 32 {
        seq!['\\', 'u', '0', '0', hex_digit((c as u32 / 16) as u8), hex_digit(
            (c as u32 % 16) as u8,
        )]
    } else {
        seq![c]
    }
}

/// A string's characters, escaped.
pub open spec fn esc_str(s: Seq<char>) -> Seq<char>
    decreases s.len(),
{
    if s.len() == 0 {
        Seq::<char>::empty()
    } else {
        esc_char(s.first()) + esc_str(s.drop_first())
    }
}

/// A quoted, escaped string.
pub open spec fn quoted(s: Seq<char>) -> Seq<char> {
    seq!['"'] + esc_str(s) + seq!['"']
}

/// One rendered file entry.
pub open spec fn render_entry(e: EntryV) -> Seq<char> {
    seq!['{'] + quoted("name"@) + seq![':'] + quoted(e.name) + seq![','] + quoted("path"@)
        + seq![':'] + quoted(e.path) + seq![','] + quoted("sha256"@) + seq![':'] + quoted(
        e.sha256,
    ) + seq!['}']
}

/// The rendered entries after the first: each preceded by a comma.
pub open spec fn render_entries_tail(files: Seq<EntryV>, i: int) -> Seq<char>
    decreases files.len() - i,
{
    if i < 1 || i >= files.len() {
        Seq::<char>::empty()
    } else {
        seq![','] + render_entry(files[i]) + render_entries_tail(files, i + 1)
    }
}

/// The rendered entry list (without the surrounding brackets).
pub open spec fn render_entries(files: Seq<EntryV>) -> Seq<char> {
    if files.len() == 0 {
        Seq::<char>::empty()
    } else {
        render_entry(files[0]) + render_entries_tail(files, 1)
    }
}

/// The rendered folder strings after the first: each preceded by a comma.
pub open spec fn render_strs_tail(ss: Seq<Seq<char>>, i: int) -> Seq<char>
    decreases ss.len() - i,
{
    if i < 1 || i >= ss.len() {
        Seq::<char>::empty()
    } else {
        seq![','] + quoted(ss[i]) + render_strs_tail(ss, i + 1)
    }
}

/// The rendered folder list (without the surrounding brackets).
pub open spec fn render_strs(ss: Seq<Seq<char>>) -> Seq<char> {
    if ss.len() == 0 {
        Seq::<char>::empty()
    } else {
        quoted(ss[0]) + render_strs_tail(ss, 1)
    }
}

/// The rendered manifest document.
pub open spec fn spec_render_manifest(m: ManifestV) -> Seq<char> {
    seq!['{'] + quoted("files"@) + seq![':', '['] + render_entries(m.files) + seq![']', ',']
        + quoted("folders"@) + seq![':', '['] + render_strs(m.folders) + seq![']', ','] + quoted(
        "msg"@,
    ) + seq![':'] + quoted(m.msg) + seq![','] + quoted("author"@) + seq![':'] + quoted(m.author)
        + seq!['}']
}

proof fn lemma_esc_str_push(s: Seq<char>, c: char)
    ensures
        esc_str(s.push(c)) == esc_str(s) + esc_char(c),
    decreases s.len(),
{
    if s.len() == 0 {
        let p = s.push(c);
        assert(p.len() == 1);
        assert(p.first() == c);
        assert(esc_str(p) == esc_char(c) + esc_str(p.drop_first()));
        assert(p.drop_first() =~= Seq::<char>::empty());
        assert(esc_str(Seq::<char>::empty()) =~= Seq::<char>::empty());
        assert(esc_char(c) + Seq::<char>::empty() =~= esc_char(c));
        assert(esc_str(s) + esc_char(c) =~= esc_char(c));
    } else {
        assert(s.push(c).first() == s.first());
        assert(s.push(c).drop_first() =~= s.drop_first().push(c));
        lemma_esc_str_push(s.drop_first(), c);
        assert(esc_str(s.push(c)) =~= esc_str(s) + esc_char(c));
    }
}

/// Append the escaped characters of `s`.
fn append_escaped(out: &mut String, s: &str)
    ensures
        final(out)@ == old(out)@ + esc_str(s@),
{
    let n = s.unicode_len();
    let mut i: usize = 0;
    proof {
        assert(s@.take(0) =~= Seq::<char>::empty());
        assert(out@ + esc_str(s@.take(0)) =~= out@);
    }
    while i < n
        invariant
            i <= n,
            n == s@.len(),
            out@ == old(out)@ + esc_str(s@.take(i as int)),
        decreases n - i,
    {
        let c = s.get_char(i);
        let ghost pre = out@;
        if c == '"' {
            push_char(out, '\\');
            push_char(out, '"');
        } else if c == '\\' {
            push_char(out, '\\');
            push_char(out, '\\');
        } else if c == '\n' {
            push_char(out, '\\');
            push_char(out, 'n');
        } else if c == '\t' {
            push_char(out, '\\');
            push_char(out, 't');
        } else if c == '\r' {
            push_char(out, '\\');
            push_char(out, 'r');
        } else if c == '\u{8}' {
            push_char(out, '\\');
            push_char(out, 'b');
        } else if c == '\u{c}' {
            push_char(out, '\\');
            push_char(out, 'f');
        } else if (c as u32) < 32 {
            push_char(out, '\\');
            push_char(out, 'u');
            push_char(out, '0');
            push_char(out, '0');
            push_char(out, hex_digit_char(((c as u32) / 16) as u8));
            push_char(out, hex_digit_char(((c as u32) % 16) as u8));
        } else {
            push_char(out, c);
        }
        proof {
            assert(out@ =~= pre + esc_char(c));
            assert(s@.take(i + 1) =~= s@.take(i as int).push(c));
            lemma_esc_str_push(s@.take(i as int), c);
            assert(out@ =~= old(out)@ + esc_str(s@.take(i + 1)));
        }
        i = i + 1;
    }
    proof {
        assert(s@.take(n as int) =~= s@);
    }
}

/// Append a quoted, escaped string.
fn append_quoted(out: &mut String, s: &str)
    ensures
        final(out)@ == old(out)@ + quoted(s@),
{
    push_char(out, '"');
    append_escaped(out, s);
    push_char(out, '"');
    proof {
        assert(out@ =~= old(out)@ + quoted(s@));
    }
}

/// Append one rendered file entry.
fn append_entry(out: &mut String, e: &FileEntry)
    ensures
        final(out)@ == old(out)@ + render_entry(e@),
{
    push_char(out, '{');
    append_quoted(out, "name");
    push_char(out, ':');
    append_quoted(out, e.name.as_str());
    push_char(out, ',');
    append_quoted(out, "path");
    push_char(out, ':');
    append_quoted(out, e.path.as_str());
    push_char(out, ',');
    append_quoted(out, "sha256");
    push_char(out, ':');
    append_quoted(out, e.sha256.as_str());
    push_char(out, '}');
    proof {
        assert(out@ =~= old(out)@ + render_entry(e@));
    }
}

/// Render a manifest as the persisted document.
#[verifier::rlimit(100)]
pub fn render_manifest(m: &Manifest) -> (out: String)
    ensures
        out@ == spec_render_manifest(m@),
{
    let ghost fv = entry_views(m.files@);
    let mut out = String::new();
    push_char(&mut out, '{');
    append_quoted(&mut out, "files");
    push_char(&mut out, ':');
    push_char(&mut out, '[');
    let ghost head = out@;
    let n = m.files.len();
    if n > 0 {
        proof {
            assert(fv[0] == m.files@[0]@);
        }
        append_entry(&mut out, &m.files[0]);
        let mut i: usize = 1;
        while i < n
            invariant
                1 <= i <= n,
                n == m.files.len(),
                fv == entry_views(m.files@),
                fv.len() == n,
                out@ + render_entries_tail(fv, i as int) == head + render_entries(fv),
            decreases n - i,
        {
            let ghost pre = out@;
            push_char(&mut out, ',');
            proof {
                assert(fv[i as int] == m.files@[i as int]@);
            }
            append_entry(&mut out, &m.files[i]);
            proof {
                assert(render_entries_tail(fv, i as int) =~= seq![','] + render_entry(
                    fv[i as int],
                ) + render_entries_tail(fv, i + 1));
                assert(out@ =~= pre + seq![','] + render_entry(fv[i as int]));
                assert(out@ + render_entries_tail(fv, i + 1) =~= pre + render_entries_tail(
                    fv,
                    i as int,
                ));
            }
            i = i + 1;
        }
        proof {
            assert(render_entries_tail(fv, n as int) =~= Seq::<char>::empty());
            assert(out@ + render_entries_tail(fv, n as int) =~= out@);
        }
    } else {
        proof {
            assert(render_entries(fv) =~= Seq::<char>::empty());
            assert(out@ =~= head + render_entries(fv));
        }
    }
    push_char(&mut out, ']');
    push_char(&mut out, ',');
    append_quoted(&mut out, "folders");
    push_char(&mut out, ':');
    push_char(&mut out, '[');
    let ghost head2 = out@;
    let ghost sv = crate::manifest::str_views(m.folders@);
    let nf = m.folders.len();
    if nf > 0 {
        proof {
            assert(sv[0] == m.folders@[0]@);
        }
        append_quoted(&mut out, m.folders[0].as_str());
        let mut i: usize = 1;
        while i < nf
            invariant
                1 <= i <= nf,
                nf == m.folders.len(),
                sv == crate::manifest::str_views(m.folders@),
                sv.len() == nf,
                out@ + render_strs_tail(sv, i as int) == head2 + render_strs(sv),
            decreases nf - i,
        {
            let ghost pre = out@;
            push_char(&mut out, ',');
            proof {
                assert(sv[i as int] == m.folders@[i as int]@);
            }
            append_quoted(&mut out, m.folders[i].as_str());
            proof {
                assert(render_strs_tail(sv, i as int) =~= seq![','] + quoted(sv[i as int])
                    + render_strs_tail(sv, i + 1));
                assert(out@ =~= pre + seq![','] + quoted(sv[i as int]));
                assert(out@ + render_strs_tail(sv, i + 1) =~= pre + render_strs_tail(
                    sv,
                    i as int,
                ));
            }
            i = i + 1;
        }
        proof {
            assert(render_strs_tail(sv, nf as int) =~= Seq::<char>::empty());
        }
    } else {
        proof {
            assert(render_strs(sv) =~= Seq::<char>::empty());
            assert(out@ =~= head2 + render_strs(sv));
        }
    }
    push_char(&mut out, ']');
    push_char(&mut out, ',');
    append_quoted(&mut out, "msg");
    push_char(&mut out, ':');
    append_quoted(&mut out, m.msg.as_str());
    push_char(&mut out, ',');
    append_quoted(&mut out, "author");
    push_char(&mut out, ':');
    append_quoted(&mut out, m.author.as_str());
    push_char(&mut out, '}');
    proof {
        assert(out@ =~= spec_render_manifest(m@));
    }
    out
}

// ---------------------------------------------------------------------
// Parsing
// ---------------------------------------------------------------------
/// The whitespace the parser skips between tokens.
pub open spec fn is_ws(c: char) -> bool {
    c == ' ' || c == '\n' || c == '\t' || c == '\r'
}

/// The input without its leading whitespace.
pub open spec fn strip_ws(s: Seq<char>) -> Seq<char>
    decreases s.len(),
{
    if s.len() > 0 && is_ws(s.first()) {
        strip_ws(s.drop_first())
    } else {
        s
    }
}

/// Whether the character is a hex digit, of either case.
pub open spec fn is_hex(c: char) -> bool {
    ('0' as u32 <= c as u32 && c as u32 <= '9' as u32) || ('a' as u32 <= c as u32 && c as u32
        <= 'f' as u32) || ('A' as u32 <= c as u32 && c as u32 <= 'F' as u32)
}

/// The value of a hex digit.
pub open spec fn hex_val(c: char) -> u32
    recommends
        is_hex(c),
{
    if '0' as u32 <= c as u32 && c as u32 <= '9' as u32 {
        (c as u32 - '0' as u32) as u32
    } else if 'a' as u32 <= c as u32 && c as u32 <= 'f' as u32 {
        (c as u32 - 'a' as u32 + 10) as u32
    } else {
        (c as u32 - 'A' as u32 + 10) as u32
    }
}

/// The character an escape introducer stands for, with the input length
/// it consumes, or `None` for an escape the format does not know.
pub open spec fn esc_decode(s: Seq<char>) -> Option<(char, int)> {
    if s.len() < 2 {
        None
    } else {
        let c = s[1];
        if c == '"' || c == '\\' || c == '/' {
            Some((c, 2))
        } else if c == 'n' {
            Some(('\n', 2))
        } else if c == 't' {
            Some(('\t', 2))
        } else if c == 'r' {
            Some(('\r', 2))
        } else if c == 'b' {
            Some(('\u{8}', 2))
        } else if c == 'f' {
            Some(('\u{c}', 2))
        } else if c == 'u' {
            if s.len() >= 6 && s[2] == '0' && s[3] == '0' && is_hex(s[4]) && is_hex(s[5]) {
                Some(((((hex_val(s[4]) * 16 + hex_val(s[5])) as u32) as char), 6))
            } else {
                None
            }
        } else {
            None
        }
    }
}

/// The contents of a quoted string whose opening quote is already
/// consumed, with the input after the closing quote.
pub open spec fn parse_str_body(s: Seq<char>) -> Option<(Seq<char>, Seq<char>)>
    decreases s.len(),
{
    if s.len() == 0 {
        None
    } else if s.first() == '"' {
        Some((Seq::<char>::empty(), s.drop_first()))
    } else if s.first() == '\\' {
        match esc_decode(s) {
            Some((c, k)) => if 0 < k <= s.len() {
                match parse_str_body(s.skip(k)) {
                    Some((t, rest)) => Some((seq![c] + t, rest)),
                    None => None,
                }
            } else {
                None
            },
            None => None,
        }
    } else {
        match parse_str_body(s.drop_first()) {
            Some((t, rest)) => Some((seq![s.first()] + t, rest)),
            None => None,
        }
    }
}

/// A quoted string after optional whitespace.
pub open spec fn parse_string(s: Seq<char>) -> Option<(Seq<char>, Seq<char>)> {
    let t = strip_ws(s);
    if t.len() > 0 && t.first() == '"' {
        parse_str_body(t.drop_first())
    } else {
        None
    }
}

/// The expected punctuation character after optional whitespace.
pub open spec fn expect_char(s: Seq<char>, c: char) -> Option<Seq<char>> {
    let t = strip_ws(s);
    if t.len() > 0 && t.first() == c {
        Some(t.drop_first())
    } else {
        None
    }
}

/// The expected object key followed by its colon.
pub open spec fn parse_exact_key(s: Seq<char>, key: Seq<char>) -> Option<Seq<char>> {
    match parse_string(s) {
        Some((k, r)) => if k == key {
            expect_char(r, ':')
        } else {
            None
        },
        None => None,
    }
}

/// One file entry: an object with `name`, `path` and `sha256`.
pub open spec fn parse_entry(s: Seq<char>) -> Option<(EntryV, Seq<char>)> {
    match expect_char(s, '{') {
        Some(r1) => match parse_exact_key(r1, "name"@) {
            Some(r2) => match parse_string(r2) {
                Some((name, r3)) => match expect_char(r3, ',') {
                    Some(r4) => match parse_exact_key(r4, "path"@) {
                        Some(r5) => match parse_string(r5) {
                            Some((path, r6)) => match expect_char(r6, ',') {
                                Some(r7) => match parse_exact_key(r7, "sha256"@) {
                                    Some(r8) => match parse_string(r8) {
                                        Some((sha256, r9)) => match expect_char(r9, '}') {
                                            Some(r10) => Some(
                                                (EntryV { name, path, sha256 }, r10),
                                            ),
                                            None => None,
                                        },
                                        None => None,
                                    },
                                    None => None,
                                },
                                None => None,
                            },
                            None => None,
                        },
                        None => None,
                    },
                    None => None,
                },
                None => None,
            },
            None => None,
        },
        None => None,
    }
}

/// The entries after the first: a comma and an entry each, up to the
/// closing bracket.
pub open spec fn parse_entries_rest(s: Seq<char>) -> Option<(Seq<EntryV>, Seq<char>)>
    decreases s.len(),
{
    let t = strip_ws(s);
    if t.len() == 0 {
        None
    } else if t.first() == ']' {
        Some((Seq::<EntryV>::empty(), t.drop_first()))
    } else if t.first() == ',' {
        match parse_entry(t.drop_first()) {
            Some((e, r)) => if r.len() < s.len() {
                match parse_entries_rest(r) {
                    Some((es, rest)) => Some((seq![e] + es, rest)),
                    None => None,
                }
            } else {
                None
            },
            None => None,
        }
    } else {
        None
    }
}

/// The entry list after its opening bracket, up to the closing bracket.
pub open spec fn parse_entries(s: Seq<char>) -> Option<(Seq<EntryV>, Seq<char>)> {
    let t = strip_ws(s);
    if t.len() == 0 {
        None
    } else if t.first() == ']' {
        Some((Seq::<EntryV>::empty(), t.drop_first()))
    } else {
        match parse_entry(s) {
            Some((e, r)) => match parse_entries_rest(r) {
                Some((es, rest)) => Some((seq![e] + es, rest)),
                None => None,
            },
            None => None,
        }
    }
}

/// The folder strings after the first: a comma and a string each, up to
/// the closing bracket.
pub open spec fn parse_strs_rest(s: Seq<char>) -> Option<(Seq<Seq<char>>, Seq<char>)>
    decreases s.len(),
{
    let t = strip_ws(s);
    if t.len() == 0 {
        None
    } else if t.first() == ']' {
        Some((Seq::<Seq<char>>::empty(), t.drop_first()))
    } else if t.first() == ',' {
        match parse_string(t.drop_first()) {
            Some((f, r)) => if r.len() < s.len() {
                match parse_strs_rest(r) {
                    Some((fs, rest)) => Some((seq![f] + fs, rest)),
                    None => None,
                }
            } else {
                None
            },
            None => None,
        }
    } else {
        None
    }
}

/// The folder list after its opening bracket, up to the closing bracket.
pub open spec fn parse_strs(s: Seq<char>) -> Option<(Seq<Seq<char>>, Seq<char>)> {
    let t = strip_ws(s);
    if t.len() == 0 {
        None
    } else if t.first() == ']' {
        Some((Seq::<Seq<char>>::empty(), t.drop_first()))
    } else {
        match parse_string(s) {
            Some((f, r)) => match parse_strs_rest(r) {
                Some((fs, rest)) => Some((seq![f] + fs, rest)),
                None => None,
            },
            None => None,
        }
    }
}

/// The `msg` value and the `author` field, and the object's closing
/// brace; the `msg` key and its colon are already consumed.
pub open spec fn parse_msg_author(s: Seq<char>) -> Option<((Seq<char>, Seq<char>), Seq<char>)> {
    match parse_string(s) {
        Some((msg, r1)) => match expect_char(r1, ',') {
            Some(r2) => match parse_exact_key(r2, "author"@) {
                Some(r3) => match parse_string(r3) {
                    Some((author, r4)) => match expect_char(r4, '}') {
                        Some(r5) => Some(((msg, author), r5)),
                        None => None,
                    },
                    None => None,
                },
                None => None,
            },
            None => None,
        },
        None => None,
    }
}

/// The opening of the manifest object up to and including its entry
/// list.
pub open spec fn parse_obj_files(s: Seq<char>) -> Option<(Seq<EntryV>, Seq<char>)> {
    match expect_char(s, '{') {
        Some(r1) => match parse_exact_key(r1, "files"@) {
            Some(r2) => match expect_char(r2, '[') {
                Some(r3) => parse_entries(r3),
                None => None,
            },
            None => None,
        },
        None => None,
    }
}

/// The manifest object after its entry list.  Either the `folders` field
/// follows, or — in the layout written before folders were recorded —
/// the `msg` field directly; then `msg` and `author` close the object.
pub open spec fn parse_obj_rest(s: Seq<char>, files: Seq<EntryV>) -> Option<(ManifestV, Seq<
    char,
>)> {
    match expect_char(s, ',') {
        Some(r1) => match parse_string(r1) {
            Some((key, r2)) => match expect_char(r2, ':') {
                Some(r3) => if key == "folders"@ {
                    match expect_char(r3, '[') {
                        Some(r4) => match parse_strs(r4) {
                            Some((folders, r5)) => match expect_char(r5, ',') {
                                Some(r6) => match parse_exact_key(r6, "msg"@) {
                                    Some(r7) => match parse_msg_author(r7) {
                                        Some(((msg, author), r8)) => Some(
                                            (ManifestV { files, folders, msg, author }, r8),
                                        ),
                                        None => None,
                                    },
                                    None => None,
                                },
                                None => None,
                            },
                            None => None,
                        },
                        None => None,
                    }
                } else if key == "msg"@ {
                    match parse_msg_author(r3) {
                        Some(((msg, author), r4)) => Some(
                            (
                                ManifestV {
                                    files,
                                    folders: Seq::<Seq<char>>::empty(),
                                    msg,
                                    author,
                                },
                                r4,
                            ),
                        ),
                        None => None,
                    }
                } else {
                    None
                },
                None => None,
            },
            None => None,
        },
        None => None,
    }
}

/// The whole manifest object.
pub open spec fn parse_obj(s: Seq<char>) -> Option<(ManifestV, Seq<char>)> {
    match parse_obj_files(s) {
        Some((files, r)) => parse_obj_rest(r, files),
        None => None,
    }
}

// ---------------------------------------------------------------------
// Round trip: parsing a rendered manifest gives it back
// ---------------------------------------------------------------------
proof fn lemma_strip_ws_nop(s: Seq<char>)
    requires
        s.len() == 0 || !is_ws(s.first()),
    ensures
        strip_ws(s) == s,
{
}

proof fn lemma_hex_digit_val(v: u8)
    requires
        v < 16,
    ensures
        is_hex(hex_digit(v)),
        hex_val(hex_digit(v)) == v as u32,
{
    if v < 10 {
        assert(hex_digit(v) == seq!['0', '1', '2', '3', '4', '5', '6', '7', '8', '9', 'a', 'b', 'c', 'd', 'e', 'f'][v as int]);
        assert(is_hex(hex_digit(v)) && hex_val(hex_digit(v)) == v as u32) by {
            if v == 0 {
            } else if v == 1 {
            } else if v == 2 {
            } else if v == 3 {
            } else if v == 4 {
            } else if v == 5 {
            } else if v == 6 {
            } else if v == 7 {
            } else if v == 8 {
            } else {
                assert(v == 9);
            }
        }
    } else {
        assert(is_hex(hex_digit(v)) && hex_val(hex_digit(v)) == v as u32) by {
            if v == 10 {
            } else if v == 11 {
            } else if v == 12 {
            } else if v == 13 {
            } else if v == 14 {
            } else {
                assert(v == 15);
            }
        }
    }
}

proof fn lemma_parse_str_body_esc(x: Seq<char>, rest: Seq<char>)
    ensures
        parse_str_body(esc_str(x) + seq!['"'] + rest) == Some((x, rest)),
    decreases x.len(),
{
    let s = esc_str(x) + seq!['"'] + rest;
    if x.len() == 0 {
        assert(esc_str(x) =~= Seq::<char>::empty());
        assert(s =~= seq!['"'] + rest);
        assert(s.first() == '"');
        assert(s.drop_first() =~= rest);
        assert(x =~= Seq::<char>::empty());
    } else {
        let c = x.first();
        let e = esc_char(c);
        let tail = esc_str(x.drop_first()) + seq!['"'] + rest;
        assert(esc_str(x) == e + esc_str(x.drop_first()));
        assert(s =~= e + tail);
        lemma_parse_str_body_esc(x.drop_first(), rest);
        if c == '"' {
            assert(s.first() == '\\' && s[1] == '"');
            assert(esc_decode(s) == Some(('"', 2 as int)));
            assert(s.skip(2) =~= tail);
        } else if c == '\\' {
            assert(s.first() == '\\' && s[1] == '\\');
            assert(esc_decode(s) == Some(('\\', 2 as int)));
            assert(s.skip(2) =~= tail);
        } else if c == '\n' {
            assert(s.first() == '\\' && s[1] == 'n');
            assert(esc_decode(s) == Some(('\n', 2 as int)));
            assert(s.skip(2) =~= tail);
        } else if c == '\t' {
            assert(s.first() == '\\' && s[1] == 't');
            assert(esc_decode(s) == Some(('\t', 2 as int)));
            assert(s.skip(2) =~= tail);
        } else if c == '\r' {
            assert(s.first() == '\\' && s[1] == 'r');
            assert(esc_decode(s) == Some(('\r', 2 as int)));
            assert(s.skip(2) =~= tail);
        } else if c == '\u{8}' {
            assert(s.first() == '\\' && s[1] == 'b');
            assert(esc_decode(s) == Some(('\u{8}', 2 as int)));
            assert(s.skip(2) =~= tail);
        } else if c == '\u{c}' {
            assert(s.first() == '\\' && s[1] == 'f');
            assert(esc_decode(s) == Some(('\u{c}', 2 as int)));
            assert(s.skip(2) =~= tail);
        } else if (c as u32) < 32 {
            let hi = (c as u32 / 16) as u8;
            let lo = (c as u32 % 16) as u8;
            assert(s.first() == '\\' && s[1] == 'u' && s[2] == '0' && s[3] == '0');
            assert(s[4] == hex_digit(hi) && s[5] == hex_digit(lo));
            lemma_hex_digit_val(hi);
            lemma_hex_digit_val(lo);
            assert(hex_val(s[4]) * 16 + hex_val(s[5]) == c as u32);
            vstd::utf8::char_u32_cast(c, c as u32);
            assert(esc_decode(s) == Some((c, 6 as int)));
            assert(s.skip(6) =~= tail);
        } else {
            assert(s.first() == c);
            assert(c != '"' && c != '\\');
            assert(s.drop_first() =~= tail);
        }
        assert(seq![c] + x.drop_first() =~= x);
    }
}

proof fn lemma_parse_string_quoted(x: Seq<char>, rest: Seq<char>)
    ensures
        parse_string(quoted(x) + rest) == Some((x, rest)),
{
    let s = quoted(x) + rest;
    assert(s =~= seq!['"'] + (esc_str(x) + seq!['"'] + rest));
    assert(s.first() == '"');
    lemma_strip_ws_nop(s);
    assert(s.drop_first() =~= esc_str(x) + seq!['"'] + rest);
    lemma_parse_str_body_esc(x, rest);
}

proof fn lemma_expect_char_lit(c: char, rest: Seq<char>)
    requires
        !is_ws(c),
    ensures
        expect_char(seq![c] + rest, c) == Some(rest),
{
    let s = seq![c] + rest;
    assert(s.first() == c);
    lemma_strip_ws_nop(s);
    assert(s.drop_first() =~= rest);
}

proof fn lemma_parse_exact_key_quoted(k: Seq<char>, rest: Seq<char>)
    ensures
        parse_exact_key(quoted(k) + seq![':'] + rest, k) == Some(rest),
{
    assert(quoted(k) + seq![':'] + rest =~= quoted(k) + (seq![':'] + rest));
    lemma_parse_string_quoted(k, seq![':'] + rest);
    lemma_expect_char_lit(':', rest);
}

#[verifier::rlimit(100)]
proof fn lemma_parse_entry_render(e: EntryV, rest: Seq<char>)
    ensures
        parse_entry(render_entry(e) + rest) == Some((e, rest)),
{
    let r10 = rest;
    let r9 = seq!['}'] + r10;
    let r8 = quoted(e.sha256) + r9;
    let r7 = quoted("sha256"@) + seq![':'] + r8;
    let r6 = seq![','] + r7;
    let r5 = quoted(e.path) + r6;
    let r4 = quoted("path"@) + seq![':'] + r5;
    let r3 = seq![','] + r4;
    let r2 = quoted(e.name) + r3;
    let r1 = quoted("name"@) + seq![':'] + r2;
    let s = render_entry(e) + rest;
    assert(s =~= seq!['{'] + r1);
    lemma_expect_char_lit('{', r1);
    lemma_parse_exact_key_quoted("name"@, r2);
    lemma_parse_string_quoted(e.name, r3);
    assert(r3 =~= seq![','] + r4);
    lemma_expect_char_lit(',', r4);
    lemma_parse_exact_key_quoted("path"@, r5);
    lemma_parse_string_quoted(e.path, r6);
    assert(r6 =~= seq![','] + r7);
    lemma_expect_char_lit(',', r7);
    lemma_parse_exact_key_quoted("sha256"@, r8);
    lemma_parse_string_quoted(e.sha256, r9);
    assert(r9 =~= seq!['}'] + r10);
    lemma_expect_char_lit('}', r10);
    assert((EntryV { name: e.name, path: e.path, sha256: e.sha256 }) == e);
}

#[verifier::rlimit(100)]
proof fn lemma_parse_entries_rest_render(files: Seq<EntryV>, i: int, rest: Seq<char>)
    requires
        1 <= i <= files.len(),
    ensures
        parse_entries_rest(render_entries_tail(files, i) + seq![']'] + rest) == Some(
            (files.skip(i), rest),
        ),
    decreases files.len() - i,
{
    let s = render_entries_tail(files, i) + seq![']'] + rest;
    if i == files.len() {
        assert(render_entries_tail(files, i) =~= Seq::<char>::empty());
        assert(s =~= seq![']'] + rest);
        assert(s.first() == ']');
        lemma_strip_ws_nop(s);
        assert(s.drop_first() =~= rest);
        assert(files.skip(i) =~= Seq::<EntryV>::empty());
    } else {
        let r = render_entries_tail(files, i + 1) + seq![']'] + rest;
        assert(s =~= seq![','] + (render_entry(files[i]) + r));
        assert(s.first() == ',');
        lemma_strip_ws_nop(s);
        assert(s.drop_first() =~= render_entry(files[i]) + r);
        lemma_parse_entry_render(files[i], r);
        assert(r.len() < s.len());
        lemma_parse_entries_rest_render(files, i + 1, rest);
        assert(seq![files[i]] + files.skip(i + 1) =~= files.skip(i));
    }
}

#[verifier::rlimit(100)]
proof fn lemma_parse_entries_render(files: Seq<EntryV>, rest: Seq<char>)
    ensures
        parse_entries(render_entries(files) + seq![']'] + rest) == Some((files, rest)),
{
    let s = render_entries(files) + seq![']'] + rest;
    if files.len() == 0 {
        assert(s =~= seq![']'] + rest);
        assert(s.first() == ']');
        lemma_strip_ws_nop(s);
        assert(s.drop_first() =~= rest);
        assert(files =~= Seq::<EntryV>::empty());
    } else {
        let r = render_entries_tail(files, 1) + seq![']'] + rest;
        assert(s =~= render_entry(files[0]) + r);
        assert(render_entry(files[0]).first() == '{');
        assert(s.first() == '{');
        lemma_strip_ws_nop(s);
        lemma_parse_entry_render(files[0], r);
        lemma_parse_entries_rest_render(files, 1, rest);
        assert(seq![files[0]] + files.skip(1) =~= files);
    }
}

#[verifier::rlimit(100)]
proof fn lemma_parse_strs_rest_render(ss: Seq<Seq<char>>, i: int, rest: Seq<char>)
    requires
        1 <= i <= ss.len(),
    ensures
        parse_strs_rest(render_strs_tail(ss, i) + seq![']'] + rest) == Some((ss.skip(i), rest)),
    decreases ss.len() - i,
{
    let s = render_strs_tail(ss, i) + seq![']'] + rest;
    if i == ss.len() {
        assert(render_strs_tail(ss, i) =~= Seq::<char>::empty());
        assert(s =~= seq![']'] + rest);
        assert(s.first() == ']');
        lemma_strip_ws_nop(s);
        assert(s.drop_first() =~= rest);
        assert(ss.skip(i) =~= Seq::<Seq<char>>::empty());
    } else {
        let r = render_strs_tail(ss, i + 1) + seq![']'] + rest;
        assert(s =~= seq![','] + (quoted(ss[i]) + r));
        assert(s.first() == ',');
        lemma_strip_ws_nop(s);
        assert(s.drop_first() =~= quoted(ss[i]) + r);
        lemma_parse_string_quoted(ss[i], r);
        assert(r.len() < s.len());
        lemma_parse_strs_rest_render(ss, i + 1, rest);
        assert(seq![ss[i]] + ss.skip(i + 1) =~= ss.skip(i));
    }
}

#[verifier::rlimit(100)]
proof fn lemma_parse_strs_render(ss: Seq<Seq<char>>, rest: Seq<char>)
    ensures
        parse_strs(render_strs(ss) + seq![']'] + rest) == Some((ss, rest)),
{
    let s = render_strs(ss) + seq![']'] + rest;
    if ss.len() == 0 {
        assert(s =~= seq![']'] + rest);
        assert(s.first() == ']');
        lemma_strip_ws_nop(s);
        assert(s.drop_first() =~= rest);
        assert(ss =~= Seq::<Seq<char>>::empty());
    } else {
        let r = render_strs_tail(ss, 1) + seq![']'] + rest;
        assert(s =~= quoted(ss[0]) + r);
        assert(quoted(ss[0]).first() == '"');
        assert(s.first() == '"');
        lemma_strip_ws_nop(s);
        lemma_parse_string_quoted(ss[0], r);
        lemma_parse_strs_rest_render(ss, 1, rest);
        assert(seq![ss[0]] + ss.skip(1) =~= ss);
    }
}

#[verifier::rlimit(100)]
proof fn lemma_parse_msg_author_render(msg: Seq<char>, author: Seq<char>, rest: Seq<char>)
    ensures
        parse_msg_author(
            quoted(msg) + seq![','] + quoted("author"@) + seq![':'] + quoted(author)
                + seq!['}'] + rest,
        ) == Some(((msg, author), rest)),
{
    let r5 = rest;
    let r4 = seq!['}'] + r5;
    let r3 = quoted(author) + r4;
    let r2 = quoted("author"@) + seq![':'] + r3;
    let r1 = seq![','] + r2;
    let s = quoted(msg) + seq![','] + quoted("author"@) + seq![':'] + quoted(author)
        + seq!['}'] + rest;
    assert(s =~= quoted(msg) + r1);
    lemma_parse_string_quoted(msg, r1);
    assert(r1 =~= seq![','] + r2);
    lemma_expect_char_lit(',', r2);
    lemma_parse_exact_key_quoted("author"@, r3);
    lemma_parse_string_quoted(author, r4);
    assert(r4 =~= seq!['}'] + r5);
    lemma_expect_char_lit('}', r5);
}

#[verifier::rlimit(100)]
proof fn lemma_parse_obj_files_render(m: ManifestV, rest: Seq<char>)
    ensures
        parse_obj_files(
            seq!['{'] + quoted("files"@) + seq![':', '['] + render_entries(m.files)
                + seq![']'] + rest,
        ) == Some((m.files, rest)),
{
    let r0 = render_entries(m.files) + seq![']'] + rest;
    let rb = seq!['['] + r0;
    let ra = quoted("files"@) + seq![':'] + rb;
    let s = seq!['{'] + quoted("files"@) + seq![':', '['] + render_entries(m.files)
        + seq![']'] + rest;
    assert(s =~= seq!['{'] + ra);
    lemma_expect_char_lit('{', ra);
    lemma_parse_exact_key_quoted("files"@, rb);
    assert(rb =~= seq!['['] + r0);
    lemma_expect_char_lit('[', r0);
    lemma_parse_entries_render(m.files, rest);
}

#[verifier::rlimit(100)]
proof fn lemma_parse_obj_rest_render(m: ManifestV)
    ensures
        parse_obj_rest(
            seq![','] + quoted("folders"@) + seq![':', '['] + render_strs(m.folders)
                + seq![']', ','] + quoted("msg"@) + seq![':'] + quoted(m.msg) + seq![',']
                + quoted("author"@) + seq![':'] + quoted(m.author) + seq!['}'],
            m.files,
        ) == Some((m, Seq::<char>::empty())),
{
    let empty = Seq::<char>::empty();
    let r12 = seq!['}'] + empty;
    let r11 = quoted(m.author) + r12;
    let r10 = quoted("author"@) + seq![':'] + r11;
    let r9 = seq![','] + r10;
    let r8 = quoted(m.msg) + r9;
    let r7 = quoted("msg"@) + seq![':'] + r8;
    let r6 = seq![','] + r7;
    let r5 = render_strs(m.folders) + seq![']'] + r6;
    let r4 = seq!['['] + r5;
    let r3 = seq![':'] + r4;
    let r2 = quoted("folders"@) + r3;
    let s = seq![','] + quoted("folders"@) + seq![':', '['] + render_strs(m.folders)
        + seq![']', ','] + quoted("msg"@) + seq![':'] + quoted(m.msg) + seq![','] + quoted(
        "author"@,
    ) + seq![':'] + quoted(m.author) + seq!['}'];
    assert(s =~= seq![','] + r2);
    lemma_expect_char_lit(',', r2);
    lemma_parse_string_quoted("folders"@, r3);
    assert(r3 =~= seq![':'] + r4);
    lemma_expect_char_lit(':', r4);
    assert(r4 =~= seq!['['] + r5);
    lemma_expect_char_lit('[', r5);
    lemma_parse_strs_render(m.folders, r6);
    assert(r6 =~= seq![','] + r7);
    lemma_expect_char_lit(',', r7);
    lemma_parse_exact_key_quoted("msg"@, r8);
    assert(r8 =~= quoted(m.msg) + seq![','] + quoted("author"@) + seq![':'] + quoted(m.author)
        + seq!['}'] + empty);
    lemma_parse_msg_author_render(m.msg, m.author, empty);
    assert((ManifestV { files: m.files, folders: m.folders, msg: m.msg, author: m.author })
        == m);
}

/// Parsing a rendered manifest gives exactly the manifest back, with
/// nothing left over: persisting a loaded baseline reproduces the file,
/// so storing after loading, any number of times, never changes it.
#[verifier::rlimit(100)]
pub proof fn lemma_render_parse_roundtrip(m: ManifestV)
    ensures
        spec_parse_manifest(spec_render_manifest(m)) == Some(m),
{
    let empty = Seq::<char>::empty();
    let s = spec_render_manifest(m);
    let head = seq!['{'] + quoted("files"@) + seq![':', '['] + render_entries(m.files)
        + seq![']'];
    let tail = seq![','] + quoted("folders"@) + seq![':', '['] + render_strs(m.folders)
        + seq![']', ','] + quoted("msg"@) + seq![':'] + quoted(m.msg) + seq![','] + quoted(
        "author"@,
    ) + seq![':'] + quoted(m.author) + seq!['}'];
    assert(head + tail =~= seq!['{'] + quoted("files"@) + seq![':', '['] + render_entries(
        m.files,
    ) + seq![']'] + tail);
    assert(s =~= head + tail);
    lemma_parse_obj_files_render(m, tail);
    lemma_parse_obj_rest_render(m);
    assert(parse_obj(s) == Some((m, empty)));
    assert(strip_ws(empty).len() == 0);
}

/// A stored baseline is a fixed point of load-then-store: loading a
/// rendered manifest and rendering what was loaded writes the same text,
/// so re-persisting a loaded baseline, any number of times, never changes
/// the file.
pub proof fn lemma_store_after_load_stable(m: ManifestV)
    ensures
        match spec_parse_manifest(spec_render_manifest(m)) {
            Some(m2) => spec_render_manifest(m2) == spec_render_manifest(m),
            None => false,
        },
{
    lemma_render_parse_roundtrip(m);
}

/// The parse of a whole document: the manifest object with nothing but
/// whitespace after it.
pub open spec fn spec_parse_manifest(s: Seq<char>) -> Option<ManifestV> {
    match parse_obj(s) {
        Some((m, rest)) => if strip_ws(rest).len() == 0 {
            Some(m)
        } else {
            None
        },
        None => None,
    }
}

// ---------------------------------------------------------------------
// The executable parser
// ---------------------------------------------------------------------
/// A parse result with a prefix put before its contents.
pub open spec fn prepend_chars(
    prefix: Seq<char>,
    o: Option<(Seq<char>, Seq<char>)>,
) -> Option<(Seq<char>, Seq<char>)> {
    match o {
        Some((t, rest)) => Some((prefix + t, rest)),
        None => None,
    }
}

proof fn lemma_prepend_chars_assoc(a: Seq<char>, b: Seq<char>, o: Option<(Seq<char>, Seq<char>)>)
    ensures
        prepend_chars(a + b, o) == prepend_chars(a, prepend_chars(b, o)),
{
    match o {
        Some((t, r)) => {
            assert((a + b) + t =~= a + (b + t));
        },
        None => {},
    }
}

fn ws_char(c: char) -> (b: bool)
    ensures
        b == is_ws(c),
{
    c == ' ' || c == '\n' || c == '\t' || c == '\r'
}

/// The index after the leading whitespace.
fn skip_ws_idx(v: &Vec<char>, i: usize) -> (j: usize)
    requires
        i <= v.len(),
    ensures
        i <= j <= v@.len(),
        v@.skip(j as int) == strip_ws(v@.skip(i as int)),
{
    let n = v.len();
    let mut j = i;
    loop
        invariant
            i <= j <= n,
            n == v@.len(),
            strip_ws(v@.skip(i as int)) == strip_ws(v@.skip(j as int)),
        ensures
            i <= j <= n,
            strip_ws(v@.skip(i as int)) == strip_ws(v@.skip(j as int)),
            j == n || !is_ws(v@[j as int]),
        decreases n - j,
    {
        if j >= n {
            break ;
        }
        let c = v[j];
        if !ws_char(c) {
            break ;
        }
        proof {
            assert(v@.skip(j as int).first() == v@[j as int]);
            assert(v@.skip(j as int).drop_first() =~= v@.skip(j + 1));
        }
        j = j + 1;
    }
    proof {
        if j == n {
            assert(v@.skip(j as int) =~= Seq::<char>::empty());
        } else {
            assert(v@.skip(j as int).first() == v@[j as int]);
        }
        assert(strip_ws(v@.skip(j as int)) == v@.skip(j as int));
    }
    j
}

fn hex_val_of(c: char) -> (r: Option<u8>)
    ensures
        match r {
            Some(x) => is_hex(c) && x < 16 && x as u32 == hex_val(c),
            None => !is_hex(c),
        },
{
    let u = c as u32;
    if u >= 48 && u <= 57 {
        Some((u - 48) as u8)
    } else if u >= 97 && u <= 102 {
        Some((u - 97 + 10) as u8)
    } else if u >= 65 && u <= 70 {
        Some((u - 65 + 10) as u8)
    } else {
        None
    }
}

/// The contents of a quoted string whose opening quote is consumed.
fn parse_str_body_idx(v: &Vec<char>, start: usize) -> (r: Option<(String, usize)>)
    requires
        start <= v.len(),
    ensures
        match r {
            Some(p) => start < p.1 <= v@.len() && parse_str_body(v@.skip(start as int)) == Some(
                (p.0@, v@.skip(p.1 as int)),
            ),
            None => parse_str_body(v@.skip(start as int)) is None,
        },
{
    let n = v.len();
    let mut out = String::new();
    let mut cur = start;
    proof {
        assert(out@ =~= Seq::<char>::empty());
        assert(prepend_chars(out@, parse_str_body(v@.skip(start as int))) == parse_str_body(
            v@.skip(start as int),
        )) by {
            match parse_str_body(v@.skip(start as int)) {
                Some((t, r)) => {
                    assert(Seq::<char>::empty() + t =~= t);
                },
                None => {},
            }
        }
    }
    loop
        invariant
            start <= cur <= n,
            n == v@.len(),
            parse_str_body(v@.skip(start as int)) == prepend_chars(
                out@,
                parse_str_body(v@.skip(cur as int)),
            ),
        decreases n - cur,
    {
        let ghost s = v@.skip(cur as int);
        if cur >= n {
            proof {
                assert(s =~= Seq::<char>::empty());
            }
            return None;
        }
        let c = v[cur];
        proof {
            assert(s.first() == v@[cur as int]);
        }
        if c == '"' {
            proof {
                assert(s.drop_first() =~= v@.skip(cur + 1));
                assert(parse_str_body(s) == Some((Seq::<char>::empty(), v@.skip(cur + 1))));
                assert(out@ + Seq::<char>::empty() =~= out@);
            }
            return Some((out, cur + 1));
        }
        let ghost pre = out@;
        if c == '\\' {
            if cur + 1 >= n {
                proof {
                    assert(s.len() < 2);
                }
                return None;
            }
            let d = v[cur + 1];
            proof {
                assert(s[1] == v@[cur + 1]);
            }
            let ch: char;
            let k: usize;
            if d == '"' || d == '\\' || d == '/' {
                ch = d;
                k = 2;
            } else if d == 'n' {
                ch = '\n';
                k = 2;
            } else if d == 't' {
                ch = '\t';
                k = 2;
            } else if d == 'r' {
                ch = '\r';
                k = 2;
            } else if d == 'b' {
                ch = '\u{8}';
                k = 2;
            } else if d == 'f' {
                ch = '\u{c}';
                k = 2;
            } else if d == 'u' {
                if n - cur < 6 {
                    proof {
                        assert(s.len() < 6);
                    }
                    return None;
                }
                proof {
                    assert(s.len() >= 6);
                    assert(s[2] == v@[cur + 2] && s[3] == v@[cur + 3] && s[4] == v@[cur + 4]
                        && s[5] == v@[cur + 5]);
                }
                if v[cur + 2] != '0' || v[cur + 3] != '0' {
                    return None;
                }
                let h1 = hex_val_of(v[cur + 4]);
                let h2 = hex_val_of(v[cur + 5]);
                match (h1, h2) {
                    (Some(a), Some(b)) => {
                        let val: u8 = a * 16 + b;
                        ch = val as char;
                        k = 6;
                        proof {
                            assert(val as u32 == hex_val(s[4]) * 16 + hex_val(s[5]));
                            assert(ch == ((hex_val(s[4]) * 16 + hex_val(s[5])) as u32) as char);
                        }
                    },
                    _ => {
                        return None;
                    },
                }
            } else {
                return None;
            }
            proof {
                assert(esc_decode(s) == Some((ch, k as int)));
                assert(s.skip(k as int) =~= v@.skip(cur + k));
                assert(parse_str_body(s) == prepend_chars(
                    seq![ch],
                    parse_str_body(v@.skip(cur + k)),
                ));
                lemma_prepend_chars_assoc(pre, seq![ch], parse_str_body(v@.skip(cur + k)));
                assert(pre + seq![ch] =~= pre.push(ch));
            }
            push_char(&mut out, ch);
            proof {
                assert(out@ =~= pre + seq![ch]);
            }
            cur = cur + k;
        } else {
            proof {
                assert(s.drop_first() =~= v@.skip(cur + 1));
                assert(parse_str_body(s) == prepend_chars(
                    seq![c],
                    parse_str_body(v@.skip(cur + 1)),
                ));
                lemma_prepend_chars_assoc(pre, seq![c], parse_str_body(v@.skip(cur + 1)));
            }
            push_char(&mut out, c);
            proof {
                assert(out@ =~= pre + seq![c]);
            }
            cur = cur + 1;
        }
    }
}

/// A quoted string after optional whitespace.
fn parse_string_idx(v: &Vec<char>, i: usize) -> (r: Option<(String, usize)>)
    requires
        i <= v.len(),
    ensures
        match r {
            Some(p) => i < p.1 <= v@.len() && parse_string(v@.skip(i as int)) == Some(
                (p.0@, v@.skip(p.1 as int)),
            ),
            None => parse_string(v@.skip(i as int)) is None,
        },
{
    let j = skip_ws_idx(v, i);
    let ghost t = strip_ws(v@.skip(i as int));
    if j >= v.len() {
        proof {
            assert(t =~= Seq::<char>::empty());
        }
        return None;
    }
    proof {
        assert(t.first() == v@[j as int]);
    }
    if v[j] != '"' {
        return None;
    }
    proof {
        assert(t.drop_first() =~= v@.skip(j + 1));
    }
    parse_str_body_idx(v, j + 1)
}

/// The expected punctuation character after optional whitespace.
fn expect_char_idx(v: &Vec<char>, i: usize, c: char) -> (r: Option<usize>)
    requires
        i <= v.len(),
    ensures
        match r {
            Some(j) => i < j <= v@.len() && expect_char(v@.skip(i as int), c) == Some(
                v@.skip(j as int),
            ),
            None => expect_char(v@.skip(i as int), c) is None,
        },
{
    let j = skip_ws_idx(v, i);
    let ghost t = strip_ws(v@.skip(i as int));
    if j >= v.len() {
        proof {
            assert(t =~= Seq::<char>::empty());
        }
        return None;
    }
    proof {
        assert(t.first() == v@[j as int]);
    }
    if v[j] != c {
        return None;
    }
    proof {
        assert(t.drop_first() =~= v@.skip(j + 1));
    }
    Some(j + 1)
}

/// The expected object key followed by its colon.
fn parse_exact_key_idx(v: &Vec<char>, i: usize, key: &str) -> (r: Option<usize>)
    requires
        i <= v.len(),
    ensures
        match r {
            Some(j) => i < j <= v@.len() && parse_exact_key(v@.skip(i as int), key@) == Some(
                v@.skip(j as int),
            ),
            None => parse_exact_key(v@.skip(i as int), key@) is None,
        },
{
    match parse_string_idx(v, i) {
        Some((k, j)) => {
            if crate::order::str_eq(k.as_str(), key) {
                expect_char_idx(v, j, ':')
            } else {
                None
            }
        },
        None => None,
    }
}

/// One file entry.
fn parse_entry_idx(v: &Vec<char>, i: usize) -> (r: Option<(FileEntry, usize)>)
    requires
        i <= v.len(),
    ensures
        match r {
            Some(p) => i < p.1 <= v@.len() && parse_entry(v@.skip(i as int)) == Some(
                (p.0@, v@.skip(p.1 as int)),
            ),
            None => parse_entry(v@.skip(i as int)) is None,
        },
{
    let r1 = match expect_char_idx(v, i, '{') {
        Some(j) => j,
        None => {
            return None;
        },
    };
    let r2 = match parse_exact_key_idx(v, r1, "name") {
        Some(j) => j,
        None => {
            return None;
        },
    };
    let (name, r3) = match parse_string_idx(v, r2) {
        Some(p) => p,
        None => {
            return None;
        },
    };
    let r4 = match expect_char_idx(v, r3, ',') {
        Some(j) => j,
        None => {
            return None;
        },
    };
    let r5 = match parse_exact_key_idx(v, r4, "path") {
        Some(j) => j,
        None => {
            return None;
        },
    };
    let (path, r6) = match parse_string_idx(v, r5) {
        Some(p) => p,
        None => {
            return None;
        },
    };
    let r7 = match expect_char_idx(v, r6, ',') {
        Some(j) => j,
        None => {
            return None;
        },
    };
    let r8 = match parse_exact_key_idx(v, r7, "sha256") {
        Some(j) => j,
        None => {
            return None;
        },
    };
    let (sha256, r9) = match parse_string_idx(v, r8) {
        Some(p) => p,
        None => {
            return None;
        },
    };
    let r10 = match expect_char_idx(v, r9, '}') {
        Some(j) => j,
        None => {
            return None;
        },
    };
    Some((FileEntry { name, path, sha256 }, r10))
}

/// A parse result for entries with a prefix put before them.
pub open spec fn prepend_entries(
    prefix: Seq<EntryV>,
    o: Option<(Seq<EntryV>, Seq<char>)>,
) -> Option<(Seq<EntryV>, Seq<char>)> {
    match o {
        Some((es, rest)) => Some((prefix + es, rest)),
        None => None,
    }
}

/// The entry list after its opening bracket.
fn parse_entries_idx(v: &Vec<char>, i: usize) -> (r: Option<(Vec<FileEntry>, usize)>)
    requires
        i <= v.len(),
    ensures
        match r {
            Some(p) => i <= p.1 <= v@.len() && parse_entries(v@.skip(i as int)) == Some(
                (entry_views(p.0@), v@.skip(p.1 as int)),
            ),
            None => parse_entries(v@.skip(i as int)) is None,
        },
{
    let n = v.len();
    let mut acc: Vec<FileEntry> = Vec::new();
    let j0 = skip_ws_idx(v, i);
    let ghost t = strip_ws(v@.skip(i as int));
    if j0 >= n {
        proof {
            assert(t =~= Seq::<char>::empty());
        }
        return None;
    }
    proof {
        assert(t.first() == v@[j0 as int]);
    }
    if v[j0] == ']' {
        proof {
            assert(t.drop_first() =~= v@.skip(j0 + 1));
            assert(entry_views(acc@) =~= Seq::<EntryV>::empty());
        }
        return Some((acc, j0 + 1));
    }
    let mut cur: usize;
    match parse_entry_idx(v, i) {
        Some((e, j)) => {
            acc.push(e);
            cur = j;
            proof {
                assert(entry_views(acc@) =~= seq![e@]);
            }
        },
        None => {
            return None;
        },
    }
    loop
        invariant
            i < cur <= n,
            n == v@.len(),
            acc@.len() >= 1,
            parse_entries(v@.skip(i as int)) == prepend_entries(
                entry_views(acc@),
                parse_entries_rest(v@.skip(cur as int)),
            ),
        decreases n - cur,
    {
        let ghost s = v@.skip(cur as int);
        let j1 = skip_ws_idx(v, cur);
        let ghost t2 = strip_ws(s);
        if j1 >= n {
            proof {
                assert(t2 =~= Seq::<char>::empty());
            }
            return None;
        }
        proof {
            assert(t2.first() == v@[j1 as int]);
        }
        let c = v[j1];
        if c == ']' {
            proof {
                assert(t2.drop_first() =~= v@.skip(j1 + 1));
                assert(parse_entries_rest(s) == Some(
                    (Seq::<EntryV>::empty(), v@.skip(j1 + 1)),
                ));
                assert(entry_views(acc@) + Seq::<EntryV>::empty() =~= entry_views(acc@));
            }
            return Some((acc, j1 + 1));
        }
        if c != ',' {
            return None;
        }
        proof {
            assert(t2.drop_first() =~= v@.skip(j1 + 1));
        }
        match parse_entry_idx(v, j1 + 1) {
            Some((e, j)) => {
                let ghost preacc = entry_views(acc@);
                proof {
                    assert(v@.skip(j as int).len() < s.len());
                    assert(parse_entries_rest(s) == prepend_entries(
                        seq![e@],
                        parse_entries_rest(v@.skip(j as int)),
                    ));
                    match parse_entries_rest(v@.skip(j as int)) {
                        Some((es, r)) => {
                            assert((preacc + seq![e@]) + es =~= preacc + (seq![e@] + es));
                        },
                        None => {},
                    }
                }
                acc.push(e);
                proof {
                    assert(entry_views(acc@) =~= preacc + seq![e@]);
                }
                cur = j;
            },
            None => {
                return None;
            },
        }
    }
}

/// A parse result for strings with a prefix put before them.
pub open spec fn prepend_strs(
    prefix: Seq<Seq<char>>,
    o: Option<(Seq<Seq<char>>, Seq<char>)>,
) -> Option<(Seq<Seq<char>>, Seq<char>)> {
    match o {
        Some((ss, rest)) => Some((prefix + ss, rest)),
        None => None,
    }
}

/// The folder list after its opening bracket.
fn parse_strs_idx(v: &Vec<char>, i: usize) -> (r: Option<(Vec<String>, usize)>)
    requires
        i <= v.len(),
    ensures
        match r {
            Some(p) => i <= p.1 <= v@.len() && parse_strs(v@.skip(i as int)) == Some(
                (crate::manifest::str_views(p.0@), v@.skip(p.1 as int)),
            ),
            None => parse_strs(v@.skip(i as int)) is None,
        },
{
    let n = v.len();
    let mut acc: Vec<String> = Vec::new();
    let j0 = skip_ws_idx(v, i);
    let ghost t = strip_ws(v@.skip(i as int));
    if j0 >= n {
        proof {
            assert(t =~= Seq::<char>::empty());
        }
        return None;
    }
    proof {
        assert(t.first() == v@[j0 as int]);
    }
    if v[j0] == ']' {
        proof {
            assert(t.drop_first() =~= v@.skip(j0 + 1));
            assert(crate::manifest::str_views(acc@) =~= Seq::<Seq<char>>::empty());
        }
        return Some((acc, j0 + 1));
    }
    let mut cur: usize;
    match parse_string_idx(v, i) {
        Some((f, j)) => {
            acc.push(f);
            cur = j;
            proof {
                assert(crate::manifest::str_views(acc@) =~= seq![acc@[0]@]);
            }
        },
        None => {
            return None;
        },
    }
    loop
        invariant
            i < cur <= n,
            n == v@.len(),
            acc@.len() >= 1,
            parse_strs(v@.skip(i as int)) == prepend_strs(
                crate::manifest::str_views(acc@),
                parse_strs_rest(v@.skip(cur as int)),
            ),
        decreases n - cur,
    {
        let ghost s = v@.skip(cur as int);
        let j1 = skip_ws_idx(v, cur);
        let ghost t2 = strip_ws(s);
        if j1 >= n {
            proof {
                assert(t2 =~= Seq::<char>::empty());
            }
            return None;
        }
        proof {
            assert(t2.first() == v@[j1 as int]);
        }
        let c = v[j1];
        if c == ']' {
            proof {
                assert(t2.drop_first() =~= v@.skip(j1 + 1));
                assert(parse_strs_rest(s) == Some(
                    (Seq::<Seq<char>>::empty(), v@.skip(j1 + 1)),
                ));
                assert(crate::manifest::str_views(acc@) + Seq::<Seq<char>>::empty()
                    =~= crate::manifest::str_views(acc@));
            }
            return Some((acc, j1 + 1));
        }
        if c != ',' {
            return None;
        }
        proof {
            assert(t2.drop_first() =~= v@.skip(j1 + 1));
        }
        match parse_string_idx(v, j1 + 1) {
            Some((f, j)) => {
                let ghost preacc = crate::manifest::str_views(acc@);
                let ghost fv = f@;
                proof {
                    assert(v@.skip(j as int).len() < s.len());
                    assert(parse_strs_rest(s) == prepend_strs(
                        seq![fv],
                        parse_strs_rest(v@.skip(j as int)),
                    ));
                    match parse_strs_rest(v@.skip(j as int)) {
                        Some((ss, r)) => {
                            assert((preacc + seq![fv]) + ss =~= preacc + (seq![fv] + ss));
                        },
                        None => {},
                    }
                }
                acc.push(f);
                proof {
                    assert(crate::manifest::str_views(acc@) =~= preacc + seq![fv]);
                }
                cur = j;
            },
            None => {
                return None;
            },
        }
    }
}

/// The `msg` value, the `author` field and the closing brace.
fn parse_msg_author_idx(v: &Vec<char>, i: usize) -> (r: Option<((String, String), usize)>)
    requires
        i <= v.len(),
    ensures
        match r {
            Some(p) => i < p.1 <= v@.len() && parse_msg_author(v@.skip(i as int)) == Some(
                ((p.0.0@, p.0.1@), v@.skip(p.1 as int)),
            ),
            None => parse_msg_author(v@.skip(i as int)) is None,
        },
{
    let (msg, r1) = match parse_string_idx(v, i) {
        Some(p) => p,
        None => {
            return None;
        },
    };
    let r2 = match expect_char_idx(v, r1, ',') {
        Some(j) => j,
        None => {
            return None;
        },
    };
    let r3 = match parse_exact_key_idx(v, r2, "author") {
        Some(j) => j,
        None => {
            return None;
        },
    };
    let (author, r4) = match parse_string_idx(v, r3) {
        Some(p) => p,
        None => {
            return None;
        },
    };
    let r5 = match expect_char_idx(v, r4, '}') {
        Some(j) => j,
        None => {
            return None;
        },
    };
    Some(((msg, author), r5))
}

/// Parse a whole manifest document.
#[verifier::rlimit(100)]
pub fn parse_manifest_chars(text: &Vec<char>) -> (r: Option<Manifest>)
    ensures
        match r {
            Some(m) => spec_parse_manifest(text@) == Some(m@),
            None => spec_parse_manifest(text@) is None,
        },
{
    proof {
        assert(text@.skip(0) =~= text@);
    }
    let r1 = match expect_char_idx(text, 0, '{') {
        Some(j) => j,
        None => {
            return None;
        },
    };
    let r2 = match parse_exact_key_idx(text, r1, "files") {
        Some(j) => j,
        None => {
            return None;
        },
    };
    let r3 = match expect_char_idx(text, r2, '[') {
        Some(j) => j,
        None => {
            return None;
        },
    };
    let (files, r4) = match parse_entries_idx(text, r3) {
        Some(p) => p,
        None => {
            return None;
        },
    };
    let ghost filesv = entry_views(files@);
    let r5 = match expect_char_idx(text, r4, ',') {
        Some(j) => j,
        None => {
            return None;
        },
    };
    let (key, r6) = match parse_string_idx(text, r5) {
        Some(p) => p,
        None => {
            return None;
        },
    };
    let r7 = match expect_char_idx(text, r6, ':') {
        Some(j) => j,
        None => {
            return None;
        },
    };
    let is_folders = crate::order::str_eq(key.as_str(), "folders");
    let is_msg = crate::order::str_eq(key.as_str(), "msg");
    let m: Manifest;
    let rend: usize;
    if is_folders {
        let r8 = match expect_char_idx(text, r7, '[') {
            Some(j) => j,
            None => {
                return None;
            },
        };
        let (folders, r9) = match parse_strs_idx(text, r8) {
            Some(p) => p,
            None => {
                return None;
            },
        };
        let r10 = match expect_char_idx(text, r9, ',') {
            Some(j) => j,
            None => {
                return None;
            },
        };
        let r11 = match parse_exact_key_idx(text, r10, "msg") {
            Some(j) => j,
            None => {
                return None;
            },
        };
        let ((msg, author), r12) = match parse_msg_author_idx(text, r11) {
            Some(p) => p,
            None => {
                return None;
            },
        };
        m = Manifest { files, folders, msg, author };
        rend = r12;
    } else if is_msg {
        let ((msg, author), r8) = match parse_msg_author_idx(text, r7) {
            Some(p) => p,
            None => {
                return None;
            },
        };
        m = Manifest { files, folders: Vec::new(), msg, author };
        rend = r8;
        proof {
            assert(crate::manifest::str_views(m.folders@) =~= Seq::<Seq<char>>::empty());
        }
    } else {
        return None;
    }
    let jend = skip_ws_idx(text, rend);
    if jend < text.len() {
        proof {
            assert(strip_ws(text@.skip(rend as int)).len() == text@.len() - jend);
        }
        return None;
    }
    proof {
        assert(text@.skip(jend as int) =~= Seq::<char>::empty());
    }
    Some(m)
}

/// Parse a manifest document given as a string.
pub fn parse_manifest(text: &str) -> (r: Option<Manifest>)
    ensures
        match r {
            Some(m) => spec_parse_manifest(text@) == Some(m@),
            None => spec_parse_manifest(text@) is None,
        },
{
    let n = text.unicode_len();
    let mut chars: Vec<char> = Vec::new();
    let mut i: usize = 0;
    while i < n
        invariant
            i <= n,
            n == text@.len(),
            chars@ =~= text@.take(i as int),
        decreases n - i,
    {
        chars.push(text.get_char(i));
        proof {
            assert(text@.take(i + 1) =~= text@.take(i as int).push(text@[i as int]));
        }
        i = i + 1;
    }
    proof {
        assert(text@.take(n as int) =~= text@);
    }
    parse_manifest_chars(&chars)
}

} // verus!
