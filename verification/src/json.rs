//! The report document: a JSON encoding of the report, produced by a verified
//! serializer and read back by a verified parser.  The encoding is the
//! compact form with fixed key order that the serializer emits; the parser
//! accepts exactly that form and reports anything else as malformed.

use crate::ident::hex_digit;
use crate::model::{empty_report_model, FileKind, FileModel, FileRec, Report, ReportModel,
    StageKind, StageModel, StageRec};
use crate::strutil::push_char;
use vstd::prelude::*;

verus! {

/// The escape sequence a character is written as inside a JSON string:
/// quote and backslash escaped, the common control characters short-escaped,
/// the remaining control characters hex-escaped, everything else itself.
pub open spec fn esc_char(c: char) -> Seq<char> {
    if c == '"' {
        seq!['\\', '"']
    } else if c == '\\' {
        seq!['\\', '\\']
    } else if c as u32 == 8 {
        seq!['\\', 'b']
    } else if c as u32 == 9 {
        seq!['\\', 't']
    } else if c as u32 == 10 {
        seq!['\\', 'n']
    } else if c as u32 == 12 {
        seq!['\\', 'f']
    } else if c as u32 == 13 {
        seq!['\\', 'r']
    } else if (c as u32) < 32 {
        seq!['\\', 'u', '0', '0', hex_digit((c as u32 / 16) as u8), hex_digit(
            (c as u32 % 16) as u8,
        )]
    } else {
        seq![c]
    }
}

/// A string's characters, each escaped.
pub open spec fn esc_string(s: Seq<char>) -> Seq<char>
    decreases s.len(),
{
    if s.len() == 0 {
        Seq::empty()
    } else {
        esc_string(s.drop_last()) + esc_char(s.last())
    }
}

/// The decimal digits of a number, most significant first.
pub open spec fn dec_rep(n: u64) -> Seq<char>
    decreases n,
{
    if n < 10 {
        seq![hex_digit(n as u8)]
    } else {
        dec_rep(n / 10) + seq![hex_digit((n % 10) as u8)]
    }
}

/// The JSON name of a file kind.
pub open spec fn kind_name(k: FileKind) -> Seq<char> {
    match k {
        FileKind::Source => "Source"@,
        FileKind::Object => "Object"@,
        FileKind::Library => "Library"@,
        FileKind::Executable => "Executable"@,
    }
}

/// The JSON name of a stage kind.
pub open spec fn stage_kind_name(k: StageKind) -> Seq<char> {
    match k {
        StageKind::Compilation => "Compilation"@,
        StageKind::Link => "Link"@,
        StageKind::Archiving => "Archiving"@,
    }
}

/// One file record as a JSON object.
#[verifier::opaque]
pub open spec fn file_json(f: FileModel) -> Seq<char> {
    "{\"id\":\""@ + esc_string(f.id) + seq!['"'] + ",\"type\":\""@ + kind_name(f.kind)
        + seq!['"'] + ",\"name\":\""@ + esc_string(f.name) + seq!['"'] + seq!['}']
}

/// A list of strings as comma-separated JSON strings, brackets excluded.
pub open spec fn str_items(v: Seq<Seq<char>>) -> Seq<char>
    decreases v.len(),
{
    if v.len() == 0 {
        Seq::empty()
    } else if v.len() == 1 {
        seq!['"'] + esc_string(v[0]) + seq!['"']
    } else {
        str_items(v.drop_last()) + seq![','] + seq!['"'] + esc_string(v.last()) + seq!['"']
    }
}

/// One stage record as a JSON object.
#[verifier::opaque]
pub open spec fn stage_json(st: StageModel) -> Seq<char> {
    "{\"id\":\""@ + esc_string(st.id) + seq!['"'] + ",\"inputs\":["@ + str_items(st.inputs)
        + seq![']'] + ",\"outputs\":["@ + str_items(st.outputs) + seq![']'] + ",\"type\":\""@
        + stage_kind_name(st.kind) + seq!['"'] + ",\"duration\":"@ + dec_rep(st.duration)
        + seq!['}']
}

/// The file records as comma-separated JSON objects, brackets excluded.
pub open spec fn file_items(v: Seq<FileModel>) -> Seq<char>
    decreases v.len(),
{
    if v.len() == 0 {
        Seq::empty()
    } else if v.len() == 1 {
        file_json(v[0])
    } else {
        file_items(v.drop_last()) + seq![','] + file_json(v.last())
    }
}

/// The stage records as comma-separated JSON objects, brackets excluded.
pub open spec fn stage_items(v: Seq<StageModel>) -> Seq<char>
    decreases v.len(),
{
    if v.len() == 0 {
        Seq::empty()
    } else if v.len() == 1 {
        stage_json(v[0])
    } else {
        stage_items(v.drop_last()) + seq![','] + stage_json(v.last())
    }
}

/// The whole report as one JSON document.
pub open spec fn report_json(m: ReportModel) -> Seq<char> {
    "{\"files\":["@ + file_items(m.files) + seq![']'] + ",\"stages\":["@ + stage_items(m.stages)
        + seq![']'] + seq!['}']
}

/// Appends one character's escape sequence.
fn write_escaped_char(c: char, out: &mut String)
    ensures
        final(out)@ == old(out)@ + esc_char(c),
{
    if c == '"' {
        out.append("\\\"");
        proof {
            reveal_strlit("\\\"");
            assert(out@ =~= old(out)@ + esc_char(c));
        }
    } else if c == '\\' {
        out.append("\\\\");
        proof {
            reveal_strlit("\\\\");
            assert(out@ =~= old(out)@ + esc_char(c));
        }
    } else if c as u32 == 8 {
        out.append("\\b");
        proof {
            reveal_strlit("\\b");
            assert(out@ =~= old(out)@ + esc_char(c));
        }
    } else if c as u32 == 9 {
        out.append("\\t");
        proof {
            reveal_strlit("\\t");
            assert(out@ =~= old(out)@ + esc_char(c));
        }
    } else if c as u32 == 10 {
        out.append("\\n");
        proof {
            reveal_strlit("\\n");
            assert(out@ =~= old(out)@ + esc_char(c));
        }
    } else if c as u32 == 12 {
        out.append("\\f");
        proof {
            reveal_strlit("\\f");
            assert(out@ =~= old(out)@ + esc_char(c));
        }
    } else if c as u32 == 13 {
        out.append("\\r");
        proof {
            reveal_strlit("\\r");
            assert(out@ =~= old(out)@ + esc_char(c));
        }
    } else if (c as u32) < 32 {
        out.append("\\u00");
        let v = c as u32;
        push_char(out, crate::ident::hex_char((v / 16) as u8));
        push_char(out, crate::ident::hex_char((v % 16) as u8));
        proof {
            reveal_strlit("\\u00");
            assert(out@ =~= old(out)@ + esc_char(c));
        }
    } else {
        push_char(out, c);
        proof {
            assert(out@ =~= old(out)@ + esc_char(c));
        }
    }
}

/// Appends a string's characters, escaped, without surrounding quotes.
fn write_escaped(s: &str, out: &mut String)
    ensures
        final(out)@ == old(out)@ + esc_string(s@),
{
    let n = s.unicode_len();
    let mut i: usize = 0;
    proof {
        assert(s@.take(0) =~= Seq::<char>::empty());
    }
    while i < n
        invariant
            n == s@.len(),
            i <= n,
            out@ == old(out)@ + esc_string(s@.take(i as int)),
        decreases n - i,
    {
        let c = s.get_char(i);
        write_escaped_char(c, out);
        proof {
            assert(s@.take(i + 1).drop_last() =~= s@.take(i as int));
            assert(s@.take(i + 1).last() == c);
        }
        i = i + 1;
    }
    proof {
        assert(s@.take(n as int) =~= s@);
    }
}

/// Appends a string as a quoted, escaped JSON string.
fn write_quoted(s: &str, out: &mut String)
    ensures
        final(out)@ == old(out)@ + seq!['"'] + esc_string(s@) + seq!['"'],
{
    push_char(out, '"');
    write_escaped(s, out);
    push_char(out, '"');
    proof {
        assert(out@ =~= old(out)@ + seq!['"'] + esc_string(s@) + seq!['"']);
    }
}

/// Appends a number's decimal digits.
fn write_u64(n: u64, out: &mut String)
    ensures
        final(out)@ == old(out)@ + dec_rep(n),
    decreases n,
{
    if n < 10 {
        push_char(out, crate::ident::hex_char(n as u8));
    } else {
        write_u64(n / 10, out);
        push_char(out, crate::ident::hex_char((n % 10) as u8));
        proof {
            assert(out@ =~= old(out)@ + dec_rep(n));
        }
    }
}

/// Appends a file kind's JSON name.
fn write_kind(k: FileKind, out: &mut String)
    ensures
        final(out)@ == old(out)@ + kind_name(k),
{
    match k {
        FileKind::Source => out.append("Source"),
        FileKind::Object => out.append("Object"),
        FileKind::Library => out.append("Library"),
        FileKind::Executable => out.append("Executable"),
    }
}

/// Appends a stage kind's JSON name.
fn write_stage_kind(k: StageKind, out: &mut String)
    ensures
        final(out)@ == old(out)@ + stage_kind_name(k),
{
    match k {
        StageKind::Compilation => out.append("Compilation"),
        StageKind::Link => out.append("Link"),
        StageKind::Archiving => out.append("Archiving"),
    }
}

/// Appends one file record as a JSON object.
fn write_file(f: &FileRec, out: &mut String)
    ensures
        final(out)@ == old(out)@ + file_json(f@),
{
    out.append("{\"id\":\"");
    write_escaped(f.id.as_str(), out);
    push_char(out, '"');
    out.append(",\"type\":\"");
    write_kind(f.kind, out);
    push_char(out, '"');
    out.append(",\"name\":\"");
    write_escaped(f.name.as_str(), out);
    push_char(out, '"');
    push_char(out, '}');
    proof {
        reveal(file_json);
        assert(out@ =~= old(out)@ + file_json(f@));
    }
}

/// Appends a list of strings as comma-separated JSON strings.
fn write_str_items(v: &Vec<String>, out: &mut String)
    ensures
        final(out)@ == old(out)@ + str_items(v.deep_view()),
{
    let ghost d = v.deep_view();
    let n = v.len();
    let mut i: usize = 0;
    proof {
        assert(d.len() == n);
        assert(d.take(0) =~= Seq::<Seq<char>>::empty());
    }
    while i < n
        invariant
            d == v.deep_view(),
            n == v@.len(),
            d.len() == n,
            i <= n,
            out@ == old(out)@ + str_items(d.take(i as int)),
        decreases n - i,
    {
        if i > 0 {
            push_char(out, ',');
        }
        proof {
            assert(d[i as int] == v@[i as int]@);
        }
        write_quoted(v[i].as_str(), out);
        proof {
            assert(d.take(i + 1).drop_last() =~= d.take(i as int));
            assert(d.take(i + 1).last() == d[i as int]);
            assert(out@ =~= old(out)@ + str_items(d.take(i + 1)));
        }
        i = i + 1;
    }
    proof {
        assert(d.take(n as int) =~= d);
    }
}

/// Appends one stage record as a JSON object.
fn write_stage(st: &StageRec, out: &mut String)
    ensures
        final(out)@ == old(out)@ + stage_json(st@),
{
    out.append("{\"id\":\"");
    write_escaped(st.id.as_str(), out);
    push_char(out, '"');
    out.append(",\"inputs\":[");
    write_str_items(&st.inputs, out);
    push_char(out, ']');
    out.append(",\"outputs\":[");
    write_str_items(&st.outputs, out);
    push_char(out, ']');
    out.append(",\"type\":\"");
    write_stage_kind(st.kind, out);
    push_char(out, '"');
    out.append(",\"duration\":");
    write_u64(st.duration, out);
    push_char(out, '}');
    proof {
        reveal(stage_json);
        assert(out@ =~= old(out)@ + stage_json(st@));
    }
}

/// The whole report as one JSON document.
pub fn report_to_json(r: &Report) -> (s: String)
    ensures
        s@ == report_json(r@),
{
    let ghost df = r.files.deep_view();
    let ghost ds = r.stages.deep_view();
    let mut out = String::new();
    out.append("{\"files\":[");
    let nf = r.files.len();
    let mut i: usize = 0;
    proof {
        assert(df.len() == nf);
        assert(df.take(0) =~= Seq::<FileModel>::empty());
        assert(out@ =~= "{\"files\":["@ + file_items(df.take(0)));
    }
    while i < nf
        invariant
            df == r.files.deep_view(),
            nf == r.files@.len(),
            df.len() == nf,
            i <= nf,
            out@ == "{\"files\":["@ + file_items(df.take(i as int)),
        decreases nf - i,
    {
        if i > 0 {
            push_char(&mut out, ',');
        }
        proof {
            assert(df[i as int] == r.files@[i as int]@);
        }
        write_file(&r.files[i], &mut out);
        proof {
            assert(df.take(i + 1).drop_last() =~= df.take(i as int));
            assert(df.take(i + 1).last() == df[i as int]);
            assert(out@ =~= "{\"files\":["@ + file_items(df.take(i + 1)));
        }
        i = i + 1;
    }
    proof {
        assert(df.take(nf as int) =~= df);
    }
    push_char(&mut out, ']');
    out.append(",\"stages\":[");
    let ns = r.stages.len();
    let ghost mid = out@;
    let mut j: usize = 0;
    proof {
        assert(ds.len() == ns);
        assert(ds.take(0) =~= Seq::<StageModel>::empty());
        assert(out@ =~= mid + stage_items(ds.take(0)));
    }
    while j < ns
        invariant
            ds == r.stages.deep_view(),
            ns == r.stages@.len(),
            ds.len() == ns,
            j <= ns,
            out@ == mid + stage_items(ds.take(j as int)),
        decreases ns - j,
    {
        if j > 0 {
            push_char(&mut out, ',');
        }
        proof {
            assert(ds[j as int] == r.stages@[j as int]@);
        }
        write_stage(&r.stages[j], &mut out);
        proof {
            assert(ds.take(j + 1).drop_last() =~= ds.take(j as int));
            assert(ds.take(j + 1).last() == ds[j as int]);
            assert(out@ =~= mid + stage_items(ds.take(j + 1)));
        }
        j = j + 1;
    }
    proof {
        assert(ds.take(ns as int) =~= ds);
    }
    push_char(&mut out, ']');
    push_char(&mut out, '}');
    proof {
        assert(out@ =~= report_json(r@));
    }
    out
}

/// What remains after matching a literal at the front, if it is there.
pub open spec fn sp_lit(s: Seq<char>, lit: Seq<char>) -> Option<Seq<char>> {
    if lit.len() <= s.len() && s.take(lit.len() as int) == lit {
        Some(s.skip(lit.len() as int))
    } else {
        None
    }
}

/// The value of a lowercase hexadecimal digit, or a negative number.
pub open spec fn hex_val(c: char) -> int {
    if 48 <= c as u32 && c as u32 <= 57 {
        c as u32 - 48
    } else if 97 <= c as u32 && c as u32 <= 102 {
        c as u32 - 87
    } else {
        -1
    }
}

/// The character is a decimal digit.
pub open spec fn is_digit_char(c: char) -> bool {
    48 <= c as u32 && c as u32 <= 57
}

/// The value of a decimal digit character.
pub open spec fn digit_val(c: char) -> int {
    c as u32 - 48
}

/// Prepends one character to a parsed string, passing failure through.
pub open spec fn cons_char(c: char, r: Option<(Seq<char>, Seq<char>)>) -> Option<
    (Seq<char>, Seq<char>),
> {
    match r {
        Some(p) => Some((seq![c] + p.0, p.1)),
        None => None,
    }
}

/// Parses a JSON string body up to and including its closing quote,
/// undoing the escapes the serializer writes; the opening quote is already
/// consumed.  Yields the string and what follows the closing quote.
pub open spec fn sp_strbody(s: Seq<char>) -> Option<(Seq<char>, Seq<char>)>
    decreases s.len(),
{
    if s.len() == 0 {
        None
    } else if s.first() == '"' {
        Some((Seq::empty(), s.drop_first()))
    } else if s.first() == '\\' {
        if s.len() < 2 {
            None
        } else {
            let c2 = s[1];
            if c2 == '"' || c2 == '\\' {
                cons_char(c2, sp_strbody(s.skip(2)))
            } else if c2 == 'b' {
                cons_char(8u32 as char, sp_strbody(s.skip(2)))
            } else if c2 == 't' {
                cons_char(9u32 as char, sp_strbody(s.skip(2)))
            } else if c2 == 'n' {
                cons_char(10u32 as char, sp_strbody(s.skip(2)))
            } else if c2 == 'f' {
                cons_char(12u32 as char, sp_strbody(s.skip(2)))
            } else if c2 == 'r' {
                cons_char(13u32 as char, sp_strbody(s.skip(2)))
            } else if c2 == 'u' {
                if s.len() < 6 {
                    None
                } else if s[2] == '0' && s[3] == '0' && hex_val(s[4]) >= 0 && hex_val(s[5]) >= 0
                    && hex_val(s[4]) * 16 + hex_val(s[5]) < 32 {
                    cons_char(
                        ((hex_val(s[4]) * 16 + hex_val(s[5])) as u32) as char,
                        sp_strbody(s.skip(6)),
                    )
                } else {
                    None
                }
            } else {
                None
            }
        }
    } else {
        cons_char(s.first(), sp_strbody(s.drop_first()))
    }
}

/// Parses a quoted JSON string, opening quote included.
pub open spec fn sp_qstring(s: Seq<char>) -> Option<(Seq<char>, Seq<char>)> {
    if s.len() > 0 && s.first() == '"' {
        sp_strbody(s.drop_first())
    } else {
        None
    }
}

/// The longest run of decimal digits at the front.
pub open spec fn digits_prefix(s: Seq<char>) -> Seq<char>
    decreases s.len(),
{
    if s.len() > 0 && is_digit_char(s.first()) {
        seq![s.first()] + digits_prefix(s.drop_first())
    } else {
        Seq::empty()
    }
}

/// The number the given digit characters denote.
pub open spec fn val_of(ds: Seq<char>) -> int
    decreases ds.len(),
{
    if ds.len() == 0 {
        0
    } else {
        val_of(ds.drop_last()) * 10 + digit_val(ds.last())
    }
}

/// Parses a decimal number that fits a `u64`.
pub open spec fn sp_u64(s: Seq<char>) -> Option<(u64, Seq<char>)> {
    let ds = digits_prefix(s);
    if ds.len() == 0 {
        None
    } else if val_of(ds) > u64::MAX {
        None
    } else {
        Some((val_of(ds) as u64, s.skip(ds.len() as int)))
    }
}

/// Parses a file kind name together with its closing quote.
pub open spec fn sp_kind(s: Seq<char>) -> Option<(FileKind, Seq<char>)> {
    if sp_lit(s, "Source\""@) is Some {
        Some((FileKind::Source, sp_lit(s, "Source\""@)->0))
    } else if sp_lit(s, "Object\""@) is Some {
        Some((FileKind::Object, sp_lit(s, "Object\""@)->0))
    } else if sp_lit(s, "Library\""@) is Some {
        Some((FileKind::Library, sp_lit(s, "Library\""@)->0))
    } else if sp_lit(s, "Executable\""@) is Some {
        Some((FileKind::Executable, sp_lit(s, "Executable\""@)->0))
    } else {
        None
    }
}

/// Parses a stage kind name together with its closing quote.
pub open spec fn sp_stage_kind(s: Seq<char>) -> Option<(StageKind, Seq<char>)> {
    if sp_lit(s, "Compilation\""@) is Some {
        Some((StageKind::Compilation, sp_lit(s, "Compilation\""@)->0))
    } else if sp_lit(s, "Link\""@) is Some {
        Some((StageKind::Link, sp_lit(s, "Link\""@)->0))
    } else if sp_lit(s, "Archiving\""@) is Some {
        Some((StageKind::Archiving, sp_lit(s, "Archiving\""@)->0))
    } else {
        None
    }
}

/// Prepends one parsed element to a parsed list, passing failure through.
pub open spec fn cons_elem<T>(x: T, r: Option<(Seq<T>, Seq<char>)>) -> Option<(Seq<T>, Seq<char>)> {
    match r {
        Some(p) => Some((seq![x] + p.0, p.1)),
        None => None,
    }
}

/// Parses a comma-separated list of JSON strings up to and including the
/// closing bracket.
pub open spec fn sp_strlist(s: Seq<char>) -> Option<(Seq<Seq<char>>, Seq<char>)>
    decreases s.len(),
{
    if s.len() == 0 {
        None
    } else if s.first() == ']' {
        Some((Seq::empty(), s.drop_first()))
    } else {
        match sp_qstring(s) {
            None => None,
            Some((x, r)) => if r.len() < s.len() {
                if r.len() > 0 && r.first() == ',' {
                    cons_elem(x, sp_strlist(r.drop_first()))
                } else if r.len() > 0 && r.first() == ']' {
                    Some((seq![x], r.drop_first()))
                } else {
                    None
                }
            } else {
                None
            },
        }
    }
}

/// Parses one file record object.
pub open spec fn sp_file(s: Seq<char>) -> Option<(FileModel, Seq<char>)> {
    match sp_lit(s, "{\"id\":"@) {
        None => None,
        Some(r1) => match sp_qstring(r1) {
            None => None,
            Some((id, r2)) => match sp_lit(r2, ",\"type\":\""@) {
                None => None,
                Some(r3) => match sp_kind(r3) {
                    None => None,
                    Some((k, r4)) => match sp_lit(r4, ",\"name\":"@) {
                        None => None,
                        Some(r5) => match sp_qstring(r5) {
                            None => None,
                            Some((name, r6)) => match sp_lit(r6, "}"@) {
                                None => None,
                                Some(r7) => Some((FileModel { id, kind: k, name }, r7)),
                            },
                        },
                    },
                },
            },
        },
    }
}

/// Parses one stage record object.
pub open spec fn sp_stage(s: Seq<char>) -> Option<(StageModel, Seq<char>)> {
    match sp_lit(s, "{\"id\":"@) {
        None => None,
        Some(r1) => match sp_qstring(r1) {
            None => None,
            Some((id, r2)) => match sp_lit(r2, ",\"inputs\":["@) {
                None => None,
                Some(r3) => match sp_strlist(r3) {
                    None => None,
                    Some((inputs, r4)) => match sp_lit(r4, ",\"outputs\":["@) {
                        None => None,
                        Some(r5) => match sp_strlist(r5) {
                            None => None,
                            Some((outputs, r6)) => match sp_lit(r6, ",\"type\":\""@) {
                                None => None,
                                Some(r7) => match sp_stage_kind(r7) {
                                    None => None,
                                    Some((k, r8)) => match sp_lit(r8, ",\"duration\":"@) {
                                        None => None,
                                        Some(r9) => match sp_u64(r9) {
                                            None => None,
                                            Some((n, r10)) => match sp_lit(r10, "}"@) {
                                                None => None,
                                                Some(r11) => Some(
                                                    (
                                                        StageModel {
                                                            id,
                                                            inputs,
                                                            outputs,
                                                            kind: k,
                                                            duration: n,
                                                        },
                                                        r11,
                                                    ),
                                                ),
                                            },
                                        },
                                    },
                                },
                            },
                        },
                    },
                },
            },
        },
    }
}

/// Parses a comma-separated list of file objects up to and including the
/// closing bracket.
pub open spec fn sp_file_list(s: Seq<char>) -> Option<(Seq<FileModel>, Seq<char>)>
    decreases s.len(),
{
    if s.len() == 0 {
        None
    } else if s.first() == ']' {
        Some((Seq::empty(), s.drop_first()))
    } else {
        match sp_file(s) {
            None => None,
            Some((x, r)) => if r.len() < s.len() {
                if r.len() > 0 && r.first() == ',' {
                    cons_elem(x, sp_file_list(r.drop_first()))
                } else if r.len() > 0 && r.first() == ']' {
                    Some((seq![x], r.drop_first()))
                } else {
                    None
                }
            } else {
                None
            },
        }
    }
}

/// Parses a comma-separated list of stage objects up to and including the
/// closing bracket.
pub open spec fn sp_stage_list(s: Seq<char>) -> Option<(Seq<StageModel>, Seq<char>)>
    decreases s.len(),
{
    if s.len() == 0 {
        None
    } else if s.first() == ']' {
        Some((Seq::empty(), s.drop_first()))
    } else {
        match sp_stage(s) {
            None => None,
            Some((x, r)) => if r.len() < s.len() {
                if r.len() > 0 && r.first() == ',' {
                    cons_elem(x, sp_stage_list(r.drop_first()))
                } else if r.len() > 0 && r.first() == ']' {
                    Some((seq![x], r.drop_first()))
                } else {
                    None
                }
            } else {
                None
            },
        }
    }
}

/// Parses a whole report document; the document must end with the report.
pub open spec fn sp_report(s: Seq<char>) -> Option<ReportModel> {
    match sp_lit(s, "{\"files\":["@) {
        None => None,
        Some(r1) => match sp_file_list(r1) {
            None => None,
            Some((files, r2)) => match sp_lit(r2, ",\"stages\":["@) {
                None => None,
                Some(r3) => match sp_stage_list(r3) {
                    None => None,
                    Some((stages, r4)) => if r4 == "}"@ {
                        Some(ReportModel { files, stages })
                    } else {
                        None
                    },
                },
            },
        },
    }
}

/// Matching a literal at the front of `lit + rest` leaves `rest`.
pub proof fn lemma_lit_rt(lit: Seq<char>, rest: Seq<char>)
    ensures
        sp_lit(lit + rest, lit) == Some(rest),
{
    assert((lit + rest).take(lit.len() as int) =~= lit);
    assert((lit + rest).skip(lit.len() as int) =~= rest);
}

/// Escaping distributes over concatenation.
pub proof fn lemma_esc_add(a: Seq<char>, b: Seq<char>)
    ensures
        esc_string(a + b) == esc_string(a) + esc_string(b),
    decreases b.len(),
{
    if b.len() == 0 {
        assert(a + b =~= a);
        assert(esc_string(a) + esc_string(b) =~= esc_string(a));
    } else {
        lemma_esc_add(a, b.drop_last());
        assert((a + b).drop_last() =~= a + b.drop_last());
        assert((a + b).last() == b.last());
        assert(esc_string(a) + esc_string(b) =~= esc_string(a) + esc_string(b.drop_last())
            + esc_char(b.last()));
    }
}

/// Escaping a nonempty string begins with its first character's escape.
pub proof fn lemma_esc_first(x: Seq<char>)
    requires
        x.len() > 0,
    ensures
        esc_string(x) == esc_char(x.first()) + esc_string(x.drop_first()),
{
    lemma_esc_add(seq![x.first()], x.drop_first());
    assert(seq![x.first()] + x.drop_first() =~= x);
    assert(seq![x.first()].drop_last() =~= Seq::<char>::empty());
    assert(seq![x.first()].last() == x.first());
    assert(esc_string(seq![x.first()]) == esc_string(Seq::<char>::empty()) + esc_char(x.first()));
    assert(esc_string(Seq::<char>::empty()) + esc_char(x.first()) =~= esc_char(x.first()));
}

/// The value of a lowercase hexadecimal digit character is the digit.
pub proof fn lemma_hex_inv(n: u8)
    requires
        n < 16,
    ensures
        hex_val(hex_digit(n)) == n as int,
        n < 10 ==> is_digit_char(hex_digit(n)) && digit_val(hex_digit(n)) == n as int,
{
}

/// Parsing the escaped form of a string, its closing quote, and a remainder
/// recovers the string and the remainder.
pub proof fn lemma_strbody_rt(x: Seq<char>, rest: Seq<char>)
    ensures
        sp_strbody(esc_string(x) + seq!['"'] + rest) == Some((x, rest)),
    decreases x.len(),
{
    let s = esc_string(x) + seq!['"'] + rest;
    if x.len() == 0 {
        assert(esc_string(x) =~= Seq::<char>::empty());
        assert(s.first() == '"');
        assert(s.drop_first() =~= rest);
    } else {
        let c = x.first();
        let x2 = x.drop_first();
        lemma_esc_first(x);
        lemma_strbody_rt(x2, rest);
        let tail = esc_string(x2) + seq!['"'] + rest;
        assert(s =~= esc_char(c) + tail);
        vstd::utf8::char_u32_cast(c, c as u32);
        if c == '"' || c == '\\' {
            assert(s.first() == '\\');
            assert(s[1] == c);
            assert(s.skip(2) =~= tail);
            assert(seq![c] + x2 =~= x);
        } else if c as u32 == 8 || c as u32 == 9 || c as u32 == 10 || c as u32 == 12 || c as u32
            == 13 {
            assert(s.first() == '\\');
            assert(s.skip(2) =~= tail);
            assert(seq![c] + x2 =~= x);
        } else if (c as u32) < 32 {
            let cu = c as u32;
            assert(s.first() == '\\' && s[1] == 'u' && s[2] == '0' && s[3] == '0');
            assert(s[4] == hex_digit((cu / 16) as u8));
            assert(s[5] == hex_digit((cu % 16) as u8));
            lemma_hex_inv((cu / 16) as u8);
            lemma_hex_inv((cu % 16) as u8);
            assert(hex_val(s[4]) * 16 + hex_val(s[5]) == cu);
            assert(s.skip(6) =~= tail);
            assert(seq![c] + x2 =~= x);
        } else {
            assert(esc_char(c) =~= seq![c]);
            assert(s.first() == c);
            assert(c != '"' && c != '\\');
            assert(s.drop_first() =~= tail);
            assert(seq![c] + x2 =~= x);
        }
    }
}

/// Every character of a number's decimal form is a digit.
pub proof fn lemma_dec_rep_digits(n: u64)
    ensures
        forall|i: int| 0 <= i < dec_rep(n).len() ==> is_digit_char(#[trigger] dec_rep(n)[i]),
    decreases n,
{
    if n < 10 {
        lemma_hex_inv(n as u8);
        assert(dec_rep(n).len() == 1);
        assert(dec_rep(n)[0] == hex_digit(n as u8));
    } else {
        lemma_dec_rep_digits(n / 10);
        lemma_hex_inv((n % 10) as u8);
        let pre = dec_rep(n / 10);
        assert forall|i: int| 0 <= i < dec_rep(n).len() implies is_digit_char(
            #[trigger] dec_rep(n)[i],
        ) by {
            if i < pre.len() {
                assert(dec_rep(n)[i] == pre[i]);
            } else {
                assert(dec_rep(n)[i] == hex_digit((n % 10) as u8));
            }
        }
    }
}

/// The digit run at the front of digits followed by a non-digit is exactly
/// the digits.
pub proof fn lemma_digits_prefix(ds: Seq<char>, rest: Seq<char>)
    requires
        forall|i: int| 0 <= i < ds.len() ==> is_digit_char(#[trigger] ds[i]),
        rest.len() == 0 || !is_digit_char(rest.first()),
    ensures
        digits_prefix(ds + rest) == ds,
    decreases ds.len(),
{
    if ds.len() == 0 {
        assert(ds + rest =~= rest);
        assert(digits_prefix(rest) =~= Seq::<char>::empty());
    } else {
        assert((ds + rest).first() == ds.first());
        assert(ds.first() == ds[0]);
        assert((ds + rest).drop_first() =~= ds.drop_first() + rest);
        assert(forall|i: int|
            0 <= i < ds.drop_first().len() ==> is_digit_char(#[trigger] ds.drop_first()[i]));
        lemma_digits_prefix(ds.drop_first(), rest);
        assert(seq![ds.first()] + ds.drop_first() =~= ds);
    }
}

/// The decimal form of a number denotes the number.
pub proof fn lemma_val_dec(n: u64)
    ensures
        val_of(dec_rep(n)) == n,
    decreases n,
{
    if n < 10 {
        lemma_hex_inv(n as u8);
        assert(dec_rep(n).drop_last() =~= Seq::<char>::empty());
        assert(dec_rep(n).last() == hex_digit(n as u8));
        assert(val_of(dec_rep(n)) == val_of(Seq::<char>::empty()) * 10 + digit_val(
            hex_digit(n as u8),
        ));
    } else {
        lemma_val_dec(n / 10);
        lemma_hex_inv((n % 10) as u8);
        assert(dec_rep(n).drop_last() =~= dec_rep(n / 10));
        assert(dec_rep(n).last() == hex_digit((n % 10) as u8));
        assert(val_of(dec_rep(n)) == val_of(dec_rep(n / 10)) * 10 + digit_val(
            hex_digit((n % 10) as u8),
        ));
        assert(n == (n / 10) * 10 + n % 10);
    }
}

/// Parsing the decimal form of a number followed by a non-digit remainder
/// recovers the number and the remainder.
pub proof fn lemma_u64_rt(n: u64, rest: Seq<char>)
    requires
        rest.len() == 0 || !is_digit_char(rest.first()),
    ensures
        sp_u64(dec_rep(n) + rest) == Some((n, rest)),
{
    lemma_dec_rep_digits(n);
    lemma_digits_prefix(dec_rep(n), rest);
    lemma_val_dec(n);
    assert(dec_rep(n).len() > 0);
    assert((dec_rep(n) + rest).skip(dec_rep(n).len() as int) =~= rest);
}

/// Parsing a file kind's name and closing quote recovers the kind.
pub proof fn lemma_kind_rt(k: FileKind, rest: Seq<char>)
    ensures
        sp_kind(kind_name(k) + seq!['"'] + rest) == Some((k, rest)),
{
    reveal_strlit("Source");
    reveal_strlit("Object");
    reveal_strlit("Library");
    reveal_strlit("Executable");
    reveal_strlit("Source\"");
    reveal_strlit("Object\"");
    reveal_strlit("Library\"");
    reveal_strlit("Executable\"");
    let s = kind_name(k) + seq!['"'] + rest;
    match k {
        FileKind::Source => {
            assert(s =~= "Source\""@ + rest);
            lemma_lit_rt("Source\""@, rest);
        },
        FileKind::Object => {
            assert(s =~= "Object\""@ + rest);
            if sp_lit(s, "Source\""@) is Some {
                assert(s.take(7)[0] == "Source\""@[0]);
                assert(false);
            }
            lemma_lit_rt("Object\""@, rest);
        },
        FileKind::Library => {
            assert(s =~= "Library\""@ + rest);
            if sp_lit(s, "Source\""@) is Some {
                assert(s.take(7)[0] == "Source\""@[0]);
                assert(false);
            }
            if sp_lit(s, "Object\""@) is Some {
                assert(s.take(7)[0] == "Object\""@[0]);
                assert(false);
            }
            lemma_lit_rt("Library\""@, rest);
        },
        FileKind::Executable => {
            assert(s =~= "Executable\""@ + rest);
            if sp_lit(s, "Source\""@) is Some {
                assert(s.take(7)[0] == "Source\""@[0]);
                assert(false);
            }
            if sp_lit(s, "Object\""@) is Some {
                assert(s.take(7)[0] == "Object\""@[0]);
                assert(false);
            }
            if sp_lit(s, "Library\""@) is Some {
                assert(s.take(8)[0] == "Library\""@[0]);
                assert(false);
            }
            lemma_lit_rt("Executable\""@, rest);
        },
    }
}

/// Parsing a stage kind's name and closing quote recovers the kind.
pub proof fn lemma_stage_kind_rt(k: StageKind, rest: Seq<char>)
    ensures
        sp_stage_kind(stage_kind_name(k) + seq!['"'] + rest) == Some((k, rest)),
{
    reveal_strlit("Compilation");
    reveal_strlit("Link");
    reveal_strlit("Archiving");
    reveal_strlit("Compilation\"");
    reveal_strlit("Link\"");
    reveal_strlit("Archiving\"");
    let s = stage_kind_name(k) + seq!['"'] + rest;
    match k {
        StageKind::Compilation => {
            assert(s =~= "Compilation\""@ + rest);
            lemma_lit_rt("Compilation\""@, rest);
        },
        StageKind::Link => {
            assert(s =~= "Link\""@ + rest);
            if sp_lit(s, "Compilation\""@) is Some {
                assert(s.take(12)[0] == "Compilation\""@[0]);
                assert(false);
            }
            lemma_lit_rt("Link\""@, rest);
        },
        StageKind::Archiving => {
            assert(s =~= "Archiving\""@ + rest);
            if sp_lit(s, "Compilation\""@) is Some {
                assert(s.take(12)[0] == "Compilation\""@[0]);
                assert(false);
            }
            if sp_lit(s, "Link\""@) is Some {
                assert(s.take(5)[0] == "Link\""@[0]);
                assert(false);
            }
            lemma_lit_rt("Archiving\""@, rest);
        },
    }
}

/// A nonempty string list's serialization begins with its first item.
pub proof fn lemma_str_items_first(v: Seq<Seq<char>>)
    requires
        v.len() >= 1,
    ensures
        str_items(v) == seq!['"'] + esc_string(v[0]) + seq!['"'] + (if v.len() > 1 {
            seq![','] + str_items(v.drop_first())
        } else {
            Seq::<char>::empty()
        }),
    decreases v.len(),
{
    if v.len() == 1 {
        assert(str_items(v) =~= seq!['"'] + esc_string(v[0]) + seq!['"']
            + Seq::<char>::empty());
    } else if v.len() == 2 {
        assert(v.drop_last() =~= seq![v[0]]);
        assert(str_items(v.drop_last()) == str_items(seq![v[0]]));
        assert(v.drop_first() =~= seq![v[1]]);
        assert(str_items(seq![v[0]]) =~= seq!['"'] + esc_string(v[0]) + seq!['"']);
        assert(str_items(seq![v[1]]) =~= seq!['"'] + esc_string(v[1]) + seq!['"']);
        assert(str_items(v) =~= seq!['"'] + esc_string(v[0]) + seq!['"'] + (seq![',']
            + str_items(v.drop_first())));
    } else {
        let dl = v.drop_last();
        let df = v.drop_first();
        lemma_str_items_first(dl);
        assert(dl[0] == v[0]);
        assert(dl.drop_first() =~= df.drop_last());
        assert(df.last() == v.last());
        assert(str_items(df) == str_items(df.drop_last()) + seq![','] + seq!['"'] + esc_string(
            df.last(),
        ) + seq!['"']);
        assert(str_items(v) =~= seq!['"'] + esc_string(v[0]) + seq!['"'] + (seq![',']
            + str_items(df)));
    }
}

/// A nonempty file list's serialization begins with its first item.
pub proof fn lemma_file_items_first(v: Seq<FileModel>)
    requires
        v.len() >= 1,
    ensures
        file_items(v) == file_json(v[0]) + (if v.len() > 1 {
            seq![','] + file_items(v.drop_first())
        } else {
            Seq::<char>::empty()
        }),
    decreases v.len(),
{
    if v.len() == 1 {
        assert(file_items(v) =~= file_json(v[0]) + Seq::<char>::empty());
    } else if v.len() == 2 {
        assert(v.drop_last() =~= seq![v[0]]);
        assert(v.drop_first() =~= seq![v[1]]);
        assert(file_items(seq![v[0]]) == file_json(v[0]));
        assert(file_items(seq![v[1]]) == file_json(v[1]));
        assert(file_items(v) =~= file_json(v[0]) + (seq![','] + file_items(v.drop_first())));
    } else {
        let dl = v.drop_last();
        let df = v.drop_first();
        lemma_file_items_first(dl);
        assert(dl[0] == v[0]);
        assert(dl.drop_first() =~= df.drop_last());
        assert(df.last() == v.last());
        assert(file_items(df) == file_items(df.drop_last()) + seq![','] + file_json(df.last()));
        assert(file_items(v) =~= file_json(v[0]) + (seq![','] + file_items(df)));
    }
}

/// A nonempty stage list's serialization begins with its first item.
pub proof fn lemma_stage_items_first(v: Seq<StageModel>)
    requires
        v.len() >= 1,
    ensures
        stage_items(v) == stage_json(v[0]) + (if v.len() > 1 {
            seq![','] + stage_items(v.drop_first())
        } else {
            Seq::<char>::empty()
        }),
    decreases v.len(),
{
    if v.len() == 1 {
        assert(stage_items(v) =~= stage_json(v[0]) + Seq::<char>::empty());
    } else if v.len() == 2 {
        assert(v.drop_last() =~= seq![v[0]]);
        assert(v.drop_first() =~= seq![v[1]]);
        assert(stage_items(seq![v[0]]) == stage_json(v[0]));
        assert(stage_items(seq![v[1]]) == stage_json(v[1]));
        assert(stage_items(v) =~= stage_json(v[0]) + (seq![','] + stage_items(v.drop_first())));
    } else {
        let dl = v.drop_last();
        let df = v.drop_first();
        lemma_stage_items_first(dl);
        assert(dl[0] == v[0]);
        assert(dl.drop_first() =~= df.drop_last());
        assert(df.last() == v.last());
        assert(stage_items(df) == stage_items(df.drop_last()) + seq![','] + stage_json(df.last()));
        assert(stage_items(v) =~= stage_json(v[0]) + (seq![','] + stage_items(df)));
    }
}

/// Parsing a serialized string list and its closing bracket recovers the
/// list and the remainder.
pub proof fn lemma_strlist_rt(v: Seq<Seq<char>>, rest: Seq<char>)
    ensures
        sp_strlist(str_items(v) + seq![']'] + rest) == Some((v, rest)),
    decreases v.len(),
{
    let s = str_items(v) + seq![']'] + rest;
    if v.len() == 0 {
        assert(str_items(v) =~= Seq::<char>::empty());
        assert(s.first() == ']');
        assert(s.drop_first() =~= rest);
        assert(v =~= Seq::<Seq<char>>::empty());
    } else {
        lemma_str_items_first(v);
        let tail = if v.len() > 1 {
            seq![','] + str_items(v.drop_first()) + seq![']'] + rest
        } else {
            seq![']'] + rest
        };
        assert(s =~= seq!['"'] + esc_string(v[0]) + seq!['"'] + tail);
        assert(s.first() == '"');
        assert(s.drop_first() =~= esc_string(v[0]) + seq!['"'] + tail);
        lemma_strbody_rt(v[0], tail);
        assert(sp_qstring(s) == Some((v[0], tail)));
        assert(tail.len() < s.len());
        if v.len() > 1 {
            assert(tail.first() == ',');
            lemma_strlist_rt(v.drop_first(), rest);
            assert(tail.drop_first() =~= str_items(v.drop_first()) + seq![']'] + rest);
            assert(seq![v[0]] + v.drop_first() =~= v);
        } else {
            assert(tail.first() == ']');
            assert(tail.drop_first() =~= rest);
            assert(seq![v[0]] =~= v);
        }
    }
}

/// Parsing a serialized file object recovers the record and the remainder.
#[verifier::rlimit(80)]
pub proof fn lemma_qstring_rt(x: Seq<char>, rest: Seq<char>)
    ensures
        sp_qstring(seq!['"'] + esc_string(x) + seq!['"'] + rest) == Some((x, rest)),
{
    let s = seq!['"'] + esc_string(x) + seq!['"'] + rest;
    assert(s.first() == '"');
    assert(s.drop_first() =~= esc_string(x) + seq!['"'] + rest);
    lemma_strbody_rt(x, rest);
}

/// Parsing a serialized file object recovers the record and the remainder.
#[verifier::rlimit(100)]
#[verifier::spinoff_prover]
pub proof fn lemma_file_rt(f: FileModel, rest: Seq<char>)
    ensures
        sp_file(file_json(f) + rest) == Some((f, rest)),
{
    reveal_strlit("}");
    reveal_strlit("{\"id\":\"");
    reveal_strlit("{\"id\":");
    reveal_strlit(",\"name\":\"");
    reveal_strlit(",\"name\":");
    reveal(file_json);
    let s = file_json(f) + rest;
    let t2 = ",\"type\":\""@ + (kind_name(f.kind) + seq!['"'] + ",\"name\":\""@
        + esc_string(f.name) + seq!['"'] + seq!['}'] + rest);
    let q1 = seq!['"'] + esc_string(f.id) + seq!['"'] + t2;
    assert(s =~= "{\"id\":"@ + q1);
    lemma_lit_rt("{\"id\":"@, q1);
    lemma_qstring_rt(f.id, t2);
    let t3 = kind_name(f.kind) + seq!['"'] + (",\"name\":\""@ + esc_string(f.name) + seq!['"']
        + seq!['}'] + rest);
    lemma_lit_rt(",\"type\":\""@, t3);
    assert(t2 =~= ",\"type\":\""@ + t3);
    lemma_kind_rt(f.kind, ",\"name\":\""@ + esc_string(f.name) + seq!['"'] + seq!['}'] + rest);
    assert(t3 =~= kind_name(f.kind) + seq!['"'] + (",\"name\":\""@ + esc_string(f.name)
        + seq!['"'] + seq!['}'] + rest));
    let t4 = ",\"name\":\""@ + esc_string(f.name) + seq!['"'] + seq!['}'] + rest;
    let q2 = seq!['"'] + esc_string(f.name) + seq!['"'] + (seq!['}'] + rest);
    assert(t4 =~= ",\"name\":"@ + q2);
    lemma_lit_rt(",\"name\":"@, q2);
    lemma_qstring_rt(f.name, seq!['}'] + rest);
    assert(seq!['}'] + rest =~= "}"@ + rest);
    lemma_lit_rt("}"@, rest);
}

/// Parsing a serialized stage object recovers the record and the remainder.
#[verifier::rlimit(80)]
pub proof fn lemma_stage_rt(st: StageModel, rest: Seq<char>)
    ensures
        sp_stage(stage_json(st) + rest) == Some((st, rest)),
{
    reveal_strlit("}");
    reveal_strlit(",\"duration\":");
    reveal_strlit("{\"id\":\"");
    reveal_strlit("{\"id\":");
    reveal(stage_json);
    let s = stage_json(st) + rest;
    let after_dur = seq!['}'] + rest;
    let dur = dec_rep(st.duration) + after_dur;
    let after_kind = ",\"duration\":"@ + dur;
    let kindp = stage_kind_name(st.kind) + seq!['"'] + after_kind;
    let after_out = ",\"type\":\""@ + kindp;
    let outp = str_items(st.outputs) + seq![']'] + after_out;
    let after_in = ",\"outputs\":["@ + outp;
    let inp = str_items(st.inputs) + seq![']'] + after_in;
    let after_id = ",\"inputs\":["@ + inp;
    let idq = seq!['"'] + esc_string(st.id) + seq!['"'] + after_id;
    assert(s =~= "{\"id\":"@ + idq);
    lemma_lit_rt("{\"id\":"@, idq);
    lemma_qstring_rt(st.id, after_id);
    lemma_lit_rt(",\"inputs\":["@, inp);
    lemma_strlist_rt(st.inputs, after_in);
    lemma_lit_rt(",\"outputs\":["@, outp);
    lemma_strlist_rt(st.outputs, after_out);
    lemma_lit_rt(",\"type\":\""@, kindp);
    lemma_stage_kind_rt(st.kind, after_kind);
    lemma_lit_rt(",\"duration\":"@, dur);
    assert(after_dur.first() == '}');
    assert(!is_digit_char(after_dur.first()));
    lemma_u64_rt(st.duration, after_dur);
    assert(after_dur =~= "}"@ + rest);
    lemma_lit_rt("}"@, rest);
}

/// A serialized record object begins with an opening brace.
pub proof fn lemma_record_json_first(f: FileModel, st: StageModel)
    ensures
        file_json(f).len() > 0,
        file_json(f)[0] == '{',
        stage_json(st).len() > 0,
        stage_json(st)[0] == '{',
{
    reveal(file_json);
    reveal(stage_json);
    reveal_strlit("{\"id\":\"");
}

/// Parsing a serialized file list and its closing bracket recovers the list
/// and the remainder.
#[verifier::rlimit(100)]
#[verifier::spinoff_prover]
pub proof fn lemma_file_list_rt(v: Seq<FileModel>, rest: Seq<char>)
    ensures
        sp_file_list(file_items(v) + seq![']'] + rest) == Some((v, rest)),
    decreases v.len(),
{
    reveal_strlit("{\"id\":\"");
    let s = file_items(v) + seq![']'] + rest;
    if v.len() == 0 {
        assert(file_items(v) =~= Seq::<char>::empty());
        assert(s.first() == ']');
        assert(s.drop_first() =~= rest);
        assert(v =~= Seq::<FileModel>::empty());
    } else {
        lemma_file_items_first(v);
        let tail = if v.len() > 1 {
            seq![','] + file_items(v.drop_first()) + seq![']'] + rest
        } else {
            seq![']'] + rest
        };
        assert(s =~= file_json(v[0]) + tail);
        lemma_file_rt(v[0], tail);
        lemma_record_json_first(v[0], arbitrary());
        assert(s.first() == '{');
        assert(s.first() != ']');
        assert(tail.len() < s.len());
        if v.len() > 1 {
            assert(tail.first() == ',');
            lemma_file_list_rt(v.drop_first(), rest);
            assert(tail.drop_first() =~= file_items(v.drop_first()) + seq![']'] + rest);
            assert(seq![v[0]] + v.drop_first() =~= v);
        } else {
            assert(tail.first() == ']');
            assert(tail.drop_first() =~= rest);
            assert(seq![v[0]] =~= v);
        }
    }
}

/// Parsing a serialized stage list and its closing bracket recovers the list
/// and the remainder.
#[verifier::rlimit(100)]
#[verifier::spinoff_prover]
pub proof fn lemma_stage_list_rt(v: Seq<StageModel>, rest: Seq<char>)
    ensures
        sp_stage_list(stage_items(v) + seq![']'] + rest) == Some((v, rest)),
    decreases v.len(),
{
    reveal_strlit("{\"id\":\"");
    let s = stage_items(v) + seq![']'] + rest;
    if v.len() == 0 {
        assert(stage_items(v) =~= Seq::<char>::empty());
        assert(s.first() == ']');
        assert(s.drop_first() =~= rest);
        assert(v =~= Seq::<StageModel>::empty());
    } else {
        lemma_stage_items_first(v);
        let tail = if v.len() > 1 {
            seq![','] + stage_items(v.drop_first()) + seq![']'] + rest
        } else {
            seq![']'] + rest
        };
        assert(s =~= stage_json(v[0]) + tail);
        lemma_stage_rt(v[0], tail);
        lemma_record_json_first(arbitrary(), v[0]);
        assert(s.first() == '{');
        assert(s.first() != ']');
        assert(tail.len() < s.len());
        if v.len() > 1 {
            assert(tail.first() == ',');
            lemma_stage_list_rt(v.drop_first(), rest);
            assert(tail.drop_first() =~= stage_items(v.drop_first()) + seq![']'] + rest);
            assert(seq![v[0]] + v.drop_first() =~= v);
        } else {
            assert(tail.first() == ']');
            assert(tail.drop_first() =~= rest);
            assert(seq![v[0]] =~= v);
        }
    }
}

/// Round trip: parsing a serialized report yields the identical report.
pub proof fn lemma_round_trip(m: ReportModel)
    ensures
        sp_report(report_json(m)) == Some(m),
{
    reveal_strlit("}");
    let s = report_json(m);
    let after_stages = seq!['}'];
    let stagesp = stage_items(m.stages) + seq![']'] + after_stages;
    let after_files = ",\"stages\":["@ + stagesp;
    let filesp = file_items(m.files) + seq![']'] + after_files;
    assert(s =~= "{\"files\":["@ + filesp);
    lemma_lit_rt("{\"files\":["@, filesp);
    lemma_file_list_rt(m.files, after_files);
    lemma_lit_rt(",\"stages\":["@, stagesp);
    lemma_stage_list_rt(m.stages, after_stages);
    assert(after_stages =~= "}"@);
    assert(ReportModel { files: m.files, stages: m.stages } == m);
}

/// Two reports with the same serialization are the same report.
pub proof fn lemma_report_json_injective(m1: ReportModel, m2: ReportModel)
    requires
        report_json(m1) == report_json(m2),
    ensures
        m1 == m2,
{
    lemma_round_trip(m1);
    lemma_round_trip(m2);
}

/// The characters of a string, in order.
fn to_chars(s: &str) -> (v: Vec<char>)
    ensures
        v@ == s@,
{
    let n = s.unicode_len();
    let mut v: Vec<char> = Vec::new();
    let mut i: usize = 0;
    while i < n
        invariant
            n == s@.len(),
            i <= n,
            v@ == s@.take(i as int),
        decreases n - i,
    {
        v.push(s.get_char(i));
        proof {
            assert(v@ =~= s@.take(i + 1));
        }
        i = i + 1;
    }
    proof {
        assert(s@.take(n as int) =~= s@);
    }
    v
}

/// Consumes an expected literal, if present.
fn p_lit(s: &Vec<char>, i: usize, lit: &str) -> (r: Option<usize>)
    requires
        i <= s@.len(),
    ensures
        match r {
            Some(j) => i <= j <= s@.len() && j == i + lit@.len() && sp_lit(
                s@.skip(i as int),
                lit@,
            ) == Some(s@.skip(j as int)),
            None => sp_lit(s@.skip(i as int), lit@) is None,
        },
{
    let ghost tail = s@.skip(i as int);
    let m = lit.unicode_len();
    let n = s.len();
    if m > n - i {
        proof {
            assert(tail.len() == n - i);
        }
        return None;
    }
    let mut k: usize = 0;
    while k < m
        invariant
            m == lit@.len(),
            n == s@.len(),
            tail == s@.skip(i as int),
            i + m <= n,
            k <= m,
            forall|q: int| 0 <= q < k ==> s@[i + q] == lit@[q],
        decreases m - k,
    {
        if s[i + k] != lit.get_char(k) {
            proof {
                assert(tail.take(m as int)[k as int] == s@[i + k]);
                assert(tail.take(m as int) != lit@);
            }
            return None;
        }
        k = k + 1;
    }
    proof {
        assert(tail.take(m as int) =~= lit@);
        assert(tail.skip(m as int) =~= s@.skip(i + m));
    }
    Some(i + m)
}

/// The control character with the given code.
fn ctrl_char(v: u8) -> (c: char)
    requires
        v < 32,
    ensures
        c as u32 == v,
{
    if v == 0 { '\u{00}' } else if v == 1 { '\u{01}' } else if v == 2 { '\u{02}' }
    else if v == 3 { '\u{03}' } else if v == 4 { '\u{04}' } else if v == 5 { '\u{05}' }
    else if v == 6 { '\u{06}' } else if v == 7 { '\u{07}' } else if v == 8 { '\u{08}' }
    else if v == 9 { '\u{09}' } else if v == 10 { '\u{0a}' } else if v == 11 { '\u{0b}' }
    else if v == 12 { '\u{0c}' } else if v == 13 { '\u{0d}' } else if v == 14 { '\u{0e}' }
    else if v == 15 { '\u{0f}' } else if v == 16 { '\u{10}' } else if v == 17 { '\u{11}' }
    else if v == 18 { '\u{12}' } else if v == 19 { '\u{13}' } else if v == 20 { '\u{14}' }
    else if v == 21 { '\u{15}' } else if v == 22 { '\u{16}' } else if v == 23 { '\u{17}' }
    else if v == 24 { '\u{18}' } else if v == 25 { '\u{19}' } else if v == 26 { '\u{1a}' }
    else if v == 27 { '\u{1b}' } else if v == 28 { '\u{1c}' } else if v == 29 { '\u{1d}' }
    else if v == 30 { '\u{1e}' } else { '\u{1f}' }
}

/// The value of a lowercase hexadecimal digit character, if it is one.
fn p_hex_val(c: char) -> (r: Option<u8>)
    ensures
        match r {
            Some(h) => h < 16 && h as int == hex_val(c),
            None => hex_val(c) < 0,
        },
{
    let v = c as u32;
    if 48 <= v && v <= 57 {
        Some((v - 48) as u8)
    } else if 97 <= v && v <= 102 {
        Some((v - 87) as u8)
    } else {
        None
    }
}

/// Prepends an already-read prefix to a parsed string body.
pub open spec fn prepend_str(p: Seq<char>, o: Option<(Seq<char>, Seq<char>)>) -> Option<
    (Seq<char>, Seq<char>),
> {
    match o {
        Some(q) => Some((p + q.0, q.1)),
        None => None,
    }
}

/// Reading one more character moves it from the parsed body into the prefix.
proof fn lemma_prepend_push(p: Seq<char>, c: char, o: Option<(Seq<char>, Seq<char>)>)
    ensures
        prepend_str(p, cons_char(c, o)) == prepend_str(p.push(c), o),
{
    match o {
        Some(q) => {
            assert(p + (seq![c] + q.0) =~= p.push(c) + q.0);
        },
        None => {},
    }
}

/// Consumes a quoted string, opening quote included, undoing escapes.
fn p_qstring(s: &Vec<char>, i: usize) -> (r: Option<(String, usize)>)
    requires
        i <= s@.len(),
    ensures
        match r {
            Some((t, j)) => i < j <= s@.len() && sp_qstring(s@.skip(i as int)) == Some(
                (t@, s@.skip(j as int)),
            ),
            None => sp_qstring(s@.skip(i as int)) is None,
        },
{
    let n = s.len();
    if i >= n {
        proof {
            assert(s@.skip(i as int).len() == 0);
        }
        return None;
    }
    if s[i] != '"' {
        proof {
            assert(s@.skip(i as int)[0] == s@[i as int]);
        }
        return None;
    }
    proof {
        assert(s@.skip(i as int)[0] == s@[i as int]);
        assert(s@.skip(i as int).drop_first() =~= s@.skip(i + 1));
    }
    let ghost goal = sp_strbody(s@.skip(i + 1));
    let mut pos = i + 1;
    let mut acc = String::new();
    proof {
        match goal {
            Some(q) => {
                assert(Seq::<char>::empty() + q.0 =~= q.0);
            },
            None => {},
        }
    }
    loop
        invariant
            n == s@.len(),
            i < pos,
            pos <= n,
            goal == sp_strbody(s@.skip(i + 1)),
            sp_qstring(s@.skip(i as int)) == goal,
            prepend_str(acc@, sp_strbody(s@.skip(pos as int))) == goal,
        decreases n - pos,
    {
        let ghost cur = s@.skip(pos as int);
        proof {
            assert(cur.len() == n - pos);
        }
        if pos >= n {
            return None;
        }
        proof {
            assert(cur[0] == s@[pos as int]);
        }
        let c = s[pos];
        if c == '"' {
            proof {
                assert(cur.drop_first() =~= s@.skip(pos + 1));
                assert(acc@ + Seq::<char>::empty() =~= acc@);
            }
            return Some((acc, pos + 1));
        } else if c == '\\' {
            if n - pos < 2 {
                return None;
            }
            proof {
                assert(cur[1] == s@[pos + 1]);
                assert(cur.skip(2) =~= s@.skip(pos + 2));
            }
            let c2 = s[pos + 1];
            if c2 == '"' || c2 == '\\' {
                proof {
                    lemma_prepend_push(acc@, c2, sp_strbody(s@.skip(pos + 2)));
                }
                push_char(&mut acc, c2);
                pos = pos + 2;
            } else if c2 == 'b' {
                proof {
                    vstd::utf8::char_u32_cast('\u{08}', 8);
                    lemma_prepend_push(acc@, 8u32 as char, sp_strbody(s@.skip(pos + 2)));
                }
                push_char(&mut acc, '\u{08}');
                pos = pos + 2;
            } else if c2 == 't' {
                proof {
                    vstd::utf8::char_u32_cast('\u{09}', 9);
                    lemma_prepend_push(acc@, 9u32 as char, sp_strbody(s@.skip(pos + 2)));
                }
                push_char(&mut acc, '\u{09}');
                pos = pos + 2;
            } else if c2 == 'n' {
                proof {
                    vstd::utf8::char_u32_cast('\u{0a}', 10);
                    lemma_prepend_push(acc@, 10u32 as char, sp_strbody(s@.skip(pos + 2)));
                }
                push_char(&mut acc, '\u{0a}');
                pos = pos + 2;
            } else if c2 == 'f' {
                proof {
                    vstd::utf8::char_u32_cast('\u{0c}', 12);
                    lemma_prepend_push(acc@, 12u32 as char, sp_strbody(s@.skip(pos + 2)));
                }
                push_char(&mut acc, '\u{0c}');
                pos = pos + 2;
            } else if c2 == 'r' {
                proof {
                    vstd::utf8::char_u32_cast('\u{0d}', 13);
                    lemma_prepend_push(acc@, 13u32 as char, sp_strbody(s@.skip(pos + 2)));
                }
                push_char(&mut acc, '\u{0d}');
                pos = pos + 2;
            } else if c2 == 'u' {
                if n - pos < 6 {
                    return None;
                }
                proof {
                    assert(cur[2] == s@[pos + 2]);
                    assert(cur[3] == s@[pos + 3]);
                    assert(cur[4] == s@[pos + 4]);
                    assert(cur[5] == s@[pos + 5]);
                    assert(cur.skip(6) =~= s@.skip(pos + 6));
                }
                if s[pos + 2] != '0' || s[pos + 3] != '0' {
                    return None;
                }
                let h1 = match p_hex_val(s[pos + 4]) {
                    Some(h) => h,
                    None => {
                        return None;
                    },
                };
                let h2 = match p_hex_val(s[pos + 5]) {
                    Some(h) => h,
                    None => {
                        return None;
                    },
                };
                let v = h1 * 16 + h2;
                if v >= 32 {
                    return None;
                }
                let ch = ctrl_char(v);
                proof {
                    vstd::utf8::char_u32_cast(ch, v as u32);
                    assert(hex_val(cur[4]) * 16 + hex_val(cur[5]) == v);
                    lemma_prepend_push(acc@, ch, sp_strbody(s@.skip(pos + 6)));
                }
                push_char(&mut acc, ch);
                pos = pos + 6;
            } else {
                return None;
            }
        } else {
            proof {
                assert(cur.drop_first() =~= s@.skip(pos + 1));
                lemma_prepend_push(acc@, c, sp_strbody(s@.skip(pos + 1)));
            }
            push_char(&mut acc, c);
            pos = pos + 1;
        }
    }
}

/// Every character of a digit run is a digit.
proof fn lemma_digits_prefix_digits(s: Seq<char>)
    ensures
        forall|k: int|
            0 <= k < digits_prefix(s).len() ==> is_digit_char(#[trigger] digits_prefix(s)[k]),
    decreases s.len(),
{
    if s.len() > 0 && is_digit_char(s.first()) {
        lemma_digits_prefix_digits(s.drop_first());
        assert forall|k: int|
            0 <= k < digits_prefix(s).len() implies is_digit_char(
            #[trigger] digits_prefix(s)[k],
        ) by {
            if k > 0 {
                assert(digits_prefix(s)[k] == digits_prefix(s.drop_first())[k - 1]);
            }
        }
    }
}

/// The value of a digit run is not negative.
proof fn lemma_val_of_nonneg(ds: Seq<char>)
    requires
        forall|k: int| 0 <= k < ds.len() ==> is_digit_char(#[trigger] ds[k]),
    ensures
        val_of(ds) >= 0,
    decreases ds.len(),
{
    if ds.len() > 0 {
        lemma_val_of_nonneg(ds.drop_last());
    }
}

/// Appending digits never lowers a nonnegative value.
proof fn lemma_val_of_extend(a: Seq<char>, b: Seq<char>)
    requires
        val_of(a) >= 0,
        forall|k: int| 0 <= k < b.len() ==> is_digit_char(#[trigger] b[k]),
    ensures
        val_of(a + b) >= val_of(a),
    decreases b.len(),
{
    if b.len() == 0 {
        assert(a + b =~= a);
    } else {
        assert(forall|k: int|
            0 <= k < b.drop_last().len() ==> is_digit_char(#[trigger] b.drop_last()[k]));
        lemma_val_of_extend(a, b.drop_last());
        assert((a + b).drop_last() =~= a + b.drop_last());
        assert((a + b).last() == b.last());
        assert(is_digit_char(b.last()));
    }
}

/// Consumes a decimal number that fits a `u64`.
fn p_u64(s: &Vec<char>, i: usize) -> (r: Option<(u64, usize)>)
    requires
        i <= s@.len(),
    ensures
        match r {
            Some((v, j)) => i <= j <= s@.len() && sp_u64(s@.skip(i as int)) == Some(
                (v, s@.skip(j as int)),
            ),
            None => sp_u64(s@.skip(i as int)) is None,
        },
{
    let ghost tail = s@.skip(i as int);
    let ghost ds = digits_prefix(tail);
    let n = s.len();
    let mut pos = i;
    let mut acc: u64 = 0;
    proof {
        assert(tail.subrange(0, 0) =~= Seq::<char>::empty());
        assert(s@.subrange(i as int, i as int) =~= Seq::<char>::empty());
        assert(ds =~= s@.subrange(i as int, i as int) + digits_prefix(s@.skip(i as int)));
    }
    loop
        invariant
            n == s@.len(),
            i <= pos <= n,
            tail == s@.skip(i as int),
            ds == digits_prefix(tail),
            forall|q: int| i <= q < pos ==> is_digit_char(#[trigger] s@[q]),
            ds == s@.subrange(i as int, pos as int) + digits_prefix(s@.skip(pos as int)),
            acc as int == val_of(s@.subrange(i as int, pos as int)),
        decreases n - pos,
    {
        let ghost cur = s@.skip(pos as int);
        let ghost sofar = s@.subrange(i as int, pos as int);
        if pos >= n {
            proof {
                assert(digits_prefix(s@.skip(pos as int)) =~= Seq::<char>::empty());
                assert(ds =~= s@.subrange(i as int, pos as int));
            }
            if pos == i {
                proof {
                    assert(ds.len() == 0);
                }
                return None;
            }
            proof {
                assert(ds.len() == pos - i);
                assert(tail.skip(ds.len() as int) =~= s@.skip(pos as int));
            }
            return Some((acc, pos));
        }
        proof {
            assert(cur[0] == s@[pos as int]);
        }
        let v = s[pos] as u32;
        if v < 48 || v > 57 {
            proof {
                assert(digits_prefix(s@.skip(pos as int)) =~= Seq::<char>::empty());
                assert(ds =~= s@.subrange(i as int, pos as int));
            }
            if pos == i {
                proof {
                    assert(ds.len() == 0);
                }
                return None;
            }
            proof {
                assert(ds.len() == pos - i);
                assert(tail.skip(ds.len() as int) =~= s@.skip(pos as int));
            }
            return Some((acc, pos));
        }
        proof {
            assert(is_digit_char(cur.first()));
            assert(cur.drop_first() =~= s@.skip(pos + 1));
            assert(digits_prefix(cur) == seq![cur.first()] + digits_prefix(s@.skip(pos + 1)));
            assert(s@.subrange(i as int, pos + 1) =~= sofar.push(s@[pos as int]));
            assert(ds =~= s@.subrange(i as int, pos + 1) + digits_prefix(s@.skip(pos + 1)));
            assert(s@.subrange(i as int, pos + 1).drop_last() =~= sofar);
            assert(val_of(s@.subrange(i as int, pos + 1)) == val_of(sofar) * 10 + digit_val(
                s@[pos as int],
            ));
        }
        let d = (v - 48) as u64;
        if acc > (u64::MAX - d) / 10 {
            proof {
                assert(acc * 10 + d > u64::MAX) by (nonlinear_arith)
                    requires
                        acc > (u64::MAX - d) / 10,
                        d <= 9,
                ;
                lemma_digits_prefix_digits(s@.skip(pos + 1));
                assert(val_of(s@.subrange(i as int, pos + 1)) > u64::MAX);
                lemma_val_of_extend(
                    s@.subrange(i as int, pos + 1),
                    digits_prefix(s@.skip(pos + 1)),
                );
                assert(val_of(ds) > u64::MAX);
            }
            return None;
        }
        proof {
            assert(acc * 10 + d <= u64::MAX) by (nonlinear_arith)
                requires
                    acc <= (u64::MAX - d) / 10,
                    d <= 9,
            ;
        }
        acc = acc * 10 + d;
        pos = pos + 1;
    }
}

/// Prepends already-parsed elements to a parsed list.
pub open spec fn prepend_elems<T>(p: Seq<T>, o: Option<(Seq<T>, Seq<char>)>) -> Option<
    (Seq<T>, Seq<char>),
> {
    match o {
        Some(q) => Some((p + q.0, q.1)),
        None => None,
    }
}

/// Parsing one more element moves it from the parsed list into the prefix.
proof fn lemma_prepend_elem<T>(p: Seq<T>, x: T, o: Option<(Seq<T>, Seq<char>)>)
    ensures
        prepend_elems(p, cons_elem(x, o)) == prepend_elems(p.push(x), o),
{
    match o {
        Some(q) => {
            assert(p + (seq![x] + q.0) =~= p.push(x) + q.0);
        },
        None => {},
    }
}

/// Consumes a comma-separated list of quoted strings up to and including the
/// closing bracket.
fn p_strlist(s: &Vec<char>, i: usize) -> (r: Option<(Vec<String>, usize)>)
    requires
        i <= s@.len(),
    ensures
        match r {
            Some((v, j)) => i <= j <= s@.len() && sp_strlist(s@.skip(i as int)) == Some(
                (v.deep_view(), s@.skip(j as int)),
            ),
            None => sp_strlist(s@.skip(i as int)) is None,
        },
{
    let ghost goal = sp_strlist(s@.skip(i as int));
    let n = s.len();
    let mut items: Vec<String> = Vec::new();
    let mut pos = i;
    proof {
        assert(items.deep_view() =~= Seq::<Seq<char>>::empty());
        match goal {
            Some(q) => {
                assert(Seq::<Seq<char>>::empty() + q.0 =~= q.0);
            },
            None => {},
        }
    }
    loop
        invariant
            n == s@.len(),
            i <= pos <= n,
            goal == sp_strlist(s@.skip(i as int)),
            prepend_elems(items.deep_view(), sp_strlist(s@.skip(pos as int))) == goal,
        decreases n - pos,
    {
        let ghost cur = s@.skip(pos as int);
        let ghost dv = items.deep_view();
        if pos >= n {
            proof {
                assert(cur.len() == 0);
            }
            return None;
        }
        proof {
            assert(cur[0] == s@[pos as int]);
        }
        if s[pos] == ']' {
            proof {
                assert(cur.drop_first() =~= s@.skip(pos + 1));
                assert(dv + Seq::<Seq<char>>::empty() =~= dv);
            }
            return Some((items, pos + 1));
        }
        let (x, j) = match p_qstring(s, pos) {
            Some(q) => q,
            None => {
                return None;
            },
        };
        proof {
            assert(s@.skip(j as int).len() < cur.len());
        }
        if j >= n {
            proof {
                assert(s@.skip(j as int).len() == 0);
            }
            return None;
        }
        proof {
            assert(s@.skip(j as int)[0] == s@[j as int]);
            assert(s@.skip(j as int).drop_first() =~= s@.skip(j + 1));
        }
        if s[j] == ',' {
            proof {
                lemma_prepend_elem(dv, x@, sp_strlist(s@.skip(j + 1)));
            }
            items.push(x);
            proof {
                assert forall|k: int| 0 <= k < items.deep_view().len() implies items
                    .deep_view()[k] == dv.push(x@)[k] by {
                    assert(items.deep_view()[k] == items@[k]@);
                }
                assert(items.deep_view() =~= dv.push(x@));
            }
            pos = j + 1;
        } else if s[j] == ']' {
            items.push(x);
            proof {
                assert forall|k: int| 0 <= k < items.deep_view().len() implies items
                    .deep_view()[k] == dv.push(x@)[k] by {
                    assert(items.deep_view()[k] == items@[k]@);
                }
                assert(items.deep_view() =~= dv.push(x@));
                assert(dv + seq![x@] =~= dv.push(x@));
            }
            return Some((items, j + 1));
        } else {
            return None;
        }
    }
}

/// Consumes one file record object.
fn p_file(s: &Vec<char>, i: usize) -> (r: Option<(FileRec, usize)>)
    requires
        i <= s@.len(),
    ensures
        match r {
            Some((f, j)) => i < j <= s@.len() && sp_file(s@.skip(i as int)) == Some(
                (f@, s@.skip(j as int)),
            ),
            None => sp_file(s@.skip(i as int)) is None,
        },
{
    let r1 = match p_lit(s, i, "{\"id\":") {
        Some(j) => j,
        None => {
            return None;
        },
    };
    let (id, r2) = match p_qstring(s, r1) {
        Some(p) => p,
        None => {
            return None;
        },
    };
    let r3 = match p_lit(s, r2, ",\"type\":\"") {
        Some(j) => j,
        None => {
            return None;
        },
    };
    let (kind, r4) = match p_kind(s, r3) {
        Some(p) => p,
        None => {
            return None;
        },
    };
    let r5 = match p_lit(s, r4, ",\"name\":") {
        Some(j) => j,
        None => {
            return None;
        },
    };
    let (name, r6) = match p_qstring(s, r5) {
        Some(p) => p,
        None => {
            return None;
        },
    };
    let r7 = match p_lit(s, r6, "}") {
        Some(j) => j,
        None => {
            return None;
        },
    };
    Some((FileRec { id, kind, name }, r7))
}

/// Consumes a file kind name and its closing quote.
fn p_kind(s: &Vec<char>, i: usize) -> (r: Option<(FileKind, usize)>)
    requires
        i <= s@.len(),
    ensures
        match r {
            Some((k, j)) => i <= j <= s@.len() && sp_kind(s@.skip(i as int)) == Some(
                (k, s@.skip(j as int)),
            ),
            None => sp_kind(s@.skip(i as int)) is None,
        },
{
    match p_lit(s, i, "Source\"") {
        Some(j) => {
            return Some((FileKind::Source, j));
        },
        None => {},
    }
    match p_lit(s, i, "Object\"") {
        Some(j) => {
            return Some((FileKind::Object, j));
        },
        None => {},
    }
    match p_lit(s, i, "Library\"") {
        Some(j) => {
            return Some((FileKind::Library, j));
        },
        None => {},
    }
    match p_lit(s, i, "Executable\"") {
        Some(j) => {
            return Some((FileKind::Executable, j));
        },
        None => {},
    }
    None
}

/// Consumes a stage kind name and its closing quote.
fn p_stage_kind(s: &Vec<char>, i: usize) -> (r: Option<(StageKind, usize)>)
    requires
        i <= s@.len(),
    ensures
        match r {
            Some((k, j)) => i <= j <= s@.len() && sp_stage_kind(s@.skip(i as int)) == Some(
                (k, s@.skip(j as int)),
            ),
            None => sp_stage_kind(s@.skip(i as int)) is None,
        },
{
    match p_lit(s, i, "Compilation\"") {
        Some(j) => {
            return Some((StageKind::Compilation, j));
        },
        None => {},
    }
    match p_lit(s, i, "Link\"") {
        Some(j) => {
            return Some((StageKind::Link, j));
        },
        None => {},
    }
    match p_lit(s, i, "Archiving\"") {
        Some(j) => {
            return Some((StageKind::Archiving, j));
        },
        None => {},
    }
    None
}

/// Consumes one stage record object.
fn p_stage(s: &Vec<char>, i: usize) -> (r: Option<(StageRec, usize)>)
    requires
        i <= s@.len(),
    ensures
        match r {
            Some((st, j)) => i < j <= s@.len() && sp_stage(s@.skip(i as int)) == Some(
                (st@, s@.skip(j as int)),
            ),
            None => sp_stage(s@.skip(i as int)) is None,
        },
{
    let r1 = match p_lit(s, i, "{\"id\":") {
        Some(j) => j,
        None => {
            return None;
        },
    };
    let (id, r2) = match p_qstring(s, r1) {
        Some(p) => p,
        None => {
            return None;
        },
    };
    let r3 = match p_lit(s, r2, ",\"inputs\":[") {
        Some(j) => j,
        None => {
            return None;
        },
    };
    let (inputs, r4) = match p_strlist(s, r3) {
        Some(p) => p,
        None => {
            return None;
        },
    };
    let r5 = match p_lit(s, r4, ",\"outputs\":[") {
        Some(j) => j,
        None => {
            return None;
        },
    };
    let (outputs, r6) = match p_strlist(s, r5) {
        Some(p) => p,
        None => {
            return None;
        },
    };
    let r7 = match p_lit(s, r6, ",\"type\":\"") {
        Some(j) => j,
        None => {
            return None;
        },
    };
    let (kind, r8) = match p_stage_kind(s, r7) {
        Some(p) => p,
        None => {
            return None;
        },
    };
    let r9 = match p_lit(s, r8, ",\"duration\":") {
        Some(j) => j,
        None => {
            return None;
        },
    };
    let (duration, r10) = match p_u64(s, r9) {
        Some(p) => p,
        None => {
            return None;
        },
    };
    let r11 = match p_lit(s, r10, "}") {
        Some(j) => j,
        None => {
            return None;
        },
    };
    Some((StageRec { id, inputs, outputs, kind, duration }, r11))
}

/// Consumes a comma-separated list of file objects up to and including the\n/// closing bracket.
fn p_file_list(s: &Vec<char>, i: usize) -> (r: Option<(Vec<FileRec>, usize)>)
    requires
        i <= s@.len(),
    ensures
        match r {
            Some((v, j)) => i <= j <= s@.len() && sp_file_list(s@.skip(i as int)) == Some(
                (v.deep_view(), s@.skip(j as int)),
            ),
            None => sp_file_list(s@.skip(i as int)) is None,
        },
{
    let ghost goal = sp_file_list(s@.skip(i as int));
    let n = s.len();
    let mut items: Vec<FileRec> = Vec::new();
    let mut pos = i;
    proof {
        assert(items.deep_view() =~= Seq::<FileModel>::empty());
        match goal {
            Some(q) => {
                assert(Seq::<FileModel>::empty() + q.0 =~= q.0);
            },
            None => {},
        }
    }
    loop
        invariant
            n == s@.len(),
            i <= pos <= n,
            goal == sp_file_list(s@.skip(i as int)),
            prepend_elems(items.deep_view(), sp_file_list(s@.skip(pos as int))) == goal,
        decreases n - pos,
    {
        let ghost cur = s@.skip(pos as int);
        let ghost dv = items.deep_view();
        if pos >= n {
            proof {
                assert(cur.len() == 0);
            }
            return None;
        }
        proof {
            assert(cur[0] == s@[pos as int]);
        }
        if s[pos] == ']' {
            proof {
                assert(cur.drop_first() =~= s@.skip(pos + 1));
                assert(dv + Seq::<FileModel>::empty() =~= dv);
            }
            return Some((items, pos + 1));
        }
        let (x, j) = match p_file(s, pos) {
            Some(q) => q,
            None => {
                return None;
            },
        };
        proof {
            assert(s@.skip(j as int).len() < cur.len());
        }
        if j >= n {
            proof {
                assert(s@.skip(j as int).len() == 0);
            }
            return None;
        }
        proof {
            assert(s@.skip(j as int)[0] == s@[j as int]);
            assert(s@.skip(j as int).drop_first() =~= s@.skip(j + 1));
        }
        if s[j] == ',' {
            proof {
                lemma_prepend_elem(dv, x@, sp_file_list(s@.skip(j + 1)));
            }
            items.push(x);
            proof {
                assert forall|k: int| 0 <= k < items.deep_view().len() implies items
                    .deep_view()[k] == dv.push(x@)[k] by {
                    assert(items.deep_view()[k] == items@[k]@);
                }
                assert(items.deep_view() =~= dv.push(x@));
            }
            pos = j + 1;
        } else if s[j] == ']' {
            items.push(x);
            proof {
                assert forall|k: int| 0 <= k < items.deep_view().len() implies items
                    .deep_view()[k] == dv.push(x@)[k] by {
                    assert(items.deep_view()[k] == items@[k]@);
                }
                assert(items.deep_view() =~= dv.push(x@));
                assert(dv + seq![x@] =~= dv.push(x@));
            }
            return Some((items, j + 1));
        } else {
            return None;
        }
    }
}

/// Consumes a comma-separated list of stage objects up to and including the\n/// closing bracket.
fn p_stage_list(s: &Vec<char>, i: usize) -> (r: Option<(Vec<StageRec>, usize)>)
    requires
        i <= s@.len(),
    ensures
        match r {
            Some((v, j)) => i <= j <= s@.len() && sp_stage_list(s@.skip(i as int)) == Some(
                (v.deep_view(), s@.skip(j as int)),
            ),
            None => sp_stage_list(s@.skip(i as int)) is None,
        },
{
    let ghost goal = sp_stage_list(s@.skip(i as int));
    let n = s.len();
    let mut items: Vec<StageRec> = Vec::new();
    let mut pos = i;
    proof {
        assert(items.deep_view() =~= Seq::<StageModel>::empty());
        match goal {
            Some(q) => {
                assert(Seq::<StageModel>::empty() + q.0 =~= q.0);
            },
            None => {},
        }
    }
    loop
        invariant
            n == s@.len(),
            i <= pos <= n,
            goal == sp_stage_list(s@.skip(i as int)),
            prepend_elems(items.deep_view(), sp_stage_list(s@.skip(pos as int))) == goal,
        decreases n - pos,
    {
        let ghost cur = s@.skip(pos as int);
        let ghost dv = items.deep_view();
        if pos >= n {
            proof {
                assert(cur.len() == 0);
            }
            return None;
        }
        proof {
            assert(cur[0] == s@[pos as int]);
        }
        if s[pos] == ']' {
            proof {
                assert(cur.drop_first() =~= s@.skip(pos + 1));
                assert(dv + Seq::<StageModel>::empty() =~= dv);
            }
            return Some((items, pos + 1));
        }
        let (x, j) = match p_stage(s, pos) {
            Some(q) => q,
            None => {
                return None;
            },
        };
        proof {
            assert(s@.skip(j as int).len() < cur.len());
        }
        if j >= n {
            proof {
                assert(s@.skip(j as int).len() == 0);
            }
            return None;
        }
        proof {
            assert(s@.skip(j as int)[0] == s@[j as int]);
            assert(s@.skip(j as int).drop_first() =~= s@.skip(j + 1));
        }
        if s[j] == ',' {
            proof {
                lemma_prepend_elem(dv, x@, sp_stage_list(s@.skip(j + 1)));
            }
            items.push(x);
            proof {
                assert forall|k: int| 0 <= k < items.deep_view().len() implies items
                    .deep_view()[k] == dv.push(x@)[k] by {
                    assert(items.deep_view()[k] == items@[k]@);
                }
                assert(items.deep_view() =~= dv.push(x@));
            }
            pos = j + 1;
        } else if s[j] == ']' {
            items.push(x);
            proof {
                assert forall|k: int| 0 <= k < items.deep_view().len() implies items
                    .deep_view()[k] == dv.push(x@)[k] by {
                    assert(items.deep_view()[k] == items@[k]@);
                }
                assert(items.deep_view() =~= dv.push(x@));
                assert(dv + seq![x@] =~= dv.push(x@));
            }
            return Some((items, j + 1));
        } else {
            return None;
        }
    }
}

/// Reads a report document from its characters: exactly what the document
/// grammar accepts, or nothing.
fn p_report(s: &Vec<char>) -> (r: Option<Report>)
    ensures
        match r {
            Some(rep) => sp_report(s@) == Some(rep@),
            None => sp_report(s@) is None,
        },
{
    let n = s.len();
    proof {
        assert(s@.skip(0) =~= s@);
    }
    let pos0 = match p_lit(s, 0, "{\"files\":[") {
        Some(j) => j,
        None => {
            return None;
        },
    };
    let (files, pos1) = match p_file_list(s, pos0) {
        Some(q) => q,
        None => {
            return None;
        },
    };
    let pos2 = match p_lit(s, pos1, ",\"stages\":[") {
        Some(j) => j,
        None => {
            return None;
        },
    };
    let (stages, pos3) = match p_stage_list(s, pos2) {
        Some(q) => q,
        None => {
            return None;
        },
    };
    let pos4 = match p_lit(s, pos3, "}") {
        Some(j) => j,
        None => {
            proof {
                if s@.skip(pos3 as int) == "}"@ {
                    lemma_lit_rt("}"@, Seq::<char>::empty());
                    assert("}"@ + Seq::<char>::empty() =~= "}"@);
                }
            }
            return None;
        },
    };
    if pos4 == n {
        proof {
            assert(s@.skip(pos3 as int).len() == pos4 - pos3);
            assert(s@.skip(pos3 as int) =~= "}"@);
        }
        let rep = Report { files, stages };
        Some(rep)
    } else {
        proof {
            assert(s@.skip(pos3 as int).len() > pos4 - pos3);
            assert(s@.skip(pos3 as int) != "}"@);
        }
        None
    }
}

/// Reads a report document.  Success is owed on every encodable text: if
/// some report serializes to the input, parsing succeeds and, by the
/// injectivity of the encoding, returns exactly that report.  A returned
/// report always re-serializes to the input; the parse result is also pinned
/// to the document grammar `sp_report`.
pub fn report_from_json(s: &str) -> (r: Option<Report>)
    ensures
        match r {
            Some(rep) => report_json(rep@) == s@ && sp_report(s@) == Some(rep@),
            None => sp_report(s@) is None || report_json(sp_report(s@)->0) != s@,
        },
        (exists|m: ReportModel| report_json(m) == s@) ==> r is Some,
{
    let chars = to_chars(s);
    match p_report(&chars) {
        None => {
            proof {
                if exists|m: ReportModel| report_json(m) == s@ {
                    let m = choose|m: ReportModel| report_json(m) == s@;
                    lemma_round_trip(m);
                }
            }
            None
        },
        Some(rep) => {
            let ser = report_to_json(&rep);
            if crate::strutil::str_eq(ser.as_str(), s) {
                Some(rep)
            } else {
                proof {
                    if exists|m: ReportModel| report_json(m) == s@ {
                        let m = choose|m: ReportModel| report_json(m) == s@;
                        lemma_round_trip(m);
                        assert(rep@ == m);
                    }
                }
                None
            }
        },
    }
}

/// Reads a report document, recovering from anything malformed with a fresh
/// empty report.  A text that some report serializes to yields exactly that
/// report; a text that no report serializes to yields the empty report.
pub fn report_from_json_or_empty(s: &str) -> (r: Report)
    ensures
        report_json(r@) == s@ || r@ == empty_report_model(),
        (forall|m: ReportModel| report_json(m) != s@) ==> r@ == empty_report_model(),
        forall|m: ReportModel| report_json(m) == s@ ==> r@ == m,
{
    match report_from_json(s) {
        Some(rep) => {
            proof {
                assert forall|m: ReportModel| report_json(m) == s@ implies rep@ == m by {
                    lemma_report_json_injective(m, rep@);
                }
            }
            rep
        },
        None => {
            let r = Report::new();
            proof {
                assert forall|m: ReportModel| report_json(m) == s@ implies r@ == m by {
                    assert(exists|m2: ReportModel| report_json(m2) == s@);
                    assert(false);
                }
            }
            r
        },
    }
}

} // verus!
