//! The work of the hook on one edited file: which file, and what becomes of
//! its bytes.
use vstd::prelude::*;

use crate::csharp::{parse_csharp, ParseOutcome};
use crate::danger::collect;
use crate::fix::{fix_blank_lines, FixOutcome};
use crate::trusted::{is_utf8, json_member_string};

verus! {

/// What becomes of a source file's bytes.
#[derive(Debug)]
pub enum SourceOutcome {
    /// The text after the byte order mark is not UTF-8; the file stays as it is.
    NotUtf8,
    /// The C# parser could not be set up; the file stays as it is.
    ParserUnavailable,
    /// The parser gave no usable tree; the file stays as it is.
    ParseFailed,
    /// No blank line needs a change.
    NoChange,
    /// The new bytes of the file.
    Fixed(Vec<u8>),
}

/// The bytes start with the UTF-8 byte order mark `EF BB BF`.
pub open spec fn has_bom(b: Seq<u8>) -> bool {
    b.len() >= 3 && b[0] == 0xEFu8 && b[1] == 0xBBu8 && b[2] == 0xBFu8
}

/// Where the text starts: after the byte order mark, if there is one.
pub open spec fn body_offset(b: Seq<u8>) -> int {
    if has_bom(b) {
        3
    } else {
        0
    }
}

/// `result` is what the repair of `body` gives with the node table read from
/// tree-sitter's C# parse of `body`, that table's danger zones, and the
/// anchors that the parser's nodes at the line starts give.
pub open spec fn fixes_to(body: Seq<u8>, result: Option<Seq<u8>>) -> bool {
    exists|ns: Seq<crate::syntax::SyntaxNode>, d: Seq<crate::danger::Interval>, a: Seq<Option<usize>>|
        {
            &&& crate::csharp::table_from(crate::csharp::csharp_nodes(body), ns)
            &&& crate::syntax::nodes_ok(ns)
            &&& crate::syntax::nodes_fit(ns, body.len() as int)
            &&& crate::danger::zones_of(ns, d)
            &&& crate::danger::sorted_intervals(d)
            &&& crate::fix::parser_anchors(body, ns, d, body, a)
            &&& crate::fix::repaired(body, ns, d, a) == result
        }
}

/// The length of the byte order mark at the start of `bytes` (0 or 3).
pub fn bom_len(bytes: &[u8]) -> (r: usize)
    ensures
        r == body_offset(bytes@),
{
    if bytes.len() >= 3 && bytes[0] == 0xEFu8 && bytes[1] == 0xBBu8 && bytes[2] == 0xBFu8 {
        3
    } else {
        0
    }
}

/// Repairs the blank-line indentation of the bytes of a C# file. A leading
/// byte order mark is kept as it is and the rest is the text; text that is not
/// UTF-8 is left alone.
pub fn process_source(bytes: &[u8]) -> (r: SourceOutcome)
    ensures
        ({
            let off = body_offset(bytes@);
            let body = bytes@.subrange(off, bytes@.len() as int);
            &&& (r is NotUtf8 <==> !vstd::utf8::valid_utf8(body))
            &&& !(r is ParserUnavailable)
            &&& (r is ParseFailed <==> vstd::utf8::valid_utf8(body) && !crate::csharp::table_ok(
                crate::csharp::csharp_nodes(body),
                body.len() as int,
            ))
            &&& (r is NoChange ==> fixes_to(body, None))
            &&& (r matches SourceOutcome::Fixed(out) ==> {
                &&& off <= out@.len()
                &&& out@.subrange(0, off) == bytes@.subrange(0, off)
                &&& fixes_to(body, Some(out@.subrange(off, out@.len() as int)))
            })
        }),
{
    let off = bom_len(bytes);
    let body = vstd::slice::slice_subrange(bytes, off, bytes.len());
    if !is_utf8(body) {
        return SourceOutcome::NotUtf8;
    }
    let parsed = match parse_csharp(body) {
        ParseOutcome::ParserUnavailable => {
            return SourceOutcome::ParserUnavailable;
        },
        ParseOutcome::Failed => {
            return SourceOutcome::ParseFailed;
        },
        ParseOutcome::Parsed(p) => p,
    };
    let danger = collect(&parsed.syntax);
    let outcome = fix_blank_lines(body, &parsed, danger.as_slice());
    let ghost ns = parsed.syntax.nodes@;
    let ghost a = choose|a: Seq<Option<usize>>|
        crate::fix::parser_anchors(body@, ns, danger@, parsed.tree.source(), a)
            && crate::fix::fix_result(outcome, body@, ns, danger@, a);
    assert(crate::fix::fix_result(outcome, body@, ns, danger@, a));
    assert(crate::fix::parser_anchors(body@, ns, danger@, body@, a));
    match outcome {
        FixOutcome::NoChange => SourceOutcome::NoChange,
        FixOutcome::Changed(new_body) => {
            let mut out: Vec<u8> = Vec::new();
            let mut i: usize = 0;
            while i < off
                invariant
                    i <= off <= bytes@.len(),
                    out@ == bytes@.subrange(0, i as int),
                decreases off - i,
            {
                out.push(bytes[i]);
                assert(bytes@.subrange(0, i + 1) == bytes@.subrange(0, i as int).push(bytes@[i as int]));
                i = i + 1;
            }
            let mut j: usize = 0;
            while j < new_body.len()
                invariant
                    j <= new_body@.len(),
                    out@ == bytes@.subrange(0, off as int) + new_body@.subrange(0, j as int),
                decreases new_body@.len() - j,
            {
                out.push(new_body[j]);
                assert(new_body@.subrange(0, j + 1) == new_body@.subrange(0, j as int).push(
                    new_body@[j as int],
                ));
                j = j + 1;
            }
            assert(new_body@.subrange(0, new_body@.len() as int) == new_body@);
            assert(out@.subrange(0, off as int) == bytes@.subrange(0, off as int));
            assert(out@.subrange(off as int, out@.len() as int) == new_body@);
            SourceOutcome::Fixed(out)
        },
    }
}

/// Whether a file name extension names a C# file: `cs`, in any letter case.
pub open spec fn spec_is_cs_extension(ext: Option<Seq<char>>) -> bool {
    match ext {
        Some(e) => e.len() == 2 && (e[0] == 'c' || e[0] == 'C') && (e[1] == 's' || e[1] == 'S'),
        None => false,
    }
}

/// Whether a file name extension names a C# file: `cs`, in any letter case.
pub fn is_cs_extension(ext: Option<&str>) -> (r: bool)
    ensures
        r == spec_is_cs_extension(
            match ext {
                Some(e) => Some(e@),
                None => None,
            },
        ),
{
    match ext {
        None => false,
        Some(e) => {
            if e.unicode_len() != 2 {
                return false;
            }
            let a = e.get_char(0);
            let b = e.get_char(1);
            (a == 'c' || a == 'C') && (b == 's' || b == 'S')
        },
    }
}

/// What `serde_json` reads in `text` at the member `inner` of the member
/// `outer` of the top-level object: the text of that JSON string, or nothing
/// when the text is no JSON, a member is missing or the value is no string.
pub uninterp spec fn json_member_text(text: Seq<char>, outer: Seq<char>, inner: Seq<char>) -> Option<Seq<char>>;

/// The path of the edited file in the hook's JSON input: the string
/// `tool_input.file_path`. Nothing is returned when the input is no JSON or
/// that member is missing or no string.
pub fn hook_file_path(input: &str) -> (r: Option<String>)
    ensures
        (match r {
            Some(s) => Some(s@),
            None => None,
        }) == json_member_text(input@, "tool_input"@, "file_path"@),
{
    json_member_string(input, "tool_input", "file_path")
}

} // verus!
