//! Core data types for the preprocessor, and the byte-offset to
//! line/column utility that every position-carrying type relies on.

use vstd::prelude::*;

verus! {

use vstd::string::StringSliceAdditionalSpecFns;

/// Newline byte (`\n`).
pub const NL: u8 = 10;

/// Position in the editor's source buffer: a byte offset together with the
/// zero-based line and the zero-based column (counted in characters).
#[derive(Debug, Clone, Copy, PartialEq, Eq, Structural)]
pub struct EditorPosition {
    pub offset: usize,
    pub line: usize,
    pub column: usize,
}

/// Position in the rendered document. Coordinates are carried as the numeric
/// literal text recovered from the render engine's query output; the caller
/// converts them to its own numeric type.
#[derive(Debug, Clone)]
pub struct PdfPosition {
    pub page: usize,
    pub x: String,
    pub y: String,
}

/// A single anchor entry joining an editor position with the rendered
/// position, when the render engine reported one.
#[derive(Debug, Clone)]
pub struct AnchorEntry {
    pub id: String,
    pub editor: EditorPosition,
    pub pdf: Option<PdfPosition>,
}

/// The complete source map handed to the caller: one entry per anchor, in
/// injection order.
#[derive(Debug, Clone)]
pub struct SourceMapPayload {
    pub anchors: Vec<AnchorEntry>,
}

impl Default for SourceMapPayload {
    fn default() -> (r: SourceMapPayload)
        ensures
            r.anchors@ =~= Seq::<AnchorEntry>::empty(),
    {
        SourceMapPayload { anchors: Vec::new() }
    }
}

/// Metadata about one injected anchor: its identifier and the position it
/// refers to in the (frontmatter-adjusted) source buffer.
#[derive(Debug, Clone)]
pub struct AnchorMeta {
    pub id: String,
    pub offset: usize,
    pub line: usize,
    pub column: usize,
}

/// Output of anchor injection: the rewritten markdown and the ordered list
/// of anchors.
#[derive(Debug, Clone)]
pub struct PreprocessorOutput {
    pub markdown: String,
    pub anchors: Vec<AnchorMeta>,
}

/// Summary of a cleanup pass over cached files.
#[derive(Debug, Clone, Copy, PartialEq, Eq, Structural)]
pub struct CleanupResponse {
    pub files_removed: usize,
    pub total_space_freed: u64,
}

/// Number of newline bytes among the first `end` bytes of `s`.
pub open spec fn newline_count(s: Seq<u8>, end: int) -> int
    decreases end,
{
    if end <= 0 {
        0
    } else {
        newline_count(s, end - 1) + if s[end - 1] == NL {
            1int
        } else {
            0int
        }
    }
}

/// Start of the line containing byte position `i`: the smallest position
/// reachable from `i` without crossing a newline.
pub open spec fn line_start_at(s: Seq<u8>, i: int) -> int
    decreases i,
{
    if i <= 0 {
        0
    } else if s[i - 1] == NL {
        i
    } else {
        line_start_at(s, i - 1)
    }
}

/// Number of character starts (bytes that do not continue a multi-byte
/// UTF-8 sequence) in `s[from..to)`.
pub open spec fn scalar_count(s: Seq<u8>, from: int, to: int) -> int
    decreases to - from,
{
    if to <= from {
        0
    } else {
        scalar_count(s, from, to - 1) + if vstd::utf8::is_continuation_byte(s[to - 1]) {
            0int
        } else {
            1int
        }
    }
}

/// Zero-based line number of byte offset `o` in buffer `s`.
pub open spec fn line_number_at(s: Seq<u8>, o: int) -> int {
    newline_count(s, o)
}

/// Zero-based column (in characters) of byte offset `o` in buffer `s`.
pub open spec fn column_at(s: Seq<u8>, o: int) -> int {
    scalar_count(s, line_start_at(s, o), o)
}

proof fn lemma_newline_count_le(s: Seq<u8>, end: int)
    requires
        0 <= end,
    ensures
        0 <= newline_count(s, end) <= end,
    decreases end,
{
    if end > 0 {
        lemma_newline_count_le(s, end - 1);
    }
}

proof fn lemma_scalar_count_le(s: Seq<u8>, from: int, to: int)
    requires
        from <= to,
    ensures
        0 <= scalar_count(s, from, to) <= to - from,
    decreases to - from,
{
    if to > from {
        lemma_scalar_count_le(s, from, to - 1);
    }
}

proof fn lemma_line_start_at_bounds(s: Seq<u8>, i: int)
    requires
        0 <= i,
    ensures
        0 <= line_start_at(s, i) <= i,
    decreases i,
{
    if i > 0 && s[i - 1] != NL {
        lemma_line_start_at_bounds(s, i - 1);
    }
}

/// Convert a byte offset in `source` to its zero-based (line, column) pair,
/// with the column counted in characters.
pub fn offset_to_line_column(source: &str, offset: usize) -> (r: (usize, usize))
    requires
        offset <= source.spec_bytes().len(),
    ensures
        r.0 == line_number_at(source.spec_bytes(), offset as int),
        r.1 == column_at(source.spec_bytes(), offset as int),
{
    let bytes: &[u8] = source.as_bytes();
    let ghost sb = source.spec_bytes();
    let mut line: usize = 0;
    let mut column: usize = 0;
    let mut i: usize = 0;
    while i < offset
        invariant
            i <= offset,
            offset <= sb.len(),
            bytes@ == sb,
            line == newline_count(sb, i as int),
            column == scalar_count(sb, line_start_at(sb, i as int), i as int),
            line <= i,
            column <= i,
        decreases offset - i,
    {
        let b = bytes[i];
        proof {
            lemma_line_start_at_bounds(sb, i as int);
            lemma_scalar_count_le(sb, line_start_at(sb, i as int), i as int);
        }
        if b == NL {
            line = line + 1;
            column = 0;
            proof {
                assert(line_start_at(sb, i + 1) == i + 1);
            }
        } else if b < 0x80 || b >= 0xc0 {
            column = column + 1;
            proof {
                assert(line_start_at(sb, i + 1) == line_start_at(sb, i as int));
                assert(!vstd::utf8::is_continuation_byte(sb[i as int]));
            }
        } else {
            proof {
                assert(line_start_at(sb, i + 1) == line_start_at(sb, i as int));
                assert(vstd::utf8::is_continuation_byte(sb[i as int]));
            }
        }
        i = i + 1;
    }
    (line, column)
}

/// One lookup entry per anchor, pairing the identifier with its editor
/// position, in anchor order.
pub fn anchors_to_lookup(anchors: &Vec<AnchorMeta>) -> (r: Vec<(String, EditorPosition)>)
    ensures
        r@.len() == anchors@.len(),
        forall|i: int|
            0 <= i < anchors@.len() ==> (#[trigger] r@[i]).0@ == anchors@[i].id@ && r@[i].1
                == (EditorPosition {
                offset: anchors@[i].offset,
                line: anchors@[i].line,
                column: anchors@[i].column,
            }),
{
    let mut r: Vec<(String, EditorPosition)> = Vec::new();
    let mut i: usize = 0;
    while i < anchors.len()
        invariant
            i <= anchors@.len(),
            r@.len() == i,
            forall|j: int|
                0 <= j < i ==> (#[trigger] r@[j]).0@ == anchors@[j].id@ && r@[j].1
                    == (EditorPosition {
                    offset: anchors@[j].offset,
                    line: anchors@[j].line,
                    column: anchors@[j].column,
                }),
        decreases anchors@.len() - i,
    {
        let a = &anchors[i];
        r.push(
            (
                a.id.clone(),
                EditorPosition { offset: a.offset, line: a.line, column: a.column },
            ),
        );
        i = i + 1;
    }
    r
}

} // verus!
