//! Markdown normalization: isolating a leading delimited metadata block and
//! guaranteeing a blank line before tables.

use vstd::prelude::*;

verus! {

use vstd::string::StringSliceAdditionalSpecFns;
use vstd::utf8::*;
use crate::types::NL;
use crate::lines::{
    CR, is_ascii_ws, ws_skip, line_end_at, content_end_at, is_table_line, is_blank_line,
    lemma_ws_skip_bounds, lemma_ws_skip_props, lemma_line_end_at_props, find_line_end, skip_ws,
};
use crate::bytestr::{
    append_slice_range, lemma_boundary_after_ascii, lemma_valid_ascii_singleton,
    lemma_valid_subrange_ascii, string_from_utf8,
};

/// The metadata delimiter byte (`-`).
pub const DASH: u8 = 45;

/// True when `"\n---"` stands at position `j`.
pub open spec fn close_delim_at(s: Seq<u8>, j: int) -> bool {
    &&& 0 <= j
    &&& j + 4 <= s.len()
    &&& s[j] == NL
    &&& s[j + 1] == DASH
    &&& s[j + 2] == DASH
    &&& s[j + 3] == DASH
}

/// Position of the first closing delimiter at or after `j`, or `-1`.
pub open spec fn find_close_from(s: Seq<u8>, j: int) -> int
    decreases s.len() + 4 - j,
{
    if j < 0 || j + 4 > s.len() {
        -1
    } else if close_delim_at(s, j) {
        j
    } else {
        find_close_from(s, j + 1)
    }
}

/// Length of the leading metadata block, both delimiter lines and one
/// trailing newline included; `0` when the buffer carries none.
pub open spec fn frontmatter_len(s: Seq<u8>) -> int {
    let t = ws_skip(s, 0, s.len() as int);
    if t + 3 <= s.len() && s[t] == DASH && s[t + 1] == DASH && s[t + 2] == DASH {
        let c = find_close_from(s, t + 3);
        if c < 0 {
            0
        } else {
            let e = c + 4;
            if e < s.len() && s[e] == NL {
                e + 1
            } else {
                e
            }
        }
    } else {
        0
    }
}

pub proof fn lemma_find_close_bounds(s: Seq<u8>, j: int)
    requires
        0 <= j,
    ensures
        find_close_from(s, j) == -1 || (j <= find_close_from(s, j) && find_close_from(s, j) + 4
            <= s.len() && close_delim_at(s, find_close_from(s, j))),
    decreases s.len() + 4 - j,
{
    if j + 4 <= s.len() && !close_delim_at(s, j) {
        lemma_find_close_bounds(s, j + 1);
    }
}

pub proof fn lemma_frontmatter_len_bounds(s: Seq<u8>)
    ensures
        0 <= frontmatter_len(s) <= s.len(),
        frontmatter_len(s) > 0 ==> s[frontmatter_len(s) - 1] == NL || s[frontmatter_len(s) - 1]
            == DASH,
{
    lemma_ws_skip_bounds(s, 0, s.len() as int);
    let t = ws_skip(s, 0, s.len() as int);
    if t + 3 <= s.len() && s[t] == DASH && s[t + 1] == DASH && s[t + 2] == DASH {
        lemma_find_close_bounds(s, t + 3);
    }
}

/// Split a leading delimited metadata block from the content, returning the
/// block (delimiters included) and the remainder. Without a complete block
/// the first part is empty and the second is the whole input.
pub fn split_frontmatter(markdown: &str) -> (r: (&str, &str))
    ensures
        r.0.spec_bytes() == markdown.spec_bytes().subrange(0, frontmatter_len(
            markdown.spec_bytes(),
        )),
        r.1.spec_bytes() == markdown.spec_bytes().subrange(
            frontmatter_len(markdown.spec_bytes()),
            markdown.spec_bytes().len() as int,
        ),
{
    broadcast use vstd::utf8::encode_utf8_valid_utf8, vstd::utf8::is_char_boundary_start_end_of_seq;

    let ghost sb = markdown.spec_bytes();
    let b: &[u8] = markdown.as_bytes();
    let n: usize = b.len();
    let t: usize = skip_ws(b, 0, n);
    let mut idx: usize = 0;
    if n >= 3 && t <= n - 3 && b[t] == DASH && b[t + 1] == DASH && b[t + 2] == DASH {
        let mut j: usize = t + 3;
        while n >= 4 && j <= n - 4 && !(b[j] == NL && b[j + 1] == DASH && b[j + 2] == DASH && b[j
            + 3] == DASH)
            invariant
                t + 3 <= j <= n,
                n == sb.len(),
                b@ == sb,
                find_close_from(sb, t + 3) == find_close_from(sb, j as int),
            decreases n - j,
        {
            j = j + 1;
        }
        if n >= 4 && j <= n - 4 {
            let e: usize = j + 4;
            if e < n && b[e] == NL {
                idx = e + 1;
            } else {
                idx = e;
            }
            proof {
                assert(close_delim_at(sb, j as int));
                assert(find_close_from(sb, j as int) == j);
                assert(frontmatter_len(sb) == idx);
            }
        } else {
            proof {
                assert(find_close_from(sb, j as int) == -1);
                assert(frontmatter_len(sb) == 0);
            }
        }
    } else {
        proof {
            assert(frontmatter_len(sb) == 0);
        }
    }
    proof {
        if idx > 0 {
            lemma_frontmatter_len_bounds(sb);
            lemma_boundary_after_ascii(sb, idx as int);
        }
    }
    markdown.split_at(idx)
}

/// The output of the table-spacing pass from line position `i` on, given
/// whether any line was already written and how the previous line
/// classified.
pub open spec fn norm_from(s: Seq<u8>, i: int, first: bool, prev_blank: bool, prev_table: bool) -> Seq<u8>
    decreases s.len() + 1 - i,
    via norm_from_dec
{
    if i < 0 || i >= s.len() {
        Seq::<u8>::empty()
    } else {
        let e = line_end_at(s, i);
        let ce = content_end_at(s, i);
        let tbl = is_table_line(s, i, ce);
        let blk = is_blank_line(s, i, ce);
        let ins = tbl && !prev_table && !first && !prev_blank;
        (if first {
            Seq::<u8>::empty()
        } else {
            seq![NL]
        }) + (if ins {
            seq![NL]
        } else {
            Seq::<u8>::empty()
        }) + s.subrange(i, ce) + norm_from(s, e + 1, false, blk, tbl)
    }
}

#[via_fn]
proof fn norm_from_dec(s: Seq<u8>, i: int, first: bool, prev_blank: bool, prev_table: bool) {
    if !(i < 0 || i >= s.len()) {
        lemma_line_end_at_props(s, i);
    }
}

/// One unfolding step of [`norm_from`] at a line start.
pub proof fn lemma_norm_from_step(s: Seq<u8>, i: int, first: bool, prev_blank: bool, prev_table: bool)
    requires
        0 <= i < s.len(),
    ensures
        norm_from(s, i, first, prev_blank, prev_table) == (if first {
            Seq::<u8>::empty()
        } else {
            seq![NL]
        }) + (if is_table_line(s, i, content_end_at(s, i)) && !prev_table && !first && !prev_blank {
            seq![NL]
        } else {
            Seq::<u8>::empty()
        }) + s.subrange(i, content_end_at(s, i)) + norm_from(
            s,
            line_end_at(s, i) + 1,
            false,
            is_blank_line(s, i, content_end_at(s, i)),
            is_table_line(s, i, content_end_at(s, i)),
        ),
{
}

/// The table-spacing pass over a whole buffer.
pub open spec fn normalized_bytes(s: Seq<u8>) -> Seq<u8> {
    norm_from(s, 0, true, false, false)
}

/// Rewrite `markdown` line by line, inserting one blank line before every
/// table that directly follows a non-blank non-table line. Other lines pass
/// through unchanged; line endings are normalized to `\n` and a trailing
/// newline is not kept.
#[verifier::rlimit(100)]
#[verifier::spinoff_prover]
pub fn ensure_blank_lines_before_tables(markdown: &str) -> (r: String)
    ensures
        encode_utf8(r@) == normalized_bytes(markdown.spec_bytes()),
{
    broadcast use vstd::utf8::encode_utf8_valid_utf8, vstd::utf8::valid_utf8_concat, vstd::utf8::decode_utf8_encode_utf8;

    let ghost sb = markdown.spec_bytes();
    let b: &[u8] = markdown.as_bytes();
    let n: usize = b.len();
    let mut out: Vec<u8> = Vec::new();
    let mut i: usize = 0;
    let mut first: bool = true;
    let mut prev_blank: bool = false;
    let mut prev_table: bool = false;
    while i < n
        invariant
            i <= n,
            n == sb.len(),
            b@ == sb,
            valid_utf8(sb),
            valid_utf8(out@),
            i == 0 || i == n || sb[i as int - 1] == NL,
            normalized_bytes(sb) == out@ + norm_from(sb, i as int, first, prev_blank, prev_table),
        decreases n - i,
    {
        let e: usize = find_line_end(b, i);
        let ce: usize = if e > i && b[e - 1] == CR {
            e - 1
        } else {
            e
        };
        proof {
            lemma_line_end_at_props(sb, i as int);
        }
        let w: usize = skip_ws(b, i, ce);
        let tbl: bool = w < ce && b[w] == 124;
        let blk: bool = w == ce;
        let ins: bool = tbl && !prev_table && !first && !prev_blank;
        let ghost out0 = out@;
        let ghost sep: Seq<u8> = if first {
            Seq::<u8>::empty()
        } else {
            seq![NL]
        };
        let ghost gap: Seq<u8> = if ins {
            seq![NL]
        } else {
            Seq::<u8>::empty()
        };
        let ghost lineb = sb.subrange(i as int, ce as int);
        if !first {
            out.push(NL);
        }
        if ins {
            out.push(NL);
        }
        append_slice_range(&mut out, b, i, ce);
        proof {
            assert(ce == content_end_at(sb, i as int));
            assert(tbl == is_table_line(sb, i as int, ce as int));
            assert(blk == is_blank_line(sb, i as int, ce as int));
            // the line content is valid UTF-8: both ends sit beside ASCII bytes
            assert(i == 0 || sb[i as int - 1] < 0x80);
            assert(ce == n || sb[ce as int] < 0x80);
            lemma_valid_subrange_ascii(sb, i as int, ce as int);
            lemma_valid_ascii_singleton(NL);
            assert(valid_utf8(Seq::<u8>::empty()));
            assert(valid_utf8(sep));
            assert(valid_utf8(gap));
            valid_utf8_concat(out0, sep);
            valid_utf8_concat(out0 + sep, gap);
            valid_utf8_concat(out0 + sep + gap, lineb);
            assert(out@ =~= out0 + sep + gap + lineb);
            lemma_norm_from_step(sb, i as int, first, prev_blank, prev_table);
            assert(normalized_bytes(sb) =~= out@ + norm_from(sb, e + 1, false, blk, tbl));
        }
        if e < n {
            i = e + 1;
        } else {
            i = n;
            proof {
                assert(norm_from(sb, e + 1, false, blk, tbl) =~= Seq::<u8>::empty());
                assert(norm_from(sb, n as int, false, blk, tbl) =~= Seq::<u8>::empty());
            }
        }
        first = false;
        prev_blank = blk;
        prev_table = tbl;
    }
    proof {
        assert(norm_from(sb, i as int, first, prev_blank, prev_table) =~= Seq::<u8>::empty());
        assert(normalized_bytes(sb) =~= out@);
    }
    let r = string_from_utf8(out);
    r.unwrap()
}

/// A non-blank, non-table line directly followed by a table line comes out
/// with exactly one blank line between the two.
pub proof fn lemma_blank_line_inserted_before_table(s: Seq<u8>, i: int, first: bool, prev_blank: bool, prev_table: bool)
    requires
        0 <= i < s.len(),
        line_end_at(s, i) < s.len(),
        !is_blank_line(s, i, content_end_at(s, i)),
        !is_table_line(s, i, content_end_at(s, i)),
        is_table_line(s, line_end_at(s, i) + 1, content_end_at(s, line_end_at(s, i) + 1)),
    ensures
        ({
            let e = line_end_at(s, i);
            let ce = content_end_at(s, i);
            let i2 = e + 1;
            let e2 = line_end_at(s, i2);
            let ce2 = content_end_at(s, i2);
            norm_from(s, i, first, prev_blank, prev_table) == (if first {
                Seq::<u8>::empty()
            } else {
                seq![NL]
            }) + s.subrange(i, ce) + seq![NL] + seq![NL] + s.subrange(i2, ce2) + norm_from(
                s,
                e2 + 1,
                false,
                is_blank_line(s, i2, ce2),
                true,
            )
        }),
{
    let e = line_end_at(s, i);
    let ce = content_end_at(s, i);
    let i2 = e + 1;
    let ce2 = content_end_at(s, i2);
    lemma_line_end_at_props(s, i);
    lemma_line_end_at_props(s, i2);
    lemma_norm_from_step(s, i, first, prev_blank, prev_table);
    lemma_norm_from_step(s, i2, false, is_blank_line(s, i, ce), is_table_line(s, i, ce));
    lemma_ws_skip_props(s, i2, ce2);
    assert(!is_blank_line(s, i2, ce2));
    assert(norm_from(s, i, first, prev_blank, prev_table) =~= (if first {
        Seq::<u8>::empty()
    } else {
        seq![NL]
    }) + s.subrange(i, ce) + seq![NL] + seq![NL] + s.subrange(i2, ce2) + norm_from(
        s,
        line_end_at(s, i2) + 1,
        false,
        is_blank_line(s, i2, ce2),
        true,
    ));
}

/// A table at the very start of the document is left untouched: the
/// output opens with the table line itself, no blank line before it.
pub proof fn lemma_no_blank_before_leading_table(s: Seq<u8>)
    requires
        s.len() > 0,
        is_table_line(s, 0, content_end_at(s, 0)),
    ensures
        normalized_bytes(s) == s.subrange(0, content_end_at(s, 0)) + norm_from(
            s,
            line_end_at(s, 0) + 1,
            false,
            false,
            true,
        ),
{
    lemma_line_end_at_props(s, 0);
    lemma_norm_from_step(s, 0, true, false, false);
    lemma_ws_skip_props(s, 0, content_end_at(s, 0));
    assert(!is_blank_line(s, 0, content_end_at(s, 0)));
    assert(normalized_bytes(s) =~= s.subrange(0, content_end_at(s, 0)) + norm_from(
        s,
        line_end_at(s, 0) + 1,
        false,
        false,
        true,
    ));
}

} // verus!
