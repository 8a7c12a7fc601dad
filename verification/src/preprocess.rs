//! Top-level orchestration: split the metadata block off, rewrite
//! citations when a bibliography is attached, normalize table spacing,
//! inject anchors, and re-attach the metadata block with every anchor
//! offset shifted and its line and column recomputed from the final
//! buffer.

use vstd::prelude::*;

verus! {

use vstd::string::{StringSliceAdditionalSpecFns, StringExecFns};
use vstd::utf8::{encode_utf8, valid_utf8, encode_utf8_valid_utf8, has_width_1_encoding,
    leading_byte_width_1, encode_scalar};
use crate::types::{NL, AnchorMeta, PreprocessorOutput, line_number_at, column_at,
    offset_to_line_column};
use crate::bytestr::{push_char, lemma_encode_utf8_concat};
use crate::normalize::{frontmatter_len, normalized_bytes, split_frontmatter,
    ensure_blank_lines_before_tables};
use crate::citations::{cited_bytes, convert_citations};
use crate::anchors::{PreprocessError, AnchorRec, anchor_model, injected_bytes, injected_state,
    inject_anchors};

/// The buffer the anchor injector works on: the content after the
/// metadata block, citation-rewritten when a bibliography is attached,
/// then table-normalized.
pub open spec fn content_bytes(s: Seq<u8>, has_bib: bool) -> Seq<u8> {
    let fl = frontmatter_len(s);
    let content = s.subrange(fl, s.len() as int);
    normalized_bytes(
        if has_bib {
            cited_bytes(content)
        } else {
            content
        },
    )
}

/// The final output buffer: the injected content, with the metadata block
/// and one separating newline put back in front when one was present.
pub open spec fn preprocessed_bytes(s: Seq<u8>, has_bib: bool) -> Seq<u8> {
    let fl = frontmatter_len(s);
    let inner = injected_bytes(content_bytes(s, has_bib));
    if fl > 0 {
        s.subrange(0, fl) + seq![NL] + inner
    } else {
        inner
    }
}

/// An anchor with its offset shifted past the metadata block and its line
/// and column recomputed from the final buffer.
pub open spec fn shift_anchor(out: Seq<u8>, fl: int, a: AnchorRec) -> AnchorRec {
    AnchorRec {
        id: a.id,
        offset: a.offset + fl + 1,
        line: line_number_at(out, a.offset + fl + 1),
        column: column_at(out, a.offset + fl + 1),
    }
}

/// The final anchor list: the injector's anchors, shifted when a metadata
/// block was re-attached.
pub open spec fn preprocessed_anchors(s: Seq<u8>, has_bib: bool) -> Seq<AnchorRec> {
    let fl = frontmatter_len(s);
    let inner = injected_state(content_bytes(s, has_bib)).anchors;
    if fl > 0 {
        inner.map_values(|a: AnchorRec| shift_anchor(preprocessed_bytes(s, has_bib), fl, a))
    } else {
        inner
    }
}

/// The newline character encodes as the newline byte.
pub proof fn lemma_encode_nl()
    ensures
        encode_utf8(seq!['\n']) =~= seq![NL],
{
    let c = seq!['\n'];
    assert('\n' as u32 == 10);
    assert(has_width_1_encoding(10));
    assert(encode_scalar(10) =~= seq![leading_byte_width_1(10)]);
    assert((10u32 & 0x7F) == 10u32) by (bit_vector);
    assert(leading_byte_width_1(10) == NL);
    assert(c.drop_first() =~= Seq::<char>::empty());
    assert(encode_utf8(c) =~= encode_scalar(10) + encode_utf8(Seq::<char>::empty()));
}

/// Transform `markdown`: preserve a leading metadata block, rewrite
/// citations only when `has_bibliography` holds, guarantee blank lines
/// before tables, inject invisible anchors, and hand back the rewritten
/// buffer with the anchor list in document order.
#[verifier::rlimit(100)]
#[verifier::loop_isolation(false)]
pub fn preprocess_markdown(markdown: &str, has_bibliography: bool) -> (r: Result<
    PreprocessorOutput,
    PreprocessError,
>)
    ensures
        r is Ok,
        r matches Ok(o) ==> encode_utf8(o.markdown@) == preprocessed_bytes(
            markdown.spec_bytes(),
            has_bibliography,
        ) && o.anchors@.map_values(|a: AnchorMeta| anchor_model(a)) == preprocessed_anchors(
            markdown.spec_bytes(),
            has_bibliography,
        ),
{
    broadcast use encode_utf8_valid_utf8;

    let ghost s = markdown.spec_bytes();
    let ghost fl = frontmatter_len(s);
    proof {
        crate::normalize::lemma_frontmatter_len_bounds(s);
    }
    let (fm, content) = split_frontmatter(markdown);
    let normalized: String = if has_bibliography {
        let cited = convert_citations(content);
        ensure_blank_lines_before_tables(cited.as_str())
    } else {
        ensure_blank_lines_before_tables(content)
    };
    proof {
        assert(encode_utf8(normalized@) == content_bytes(s, has_bibliography));
    }
    let injected = inject_anchors(normalized.as_str());
    let mut out: PreprocessorOutput = match injected {
        Ok(o) => o,
        Err(e) => {
            proof {
                assert(false);
            }
            return Err(e);
        },
    };
    proof {
        assert(encode_utf8(out.markdown@) == injected_bytes(content_bytes(s, has_bibliography)));
    }
    let fml: usize = fm.as_bytes().len();
    if fml > 0 {
        let ghost inner = encode_utf8(out.markdown@);
        let mut newmd: String = fm.to_owned();
        push_char(&mut newmd, '\n');
        newmd.append(out.markdown.as_str());
        proof {
            lemma_encode_utf8_concat(fm@ + seq!['\n'], out.markdown@);
            lemma_encode_utf8_concat(fm@, seq!['\n']);
            lemma_encode_nl();
            assert(newmd@ =~= fm@ + seq!['\n'] + out.markdown@);
            assert(encode_utf8(newmd@) =~= fm.spec_bytes() + seq![NL] + inner);
            assert(fm.spec_bytes() == s.subrange(0, fl));
            assert(encode_utf8(newmd@) == preprocessed_bytes(s, has_bibliography));
        }
        let total: usize = newmd.as_str().as_bytes().len();
        let clen: usize = normalized.as_str().as_bytes().len();
        proof {
            assert(total == fl + 1 + inner.len());
            crate::anchors::lemma_spliced_len(
                encode_utf8(normalized@),
                injected_state(content_bytes(s, has_bibliography)).ins,
                0,
                0,
            );
            assert(inner.len() >= clen);
            assert(fml < total);
        }
        let adjustment: usize = fml + 1;
        let ghost inner_anchors = injected_state(content_bytes(s, has_bibliography)).anchors;
        let mut shifted: Vec<AnchorMeta> = Vec::new();
        let mut i: usize = 0;
        while i < out.anchors.len()
            invariant
                i <= out.anchors@.len(),
                shifted@.len() == i,
                forall|j: int|
                    0 <= j < i ==> anchor_model(#[trigger] shifted@[j]) == shift_anchor(
                        preprocessed_bytes(s, has_bibliography),
                        fl,
                        inner_anchors[j],
                    ),
            decreases out.anchors@.len() - i,
        {
            let a = &out.anchors[i];
            proof {
                assert(anchor_model(out.anchors@[i as int]) == inner_anchors[i as int]);
                assert(a.offset <= clen);
                assert(a.offset + adjustment <= total);
            }
            let noff: usize = a.offset + adjustment;
            let lc = offset_to_line_column(newmd.as_str(), noff);
            shifted.push(
                AnchorMeta { id: a.id.clone(), offset: noff, line: lc.0, column: lc.1 },
            );
            i = i + 1;
        }
        proof {
            assert(shifted@.map_values(|a: AnchorMeta| anchor_model(a)) =~= inner_anchors.map_values(
                |a: AnchorRec| shift_anchor(preprocessed_bytes(s, has_bibliography), fl, a),
            ));
        }
        out = PreprocessorOutput { markdown: newmd, anchors: shifted };
        Ok(out)
    } else {
        proof {
            assert(encode_utf8(out.markdown@) == preprocessed_bytes(s, has_bibliography));
        }
        Ok(out)
    }
}


/// Document-start invariant at the pipeline level: the first anchor
/// carries the reserved identifier; its offset is zero when the input has
/// no metadata block, else the block's length plus the separator.
pub proof fn lemma_first_anchor(s: Seq<u8>, has_bib: bool)
    ensures
        preprocessed_anchors(s, has_bib).len() >= 1,
        preprocessed_anchors(s, has_bib)[0].id == crate::anchors::doc_start_id(),
        preprocessed_anchors(s, has_bib)[0].offset == (if frontmatter_len(s) > 0 {
            frontmatter_len(s) + 1
        } else {
            0
        }),
{
    crate::anchors::lemma_document_start_anchor(content_bytes(s, has_bib));
}

/// Frontmatter preservation: with a metadata block present, the output's
/// prefix up to the block's end is byte-identical to the input's, and
/// every anchor offset lies beyond it.
pub proof fn lemma_frontmatter_preserved(s: Seq<u8>, has_bib: bool, k: int)
    requires
        frontmatter_len(s) > 0,
        0 <= k < preprocessed_anchors(s, has_bib).len(),
    ensures
        preprocessed_bytes(s, has_bib).subrange(0, frontmatter_len(s)) == s.subrange(
            0,
            frontmatter_len(s),
        ),
        preprocessed_anchors(s, has_bib)[k].offset > frontmatter_len(s),
{
    crate::normalize::lemma_frontmatter_len_bounds(s);
    crate::anchors::lemma_document_start_anchor(content_bytes(s, has_bib));
    let fl = frontmatter_len(s);
    assert(preprocessed_bytes(s, has_bib).subrange(0, fl) =~= s.subrange(0, fl));
}

/// Citation gating: the citation pass runs exactly when a bibliography
/// is attached. With the flag clear the injector's input is the content
/// after the metadata block, table-normalized only, so bracket groups
/// reach the output untouched; with it set, the content is
/// citation-rewritten first.
pub proof fn lemma_citation_gating(s: Seq<u8>)
    ensures
        content_bytes(s, false) == normalized_bytes(
            s.subrange(frontmatter_len(s), s.len() as int),
        ),
        content_bytes(s, true) == normalized_bytes(
            cited_bytes(s.subrange(frontmatter_len(s), s.len() as int)),
        ),
{
}

/// Round-trip offset consistency: with a metadata block present, every
/// anchor's line and column are exactly what recomputation from its
/// offset against the final buffer yields.
pub proof fn lemma_round_trip_positions(s: Seq<u8>, has_bib: bool, k: int)
    requires
        frontmatter_len(s) > 0,
        0 <= k < preprocessed_anchors(s, has_bib).len(),
    ensures
        preprocessed_anchors(s, has_bib)[k].line == line_number_at(
            preprocessed_bytes(s, has_bib),
            preprocessed_anchors(s, has_bib)[k].offset,
        ),
        preprocessed_anchors(s, has_bib)[k].column == column_at(
            preprocessed_bytes(s, has_bib),
            preprocessed_anchors(s, has_bib)[k].offset,
        ),
{
}

} // verus!

