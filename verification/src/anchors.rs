//! Anchor injection: walking the scanned constructs, deciding where an
//! invisible marker goes, generating its identifier, and splicing all
//! accepted markers into the buffer.

use vstd::prelude::*;

verus! {

use vstd::string::{StringSliceAdditionalSpecFns, StringExecFns, StrSliceExecFns};
use vstd::utf8::{encode_utf8, decode_utf8, valid_utf8, encode_utf8_valid_utf8, valid_utf8_concat,
    decode_utf8_encode_utf8, encode_utf8_decode_utf8, is_char_boundary};
use crate::types::{NL, AnchorMeta, PreprocessorOutput, line_number_at, column_at,
    offset_to_line_column};
use crate::bytestr::{append_slice_range, append_str_bytes, dec_digits, push_u64_dec, push_char,
    string_from_utf8, substr_range, lemma_boundary_after_ascii, lemma_boundary_at_ascii,
    lemma_valid_subrange_ascii_any};
use crate::events::{MdEvent, ev_wf, ev_ins_off, scanned, scan_events};
use crate::slug::{slug_of, slugify, is_alnum_char};

/// Why preprocessing can fail: the input could not be tokenized at all.
#[derive(Debug, Clone, Copy, PartialEq, Eq, Structural)]
pub enum PreprocessError {
    ParseFailure,
}

/// One anchor of the model: identifier, source offset, and the derived
/// line and column.
pub struct AnchorRec {
    pub id: Seq<char>,
    pub offset: int,
    pub line: int,
    pub column: int,
}

/// The injection state: pending insertions (offset and markup text),
/// anchors in document order, slug-collision counters, and the element
/// counters.
#[verifier::ext_equal]
pub struct InjState {
    pub ins: Seq<(int, Seq<char>)>,
    pub anchors: Seq<AnchorRec>,
    pub slugs: Seq<(Seq<char>, int)>,
    pub hr_count: int,
    pub code_count: int,
    pub image_count: int,
}

/// Whether a marker spliced at `o` needs a leading newline: only when the
/// splice point is not already at a line start.
pub open spec fn lead_nl(s: Seq<u8>, o: int) -> bool {
    o > 0 && s[o - 1] != NL
}

/// The label call wrapped in the invisible comment envelope.
pub open spec fn label_markup(id: Seq<char>) -> Seq<char> {
    "<!--raw-typst #label(\""@ + id + "\") -->"@
}

/// Markup of a block marker: on its own line.
pub open spec fn markup_block(lead: bool, id: Seq<char>) -> Seq<char> {
    (if lead {
        seq!['\n']
    } else {
        Seq::<char>::empty()
    }) + label_markup(id) + seq!['\n']
}

/// Markup of a heading marker: appended to the heading line after a space.
pub open spec fn markup_heading(id: Seq<char>) -> Seq<char> {
    seq![' '] + label_markup(id)
}

/// Count recorded for a slug, zero when the slug is new.
pub open spec fn sc_get(sl: Seq<(Seq<char>, int)>, key: Seq<char>) -> int
    decreases sl.len(),
{
    if sl.len() == 0 {
        0
    } else if sl[0].0 == key {
        sl[0].1
    } else {
        sc_get(sl.drop_first(), key)
    }
}

/// Bump the count recorded for a slug.
pub open spec fn sc_bump(sl: Seq<(Seq<char>, int)>, key: Seq<char>) -> Seq<(Seq<char>, int)>
    decreases sl.len(),
{
    if sl.len() == 0 {
        seq![(key, 1int)]
    } else if sl[0].0 == key {
        seq![(sl[0].0, sl[0].1 + 1)] + sl.drop_first()
    } else {
        seq![sl[0]] + sc_bump(sl.drop_first(), key)
    }
}

/// Whether a marker was already accepted at splice offset `o`.
pub open spec fn ins_has_offset(ins: Seq<(int, Seq<char>)>, o: int) -> bool {
    exists|i: int| 0 <= i < ins.len() && (#[trigger] ins[i]).0 == o
}

/// Accept a marker unless its insertion offset was already claimed; the
/// first marker at an offset wins.
pub open spec fn try_add(s: Seq<u8>, st: InjState, io: int, so: int, id: Seq<char>) -> InjState {
    if ins_has_offset(st.ins, io) {
        st
    } else {
        InjState {
            ins: st.ins.push((io, markup_block(lead_nl(s, io), id))),
            anchors: st.anchors.push(
                AnchorRec {
                    id: id,
                    offset: so,
                    line: line_number_at(s, so),
                    column: column_at(s, so),
                },
            ),
            ..st
        }
    }
}

/// The suffix of `cs` after its last slash.
pub open spec fn after_last_slash(cs: Seq<char>) -> Seq<char>
    decreases cs.len(),
{
    if cs.len() == 0 {
        cs
    } else if cs.last() == '/' {
        Seq::<char>::empty()
    } else {
        after_last_slash(cs.drop_last()).push(cs.last())
    }
}

/// The prefix of `cs` before its first dot.
pub open spec fn before_first_dot(cs: Seq<char>) -> Seq<char>
    decreases cs.len(),
{
    if cs.len() == 0 {
        cs
    } else if cs[0] == '.' {
        Seq::<char>::empty()
    } else {
        seq![cs[0]] + before_first_dot(cs.drop_first())
    }
}

/// Whether a character survives into an image identifier.
pub open spec fn img_keep_char(c: char) -> bool {
    is_alnum_char(c) || c == '-' || c == '_'
}

/// Filter a character sequence down to the identifier-safe ones.
pub open spec fn img_filtered(cs: Seq<char>) -> Seq<char>
    decreases cs.len(),
{
    if cs.len() == 0 {
        cs
    } else if img_keep_char(cs.last()) {
        img_filtered(cs.drop_last()).push(cs.last())
    } else {
        img_filtered(cs.drop_last())
    }
}

/// The short name derived from an image destination: the filename stem,
/// reduced to its identifier-safe characters, then capped at twenty.
pub open spec fn image_stem(cs: Seq<char>) -> Seq<char> {
    let t = img_filtered(before_first_dot(after_last_slash(cs)));
    if t.len() > 20 {
        t.take(20)
    } else {
        t
    }
}

/// The base identifier of a heading: its explicit identifier when the
/// line carries one, else the slug of its text.
pub open spec fn heading_base(s: Seq<u8>, ev: MdEvent) -> Seq<char> {
    match ev {
        MdEvent::Heading { text_lo, text_hi, has_id, id_lo, id_hi, .. } => {
            if has_id {
                decode_utf8(s.subrange(id_lo as int, id_hi as int))
            } else {
                slug_of(decode_utf8(s.subrange(text_lo as int, text_hi as int)))
            }
        },
        _ => Seq::<char>::empty(),
    }
}

/// The state after reacting to one construct.
pub open spec fn inj_step(s: Seq<u8>, st: InjState, ev: MdEvent) -> InjState {
    match ev {
        MdEvent::Heading { src, line_end, .. } => {
            let base = heading_base(s, ev);
            if base.len() == 0 {
                st
            } else {
                let c = sc_get(st.slugs, base);
                let id = if c == 0 {
                    base
                } else {
                    base + seq!['-'] + dec_digits(c)
                };
                let st1 = InjState { slugs: sc_bump(st.slugs, base), ..st };
                if ins_has_offset(st1.ins, line_end as int) {
                    st1
                } else {
                    InjState {
                        ins: st1.ins.push((line_end as int, markup_heading(id))),
                        anchors: st1.anchors.push(
                            AnchorRec {
                                id: id,
                                offset: src as int,
                                line: line_number_at(s, src as int),
                                column: column_at(s, src as int),
                            },
                        ),
                        ..st1
                    }
                }
            }
        },
        MdEvent::Rule { src, line_start } => {
            let st1 = InjState { hr_count: st.hr_count + 1, ..st };
            try_add(
                s,
                st1,
                line_start as int,
                src as int,
                "tf-hr-"@ + dec_digits(st.hr_count + 1),
            )
        },
        MdEvent::CodeBlock { src, line_start, lang_lo, lang_hi } => {
            let st1 = InjState { code_count: st.code_count + 1, ..st };
            let lang = decode_utf8(s.subrange(lang_lo as int, lang_hi as int));
            let id = "tf-code"@ + (if lang.len() > 0 {
                seq!['-'] + lang
            } else {
                Seq::<char>::empty()
            }) + dec_digits(st.code_count + 1);
            try_add(s, st1, line_start as int, src as int, id)
        },
        MdEvent::Image { src, line_start, dest_lo, dest_hi } => {
            let st1 = InjState { image_count: st.image_count + 1, ..st };
            let stem = image_stem(decode_utf8(s.subrange(dest_lo as int, dest_hi as int)));
            let id = if stem.len() == 0 {
                "tf-img-"@ + dec_digits(st.image_count + 1)
            } else {
                "tf-img-"@ + stem + seq!['-'] + dec_digits(st.image_count + 1)
            };
            try_add(s, st1, line_start as int, src as int, id)
        },
        MdEvent::Block { src, line_start } => {
            let id = "tf-"@ + dec_digits(src as int) + seq!['-'] + dec_digits(
                st.anchors.len() as int,
            );
            try_add(s, st, line_start as int, src as int, id)
        },
    }
}

/// The identifier reserved for the document-start marker.
pub open spec fn doc_start_id() -> Seq<char> {
    "tf-doc-start"@
}

/// The state before any construct is seen: one marker at offset zero with
/// the reserved document-start identifier.
pub open spec fn init_state(s: Seq<u8>) -> InjState {
    InjState {
        ins: seq![(0int, markup_block(false, doc_start_id()))],
        anchors: seq![AnchorRec { id: doc_start_id(), offset: 0, line: 0, column: 0 }],
        slugs: Seq::<(Seq<char>, int)>::empty(),
        hr_count: 0,
        code_count: 0,
        image_count: 0,
    }
}

/// The state after the first `k` constructs.
pub open spec fn inj_fold(s: Seq<u8>, evs: Seq<MdEvent>, k: int) -> InjState
    decreases k,
{
    if k <= 0 {
        init_state(s)
    } else {
        inj_step(s, inj_fold(s, evs, k - 1), evs[k - 1])
    }
}

/// The final injection state of a buffer.
pub open spec fn injected_state(s: Seq<u8>) -> InjState {
    inj_fold(s, scanned(s), scanned(s).len() as int)
}

/// The buffer with the accepted insertions spliced in, from insertion `k`
/// on, with `p` bytes already written.
pub open spec fn spliced_from(s: Seq<u8>, ins: Seq<(int, Seq<char>)>, k: int, p: int) -> Seq<u8>
    decreases ins.len() - k,
{
    if k < 0 || k >= ins.len() {
        s.subrange(p, s.len() as int)
    } else {
        s.subrange(p, ins[k].0) + encode_utf8(ins[k].1) + spliced_from(s, ins, k + 1, ins[k].0)
    }
}

/// The rewritten buffer: every insertion spliced at its offset.
pub open spec fn injected_bytes(s: Seq<u8>) -> Seq<u8> {
    spliced_from(s, injected_state(s).ins, 0, 0)
}

/// Well-formed insertions: strictly ascending offsets, each lying in the
/// buffer at a line boundary.
pub open spec fn ins_wf(s: Seq<u8>, ins: Seq<(int, Seq<char>)>) -> bool {
    &&& forall|i: int, j: int| 0 <= i < j < ins.len() ==> (#[trigger] ins[i]).0 < (
    #[trigger] ins[j]).0
    &&& forall|i: int|
        0 <= i < ins.len() ==> 0 <= (#[trigger] ins[i]).0 <= s.len() && (ins[i].0 == 0 || ins[i].0
            == s.len() || s[ins[i].0 - 1] == NL || s[ins[i].0] == NL)
}

/// The model of one recorded anchor.
pub open spec fn anchor_model(a: AnchorMeta) -> AnchorRec {
    AnchorRec { id: a.id@, offset: a.offset as int, line: a.line as int, column: a.column as int }
}

/// Mutable state of one injection pass.
pub struct InjectionContext {
    pub insertions: Vec<(usize, String)>,
    pub anchors: Vec<AnchorMeta>,
    pub slug_counts: Vec<(String, u64)>,
    pub hr_count: u64,
    pub code_block_count: u64,
    pub image_count: u64,
}

impl InjectionContext {
    /// The model this context stands for.
    pub open spec fn model(&self) -> InjState {
        InjState {
            ins: self.insertions@.map_values(|p: (usize, String)| (p.0 as int, p.1@)),
            anchors: self.anchors@.map_values(|a: AnchorMeta| anchor_model(a)),
            slugs: self.slug_counts@.map_values(|p: (String, u64)| (p.0@, p.1 as int)),
            hr_count: self.hr_count as int,
            code_count: self.code_block_count as int,
            image_count: self.image_count as int,
        }
    }

    /// All counters at most `q`.
    pub open spec fn bounded(&self, q: int) -> bool {
        &&& self.hr_count <= q
        &&& self.code_block_count <= q
        &&& self.image_count <= q
        &&& forall|i: int|
            0 <= i < self.slug_counts@.len() ==> (#[trigger] self.slug_counts@[i]).1 <= q
    }
}

/// Count recorded for `key`.
fn slug_count_of(sl: &Vec<(String, u64)>, key: &String) -> (r: u64)
    ensures
        r as int == sc_get(
            sl@.map_values(|p: (String, u64)| (p.0@, p.1 as int)),
            key@,
        ),
{
    let ghost m = sl@.map_values(|p: (String, u64)| (p.0@, p.1 as int));
    proof {
        assert(m.skip(0) =~= m);
    }
    let mut i: usize = 0;
    while i < sl.len()
        invariant
            i <= sl@.len(),
            m == sl@.map_values(|p: (String, u64)| (p.0@, p.1 as int)),
            sc_get(m, key@) == sc_get(m.skip(i as int), key@),
        decreases sl@.len() - i,
    {
        proof {
            assert(m.skip(i as int)[0] == m[i as int]);
            assert(m.skip(i as int).drop_first() =~= m.skip(i + 1));
        }
        if sl[i].0 == *key {
            return sl[i].1;
        }
        i = i + 1;
    }
    proof {
        assert(m.skip(sl@.len() as int) =~= Seq::<(Seq<char>, int)>::empty());
    }
    0
}

proof fn lemma_sc_bump_found(sl: Seq<(Seq<char>, int)>, key: Seq<char>, i: int)
    requires
        0 <= i < sl.len(),
        sl[i].0 == key,
        forall|j: int| 0 <= j < i ==> (#[trigger] sl[j]).0 != key,
    ensures
        sc_bump(sl, key) =~= sl.update(i, (sl[i].0, sl[i].1 + 1)),
    decreases i,
{
    if i == 0 {
        assert(sc_bump(sl, key) == seq![(sl[0].0, sl[0].1 + 1)] + sl.drop_first());
    } else {
        assert(sl.drop_first()[i - 1] == sl[i]);
        assert(forall|j: int| 0 <= j < i - 1 ==> (#[trigger] sl.drop_first()[j]).0 != key);
        lemma_sc_bump_found(sl.drop_first(), key, i - 1);
        assert(sl.update(i, (sl[i].0, sl[i].1 + 1)).drop_first() =~= sl.drop_first().update(
            i - 1,
            (sl[i].0, sl[i].1 + 1),
        ));
    }
}

proof fn lemma_sc_bump_missing(sl: Seq<(Seq<char>, int)>, key: Seq<char>)
    requires
        forall|j: int| 0 <= j < sl.len() ==> (#[trigger] sl[j]).0 != key,
    ensures
        sc_bump(sl, key) =~= sl.push((key, 1int)),
    decreases sl.len(),
{
    if sl.len() > 0 {
        lemma_sc_bump_missing(sl.drop_first(), key);
        assert(sl.push((key, 1int)).drop_first() =~= sl.drop_first().push((key, 1int)));
    }
}

/// Record one more use of `key`.
#[verifier::loop_isolation(false)]
fn slug_bump(sl: &mut Vec<(String, u64)>, key: &String)
    requires
        forall|i: int| 0 <= i < old(sl)@.len() ==> (#[trigger] old(sl)@[i]).1 < u64::MAX,
    ensures
        final(sl)@.map_values(|p: (String, u64)| (p.0@, p.1 as int)) == sc_bump(
            old(sl)@.map_values(|p: (String, u64)| (p.0@, p.1 as int)),
            key@,
        ),
{
    let ghost m = sl@.map_values(|p: (String, u64)| (p.0@, p.1 as int));
    let mut i: usize = 0;
    while i < sl.len()
        invariant
            i <= sl@.len(),
            sl@ == old(sl)@,
            m == sl@.map_values(|p: (String, u64)| (p.0@, p.1 as int)),
            forall|j: int| 0 <= j < i ==> (#[trigger] m[j]).0 != key@,
        decreases sl@.len() - i,
    {
        if sl[i].0 == *key {
            let c: u64 = sl[i].1;
            proof {
                assert(old(sl)@[i as int].1 < u64::MAX);
            }
            let k2: String = sl[i].0.clone();
            sl.remove(i);
            sl.insert(i, (k2, c + 1));
            proof {
                lemma_sc_bump_found(m, key@, i as int);
                assert(sl@.map_values(|p: (String, u64)| (p.0@, p.1 as int)) =~= m.update(
                    i as int,
                    (m[i as int].0, m[i as int].1 + 1),
                ));
            }
            return ;
        }
        i = i + 1;
    }
    sl.push((key.clone(), 1));
    proof {
        lemma_sc_bump_missing(m, key@);
        assert(sl@.map_values(|p: (String, u64)| (p.0@, p.1 as int)) =~= m.push((key@, 1int)));
    }
}

/// Build the markup of a block marker.
pub fn build_anchor_markup(lead: bool, id: &String) -> (m: String)
    ensures
        m@ == markup_block(lead, id@),
{
    let mut m = String::new();
    if lead {
        push_char(&mut m, '\n');
    }
    m.append("<!--raw-typst #label(\"");
    m.append(id.as_str());
    m.append("\") -->");
    push_char(&mut m, '\n');
    proof {
        assert(m@ =~= markup_block(lead, id@));
    }
    m
}

/// Build the markup of a heading marker.
fn build_heading_markup(id: &String) -> (m: String)
    ensures
        m@ == markup_heading(id@),
{
    let mut m = String::new();
    push_char(&mut m, ' ');
    m.append("<!--raw-typst #label(\"");
    m.append(id.as_str());
    m.append("\") -->");
    proof {
        assert(m@ =~= markup_heading(id@));
    }
    m
}

/// Whether a marker was already recorded at splice offset `o`.
fn has_insertion_at(ins: &Vec<(usize, String)>, o: usize) -> (r: bool)
    ensures
        r == ins_has_offset(ins@.map_values(|p: (usize, String)| (p.0 as int, p.1@)), o as int),
{
    let ghost m = ins@.map_values(|p: (usize, String)| (p.0 as int, p.1@));
    let mut i: usize = 0;
    while i < ins.len()
        invariant
            i <= ins@.len(),
            m == ins@.map_values(|p: (usize, String)| (p.0 as int, p.1@)),
            forall|j: int| 0 <= j < i ==> (#[trigger] m[j]).0 != o as int,
        decreases ins@.len() - i,
    {
        if ins[i].0 == o {
            proof {
                assert(m[i as int].0 == o as int);
            }
            return true;
        }
        i = i + 1;
    }
    false
}

/// Accepting a marker whose offset lies at or beyond every recorded one
/// keeps the insertion list well formed.
proof fn lemma_try_add_wf(s: Seq<u8>, st: InjState, io: int, so: int, id: Seq<char>)
    requires
        ins_wf(s, st.ins),
        forall|k: int| 0 <= k < st.ins.len() ==> (#[trigger] st.ins[k]).0 <= io,
        0 <= io <= s.len(),
        io == 0 || io == s.len() || s[io - 1] == NL || s[io] == NL,
    ensures
        ins_wf(s, try_add(s, st, io, so, id).ins),
        forall|k: int|
            0 <= k < try_add(s, st, io, so, id).ins.len() ==> (#[trigger] try_add(
                s,
                st,
                io,
                so,
                id,
            ).ins[k]).0 <= io,
{
    if !ins_has_offset(st.ins, io) {
        let m2 = try_add(s, st, io, so, id).ins;
        assert(m2 =~= st.ins.push((io, markup_block(lead_nl(s, io), id))));
        assert forall|i: int, j: int| 0 <= i < j < m2.len() implies (#[trigger] m2[i]).0 < (
        #[trigger] m2[j]).0 by {
            if j == m2.len() - 1 {
                assert(st.ins[i].0 <= io);
                assert(st.ins[i].0 != io);
            }
        }
    }
}

impl InjectionContext {
    /// A fresh context carrying only the document-start marker.
    pub fn new(markdown: &str) -> (r: InjectionContext)
        ensures
            r.model() =~= init_state(markdown.spec_bytes()),
            ins_wf(markdown.spec_bytes(), r.model().ins),
            r.bounded(0),
            r.anchors@.len() == 1 && r.anchors@[0].offset == 0,
    {
        let id = String::from_str("tf-doc-start");
        let markup = build_anchor_markup(false, &id);
        let mut insertions: Vec<(usize, String)> = Vec::new();
        insertions.push((0, markup));
        let mut anchors: Vec<AnchorMeta> = Vec::new();
        anchors.push(AnchorMeta { id: id, offset: 0, line: 0, column: 0 });
        let r = InjectionContext {
            insertions,
            anchors,
            slug_counts: Vec::new(),
            hr_count: 0,
            code_block_count: 0,
            image_count: 0,
        };
        proof {
            assert(r.model().ins =~= init_state(markdown.spec_bytes()).ins);
            assert(r.model().anchors =~= init_state(markdown.spec_bytes()).anchors);
            assert(r.model().slugs =~= init_state(markdown.spec_bytes()).slugs);
        }
        r
    }

    /// Accept a marker at `insertion_offset` unless one was already
    /// recorded at that splice offset (the first marker at an offset
    /// wins); the anchor records `source_offset`.
    pub fn try_add_anchor(
        &mut self,
        markdown: &str,
        insertion_offset: usize,
        source_offset: usize,
        id: String,
    ) -> (added: bool)
        requires
            insertion_offset <= markdown.spec_bytes().len(),
            source_offset <= markdown.spec_bytes().len(),
            insertion_offset == 0 || insertion_offset == markdown.spec_bytes().len()
                || markdown.spec_bytes()[insertion_offset as int - 1] == NL
                || markdown.spec_bytes()[insertion_offset as int] == NL,
        ensures
            final(self).model() =~= try_add(
                markdown.spec_bytes(),
                old(self).model(),
                insertion_offset as int,
                source_offset as int,
                id@,
            ),
            added == !ins_has_offset(old(self).model().ins, insertion_offset as int),
            forall|k: int|
                0 <= k < old(self).anchors@.len() ==> final(self).anchors@[k] == old(
                    self,
                ).anchors@[k],
            forall|k: int|
                old(self).anchors@.len() <= k < final(self).anchors@.len() ==> (
                #[trigger] final(self).anchors@[k]).offset == source_offset,
    {
        let ghost s = markdown.spec_bytes();
        let ghost st0 = self.model();
        if has_insertion_at(&self.insertions, insertion_offset) {
            return false;
        }
        let lead: bool = {
            let bts: &[u8] = markdown.as_bytes();
            insertion_offset > 0 && bts[insertion_offset - 1] != NL
        };
        let markup = build_anchor_markup(lead, &id);
        self.insertions.push((insertion_offset, markup));
        let lc = offset_to_line_column(markdown, source_offset);
        self.anchors.push(
            AnchorMeta { id: id, offset: source_offset, line: lc.0, column: lc.1 },
        );
        proof {
            assert(lead == lead_nl(s, insertion_offset as int));
            assert(self.model().ins =~= st0.ins.push(
                (insertion_offset as int, markup_block(lead_nl(s, insertion_offset as int), id@)),
            ));
            assert(self.model().anchors =~= st0.anchors.push(
                AnchorRec {
                    id: id@,
                    offset: source_offset as int,
                    line: line_number_at(s, source_offset as int),
                    column: column_at(s, source_offset as int),
                },
            ));
            assert(self.model().slugs =~= st0.slugs);
        }
        true
    }
}


proof fn lemma_sc_bump_bound(sl: Seq<(Seq<char>, int)>, key: Seq<char>, q: int)
    requires
        forall|i: int| 0 <= i < sl.len() ==> (#[trigger] sl[i]).1 <= q,
        q >= 0,
    ensures
        forall|i: int|
            0 <= i < sc_bump(sl, key).len() ==> (#[trigger] sc_bump(sl, key)[i]).1 <= q + 1,
    decreases sl.len(),
{
    if sl.len() == 0 {
        assert(sc_bump(sl, key) =~= seq![(key, 1int)]);
    } else if sl[0].0 == key {
        let r = seq![(sl[0].0, sl[0].1 + 1)] + sl.drop_first();
        assert(sc_bump(sl, key) == r);
        assert forall|i: int| 0 <= i < r.len() implies (#[trigger] r[i]).1 <= q + 1 by {
            if i > 0 {
                assert(r[i] == sl.drop_first()[i - 1]);
                assert(sl.drop_first()[i - 1] == sl[i]);
            }
        }
    } else {
        assert(forall|i: int|
            0 <= i < sl.drop_first().len() ==> (#[trigger] sl.drop_first()[i]) == sl[i + 1]);
        lemma_sc_bump_bound(sl.drop_first(), key, q);
        let r = seq![sl[0]] + sc_bump(sl.drop_first(), key);
        assert(sc_bump(sl, key) == r);
        assert forall|i: int| 0 <= i < r.len() implies (#[trigger] r[i]).1 <= q + 1 by {
            if i > 0 {
                assert(r[i] == sc_bump(sl.drop_first(), key)[i - 1]);
            }
        }
    }
}

impl InjectionContext {
    /// React to one construct: decide its marker, its identifier, and
    /// record it unless another marker already claimed the splice point.
    #[verifier::rlimit(100)]
    pub fn handle_event(&mut self, markdown: &str, ev: MdEvent, q: Ghost<int>)
        requires
            ev_wf(markdown.spec_bytes(), ev),
            ins_wf(markdown.spec_bytes(), old(self).model().ins),
            forall|k: int|
                0 <= k < old(self).model().ins.len() ==> (#[trigger] old(self).model().ins[k]).0
                    <= ev_ins_off(ev),
            old(self).bounded(q@),
            0 <= q@ < u64::MAX,
            forall|k: int|
                0 <= k < old(self).anchors@.len() ==> (#[trigger] old(self).anchors@[k]).offset
                    <= markdown.spec_bytes().len(),
        ensures
            final(self).model() =~= inj_step(markdown.spec_bytes(), old(self).model(), ev),
            ins_wf(markdown.spec_bytes(), final(self).model().ins),
            forall|k: int|
                0 <= k < final(self).model().ins.len() ==> (#[trigger] final(self).model().ins[k]).0
                    <= ev_ins_off(ev),
            final(self).bounded(q@ + 1),
            forall|k: int|
                0 <= k < final(self).anchors@.len() ==> (#[trigger] final(self).anchors@[k]).offset
                    <= markdown.spec_bytes().len(),
    {
        broadcast use encode_utf8_valid_utf8, encode_utf8_decode_utf8,
            vstd::utf8::is_char_boundary_start_end_of_seq;

        let ghost s = markdown.spec_bytes();
        let ghost st0 = self.model();
        match ev {
            MdEvent::Heading { src, line_end, text_lo, text_hi, has_id, id_lo, id_hi } => {
                proof {
                    lemma_boundary_after_ascii(s, text_lo as int);
                    if text_hi < s.len() {
                        lemma_boundary_at_ascii(s, text_hi as int);
                    }
                    if has_id {
                        lemma_boundary_after_ascii(s, id_lo as int);
                        if id_hi < s.len() {
                            lemma_boundary_at_ascii(s, id_hi as int);
                        }
                    }
                }
                let base: String = if has_id {
                    substr_range(markdown, id_lo, id_hi).to_owned()
                } else {
                    slugify(substr_range(markdown, text_lo, text_hi))
                };
                proof {
                    assert(base@ == heading_base(s, ev));
                }
                if !base.as_str().is_empty() {
                    let c: u64 = slug_count_of(&self.slug_counts, &base);
                    let id: String = if c == 0 {
                        base.clone()
                    } else {
                        let mut x = base.clone();
                        push_char(&mut x, '-');
                        push_u64_dec(&mut x, c);
                        proof {
                            assert(x@ =~= base@ + seq!['-'] + dec_digits(c as int));
                        }
                        x
                    };
                    proof {
                        assert forall|i: int|
                            0 <= i < st0.slugs.len() implies (#[trigger] st0.slugs[i]).1
                            <= q@ by {
                            assert(st0.slugs[i] == (
                                old(self).slug_counts@[i].0@,
                                old(self).slug_counts@[i].1 as int,
                            ));
                        }
                    }
                    slug_bump(&mut self.slug_counts, &base);
                    let ghost st1 = InjState { slugs: sc_bump(st0.slugs, base@), ..st0 };
                    proof {
                        assert(self.model() =~= st1);
                        lemma_sc_bump_bound(st0.slugs, base@, q@);
                        assert forall|i: int|
                            0 <= i < self.slug_counts@.len() implies (
                        #[trigger] self.slug_counts@[i]).1 <= q@ + 1 by {
                            assert(self.model().slugs[i] == (
                                self.slug_counts@[i].0@,
                                self.slug_counts@[i].1 as int,
                            ));
                            assert(self.model().slugs[i].1 <= q@ + 1);
                        }
                    }
                    let ghost id_g: Seq<char> = if c == 0 {
                        base@
                    } else {
                        base@ + seq!['-'] + dec_digits(c as int)
                    };
                    proof {
                        assert(id@ == id_g);
                    }
                    if !has_insertion_at(&self.insertions, line_end) {
                        proof {
                            assert(!ins_has_offset(st1.ins, line_end as int));
                        }
                        let markup = build_heading_markup(&id);
                        self.insertions.push((line_end, markup));
                        let lc = offset_to_line_column(markdown, src);
                        self.anchors.push(
                            AnchorMeta { id: id, offset: src, line: lc.0, column: lc.1 },
                        );
                        proof {
                            assert(self.model().ins =~= st1.ins.push(
                                (line_end as int, markup_heading(id_g)),
                            ));
                            assert(self.model().anchors =~= st1.anchors.push(
                                AnchorRec {
                                    id: id_g,
                                    offset: src as int,
                                    line: line_number_at(s, src as int),
                                    column: column_at(s, src as int),
                                },
                            ));
                            assert(self.model() =~= inj_step(s, st0, ev));
                            assert(ev_ins_off(ev) == line_end as int);
                            assert(st1.ins =~= st0.ins);
                            let m2 = self.model().ins;
                            assert forall|i: int, j: int|
                                0 <= i < j < m2.len() implies (#[trigger] m2[i]).0 < (
                            #[trigger] m2[j]).0 by {
                                if j == m2.len() - 1 && m2.len() > 1 {
                                    assert(st1.ins[i].0 <= line_end as int);
                                    assert(st1.ins[i].0 != line_end as int);
                                }
                            }
                            assert forall|i: int|
                                0 <= i < m2.len() implies (#[trigger] m2[i]).0 <= ev_ins_off(
                                ev,
                            ) by {
                                if i < st1.ins.len() {
                                    assert(m2[i] == st1.ins[i]);
                                }
                            }
                            assert forall|i: int|
                                0 <= i < self.slug_counts@.len() implies (
                            #[trigger] self.slug_counts@[i]).1 <= q@ + 1 by {
                                assert(self.model().slugs[i] == (
                                    self.slug_counts@[i].0@,
                                    self.slug_counts@[i].1 as int,
                                ));
                                assert(self.model().slugs =~= st1.slugs);
                                assert(self.model().slugs[i].1 <= q@ + 1) by {
                                    lemma_sc_bump_bound(st0.slugs, base@, q@);
                                }
                            }
                            assert(self.bounded(q@ + 1));
                        }
                    } else {
                        proof {
                            assert(ins_has_offset(st1.ins, line_end as int));
                            assert(self.model() =~= inj_step(s, st0, ev));
                            assert(self.model().ins =~= st0.ins);
                        }
                    }
                    proof {
                        assert(self.bounded(q@ + 1));
                    }
                } else {
                    proof {
                        assert(self.bounded(q@ + 1));
                        assert(self.model() =~= inj_step(s, st0, ev));
                    }
                }
            },
            MdEvent::Rule { src, line_start } => {
                self.hr_count = self.hr_count + 1;
                let mut id = String::from_str("tf-hr-");
                push_u64_dec(&mut id, self.hr_count);
                let ghost idg = id@;
                let ghost stc = self.model();
                self.try_add_anchor(markdown, line_start, src, id);
                proof {
                    assert(stc.ins =~= st0.ins);
                    lemma_try_add_wf(s, stc, line_start as int, src as int, idg);
                    assert forall|i: int|
                        0 <= i < self.slug_counts@.len() implies (
                    #[trigger] self.slug_counts@[i]).1 <= q@ + 1 by {
                        assert(self.model().slugs[i] == (
                            self.slug_counts@[i].0@,
                            self.slug_counts@[i].1 as int,
                        ));
                        assert(self.model().slugs =~= st0.slugs);
                        assert(st0.slugs[i] == (
                            old(self).slug_counts@[i].0@,
                            old(self).slug_counts@[i].1 as int,
                        ));
                    }
                    assert(self.model() =~= inj_step(s, st0, ev));
                    assert(self.bounded(q@ + 1));
                }
            },
            MdEvent::CodeBlock { src, line_start, lang_lo, lang_hi } => {
                self.code_block_count = self.code_block_count + 1;
                proof {
                    lemma_boundary_after_ascii(s, lang_lo as int);
                    if lang_hi < s.len() {
                        lemma_boundary_at_ascii(s, lang_hi as int);
                    }
                }
                let lang: &str = substr_range(markdown, lang_lo, lang_hi);
                let mut id = String::from_str("tf-code");
                if !lang.is_empty() {
                    push_char(&mut id, '-');
                    id.append(lang);
                }
                push_u64_dec(&mut id, self.code_block_count);
                proof {
                    assert(id@ =~= "tf-code"@ + (if decode_utf8(
                        s.subrange(lang_lo as int, lang_hi as int),
                    ).len() > 0 {
                        seq!['-'] + decode_utf8(s.subrange(lang_lo as int, lang_hi as int))
                    } else {
                        Seq::<char>::empty()
                    }) + dec_digits(st0.code_count + 1));
                }
                let ghost idg = id@;
                let ghost stc = self.model();
                self.try_add_anchor(markdown, line_start, src, id);
                proof {
                    assert(stc.ins =~= st0.ins);
                    lemma_try_add_wf(s, stc, line_start as int, src as int, idg);
                    assert forall|i: int|
                        0 <= i < self.slug_counts@.len() implies (
                    #[trigger] self.slug_counts@[i]).1 <= q@ + 1 by {
                        assert(self.model().slugs[i] == (
                            self.slug_counts@[i].0@,
                            self.slug_counts@[i].1 as int,
                        ));
                        assert(self.model().slugs =~= st0.slugs);
                        assert(st0.slugs[i] == (
                            old(self).slug_counts@[i].0@,
                            old(self).slug_counts@[i].1 as int,
                        ));
                    }
                    assert(self.model() =~= inj_step(s, st0, ev));
                    assert(self.bounded(q@ + 1));
                }
            },
            MdEvent::Image { src, line_start, dest_lo, dest_hi } => {
                self.image_count = self.image_count + 1;
                proof {
                    lemma_boundary_after_ascii(s, dest_lo as int);
                    if dest_hi < s.len() {
                        lemma_boundary_at_ascii(s, dest_hi as int);
                    }
                }
                let stem: Vec<char> = image_stem_of(substr_range(markdown, dest_lo, dest_hi));
                let mut id = String::from_str("tf-img-");
                if stem.len() > 0 {
                    let st_s = crate::bytestr::string_of_chars(&stem);
                    id.append(st_s.as_str());
                    push_char(&mut id, '-');
                }
                push_u64_dec(&mut id, self.image_count);
                proof {
                    let stem_g = image_stem(decode_utf8(s.subrange(dest_lo as int, dest_hi as int)));
                    if stem_g.len() == 0 {
                        assert(id@ =~= "tf-img-"@ + dec_digits(st0.image_count + 1));
                    } else {
                        assert(id@ =~= "tf-img-"@ + stem_g + seq!['-'] + dec_digits(
                            st0.image_count + 1,
                        ));
                    }
                }
                let ghost idg = id@;
                let ghost stc = self.model();
                self.try_add_anchor(markdown, line_start, src, id);
                proof {
                    assert(stc.ins =~= st0.ins);
                    lemma_try_add_wf(s, stc, line_start as int, src as int, idg);
                    assert forall|i: int|
                        0 <= i < self.slug_counts@.len() implies (
                    #[trigger] self.slug_counts@[i]).1 <= q@ + 1 by {
                        assert(self.model().slugs[i] == (
                            self.slug_counts@[i].0@,
                            self.slug_counts@[i].1 as int,
                        ));
                        assert(self.model().slugs =~= st0.slugs);
                        assert(st0.slugs[i] == (
                            old(self).slug_counts@[i].0@,
                            old(self).slug_counts@[i].1 as int,
                        ));
                    }
                    assert(self.model() =~= inj_step(s, st0, ev));
                    assert(self.bounded(q@ + 1));
                }
            },
            MdEvent::Block { src, line_start } => {
                let mut id = String::from_str("tf-");
                push_u64_dec(&mut id, src as u64);
                push_char(&mut id, '-');
                push_u64_dec(&mut id, self.anchors.len() as u64);
                proof {
                    assert(id@ =~= "tf-"@ + dec_digits(src as int) + seq!['-'] + dec_digits(
                        st0.anchors.len() as int,
                    ));
                }
                let ghost idg = id@;
                let ghost stc = self.model();
                self.try_add_anchor(markdown, line_start, src, id);
                proof {
                    assert(stc.ins =~= st0.ins);
                    lemma_try_add_wf(s, stc, line_start as int, src as int, idg);
                    assert forall|i: int|
                        0 <= i < self.slug_counts@.len() implies (
                    #[trigger] self.slug_counts@[i]).1 <= q@ + 1 by {
                        assert(self.model().slugs[i] == (
                            self.slug_counts@[i].0@,
                            self.slug_counts@[i].1 as int,
                        ));
                        assert(self.model().slugs =~= st0.slugs);
                        assert(st0.slugs[i] == (
                            old(self).slug_counts@[i].0@,
                            old(self).slug_counts@[i].1 as int,
                        ));
                    }
                    assert(self.model() =~= inj_step(s, st0, ev));
                    assert(self.bounded(q@ + 1));
                }
            },
        }
    }
}

/// The identifier-safe filename stem of an image destination.
fn image_stem_of(dest: &str) -> (r: Vec<char>)
    ensures
        r@ == image_stem(dest@),
{
    let cs: Vec<char> = crate::bytestr::str_chars(dest);
    let n: usize = cs.len();
    // after the last slash
    let mut a: usize = n;
    while a > 0 && cs[a - 1] != '/'
        invariant
            a <= n,
            n == cs@.len(),
            forall|k: int| a <= k < n ==> cs@[k] != '/',
        decreases a,
    {
        a = a - 1;
    }
    proof {
        lemma_als_skip(cs@, a as int);
    }
    // before the first dot
    let mut d: usize = a;
    while d < n && cs[d] != '.'
        invariant
            a <= d <= n,
            n == cs@.len(),
            forall|k: int| a <= k < d ==> cs@[k] != '.',
        decreases n - d,
    {
        d = d + 1;
    }
    proof {
        lemma_bfd_take(cs@.skip(a as int), d - a);
    }
    // keep identifier-safe characters, capped at twenty
    let mut r: Vec<char> = Vec::new();
    let mut p: usize = a;
    while p < d
        invariant
            a <= p <= d <= n,
            n == cs@.len(),
            r@ == ({
                let f = img_filtered(cs@.subrange(a as int, p as int));
                if f.len() > 20 {
                    f.take(20)
                } else {
                    f
                }
            }),
        decreases d - p,
    {
        let c = cs[p];
        proof {
            assert(cs@.subrange(a as int, p + 1).drop_last() =~= cs@.subrange(a as int, p as int));
            assert(cs@.subrange(a as int, p + 1).last() == cs@[p as int]);
        }
        if crate::slug::alnum_char_pub(c) || c == '-' || c == '_' {
            if r.len() < 20 {
                r.push(c);
            } else {
                proof {
                    let f0 = img_filtered(cs@.subrange(a as int, p as int));
                    let f1 = img_filtered(cs@.subrange(a as int, p + 1));
                    assert(f1 =~= f0.push(cs@[p as int]));
                    assert(f0.len() >= 20);
                    assert(f1.take(20) =~= f0.take(20));
                    assert(f0.take(20) =~= r@);
                }
            }
        }
        p = p + 1;
    }
    proof {
        let full = cs@;
        let als = full.skip(a as int);
        let t = before_first_dot(als);
        assert(t =~= als.take(d - a));
        assert(t =~= full.subrange(a as int, d as int));
        assert(r@ == image_stem(full));
        assert(cs@ == dest@);
    }
    r
}

proof fn lemma_als_skip(cs: Seq<char>, a: int)
    requires
        0 <= a <= cs.len(),
        forall|k: int| a <= k < cs.len() ==> cs[k] != '/',
        a == 0 || cs[a - 1] == '/',
    ensures
        after_last_slash(cs) =~= cs.skip(a),
    decreases cs.len() - a,
{
    if cs.len() == a {
        if a > 0 {
            assert(after_last_slash(cs) =~= Seq::<char>::empty());
        }
    } else {
        assert(cs.last() != '/');
        lemma_als_skip(cs.drop_last(), a);
        assert(cs.skip(a) =~= cs.drop_last().skip(a).push(cs.last()));
    }
}

proof fn lemma_bfd_take(cs: Seq<char>, d: int)
    requires
        0 <= d <= cs.len(),
        forall|k: int| 0 <= k < d ==> cs[k] != '.',
        d == cs.len() || cs[d] == '.',
    ensures
        before_first_dot(cs) =~= cs.take(d),
    decreases d,
{
    if d == 0 {
        assert(cs.take(0) =~= Seq::<char>::empty());
        if cs.len() > 0 {
            assert(cs[0] == '.');
        }
    } else {
        assert(cs[0] != '.');
        assert(forall|k: int| 0 <= k < d - 1 ==> (#[trigger] cs.drop_first()[k]) == cs[k + 1]);
        lemma_bfd_take(cs.drop_first(), d - 1);
        assert(cs.take(d) =~= seq![cs[0]] + cs.drop_first().take(d - 1));
    }
}

/// Splice every insertion into the buffer, back to front in effect: the
/// output is the buffer with each markup at its recorded offset.
#[verifier::loop_isolation(false)]
fn splice_insertions(markdown: &str, ins: &Vec<(usize, String)>) -> (out: Vec<u8>)
    requires
        ins_wf(
            markdown.spec_bytes(),
            ins@.map_values(|p: (usize, String)| (p.0 as int, p.1@)),
        ),
    ensures
        out@ == spliced_from(
            markdown.spec_bytes(),
            ins@.map_values(|p: (usize, String)| (p.0 as int, p.1@)),
            0,
            0,
        ),
        valid_utf8(out@),
{
    broadcast use encode_utf8_valid_utf8;

    let ghost s = markdown.spec_bytes();
    let ghost m = ins@.map_values(|p: (usize, String)| (p.0 as int, p.1@));
    let b: &[u8] = markdown.as_bytes();
    let n: usize = b.len();
    let mut out: Vec<u8> = Vec::new();
    let mut p: usize = 0;
    let mut k: usize = 0;
    proof {
        assert(out@ + spliced_from(s, m, 0, 0) =~= spliced_from(s, m, 0, 0));
    }
    while k < ins.len()
        invariant
            k <= ins@.len(),
            p <= n,
            p == 0 || p == n || s[p as int - 1] == NL || s[p as int] == NL,
            k < ins@.len() ==> p <= m[k as int].0,
            valid_utf8(out@),
            spliced_from(s, m, 0, 0) == out@ + spliced_from(s, m, k as int, p as int),
        decreases ins@.len() - k,
    {
        let o: usize = ins[k].0;
        let ghost out0 = out@;
        append_slice_range(&mut out, b, p, o);
        append_str_bytes(&mut out, ins[k].1.as_str());
        proof {
            assert(m[k as int].0 == o as int && m[k as int].1 == ins@[k as int].1@);
            assert(o <= n);
            if p == n {
                assert(p == o);
            }
            assert(p as int == 0 || p as int == o as int || s[p as int - 1] < 0x80 || (p < n && s[
                p as int
            ] < 0x80));
            assert(o as int == n as int || p as int == o as int || s[o as int] < 0x80 || (o > 0
                && s[o as int - 1] < 0x80));
            lemma_valid_subrange_ascii_any(s, p as int, o as int);
            valid_utf8_concat(out0, s.subrange(p as int, o as int));
            valid_utf8_concat(out0 + s.subrange(p as int, o as int), encode_utf8(m[k as int].1));
            assert(out@ =~= out0 + s.subrange(p as int, o as int) + encode_utf8(m[k as int].1));
            assert(spliced_from(s, m, k as int, p as int) == s.subrange(p as int, o as int)
                + encode_utf8(m[k as int].1) + spliced_from(s, m, k + 1, o as int));
            assert(spliced_from(s, m, 0, 0) =~= out@ + spliced_from(s, m, k + 1, o as int));
            if k + 1 < ins@.len() {
                assert(m[k as int].0 < m[k + 1].0);
            }
        }
        p = o;
        k = k + 1;
    }
    let ghost out1 = out@;
    append_slice_range(&mut out, b, p, n);
    proof {
        if p < n {
            assert(p as int == 0 || s[p as int - 1] < 0x80 || s[p as int] < 0x80);
        }
        lemma_valid_subrange_ascii_any(s, p as int, n as int);
        valid_utf8_concat(out1, s.subrange(p as int, n as int));
        assert(spliced_from(s, m, ins@.len() as int, p as int) == s.subrange(p as int, n as int));
        assert(out@ =~= out1 + s.subrange(p as int, n as int));
        assert(out@ =~= spliced_from(s, m, 0, 0));
    }
    out
}

/// A splice only adds bytes: the output is at least as long as what
/// remains of the buffer.
pub proof fn lemma_spliced_len(s: Seq<u8>, ins: Seq<(int, Seq<char>)>, k: int, p: int)
    requires
        0 <= p <= s.len(),
        ins_wf(s, ins),
        0 <= k,
        k < ins.len() ==> p <= ins[k].0,
    ensures
        spliced_from(s, ins, k, p).len() >= s.len() - p,
    decreases ins.len() - k,
{
    if k < ins.len() {
        lemma_spliced_len(s, ins, k + 1, ins[k].0);
    }
}

/// Inject invisible position markers into `markdown`: one at the document
/// start, one per recognized construct, each with a unique identifier, and
/// return the rewritten buffer with the anchor list in document order.
#[verifier::loop_isolation(false)]
pub fn inject_anchors(markdown: &str) -> (r: Result<PreprocessorOutput, PreprocessError>)
    ensures
        r is Ok,
        r matches Ok(o) ==> encode_utf8(o.markdown@) == injected_bytes(markdown.spec_bytes())
            && o.anchors@.map_values(|a: AnchorMeta| anchor_model(a)) == injected_state(
            markdown.spec_bytes(),
        ).anchors && (forall|k: int|
            0 <= k < o.anchors@.len() ==> (#[trigger] o.anchors@[k]).offset
                <= markdown.spec_bytes().len()),
        ins_wf(markdown.spec_bytes(), injected_state(markdown.spec_bytes()).ins),
{
    broadcast use encode_utf8_valid_utf8, decode_utf8_encode_utf8;

    let ghost s = markdown.spec_bytes();
    let b: &[u8] = markdown.as_bytes();
    let events: Vec<MdEvent> = scan_events(b);
    let mut ctx = InjectionContext::new(markdown);
    let mut k: usize = 0;
    proof {
        assert(forall|j: int|
            0 <= j < ctx.model().ins.len() ==> (#[trigger] ctx.model().ins[j]).0 <= 0);
    }
    while k < events.len()
        invariant
            k <= events@.len(),
            ctx.model() =~= inj_fold(s, events@, k as int),
            ins_wf(s, ctx.model().ins),
            ctx.bounded(k as int),
            forall|j: int|
                0 <= j < ctx.anchors@.len() ==> (#[trigger] ctx.anchors@[j]).offset <= s.len(),
            forall|j: int|
                0 <= j < ctx.model().ins.len() ==> (#[trigger] ctx.model().ins[j]).0 <= (if k == 0 {
                    0int
                } else {
                    ev_ins_off(events@[k - 1])
                }),
        decreases events@.len() - k,
    {
        proof {
            if k > 0 {
                assert(ev_ins_off(events@[k - 1]) <= ev_ins_off(events@[k as int]));
            }
        }
        ctx.handle_event(markdown, events[k], Ghost(k as int));
        proof {
            assert(inj_fold(s, events@, k + 1) == inj_step(s, inj_fold(s, events@, k as int), events@[k as int]));
        }
        k = k + 1;
    }
    proof {
        assert(ctx.model().ins =~= injected_state(s).ins);
        assert(ctx.model().anchors =~= injected_state(s).anchors);
    }
    let out = splice_insertions(markdown, &ctx.insertions);
    let os = string_from_utf8(out);
    let md2: String = os.unwrap();
    proof {
        assert(encode_utf8(md2@) == injected_bytes(s));
    }
    Ok(PreprocessorOutput { markdown: md2, anchors: ctx.anchors })
}


/// Pairwise distinct insertion offsets.
pub open spec fn ins_unique(ins: Seq<(int, Seq<char>)>) -> bool {
    forall|i: int, j: int| 0 <= i < j < ins.len() ==> (#[trigger] ins[i]).0 != (#[trigger] ins[j]).0
}

proof fn lemma_push_unique(ins: Seq<(int, Seq<char>)>, x: (int, Seq<char>))
    requires
        ins_unique(ins),
        !ins_has_offset(ins, x.0),
    ensures
        ins_unique(ins.push(x)),
{
    let m2 = ins.push(x);
    assert forall|i: int, j: int| 0 <= i < j < m2.len() implies (#[trigger] m2[i]).0 != (
    #[trigger] m2[j]).0 by {
        if j == m2.len() - 1 && m2.len() > 1 {
            assert(ins[i].0 != x.0);
        }
    }
}

/// One injection step keeps the insertion offsets pairwise distinct and
/// only appends to the anchor list.
proof fn lemma_inj_step_props(s: Seq<u8>, st: InjState, ev: MdEvent)
    requires
        ins_unique(st.ins),
    ensures
        ins_unique(inj_step(s, st, ev).ins),
        inj_step(s, st, ev).anchors.len() >= st.anchors.len(),
        forall|k: int|
            0 <= k < st.anchors.len() ==> (#[trigger] inj_step(s, st, ev).anchors[k])
                == st.anchors[k],
        forall|k: int|
            st.anchors.len() <= k < inj_step(s, st, ev).anchors.len() ==> (#[trigger] inj_step(
                s,
                st,
                ev,
            ).anchors[k]).offset >= 0,
{
    match ev {
        MdEvent::Heading { src, line_end, .. } => {
            let base = heading_base(s, ev);
            if base.len() != 0 {
                let st1 = InjState { slugs: sc_bump(st.slugs, base), ..st };
                if !ins_has_offset(st1.ins, line_end as int) {
                    let c = sc_get(st.slugs, base);
                    let id = if c == 0 {
                        base
                    } else {
                        base + seq!['-'] + dec_digits(c)
                    };
                    lemma_push_unique(st1.ins, (line_end as int, markup_heading(id)));
                }
            }
        },
        MdEvent::Rule { src, line_start } => {
            let st1 = InjState { hr_count: st.hr_count + 1, ..st };
            if !ins_has_offset(st1.ins, line_start as int) {
                lemma_push_unique(
                    st1.ins,
                    (
                        line_start as int,
                        markup_block(
                            lead_nl(s, line_start as int),
                            "tf-hr-"@ + dec_digits(st.hr_count + 1),
                        ),
                    ),
                );
            }
        },
        MdEvent::CodeBlock { src, line_start, lang_lo, lang_hi } => {
            let st1 = InjState { code_count: st.code_count + 1, ..st };
            let lang = decode_utf8(s.subrange(lang_lo as int, lang_hi as int));
            let id = "tf-code"@ + (if lang.len() > 0 {
                seq!['-'] + lang
            } else {
                Seq::<char>::empty()
            }) + dec_digits(st.code_count + 1);
            if !ins_has_offset(st1.ins, line_start as int) {
                lemma_push_unique(
                    st1.ins,
                    (line_start as int, markup_block(lead_nl(s, line_start as int), id)),
                );
            }
        },
        MdEvent::Image { src, line_start, dest_lo, dest_hi } => {
            let st1 = InjState { image_count: st.image_count + 1, ..st };
            let stem = image_stem(decode_utf8(s.subrange(dest_lo as int, dest_hi as int)));
            let id = if stem.len() == 0 {
                "tf-img-"@ + dec_digits(st.image_count + 1)
            } else {
                "tf-img-"@ + stem + seq!['-'] + dec_digits(st.image_count + 1)
            };
            if !ins_has_offset(st1.ins, line_start as int) {
                lemma_push_unique(
                    st1.ins,
                    (line_start as int, markup_block(lead_nl(s, line_start as int), id)),
                );
            }
        },
        MdEvent::Block { src, line_start } => {
            let id = "tf-"@ + dec_digits(src as int) + seq!['-'] + dec_digits(
                st.anchors.len() as int,
            );
            if !ins_has_offset(st.ins, line_start as int) {
                lemma_push_unique(
                    st.ins,
                    (line_start as int, markup_block(lead_nl(s, line_start as int), id)),
                );
            }
        },
    }
}

proof fn lemma_inj_fold_props(s: Seq<u8>, evs: Seq<MdEvent>, k: int)
    ensures
        ins_unique(inj_fold(s, evs, k).ins),
        inj_fold(s, evs, k).anchors.len() >= 1,
        inj_fold(s, evs, k).anchors[0] == (AnchorRec {
            id: doc_start_id(),
            offset: 0,
            line: 0,
            column: 0,
        }),
        forall|j: int|
            0 <= j < inj_fold(s, evs, k).anchors.len() ==> (#[trigger] inj_fold(
                s,
                evs,
                k,
            ).anchors[j]).offset >= 0,
    decreases k,
{
    if k <= 0 {
        assert(init_state(s).ins.len() == 1);
    } else {
        lemma_inj_fold_props(s, evs, k - 1);
        lemma_inj_step_props(s, inj_fold(s, evs, k - 1), evs[k - 1]);
    }
}

/// Idempotent marker uniqueness: no two accepted insertions of one
/// document share an insertion offset.
pub proof fn lemma_insertion_offsets_unique(s: Seq<u8>, i: int, j: int)
    requires
        0 <= i < j < injected_state(s).ins.len(),
    ensures
        injected_state(s).ins[i].0 != injected_state(s).ins[j].0,
{
    lemma_inj_fold_props(s, scanned(s), scanned(s).len() as int);
}

/// Document-start invariant: the first anchor of every injection pass has
/// offset zero and the reserved document-start identifier.
pub proof fn lemma_document_start_anchor(s: Seq<u8>)
    ensures
        injected_state(s).anchors.len() >= 1,
        forall|j: int|
            0 <= j < injected_state(s).anchors.len() ==> (#[trigger] injected_state(
                s,
            ).anchors[j]).offset >= 0,
        injected_state(s).anchors[0].id == doc_start_id(),
        injected_state(s).anchors[0].offset == 0,
        injected_state(s).anchors[0].line == 0,
        injected_state(s).anchors[0].column == 0,
{
    lemma_inj_fold_props(s, scanned(s), scanned(s).len() as int);
}

} // verus!


