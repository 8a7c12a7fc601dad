//! A single forward pass over the markdown buffer producing the closed set
//! of block constructs that anchor injection reacts to: headings,
//! horizontal rules, fenced code blocks, images, and generic block starts.
//! Table, blockquote and blank lines produce nothing; a fenced code block
//! consumes its body.

use vstd::prelude::*;

verus! {

use crate::types::NL;
use crate::lines::{
    CR, is_ascii_ws, ws_skip, rws_skip, find_byte, line_end_at, content_end_at, is_table_line,
    is_blank_line, lemma_ws_skip_props, lemma_rws_skip_props, lemma_find_byte_props,
    lemma_line_end_at_props, find_line_end, skip_ws, skip_ws_rev, find_byte_in,
};

/// `#` opens a heading.
pub const HASH: u8 = 35;

/// `>` opens a blockquote line.
pub const GT: u8 = 62;

/// `|` opens a table-row line.
pub const PIPE: u8 = 124;

/// One block construct found by the scan. All positions are byte offsets
/// into the scanned buffer.
#[derive(Debug, Clone, Copy, PartialEq, Eq, Structural)]
pub enum MdEvent {
    /// A heading line: its first `#`, the insertion point at the line end,
    /// the inline text range, and an explicit identifier range when the
    /// line carries an attribute block.
    Heading {
        src: usize,
        line_end: usize,
        text_lo: usize,
        text_hi: usize,
        has_id: bool,
        id_lo: usize,
        id_hi: usize,
    },
    /// A horizontal rule.
    Rule { src: usize, line_start: usize },
    /// An opening code fence, with the range of the first word of its info
    /// string.
    CodeBlock { src: usize, line_start: usize, lang_lo: usize, lang_hi: usize },
    /// The first image on a paragraph line, with its destination range.
    Image { src: usize, line_start: usize, dest_lo: usize, dest_hi: usize },
    /// A generic block start: a paragraph or the first line of a list.
    Block { src: usize, line_start: usize },
}

/// Last occurrence of byte `c` in `[a, b)`, or `-1`.
pub open spec fn find_byte_last(s: Seq<u8>, a: int, b: int, c: u8) -> int
    decreases b - a,
{
    if a < 0 || a >= b || b > s.len() {
        -1
    } else if s[b - 1] == c {
        b - 1
    } else {
        find_byte_last(s, a, b - 1, c)
    }
}

pub proof fn lemma_find_byte_last_props(s: Seq<u8>, a: int, b: int, c: u8)
    requires
        0 <= a <= b <= s.len(),
    ensures
        find_byte_last(s, a, b, c) == -1 || (a <= find_byte_last(s, a, b, c) < b && s[
            find_byte_last(s, a, b, c)
        ] == c),
    decreases b - a,
{
    if a < b && s[b - 1] != c {
        lemma_find_byte_last_props(s, a, b - 1, c);
    }
}

/// Find the last occurrence of byte `c` within `[a, b)`.
pub fn find_byte_last_in(bs: &[u8], a: usize, b: usize, c: u8) -> (r: Option<usize>)
    requires
        a <= b <= bs@.len(),
    ensures
        match r {
            Some(p) => find_byte_last(bs@, a as int, b as int, c) == p && a <= p < b,
            None => find_byte_last(bs@, a as int, b as int, c) == -1,
        },
{
    let mut q: usize = b;
    while q > a && bs[q - 1] != c
        invariant
            a <= q <= b <= bs@.len(),
            find_byte_last(bs@, a as int, b as int, c) == find_byte_last(bs@, a as int, q as int, c),
        decreases q,
    {
        q = q - 1;
    }
    if q > a {
        Some(q - 1)
    } else {
        None
    }
}

/// End of the run of byte `c` starting at `w`, within `[w, e)`.
pub open spec fn run_end(s: Seq<u8>, w: int, e: int, c: u8) -> int
    decreases e - w,
{
    if w < 0 || w >= e || e > s.len() || s[w] != c {
        w
    } else {
        run_end(s, w + 1, e, c)
    }
}

pub proof fn lemma_run_end_props(s: Seq<u8>, w: int, e: int, c: u8)
    requires
        0 <= w <= e <= s.len(),
    ensures
        w <= run_end(s, w, e, c) <= e,
        forall|k: int| w <= k < run_end(s, w, e, c) ==> s[k] == c,
        run_end(s, w, e, c) < e ==> s[run_end(s, w, e, c)] != c,
    decreases e - w,
{
    if w < e && s[w] == c {
        lemma_run_end_props(s, w + 1, e, c);
    }
}

/// Skip the run of byte `c` starting at `w`, within `[w, e)`.
pub fn skip_run(bs: &[u8], w: usize, e: usize, c: u8) -> (r: usize)
    requires
        w <= e <= bs@.len(),
    ensures
        r == run_end(bs@, w as int, e as int, c),
        w <= r <= e,
{
    let mut p: usize = w;
    while p < e && bs[p] == c
        invariant
            w <= p <= e <= bs@.len(),
            run_end(bs@, w as int, e as int, c) == run_end(bs@, p as int, e as int, c),
        decreases e - p,
    {
        p = p + 1;
    }
    p
}

/// A blockquote line.
pub open spec fn is_quote_line(s: Seq<u8>, i: int, ce: int) -> bool {
    let w = ws_skip(s, i, ce);
    w < ce && s[w] == GT
}

/// A heading line: one to six `#` bytes followed by whitespace or the end
/// of the line.
pub open spec fn is_heading_line(s: Seq<u8>, i: int, ce: int) -> bool {
    let w = ws_skip(s, i, ce);
    let he = run_end(s, w, ce, HASH);
    w < ce && s[w] == HASH && he - w <= 6 && (he == ce || is_ascii_ws(s[he]))
}

/// A horizontal-rule line: three or more of the same rule byte and nothing
/// else.
pub open spec fn is_rule_line(s: Seq<u8>, i: int, ce: int) -> bool {
    let w = ws_skip(s, i, ce);
    let r = rws_skip(s, w, ce);
    w < r && (s[w] == 45 || s[w] == 42 || s[w] == 95) && run_end(s, w, r, s[w]) == r && r - w >= 3
}

/// A fence line: three or more backticks or tildes.
pub open spec fn is_fence_line(s: Seq<u8>, i: int, ce: int) -> bool {
    let w = ws_skip(s, i, ce);
    w < ce && (s[w] == 96 || s[w] == 126) && run_end(s, w, ce, s[w]) - w >= 3
}

/// A closing fence for fence byte `c` of width `k`: a run of at least `k`
/// of `c` and nothing else on the line.
pub open spec fn is_fence_close(s: Seq<u8>, i: int, ce: int, c: u8, k: int) -> bool {
    let w = ws_skip(s, i, ce);
    let r = rws_skip(s, w, ce);
    w < r && s[w] == c && run_end(s, w, r, c) == r && r - w >= k
}

/// A list-item line: a bullet or an ordered marker followed by whitespace.
pub open spec fn is_list_line(s: Seq<u8>, i: int, ce: int) -> bool {
    let w = ws_skip(s, i, ce);
    if w >= ce {
        false
    } else if s[w] == 45 || s[w] == 43 || s[w] == 42 {
        w + 1 < ce && is_ascii_ws(s[w + 1])
    } else if 48 <= s[w] && s[w] <= 57 {
        let d = digits_end(s, w, ce);
        d < ce && (s[d] == 46 || s[d] == 41) && d + 1 < ce && is_ascii_ws(s[d + 1])
    } else {
        false
    }
}

/// End of the digit run starting at `w`.
pub open spec fn digits_end(s: Seq<u8>, w: int, e: int) -> int
    decreases e - w,
{
    if w < 0 || w >= e || e > s.len() || !(48 <= s[w] && s[w] <= 57) {
        w
    } else {
        digits_end(s, w + 1, e)
    }
}

/// Skip the digit run starting at `w`.
pub fn skip_digits(bs: &[u8], w: usize, e: usize) -> (r: usize)
    requires
        w <= e <= bs@.len(),
    ensures
        r == digits_end(bs@, w as int, e as int),
        w <= r <= e,
{
    let mut p: usize = w;
    while p < e && 48 <= bs[p] && bs[p] <= 57
        invariant
            w <= p <= e <= bs@.len(),
            digits_end(bs@, w as int, e as int) == digits_end(bs@, p as int, e as int),
        decreases e - p,
    {
        p = p + 1;
    }
    p
}

/// Position just past the closing fence line for a fence of byte `c` and
/// width `k` whose body starts at line `i`; the buffer's end when the
/// fence never closes.
pub open spec fn fence_close_after(s: Seq<u8>, i: int, c: u8, k: int) -> int
    decreases s.len() + 1 - i,
    via fence_close_after_dec
{
    if i < 0 || i >= s.len() {
        i
    } else {
        let e = line_end_at(s, i);
        let ce = content_end_at(s, i);
        if is_fence_close(s, i, ce, c, k) {
            e + 1
        } else {
            fence_close_after(s, e + 1, c, k)
        }
    }
}

#[via_fn]
proof fn fence_close_after_dec(s: Seq<u8>, i: int, c: u8, k: int) {
    if 0 <= i && i < s.len() {
        lemma_line_end_at_props(s, i);
    }
}

pub proof fn lemma_fence_close_after_ge(s: Seq<u8>, i: int, c: u8, k: int)
    requires
        0 <= i,
    ensures
        fence_close_after(s, i, c, k) >= i,
        i <= s.len() + 1 ==> fence_close_after(s, i, c, k) <= s.len() + 1,
    decreases s.len() + 1 - i,
{
    if 0 <= i && i < s.len() {
        lemma_line_end_at_props(s, i);
        let e = line_end_at(s, i);
        let ce = content_end_at(s, i);
        if !is_fence_close(s, i, ce, c, k) {
            lemma_fence_close_after_ge(s, e + 1, c, k);
        }
    }
}

/// The events contributed by the line starting at `i` together with the
/// rest of the scan. `in_para` says a paragraph is open; `in_list` says a
/// list is open.
#[verifier::opaque]
pub open spec fn scan_from(s: Seq<u8>, i: int, in_para: bool, in_list: bool) -> Seq<MdEvent>
    decreases s.len() + 1 - i,
    via scan_from_dec
{
    if i < 0 || i >= s.len() {
        Seq::<MdEvent>::empty()
    } else {
        let e = line_end_at(s, i);
        let ce = content_end_at(s, i);
        let w = ws_skip(s, i, ce);
        if is_blank_line(s, i, ce) {
            scan_from(s, e + 1, false, in_list)
        } else if is_table_line(s, i, ce) || is_quote_line(s, i, ce) {
            scan_from(s, e + 1, false, false)
        } else if is_heading_line(s, i, ce) {
            seq![heading_event(s, i)] + scan_from(s, e + 1, false, false)
        } else if is_fence_line(s, i, ce) {
            let c = s[w];
            let fe = run_end(s, w, ce, c);
            let ll = ws_skip(s, fe, ce);
            let lh = word_end(s, ll, ce);
            seq![
                MdEvent::CodeBlock {
                    src: w as usize,
                    line_start: i as usize,
                    lang_lo: ll as usize,
                    lang_hi: lh as usize,
                },
            ] + scan_from(s, fence_close_after(s, e + 1, c, fe - w), false, false)
        } else if is_rule_line(s, i, ce) {
            seq![MdEvent::Rule { src: w as usize, line_start: i as usize }] + scan_from(
                s,
                e + 1,
                false,
                false,
            )
        } else if is_list_line(s, i, ce) {
            (if in_list {
                Seq::<MdEvent>::empty()
            } else {
                seq![MdEvent::Block { src: w as usize, line_start: i as usize }]
            }) + scan_from(s, e + 1, true, true)
        } else {
            (if in_para {
                Seq::<MdEvent>::empty()
            } else {
                seq![MdEvent::Block { src: w as usize, line_start: i as usize }]
            }) + image_events(s, i) + scan_from(s, e + 1, true, false)
        }
    }
}

#[via_fn]
proof fn scan_from_dec(s: Seq<u8>, i: int, in_para: bool, in_list: bool) {
    if 0 <= i && i < s.len() {
        lemma_line_end_at_props(s, i);
        let e = line_end_at(s, i);
        let ce = content_end_at(s, i);
        let w = ws_skip(s, i, ce);
        if is_fence_line(s, i, ce) {
            lemma_fence_close_after_ge(s, e + 1, s[w], run_end(s, w, ce, s[w]) - w);
        }
    }
}

/// End of the whitespace-delimited word starting at `a`.
pub open spec fn word_end(s: Seq<u8>, a: int, e: int) -> int
    decreases e - a,
{
    if a < 0 || a >= e || e > s.len() || is_ascii_ws(s[a]) {
        a
    } else {
        word_end(s, a + 1, e)
    }
}

pub proof fn lemma_word_end_props(s: Seq<u8>, a: int, e: int)
    requires
        0 <= a <= e <= s.len(),
    ensures
        a <= word_end(s, a, e) <= e,
        word_end(s, a, e) < e ==> is_ascii_ws(s[word_end(s, a, e)]),
    decreases e - a,
{
    if a < e && !is_ascii_ws(s[a]) {
        lemma_word_end_props(s, a + 1, e);
    }
}

/// Skip the whitespace-delimited word starting at `a`.
pub fn skip_word(bs: &[u8], a: usize, e: usize) -> (r: usize)
    requires
        a <= e <= bs@.len(),
    ensures
        r == word_end(bs@, a as int, e as int),
        a <= r <= e,
{
    let mut p: usize = a;
    while p < e && !is_ws_byte_local(bs[p])
        invariant
            a <= p <= e <= bs@.len(),
            word_end(bs@, a as int, e as int) == word_end(bs@, p as int, e as int),
        decreases e - p,
    {
        p = p + 1;
    }
    p
}

fn is_ws_byte_local(b: u8) -> (r: bool)
    ensures
        r == is_ascii_ws(b),
{
    b == 32 || (9 <= b && b <= 13)
}

/// Parse the heading line starting at `i` into its event.
#[verifier::loop_isolation(false)]
fn parse_heading(b: &[u8], i: usize, e: usize, ce: usize, w: usize, he: usize) -> (ev: MdEvent)
    requires
        i <= ce <= b@.len(),
        e == line_end_at(b@, i as int),
        ce == content_end_at(b@, i as int),
        w == ws_skip(b@, i as int, ce as int),
        he == run_end(b@, w as int, ce as int, HASH),
        w <= he <= ce,
        i == 0 || b@[i as int - 1] == NL,
        line_end_at(b@, i as int) == e,
        w < ce,
        b@[w as int] == HASH,
    ensures
        ev == heading_event(b@, i as int),
        ev_wf(b@, ev),
{
    proof {
        lemma_line_end_at_props(b@, i as int);
        lemma_ws_skip_props(b@, i as int, ce as int);
        lemma_run_end_props(b@, w as int, ce as int, HASH);
    }
    let tl: usize = skip_ws(b, he, ce);
    let tr: usize = skip_ws_rev(b, tl, ce);
    proof {
        lemma_ws_skip_props(b@, he as int, ce as int);
        lemma_rws_skip_props(b@, tl as int, ce as int);
        assert(tl > 0 && b@[tl as int - 1] < 0x80);
        assert(tr == ce || b@[tr as int] < 0x80);
        assert(ce == b@.len() || b@[ce as int] < 0x80);
    }
    let mut ev = MdEvent::Heading {
        src: w,
        line_end: e,
        text_lo: tl,
        text_hi: tr,
        has_id: false,
        id_lo: tl,
        id_hi: tl,
    };
    if tr > tl && b[tr - 1] == 125 {
        if let Some(lb) = find_byte_last_in(b, tl, tr - 1, 123) {
            let al: usize = skip_ws(b, lb + 1, tr - 1);
            if al < tr - 1 && b[al] == HASH {
                let th: usize = skip_ws_rev(b, tl, lb);
                let ih: usize = skip_word(b, al + 1, tr - 1);
                proof {
                    lemma_find_byte_last_props(b@, tl as int, tr - 1, 123);
                    lemma_ws_skip_props(b@, lb + 1, tr - 1);
                    lemma_rws_skip_props(b@, tl as int, lb as int);
                    lemma_word_end_props(b@, al + 1, tr - 1);
                    assert(b@[al as int] == HASH);
                    assert(th == lb || b@[th as int] < 0x80);
                    assert(b@[lb as int] == 123);
                    assert(ih == tr - 1 || b@[ih as int] < 0x80);
                    assert(b@[tr as int - 1] == 125);
                }
                ev = MdEvent::Heading {
                    src: w,
                    line_end: e,
                    text_lo: tl,
                    text_hi: th,
                    has_id: true,
                    id_lo: al + 1,
                    id_hi: ih,
                };
            }
        }
    }
    ev
}

/// Skip to just past the closing fence for a fence of byte `c` and width
/// `k`, scanning from line `q` on.
#[verifier::loop_isolation(false)]
fn fence_skip(b: &[u8], q: usize, c: u8, k: usize) -> (r: usize)
    requires
        q <= b@.len(),
        q == 0 || q == b@.len() || b@[q as int - 1] == NL,
    ensures
        q <= r <= b@.len(),
        r == 0 || r == b@.len() || b@[r as int - 1] == NL,
        scan_from(b@, fence_close_after(b@, q as int, c, k as int), false, false) == scan_from(
            b@,
            r as int,
            false,
            false,
        ),
{
    let ghost s = b@;
    let ghost fca = fence_close_after(s, q as int, c, k as int);
    let n: usize = b.len();
    let mut p: usize = q;
    let mut done: bool = false;
    while !done && p < n
        invariant
            q <= p <= n,
            p == 0 || p == n || s[p as int - 1] == NL,
            !done ==> scan_from(s, fca, false, false) == scan_from(
                s,
                fence_close_after(s, p as int, c, k as int),
                false,
                false,
            ),
            done ==> scan_from(s, fca, false, false) == scan_from(s, p as int, false, false),
        decreases n - p + (if done {
            0int
        } else {
            1int
        }),
    {
        let e2: usize = find_line_end(b, p);
        proof {
            lemma_line_end_at_props(s, p as int);
        }
        let ce2: usize = if e2 > p && b[e2 - 1] == CR {
            e2 - 1
        } else {
            e2
        };
        let w2: usize = skip_ws(b, p, ce2);
        let rr2: usize = skip_ws_rev(b, w2, ce2);
        let close: bool = w2 < rr2 && b[w2] == c && skip_run(b, w2, rr2, c) == rr2 && rr2 - w2 >= k;
        proof {
            assert(ce2 == content_end_at(s, p as int));
            assert(close == is_fence_close(s, p as int, ce2 as int, c, k as int));
            assert(fence_close_after(s, p as int, c, k as int) == (if close {
                line_end_at(s, p as int) + 1
            } else {
                fence_close_after(s, line_end_at(s, p as int) + 1, c, k as int)
            }));
            if e2 >= n {
                assert(fence_close_after(s, n as int, c, k as int) == n);
                assert(scan_from(s, e2 + 1, false, false) =~= Seq::<MdEvent>::empty()) by {
                    reveal(scan_from);
                }
                assert(scan_from(s, n as int, false, false) =~= Seq::<MdEvent>::empty()) by {
                    reveal(scan_from);
                }
            }
        }
        if e2 < n {
            p = e2 + 1;
        } else {
            p = n;
        }
        if close {
            done = true;
        }
    }
    proof {
        if !done {
            assert(fence_close_after(s, p as int, c, k as int) == p);
        }
    }
    p
}

/// The heading event for the heading line starting at `i`.
pub open spec fn heading_event(s: Seq<u8>, i: int) -> MdEvent {
    let e = line_end_at(s, i);
    let ce = content_end_at(s, i);
    let w = ws_skip(s, i, ce);
    let he = run_end(s, w, ce, HASH);
    let tl = ws_skip(s, he, ce);
    let tr = rws_skip(s, tl, ce);
    let lb = if tr > tl && s[tr - 1] == 125 {
        find_byte_last(s, tl, tr - 1, 123)
    } else {
        -1
    };
    let al = if lb >= 0 {
        ws_skip(s, lb + 1, tr - 1)
    } else {
        -1
    };
    if lb >= 0 && al < tr - 1 && s[al] == HASH {
        MdEvent::Heading {
            src: w as usize,
            line_end: e as usize,
            text_lo: tl as usize,
            text_hi: rws_skip(s, tl, lb) as usize,
            has_id: true,
            id_lo: (al + 1) as usize,
            id_hi: word_end(s, al + 1, tr - 1) as usize,
        }
    } else {
        MdEvent::Heading {
            src: w as usize,
            line_end: e as usize,
            text_lo: tl as usize,
            text_hi: tr as usize,
            has_id: false,
            id_lo: tl as usize,
            id_hi: tl as usize,
        }
    }
}

/// The image event for the text line starting at `i`: the first
/// `![..](dest)` pattern, if one is complete.
pub open spec fn image_events(s: Seq<u8>, i: int) -> Seq<MdEvent> {
    let ce = content_end_at(s, i);
    let p = pair_at(s, i, ce, 33, 91);
    if p < 0 {
        Seq::<MdEvent>::empty()
    } else {
        let q = pair_at(s, p + 2, ce, 93, 40);
        if q < 0 {
            Seq::<MdEvent>::empty()
        } else {
            let dl = q + 2;
            let dh = dest_end(s, dl, ce);
            seq![
                MdEvent::Image {
                    src: p as usize,
                    line_start: i as usize,
                    dest_lo: dl as usize,
                    dest_hi: dh as usize,
                },
            ]
        }
    }
}

/// First position of the two-byte pattern `c1 c2` in `[a, e)`, or `-1`.
pub open spec fn pair_at(s: Seq<u8>, a: int, e: int, c1: u8, c2: u8) -> int
    decreases e - a,
{
    if a < 0 || a + 2 > e || e > s.len() {
        -1
    } else if s[a] == c1 && s[a + 1] == c2 {
        a
    } else {
        pair_at(s, a + 1, e, c1, c2)
    }
}

/// Find the first occurrence of the two-byte pattern `c1 c2` in `[a, e)`.
pub fn find_pair(bs: &[u8], a: usize, e: usize, c1: u8, c2: u8) -> (r: Option<usize>)
    requires
        a <= e <= bs@.len(),
    ensures
        match r {
            Some(p) => pair_at(bs@, a as int, e as int, c1, c2) == p && a <= p && p + 2 <= e
                && bs@[p as int] == c1 && bs@[p + 1] == c2,
            None => pair_at(bs@, a as int, e as int, c1, c2) == -1,
        },
{
    let mut p: usize = a;
    while e >= 2 && p <= e - 2 && !(bs[p] == c1 && bs[p + 1] == c2)
        invariant
            a <= p,
            p <= e <= bs@.len(),
            pair_at(bs@, a as int, e as int, c1, c2) == pair_at(bs@, p as int, e as int, c1, c2),
        decreases e - p,
    {
        p = p + 1;
    }
    if e >= 2 && p <= e - 2 {
        Some(p)
    } else {
        None
    }
}

/// Skip to the end of an image destination.
pub fn skip_dest(bs: &[u8], a: usize, e: usize) -> (r: usize)
    requires
        a <= e <= bs@.len(),
    ensures
        r == dest_end(bs@, a as int, e as int),
        a <= r <= e,
        r < e ==> bs@[r as int] == 41 || is_ascii_ws(bs@[r as int]),
{
    let mut p: usize = a;
    while p < e && bs[p] != 41 && !is_ws_byte_local(bs[p])
        invariant
            a <= p <= e <= bs@.len(),
            dest_end(bs@, a as int, e as int) == dest_end(bs@, p as int, e as int),
        decreases e - p,
    {
        p = p + 1;
    }
    p
}

/// End of an image destination: the first `)` or whitespace.
pub open spec fn dest_end(s: Seq<u8>, a: int, e: int) -> int
    decreases e - a,
{
    if a < 0 || a >= e || e > s.len() || s[a] == 41 || is_ascii_ws(s[a]) {
        a
    } else {
        dest_end(s, a + 1, e)
    }
}

/// The scan of a whole buffer.
pub open spec fn scanned(s: Seq<u8>) -> Seq<MdEvent> {
    scan_from(s, 0, false, false)
}

/// Position facts about one event that the anchor injector relies on:
/// every recorded position lies in the buffer, insertion points sit at
/// line boundaries, and every content range is delimited by ASCII bytes,
/// so it can be cut out of the UTF-8 buffer.
pub open spec fn ev_wf(s: Seq<u8>, ev: MdEvent) -> bool {
    match ev {
        MdEvent::Heading { src, line_end, text_lo, text_hi, has_id, id_lo, id_hi } => {
            &&& src < s.len()
            &&& line_end <= s.len()
            &&& (line_end == s.len() || s[line_end as int] == NL)
            &&& 0 < text_lo <= text_hi <= s.len()
            &&& s[text_lo as int - 1] < 0x80
            &&& (text_hi == s.len() || s[text_hi as int] < 0x80)
            &&& (has_id ==> 0 < id_lo <= id_hi <= s.len() && s[id_lo as int - 1] < 0x80 && (id_hi
                == s.len() || s[id_hi as int] < 0x80))
            &&& (src == 0 || s[src as int - 1] < 0x80)
        },
        MdEvent::Rule { src, line_start } => {
            &&& line_start <= src < s.len()
            &&& (line_start == 0 || s[line_start as int - 1] == NL)
            &&& (src == 0 || s[src as int - 1] < 0x80)
        },
        MdEvent::CodeBlock { src, line_start, lang_lo, lang_hi } => {
            &&& line_start <= src < s.len()
            &&& (line_start == 0 || s[line_start as int - 1] == NL)
            &&& (src == 0 || s[src as int - 1] < 0x80)
            &&& 0 < lang_lo <= lang_hi <= s.len()
            &&& s[lang_lo as int - 1] < 0x80
            &&& (lang_hi == s.len() || s[lang_hi as int] < 0x80)
        },
        MdEvent::Image { src, line_start, dest_lo, dest_hi } => {
            &&& line_start <= src < s.len()
            &&& (line_start == 0 || s[line_start as int - 1] == NL)
            &&& 0 < dest_lo <= dest_hi <= s.len()
            &&& s[dest_lo as int - 1] < 0x80
            &&& (dest_hi == s.len() || s[dest_hi as int] < 0x80)
        },
        MdEvent::Block { src, line_start } => {
            &&& line_start <= src < s.len()
            &&& (line_start == 0 || s[line_start as int - 1] == NL)
            &&& (src == 0 || s[src as int - 1] < 0x80)
        },
    }
}


/// The insertion offset of an event's marker: the end of the heading's
/// line for a heading, the start of the construct's line for everything
/// else.
pub open spec fn ev_ins_off(ev: MdEvent) -> int {
    match ev {
        MdEvent::Heading { line_end, .. } => line_end as int,
        MdEvent::Rule { line_start, .. } => line_start as int,
        MdEvent::CodeBlock { line_start, .. } => line_start as int,
        MdEvent::Image { line_start, .. } => line_start as int,
        MdEvent::Block { line_start, .. } => line_start as int,
    }
}

/// One scan step: a blank line.
proof fn lemma_step_blank(s: Seq<u8>, i: int, p: bool, l: bool)
    requires
        0 <= i < s.len(),
        is_blank_line(s, i, content_end_at(s, i)),
    ensures
        scan_from(s, i, p, l) == scan_from(s, line_end_at(s, i) + 1, false, l),
{
    reveal(scan_from);
    lemma_ws_skip_props(s, i, content_end_at(s, i));
}

/// One scan step: a table or blockquote line.
proof fn lemma_step_special(s: Seq<u8>, i: int, p: bool, l: bool)
    requires
        0 <= i < s.len(),
        !is_blank_line(s, i, content_end_at(s, i)),
        is_table_line(s, i, content_end_at(s, i)) || is_quote_line(s, i, content_end_at(s, i)),
    ensures
        scan_from(s, i, p, l) == scan_from(s, line_end_at(s, i) + 1, false, false),
{
    reveal(scan_from);
}

/// One scan step: a heading line.
proof fn lemma_step_heading(s: Seq<u8>, i: int, p: bool, l: bool)
    requires
        0 <= i < s.len(),
        !is_blank_line(s, i, content_end_at(s, i)),
        !is_table_line(s, i, content_end_at(s, i)),
        !is_quote_line(s, i, content_end_at(s, i)),
        is_heading_line(s, i, content_end_at(s, i)),
    ensures
        scan_from(s, i, p, l) == seq![heading_event(s, i)] + scan_from(
            s,
            line_end_at(s, i) + 1,
            false,
            false,
        ),
{
    reveal(scan_from);
}

/// One scan step: an opening code fence.
proof fn lemma_step_fence(s: Seq<u8>, i: int, p: bool, l: bool)
    requires
        0 <= i < s.len(),
        !is_blank_line(s, i, content_end_at(s, i)),
        !is_table_line(s, i, content_end_at(s, i)),
        !is_quote_line(s, i, content_end_at(s, i)),
        !is_heading_line(s, i, content_end_at(s, i)),
        is_fence_line(s, i, content_end_at(s, i)),
    ensures
        ({
            let ce = content_end_at(s, i);
            let w = ws_skip(s, i, ce);
            let c = s[w];
            let fe = run_end(s, w, ce, c);
            let ll = ws_skip(s, fe, ce);
            let lh = word_end(s, ll, ce);
            scan_from(s, i, p, l) == seq![
                MdEvent::CodeBlock {
                    src: w as usize,
                    line_start: i as usize,
                    lang_lo: ll as usize,
                    lang_hi: lh as usize,
                },
            ] + scan_from(
                s,
                fence_close_after(s, line_end_at(s, i) + 1, c, fe - w),
                false,
                false,
            )
        }),
{
    reveal(scan_from);
}

/// One scan step: a horizontal rule.
proof fn lemma_step_rule(s: Seq<u8>, i: int, p: bool, l: bool)
    requires
        0 <= i < s.len(),
        !is_blank_line(s, i, content_end_at(s, i)),
        !is_table_line(s, i, content_end_at(s, i)),
        !is_quote_line(s, i, content_end_at(s, i)),
        !is_heading_line(s, i, content_end_at(s, i)),
        !is_fence_line(s, i, content_end_at(s, i)),
        is_rule_line(s, i, content_end_at(s, i)),
    ensures
        scan_from(s, i, p, l) == seq![
            MdEvent::Rule {
                src: ws_skip(s, i, content_end_at(s, i)) as usize,
                line_start: i as usize,
            },
        ] + scan_from(s, line_end_at(s, i) + 1, false, false),
{
    reveal(scan_from);
}

/// One scan step: a list-item line.
proof fn lemma_step_list(s: Seq<u8>, i: int, p: bool, l: bool)
    requires
        0 <= i < s.len(),
        !is_blank_line(s, i, content_end_at(s, i)),
        !is_table_line(s, i, content_end_at(s, i)),
        !is_quote_line(s, i, content_end_at(s, i)),
        !is_heading_line(s, i, content_end_at(s, i)),
        !is_fence_line(s, i, content_end_at(s, i)),
        !is_rule_line(s, i, content_end_at(s, i)),
        is_list_line(s, i, content_end_at(s, i)),
    ensures
        scan_from(s, i, p, l) == (if l {
            Seq::<MdEvent>::empty()
        } else {
            seq![
                MdEvent::Block {
                    src: ws_skip(s, i, content_end_at(s, i)) as usize,
                    line_start: i as usize,
                },
            ]
        }) + scan_from(s, line_end_at(s, i) + 1, true, true),
{
    reveal(scan_from);
}

/// One scan step: an ordinary text line.
proof fn lemma_step_text(s: Seq<u8>, i: int, p: bool, l: bool)
    requires
        0 <= i < s.len(),
        !is_blank_line(s, i, content_end_at(s, i)),
        !is_table_line(s, i, content_end_at(s, i)),
        !is_quote_line(s, i, content_end_at(s, i)),
        !is_heading_line(s, i, content_end_at(s, i)),
        !is_fence_line(s, i, content_end_at(s, i)),
        !is_rule_line(s, i, content_end_at(s, i)),
        !is_list_line(s, i, content_end_at(s, i)),
    ensures
        scan_from(s, i, p, l) == (if p {
            Seq::<MdEvent>::empty()
        } else {
            seq![
                MdEvent::Block {
                    src: ws_skip(s, i, content_end_at(s, i)) as usize,
                    line_start: i as usize,
                },
            ]
        }) + image_events(s, i) + scan_from(s, line_end_at(s, i) + 1, true, false),
{
    reveal(scan_from);
}

/// Handle one non-blank, non-table, non-quote line: classify it, push its
/// events, and return the next scan position and flags.
#[verifier::rlimit(100)]
#[verifier::spinoff_prover]
fn scan_block_line(
    b: &[u8],
    r: &mut Vec<MdEvent>,
    i: usize,
    e: usize,
    ce: usize,
    w: usize,
    in_para: bool,
    in_list: bool,
) -> (res: (usize, bool, bool))
    requires
        i < b@.len(),
        i == 0 || b@[i as int - 1] == NL,
        e == line_end_at(b@, i as int),
        ce == content_end_at(b@, i as int),
        w == ws_skip(b@, i as int, ce as int),
        w < ce,
        b@[w as int] != PIPE,
        b@[w as int] != GT,
    ensures
        final(r)@.len() >= old(r)@.len(),
        forall|k: int| 0 <= k < old(r)@.len() ==> final(r)@[k] == old(r)@[k],
        forall|k: int|
            old(r)@.len() <= k < final(r)@.len() ==> ev_wf(b@, #[trigger] final(r)@[k]),
        scan_from(b@, i as int, in_para, in_list) == final(r)@.skip(old(r)@.len() as int)
            + scan_from(b@, res.0 as int, res.1, res.2),
        i < res.0 <= b@.len(),
        res.0 == b@.len() || b@[res.0 as int - 1] == NL,
        forall|k: int|
            old(r)@.len() <= k < final(r)@.len() ==> i as int <= ev_ins_off(
                #[trigger] final(r)@[k],
            ) <= res.0 as int,
        forall|k1: int, k2: int|
            old(r)@.len() <= k1 < k2 < final(r)@.len() ==> ev_ins_off(final(r)@[k1]) <= ev_ins_off(
                final(r)@[k2],
            ),
{
    let ghost s = b@;
    let ghost r0 = r@;
    let n: usize = b.len();
    proof {
        lemma_line_end_at_props(s, i as int);
    }
    let mut next: usize = if e < n {
        e + 1
    } else {
        n
    };
    let mut np: bool = false;
    let mut nl: bool = false;
    let ghost tail0 = scan_from(s, i as int, in_para, in_list);
    let he: usize = skip_run(b, w, ce, HASH);
    let rr: usize = skip_ws_rev(b, w, ce);
    let is_heading: bool = b[w] == HASH && he - w <= 6 && (he == ce || is_ws_byte_local(b[he]));
    let is_fence: bool = (b[w] == 96 || b[w] == 126) && skip_run(b, w, ce, b[w]) - w >= 3;
    let is_rule: bool = !is_fence && (b[w] == 45 || b[w] == 42 || b[w] == 95) && w < rr && skip_run(
        b,
        w,
        rr,
        b[w],
    ) == rr && rr - w >= 3;
    let is_list: bool = if b[w] == 45 || b[w] == 43 || b[w] == 42 {
        w + 1 < ce && is_ws_byte_local(b[w + 1])
    } else if 48 <= b[w] && b[w] <= 57 {
        let d: usize = skip_digits(b, w, ce);
        d < ce && (b[d] == 46 || b[d] == 41) && d + 1 < ce && is_ws_byte_local(b[d + 1])
    } else {
        false
    };
    proof {
        assert(!is_blank_line(s, i as int, ce as int)) by {
            lemma_ws_skip_props(s, i as int, ce as int);
        }
        assert(!is_table_line(s, i as int, ce as int));
        assert(!is_quote_line(s, i as int, ce as int));
        assert(is_heading == is_heading_line(s, i as int, ce as int));
        assert(is_fence == is_fence_line(s, i as int, ce as int));
        assert(is_rule ==> is_rule_line(s, i as int, ce as int));
        assert(!is_fence && !is_rule ==> !is_rule_line(s, i as int, ce as int)) by {
            lemma_rws_skip_props(s, w as int, ce as int);
        }
        assert(is_list == is_list_line(s, i as int, ce as int));
    }
    if is_heading {
        let ev = parse_heading(b, i, e, ce, w, he);
        r.push(ev);
        proof {
            lemma_step_heading(s, i as int, in_para, in_list);
            assert(r@.skip(r0.len() as int) =~= seq![heading_event(s, i as int)]);
        }
    } else if is_fence {
        let c: u8 = b[w];
        let fe: usize = skip_run(b, w, ce, c);
        let ll: usize = skip_ws(b, fe, ce);
        let lh: usize = skip_word(b, ll, ce);
        let ev = MdEvent::CodeBlock { src: w, line_start: i, lang_lo: ll, lang_hi: lh };
        proof {
            assert(ev_wf(s, ev)) by {
                lemma_ws_skip_props(s, i as int, ce as int);
                lemma_run_end_props(s, w as int, ce as int, c);
                lemma_ws_skip_props(s, fe as int, ce as int);
                lemma_word_end_props(s, ll as int, ce as int);
                assert(w < ce);
                assert(ll > 0 && s[ll as int - 1] < 0x80);
                assert(lh == ce || s[lh as int] < 0x80);
                assert(ce == s.len() || s[ce as int] < 0x80);
            }
        }
        r.push(ev);
        let ghost k = fe - w;
        let ghost fca = fence_close_after(s, e + 1, c, k as int);
        proof {
            if e >= n {
                assert(fence_close_after(s, e + 1, c, k as int) == e + 1);
                assert(fence_close_after(s, n as int, c, k as int) == n);
                assert(scan_from(s, e + 1, false, false) =~= Seq::<MdEvent>::empty()) by {
                    reveal(scan_from);
                }
                assert(scan_from(s, n as int, false, false) =~= Seq::<MdEvent>::empty()) by {
                    reveal(scan_from);
                }
            }
        }
        next = fence_skip(b, next, c, fe - w);
        proof {
            assert(scan_from(s, fca, false, false) =~= scan_from(s, next as int, false, false));
            lemma_step_fence(s, i as int, in_para, in_list);
            assert(r@.skip(r0.len() as int) =~= seq![ev]);
            assert(tail0 == seq![ev] + scan_from(s, next as int, false, false));
        }
    } else if is_rule {
        let ev = MdEvent::Rule { src: w, line_start: i };
        proof {
            assert(ev_wf(s, ev)) by {
                lemma_ws_skip_props(s, i as int, ce as int);
            }
        }
        r.push(ev);
        proof {
            lemma_step_rule(s, i as int, in_para, in_list);
            assert(r@.skip(r0.len() as int) =~= seq![ev]);
        }
    } else if is_list {
        if !in_list {
            let ev = MdEvent::Block { src: w, line_start: i };
            proof {
                assert(ev_wf(s, ev)) by {
                    lemma_ws_skip_props(s, i as int, ce as int);
                }
            }
            r.push(ev);
        }
        np = true;
        nl = true;
        proof {
            lemma_step_list(s, i as int, in_para, in_list);
            if in_list {
                assert(r@.skip(r0.len() as int) =~= Seq::<MdEvent>::empty());
            } else {
                assert(r@.skip(r0.len() as int) =~= seq![
                    MdEvent::Block { src: w, line_start: i },
                ]);
            }
        }
    } else {
        let ghost blockev = if in_para {
            Seq::<MdEvent>::empty()
        } else {
            seq![MdEvent::Block { src: w, line_start: i }]
        };
        if !in_para {
            let ev = MdEvent::Block { src: w, line_start: i };
            proof {
                assert(ev_wf(s, ev)) by {
                    lemma_ws_skip_props(s, i as int, ce as int);
                }
            }
            r.push(ev);
        }
        let ghost imgs = image_events(s, i as int);
        if let Some(pb) = find_pair(b, i, ce, 33, 91) {
            if let Some(q) = find_pair(b, pb + 2, ce, 93, 40) {
                let dl: usize = q + 2;
                let dh: usize = skip_dest(b, dl, ce);
                let ev = MdEvent::Image { src: pb, line_start: i, dest_lo: dl, dest_hi: dh };
                proof {
                    assert(ev_wf(s, ev)) by {
                        assert(s[q as int + 1] == 40);
                        assert(ce == s.len() || s[ce as int] < 0x80);
                    }
                }
                r.push(ev);
                proof {
                    assert(imgs =~= seq![ev]);
                }
            } else {
                proof {
                    assert(imgs =~= Seq::<MdEvent>::empty());
                }
            }
        } else {
            proof {
                assert(imgs =~= Seq::<MdEvent>::empty());
            }
        }
        np = true;
        nl = false;
        proof {
            lemma_step_text(s, i as int, in_para, in_list);
            assert(r@.skip(r0.len() as int) =~= blockev + imgs);
        }
    }
    proof {
        if e >= n {
            assert(scan_from(s, e + 1, np, nl) =~= Seq::<MdEvent>::empty()) by {
                reveal(scan_from);
            }
            assert(scan_from(s, n as int, np, nl) =~= Seq::<MdEvent>::empty()) by {
                reveal(scan_from);
            }
        }
        assert(scan_from(s, i as int, in_para, in_list) == r@.skip(r0.len() as int) + scan_from(
            s,
            next as int,
            np,
            nl,
        ));
    }
    (next, np, nl)
}

/// Scan the whole buffer for the block constructs that anchor injection
/// reacts to, in document order.
#[verifier::rlimit(100)]
#[verifier::spinoff_prover]
pub fn scan_events(b: &[u8]) -> (r: Vec<MdEvent>)
    ensures
        r@ == scanned(b@),
        forall|k: int| 0 <= k < r@.len() ==> ev_wf(b@, #[trigger] r@[k]),
        forall|k1: int, k2: int|
            0 <= k1 < k2 < r@.len() ==> ev_ins_off(#[trigger] r@[k1]) <= ev_ins_off(
                #[trigger] r@[k2],
            ),
{
    let ghost s = b@;
    let n: usize = b.len();
    let mut r: Vec<MdEvent> = Vec::new();
    let mut i: usize = 0;
    let mut in_para: bool = false;
    let mut in_list: bool = false;
    proof {
        assert(r@ + scan_from(s, 0, false, false) =~= scan_from(s, 0, false, false));
    }
    while i < n
        invariant
            s == b@,
            n == s.len(),
            i <= n,
            i == 0 || i == n || s[i as int - 1] == NL,
            scanned(s) == r@ + scan_from(s, i as int, in_para, in_list),
            forall|k: int| 0 <= k < r@.len() ==> ev_wf(s, #[trigger] r@[k]),
            forall|k: int| 0 <= k < r@.len() ==> ev_ins_off(#[trigger] r@[k]) <= i as int,
            forall|k1: int, k2: int|
                0 <= k1 < k2 < r@.len() ==> ev_ins_off(#[trigger] r@[k1]) <= ev_ins_off(
                    #[trigger] r@[k2],
                ),
        decreases n - i,
    {
        let e: usize = find_line_end(b, i);
        proof {
            lemma_line_end_at_props(s, i as int);
        }
        let ce: usize = if e > i && b[e - 1] == CR {
            e - 1
        } else {
            e
        };
        proof {
            assert(ce == content_end_at(s, i as int));
        }
        let w: usize = skip_ws(b, i, ce);
        let ghost tail0 = scan_from(s, i as int, in_para, in_list);
        let mut next: usize = if e < n {
            e + 1
        } else {
            n
        };
        let mut np: bool = false;
        let mut nl: bool = false;
        if w == ce {
            // blank line
            nl = in_list;
            proof {
                assert(is_blank_line(s, i as int, ce as int));
                lemma_step_blank(s, i as int, in_para, in_list);
                assert(tail0 == scan_from(s, e + 1, false, in_list));
            }
        } else if b[w] == PIPE || b[w] == GT {
            proof {
                assert(!is_blank_line(s, i as int, ce as int)) by {
                    lemma_ws_skip_props(s, i as int, ce as int);
                }
                assert(is_table_line(s, i as int, ce as int) || is_quote_line(
                    s,
                    i as int,
                    ce as int,
                ));
                lemma_step_special(s, i as int, in_para, in_list);
                assert(tail0 == scan_from(s, e + 1, false, false));
            }
        } else {
            let ghost r0 = r@;
            let res = scan_block_line(b, &mut r, i, e, ce, w, in_para, in_list);
            next = res.0;
            np = res.1;
            nl = res.2;
            proof {
                assert(r@ =~= r0 + r@.skip(r0.len() as int));
                assert(scanned(s) =~= r@ + scan_from(s, next as int, np, nl));
            }
        }
        proof {
            if e >= n {
                assert(scan_from(s, e + 1, np, nl) =~= Seq::<MdEvent>::empty()) by {
                    reveal(scan_from);
                }
                assert(scan_from(s, n as int, np, nl) =~= Seq::<MdEvent>::empty()) by {
                    reveal(scan_from);
                }
            }
            assert(scanned(s) == r@ + scan_from(s, next as int, np, nl));
            assert(next > i);
        }
        i = next;
        in_para = np;
        in_list = nl;
    }
    proof {
        assert(scan_from(s, i as int, in_para, in_list) =~= Seq::<MdEvent>::empty()) by {
            reveal(scan_from);
        }
        assert(scanned(s) =~= r@);
    }
    r
}

} // verus!
