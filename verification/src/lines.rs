//! Line structure of a byte buffer: line boundaries, whitespace skipping,
//! and the line classifications shared by the rewrite passes.

use vstd::prelude::*;

verus! {

use crate::types::{NL, line_start_at};

/// Carriage-return byte (`\r`).
pub const CR: u8 = 13;

/// ASCII whitespace, matching the ASCII range of `char::is_whitespace`.
pub open spec fn is_ascii_ws(b: u8) -> bool {
    b == 32 || (9 <= b && b <= 13)
}

/// First position in `[i, e)` that does not hold ASCII whitespace, or `e`.
pub open spec fn ws_skip(s: Seq<u8>, i: int, e: int) -> int
    decreases e - i,
{
    if i < 0 || i >= e || e > s.len() || !is_ascii_ws(s[i]) {
        i
    } else {
        ws_skip(s, i + 1, e)
    }
}

/// End of the line containing position `i`: the first newline at or after
/// `i`, or the end of the buffer.
pub open spec fn line_end_at(s: Seq<u8>, i: int) -> int
    decreases s.len() - i,
{
    if i < 0 || i >= s.len() {
        s.len() as int
    } else if s[i] == NL {
        i
    } else {
        line_end_at(s, i + 1)
    }
}

/// End of the line's content: the line end, less a trailing carriage
/// return if one is present.
pub open spec fn content_end_at(s: Seq<u8>, i: int) -> int {
    let e = line_end_at(s, i);
    if e > i && s[e - 1] == CR {
        e - 1
    } else {
        e
    }
}

/// A table-row line: its first non-whitespace byte is `|`.
pub open spec fn is_table_line(s: Seq<u8>, i: int, e: int) -> bool {
    let w = ws_skip(s, i, e);
    w < e && s[w] == 124
}

/// A blank line: nothing but whitespace.
pub open spec fn is_blank_line(s: Seq<u8>, i: int, e: int) -> bool {
    ws_skip(s, i, e) == e
}

pub proof fn lemma_ws_skip_bounds(s: Seq<u8>, i: int, e: int)
    requires
        0 <= i <= e <= s.len(),
    ensures
        i <= ws_skip(s, i, e) <= e,
    decreases e - i,
{
    if i < e && is_ascii_ws(s[i]) {
        lemma_ws_skip_bounds(s, i + 1, e);
    }
}

pub proof fn lemma_ws_skip_props(s: Seq<u8>, i: int, e: int)
    requires
        0 <= i <= e <= s.len(),
    ensures
        i <= ws_skip(s, i, e) <= e,
        forall|k: int| i <= k < ws_skip(s, i, e) ==> is_ascii_ws(s[k]),
        ws_skip(s, i, e) < e ==> !is_ascii_ws(s[ws_skip(s, i, e)]),
    decreases e - i,
{
    if i < e && is_ascii_ws(s[i]) {
        lemma_ws_skip_props(s, i + 1, e);
    }
}

/// One past the last non-whitespace byte in `[a, b)`, or `a`.
pub open spec fn rws_skip(s: Seq<u8>, a: int, b: int) -> int
    decreases b - a,
{
    if b <= a || a < 0 || b > s.len() || !is_ascii_ws(s[b - 1]) {
        b
    } else {
        rws_skip(s, a, b - 1)
    }
}

pub proof fn lemma_rws_skip_props(s: Seq<u8>, a: int, b: int)
    requires
        0 <= a <= b <= s.len(),
    ensures
        a <= rws_skip(s, a, b) <= b,
        forall|k: int| rws_skip(s, a, b) <= k < b ==> is_ascii_ws(s[k]),
        rws_skip(s, a, b) > a ==> !is_ascii_ws(s[rws_skip(s, a, b) - 1]),
    decreases b - a,
{
    if b > a && is_ascii_ws(s[b - 1]) {
        lemma_rws_skip_props(s, a, b - 1);
    }
}

/// Trim trailing ASCII whitespace within `[a, b)`.
pub fn skip_ws_rev(bs: &[u8], a: usize, b: usize) -> (r: usize)
    requires
        a <= b <= bs@.len(),
    ensures
        r == rws_skip(bs@, a as int, b as int),
        a <= r <= b,
{
    let mut r: usize = b;
    while r > a && is_ws_byte(bs[r - 1])
        invariant
            a <= r <= b <= bs@.len(),
            rws_skip(bs@, a as int, b as int) == rws_skip(bs@, a as int, r as int),
        decreases r,
    {
        r = r - 1;
    }
    r
}

/// First occurrence of byte `c` in `[a, b)`, or `-1`.
pub open spec fn find_byte(s: Seq<u8>, a: int, b: int, c: u8) -> int
    decreases b - a,
{
    if a < 0 || a >= b || b > s.len() {
        -1
    } else if s[a] == c {
        a
    } else {
        find_byte(s, a + 1, b, c)
    }
}

pub proof fn lemma_find_byte_props(s: Seq<u8>, a: int, b: int, c: u8)
    requires
        0 <= a <= b <= s.len(),
    ensures
        find_byte(s, a, b, c) == -1 ==> forall|k: int| a <= k < b ==> s[k] != c,
        find_byte(s, a, b, c) != -1 ==> a <= find_byte(s, a, b, c) < b && s[find_byte(
            s,
            a,
            b,
            c,
        )] == c && forall|k: int| a <= k < find_byte(s, a, b, c) ==> s[k] != c,
    decreases b - a,
{
    if a < b && s[a] != c {
        lemma_find_byte_props(s, a + 1, b, c);
    }
}

/// Find the first occurrence of byte `c` within `[a, b)`.
pub fn find_byte_in(bs: &[u8], a: usize, b: usize, c: u8) -> (r: Option<usize>)
    requires
        a <= b <= bs@.len(),
    ensures
        match r {
            Some(p) => find_byte(bs@, a as int, b as int, c) == p && a <= p < b,
            None => find_byte(bs@, a as int, b as int, c) == -1,
        },
{
    let mut p: usize = a;
    while p < b && bs[p] != c
        invariant
            a <= p <= b <= bs@.len(),
            find_byte(bs@, a as int, b as int, c) == find_byte(bs@, p as int, b as int, c),
        decreases b - p,
    {
        p = p + 1;
    }
    if p < b {
        Some(p)
    } else {
        None
    }
}

pub proof fn lemma_line_end_at_props(s: Seq<u8>, i: int)
    requires
        0 <= i <= s.len(),
    ensures
        i <= line_end_at(s, i) <= s.len(),
        line_end_at(s, i) < s.len() ==> s[line_end_at(s, i)] == NL,
        forall|k: int| i <= k < line_end_at(s, i) ==> s[k] != NL,
    decreases s.len() - i,
{
    if i < s.len() && s[i] != NL {
        lemma_line_end_at_props(s, i + 1);
    }
}

/// Whether `b` is ASCII whitespace.
pub fn is_ws_byte(b: u8) -> (r: bool)
    ensures
        r == is_ascii_ws(b),
{
    b == 32 || (9 <= b && b <= 13)
}

/// Find the end of the line containing position `i`.
pub fn find_line_end(b: &[u8], i: usize) -> (e: usize)
    requires
        i <= b@.len(),
    ensures
        e == line_end_at(b@, i as int),
        i <= e <= b@.len(),
{
    let n: usize = b.len();
    let mut e: usize = i;
    while e < n && b[e] != NL
        invariant
            i <= e <= n,
            n == b@.len(),
            line_end_at(b@, i as int) == line_end_at(b@, e as int),
        decreases n - e,
    {
        e = e + 1;
    }
    proof {
        lemma_line_end_at_props(b@, i as int);
    }
    e
}

/// Find the start of the line containing position `i`.
pub fn find_line_start(b: &[u8], i: usize) -> (r: usize)
    requires
        i <= b@.len(),
    ensures
        r == line_start_at(b@, i as int),
        r <= i,
        r == 0 || b@[r as int - 1] == NL,
{
    let mut p: usize = i;
    while p > 0 && b[p - 1] != NL
        invariant
            p <= i <= b@.len(),
            line_start_at(b@, i as int) == line_start_at(b@, p as int),
        decreases p,
    {
        p = p - 1;
    }
    p
}

/// Skip ASCII whitespace within `[i, e)`.
pub fn skip_ws(b: &[u8], i: usize, e: usize) -> (w: usize)
    requires
        i <= e <= b@.len(),
    ensures
        w == ws_skip(b@, i as int, e as int),
        i <= w <= e,
{
    let mut w: usize = i;
    while w < e && is_ws_byte(b[w])
        invariant
            i <= w <= e <= b@.len(),
            ws_skip(b@, i as int, e as int) == ws_skip(b@, w as int, e as int),
        decreases e - w,
    {
        w = w + 1;
    }
    w
}

} // verus!
