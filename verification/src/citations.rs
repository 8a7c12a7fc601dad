//! Rewriting of bracketed citation groups `[@key]` into the render
//! engine's citation calls, wrapped in the invisible comment envelope.

use vstd::prelude::*;

verus! {

use vstd::string::StringSliceAdditionalSpecFns;
use vstd::utf8::{encode_utf8, valid_utf8, encode_utf8_valid_utf8, valid_utf8_concat,
    decode_utf8_encode_utf8};
use crate::lines::{
    is_ascii_ws, ws_skip, rws_skip, find_byte, lemma_ws_skip_props, lemma_rws_skip_props,
    lemma_find_byte_props, skip_ws, skip_ws_rev, find_byte_in,
};
use crate::bytestr::{
    append_slice_range, append_str_bytes, lemma_valid_ascii_singleton,
    lemma_valid_subrange_ascii_any, string_from_utf8,
};

/// `[` starts a citation group.
pub const LBRACK: u8 = 91;

/// `@` introduces a citation key.
pub const AT: u8 = 64;

/// `]` closes a citation group.
pub const RBRACK: u8 = 93;

/// `;` separates entries of one group.
pub const SEMI: u8 = 59;

/// `,` separates a key from its supplement.
pub const COMMA: u8 = 44;

/// A space joins consecutive citation calls.
pub const SP: u8 = 32;

/// Opening of the invisible comment envelope.
pub open spec fn raw_open() -> Seq<u8> {
    encode_utf8("<!--raw-typst "@)
}

/// Closing of the invisible comment envelope.
pub open spec fn raw_close() -> Seq<u8> {
    encode_utf8(" -->"@)
}

/// Opening of one citation call.
pub open spec fn cite_open() -> Seq<u8> {
    encode_utf8("#cite(<"@)
}

/// Closing of a plain citation call.
pub open spec fn cite_close() -> Seq<u8> {
    encode_utf8(">)"@)
}

/// Between a key and its supplement.
pub open spec fn supp_mid() -> Seq<u8> {
    encode_utf8(">, supplement: ["@)
}

/// Closing of a citation call carrying a supplement.
pub open spec fn supp_end() -> Seq<u8> {
    encode_utf8("])"@)
}

/// Skip leading `@` bytes in `[a, b)`.
pub open spec fn strip_ats(s: Seq<u8>, a: int, b: int) -> int
    decreases b - a,
{
    if 0 <= a && a < b && b <= s.len() && s[a] == AT {
        strip_ats(s, a + 1, b)
    } else {
        a
    }
}

/// Start of the key inside segment `[a, e)`: whitespace trimmed on both
/// sides, then leading `@` bytes dropped.
pub open spec fn key_lo(s: Seq<u8>, a: int, e: int) -> int {
    strip_ats(s, ws_skip(s, a, e), rws_skip(s, ws_skip(s, a, e), e))
}

/// End of the key inside segment `[a, e)`.
pub open spec fn key_hi(s: Seq<u8>, a: int, e: int) -> int {
    rws_skip(s, ws_skip(s, a, e), e)
}

/// Whether some semicolon-separated entry of `[a, b)` yields a non-empty
/// key.
pub open spec fn semi_has_key(s: Seq<u8>, a: int, b: int) -> bool
    decreases b - a,
    via semi_has_key_dec
{
    let m = find_byte(s, a, b, SEMI);
    let e = if m < 0 {
        b
    } else {
        m
    };
    let has = key_lo(s, a, e) < key_hi(s, a, e);
    if m < 0 {
        has
    } else {
        has || semi_has_key(s, m + 1, b)
    }
}

#[via_fn]
proof fn semi_has_key_dec(s: Seq<u8>, a: int, b: int) {
    if 0 <= a && a <= b && b <= s.len() {
        lemma_find_byte_props(s, a, b, SEMI);
    }
}

/// The concatenated citation calls for the semicolon-separated entries of
/// `[a, b)`, space-joined; `any` says whether a call was already written.
pub open spec fn semi_calls(s: Seq<u8>, a: int, b: int, any: bool) -> Seq<u8>
    decreases b - a,
    via semi_calls_dec
{
    let m = find_byte(s, a, b, SEMI);
    let e = if m < 0 {
        b
    } else {
        m
    };
    let k = key_lo(s, a, e);
    let r = key_hi(s, a, e);
    let this = if k < r {
        (if any {
            seq![SP]
        } else {
            Seq::<u8>::empty()
        }) + cite_open() + s.subrange(k, r) + cite_close()
    } else {
        Seq::<u8>::empty()
    };
    let any2 = any || k < r;
    if m < 0 {
        this
    } else {
        this + semi_calls(s, m + 1, b, any2)
    }
}

#[via_fn]
proof fn semi_calls_dec(s: Seq<u8>, a: int, b: int, any: bool) {
    if 0 <= a && a <= b && b <= s.len() {
        lemma_find_byte_props(s, a, b, SEMI);
    }
}

/// The rewriting of the group `s[i..j]` (where `s[i] == '['`, `s[i+1] ==
/// '@'` and `s[j] == ']'`): semicolon entries become space-joined calls, a
/// comma splits key from supplement, and a group whose key comes up empty
/// is kept as written.
pub open spec fn replacement(s: Seq<u8>, i: int, j: int) -> Seq<u8> {
    let a = i + 2;
    if find_byte(s, a, j, SEMI) >= 0 {
        if semi_has_key(s, a, j) {
            raw_open() + semi_calls(s, a, j, false) + raw_close()
        } else {
            s.subrange(i, j + 1)
        }
    } else if find_byte(s, a, j, COMMA) >= 0 {
        let m = find_byte(s, a, j, COMMA);
        let k = key_lo(s, a, m);
        let r = key_hi(s, a, m);
        if k < r {
            let sl = ws_skip(s, m + 1, j);
            let sr = rws_skip(s, sl, j);
            raw_open() + cite_open() + s.subrange(k, r) + supp_mid() + s.subrange(sl, sr)
                + supp_end() + raw_close()
        } else {
            s.subrange(i, j + 1)
        }
    } else {
        let k = key_lo(s, a, j);
        let r = key_hi(s, a, j);
        if k < r {
            raw_open() + cite_open() + s.subrange(k, r) + cite_close() + raw_close()
        } else {
            s.subrange(i, j + 1)
        }
    }
}

/// Whether a citation group opens at position `k`: `[@` followed by
/// content and a closing bracket.
pub open spec fn group_at(s: Seq<u8>, k: int) -> bool {
    &&& 0 <= k
    &&& k + 1 < s.len()
    &&& s[k] == LBRACK
    &&& s[k + 1] == AT
    &&& find_byte(s, k + 2, s.len() as int, RBRACK) >= k + 3
}

/// The citation rewriting of the suffix of `s` from position `i` on.
pub open spec fn cited_from(s: Seq<u8>, i: int) -> Seq<u8>
    decreases s.len() - i,
    via cited_from_dec
{
    if i < 0 || i >= s.len() {
        Seq::<u8>::empty()
    } else if group_at(s, i) {
        let j = find_byte(s, i + 2, s.len() as int, RBRACK);
        replacement(s, i, j) + cited_from(s, j + 1)
    } else {
        seq![s[i]] + cited_from(s, i + 1)
    }
}

#[via_fn]
proof fn cited_from_dec(s: Seq<u8>, i: int) {
    if 0 <= i && i < s.len() && group_at(s, i) {
        lemma_find_byte_props(s, i + 2, s.len() as int, RBRACK);
    }
}

/// Over a group-free stretch the rewriting copies the bytes unchanged.
proof fn lemma_cited_skip(s: Seq<u8>, i: int, g: int)
    requires
        0 <= i <= g <= s.len(),
        forall|k: int| i <= k < g ==> !group_at(s, k),
    ensures
        cited_from(s, i) == s.subrange(i, g) + cited_from(s, g),
    decreases g - i,
{
    if i < g {
        lemma_cited_skip(s, i + 1, g);
        assert(s.subrange(i, g) =~= seq![s[i]] + s.subrange(i + 1, g));
        assert(cited_from(s, i) =~= s.subrange(i, g) + cited_from(s, g));
    } else {
        assert(s.subrange(i, g) =~= Seq::<u8>::empty());
        assert(cited_from(s, i) =~= s.subrange(i, g) + cited_from(s, i));
    }
}

/// The citation rewriting of a whole buffer.
pub open spec fn cited_bytes(s: Seq<u8>) -> Seq<u8> {
    cited_from(s, 0)
}

/// The key byte range of segment `[a, e)`, with the facts the rewriting
/// needs about its surroundings.
#[verifier::loop_isolation(false)]
fn segment_key(b: &[u8], a: usize, e: usize) -> (kr: (usize, usize))
    requires
        a <= e <= b@.len(),
        a == 0 || b@[a as int - 1] < 0x80,
    ensures
        kr.0 == key_lo(b@, a as int, e as int),
        kr.1 == key_hi(b@, a as int, e as int),
        a <= kr.0 <= kr.1 <= e,
        kr.0 == 0 || b@[kr.0 - 1] < 0x80,
        kr.0 < kr.1 ==> kr.1 == e || b@[kr.1 as int] < 0x80,
{
    let l: usize = skip_ws(b, a, e);
    let r: usize = skip_ws_rev(b, l, e);
    let mut k: usize = l;
    proof {
        lemma_ws_skip_props(b@, a as int, e as int);
        lemma_rws_skip_props(b@, l as int, e as int);
    }
    while k < r && b[k] == AT
        invariant
            l <= k <= r,
            strip_ats(b@, l as int, r as int) == strip_ats(b@, k as int, r as int),
            forall|kk: int| l <= kk < k ==> b@[kk] == AT,
        decreases r - k,
    {
        k = k + 1;
    }
    proof {
        if k > l {
            assert(b@[k as int - 1] == AT);
        } else if l > a {
            assert(is_ascii_ws(b@[l as int - 1]));
        }
        if k < r && r < e {
            assert(is_ascii_ws(b@[r as int]));
        }
    }
    (k, r)
}

/// Append the space-joined citation calls for a group holding a
/// semicolon, or the group unchanged when no entry has a key.
#[verifier::rlimit(100)]
#[verifier::loop_isolation(false)]
fn append_semi_group(out: &mut Vec<u8>, b: &[u8], i: usize, j: usize)
    requires
        i + 2 < j < b@.len(),
        j < usize::MAX,
        b@[i as int] == LBRACK,
        b@[i as int + 1] == AT,
        b@[j as int] == RBRACK,
        find_byte(b@, i + 2, j as int, SEMI) >= 0,
        valid_utf8(b@),
        valid_utf8(old(out)@),
    ensures
        final(out)@ == old(out)@ + replacement(b@, i as int, j as int),
        valid_utf8(final(out)@),
{
    broadcast use encode_utf8_valid_utf8;

    let ghost s = b@;
    let a: usize = i + 2;
    // first pass: does any entry carry a key?
    let mut p: usize = a;
    let mut found_key: bool = false;
    let mut done: bool = false;
    while !done
        invariant
            a <= p <= j,
            p == a || s[p as int - 1] == SEMI,
            !done ==> semi_has_key(s, a as int, j as int) == (found_key || semi_has_key(
                s,
                p as int,
                j as int,
            )),
            done ==> semi_has_key(s, a as int, j as int) == found_key,
        decreases j - p + (if done {
            0int
        } else {
            1int
        }),
    {
        let m = find_byte_in(b, p, j, SEMI);
        proof {
            lemma_find_byte_props(s, p as int, j as int, SEMI);
        }
        let e: usize = match m {
            Some(mm) => mm,
            None => j,
        };
        let kr = segment_key(b, p, e);
        found_key = found_key || kr.0 < kr.1;
        match m {
            Some(mm) => {
                p = mm + 1;
            },
            None => {
                done = true;
            },
        }
    }
    if !found_key {
        let ghost out0 = out@;
        append_slice_range(out, b, i, j + 1);
        proof {
            lemma_valid_subrange_ascii_any(s, i as int, j + 1);
            valid_utf8_concat(out0, s.subrange(i as int, j + 1));
            assert(replacement(s, i as int, j as int) == s.subrange(i as int, j + 1));
        }
    } else {
        let ghost out0 = out@;
        append_str_bytes(out, "<!--raw-typst ");
        proof {
            valid_utf8_concat(out0, raw_open());
        }
        let mut p: usize = a;
        let mut any: bool = false;
        let mut done: bool = false;
        while !done
            invariant
                a <= p <= j,
                valid_utf8(out@),
                p == a || s[p as int - 1] == SEMI,
                !done ==> out0 + raw_open() + semi_calls(s, a as int, j as int, false) == out@
                    + semi_calls(s, p as int, j as int, any),
                done ==> out@ == out0 + raw_open() + semi_calls(s, a as int, j as int, false),
            decreases j - p + (if done {
                0int
            } else {
                1int
            }),
        {
            let m = find_byte_in(b, p, j, SEMI);
            proof {
                lemma_find_byte_props(s, p as int, j as int, SEMI);
            }
            let e: usize = match m {
                Some(mm) => mm,
                None => j,
            };
            let kr = segment_key(b, p, e);
            let ghost out1 = out@;
            let ghost this = if kr.0 < kr.1 {
                (if any {
                    seq![SP]
                } else {
                    Seq::<u8>::empty()
                }) + cite_open() + s.subrange(kr.0 as int, kr.1 as int) + cite_close()
            } else {
                Seq::<u8>::empty()
            };
            if kr.0 < kr.1 {
                if any {
                    out.push(SP);
                }
                append_str_bytes(out, "#cite(<");
                append_slice_range(out, b, kr.0, kr.1);
                append_str_bytes(out, ">)");
                proof {
                    assert(kr.1 == e || s[kr.1 as int] < 0x80);
                    lemma_valid_ascii_singleton(SP);
                    lemma_valid_subrange_ascii_any(s, kr.0 as int, kr.1 as int);
                    assert(valid_utf8(Seq::<u8>::empty()));
                    let sepp: Seq<u8> = if any {
                        seq![SP]
                    } else {
                        Seq::<u8>::empty()
                    };
                    let key = s.subrange(kr.0 as int, kr.1 as int);
                    valid_utf8_concat(out1, sepp);
                    valid_utf8_concat(out1 + sepp, cite_open());
                    valid_utf8_concat(out1 + sepp + cite_open(), key);
                    valid_utf8_concat(out1 + sepp + cite_open() + key, cite_close());
                    assert(out@ =~= out1 + sepp + cite_open() + key + cite_close());
                    assert(out@ =~= out1 + this);
                }
            } else {
                proof {
                    assert(out@ =~= out1 + this);
                }
            }
            let new_any: bool = any || kr.0 < kr.1;
            match m {
                Some(mm) => {
                    proof {
                        assert(semi_calls(s, p as int, j as int, any) == this + semi_calls(
                            s,
                            mm + 1,
                            j as int,
                            new_any,
                        ));
                    }
                    p = mm + 1;
                },
                None => {
                    proof {
                        assert(semi_calls(s, p as int, j as int, any) == this);
                    }
                    done = true;
                },
            }
            any = new_any;
        }
        let ghost out2 = out@;
        append_str_bytes(out, " -->");
        proof {
            valid_utf8_concat(out2, raw_close());
            assert(out@ =~= out0 + (raw_open() + semi_calls(s, a as int, j as int, false)
                + raw_close()));
        }
    }
}

/// Append the rewriting of the group `b[i..=j]`.
#[verifier::rlimit(100)]
fn append_replacement(out: &mut Vec<u8>, b: &[u8], i: usize, j: usize)
    requires
        i + 2 < j < b@.len(),
        j < usize::MAX,
        b@[i as int] == LBRACK,
        b@[i as int + 1] == AT,
        b@[j as int] == RBRACK,
        valid_utf8(b@),
        valid_utf8(old(out)@),
    ensures
        final(out)@ == old(out)@ + replacement(b@, i as int, j as int),
        valid_utf8(final(out)@),
{
    broadcast use encode_utf8_valid_utf8;

    let ghost s = b@;
    let a: usize = i + 2;
    let semi = find_byte_in(b, a, j, SEMI);
    if semi.is_some() {
        append_semi_group(out, b, i, j);
        return ;
    }
    proof {
        lemma_find_byte_props(s, a as int, j as int, SEMI);
    }
    let comma = find_byte_in(b, a, j, COMMA);
    match comma {
        Some(m) => {
            proof {
                lemma_find_byte_props(s, a as int, j as int, COMMA);
            }
            let kr = segment_key(b, a, m);
            if kr.0 < kr.1 {
                let sl: usize = skip_ws(b, m + 1, j);
                let sr: usize = skip_ws_rev(b, sl, j);
                let ghost out0 = out@;
                append_str_bytes(out, "<!--raw-typst ");
                append_str_bytes(out, "#cite(<");
                append_slice_range(out, b, kr.0, kr.1);
                append_str_bytes(out, ">, supplement: [");
                append_slice_range(out, b, sl, sr);
                append_str_bytes(out, "])");
                append_str_bytes(out, " -->");
                proof {
                    assert(kr.1 == m || s[kr.1 as int] < 0x80);
                    lemma_valid_subrange_ascii_any(s, kr.0 as int, kr.1 as int);
                    lemma_ws_skip_props(s, m + 1, j as int);
                    lemma_rws_skip_props(s, sl as int, j as int);
                    assert(sl == 0 || s[sl as int - 1] < 0x80);
                    assert(sr == s.len() || s[sr as int] < 0x80);
                    lemma_valid_subrange_ascii_any(s, sl as int, sr as int);
                    let key = s.subrange(kr.0 as int, kr.1 as int);
                    let sup = s.subrange(sl as int, sr as int);
                    valid_utf8_concat(out0, raw_open());
                    valid_utf8_concat(out0 + raw_open(), cite_open());
                    valid_utf8_concat(out0 + raw_open() + cite_open(), key);
                    valid_utf8_concat(out0 + raw_open() + cite_open() + key, supp_mid());
                    valid_utf8_concat(out0 + raw_open() + cite_open() + key + supp_mid(), sup);
                    valid_utf8_concat(
                        out0 + raw_open() + cite_open() + key + supp_mid() + sup,
                        supp_end(),
                    );
                    valid_utf8_concat(
                        out0 + raw_open() + cite_open() + key + supp_mid() + sup + supp_end(),
                        raw_close(),
                    );
                    assert(out@ =~= out0 + raw_open() + cite_open() + key + supp_mid() + sup
                        + supp_end() + raw_close());
                    assert(out@ =~= out0 + (raw_open() + cite_open() + key + supp_mid() + sup
                        + supp_end() + raw_close()));
                }
            } else {
                let ghost out0 = out@;
                append_slice_range(out, b, i, j + 1);
                proof {
                    lemma_valid_subrange_ascii_any(s, i as int, j + 1);
                    valid_utf8_concat(out0, s.subrange(i as int, j + 1));
                }
            }
        },
        None => {
            proof {
                lemma_find_byte_props(s, a as int, j as int, COMMA);
            }
            let kr = segment_key(b, a, j);
            if kr.0 < kr.1 {
                let ghost out0 = out@;
                append_str_bytes(out, "<!--raw-typst ");
                append_str_bytes(out, "#cite(<");
                append_slice_range(out, b, kr.0, kr.1);
                append_str_bytes(out, ">)");
                append_str_bytes(out, " -->");
                proof {
                    assert(kr.1 == j || s[kr.1 as int] < 0x80);
                    lemma_valid_subrange_ascii_any(s, kr.0 as int, kr.1 as int);
                    let key = s.subrange(kr.0 as int, kr.1 as int);
                    valid_utf8_concat(out0, raw_open());
                    valid_utf8_concat(out0 + raw_open(), cite_open());
                    valid_utf8_concat(out0 + raw_open() + cite_open(), key);
                    valid_utf8_concat(out0 + raw_open() + cite_open() + key, cite_close());
                    valid_utf8_concat(
                        out0 + raw_open() + cite_open() + key + cite_close(),
                        raw_close(),
                    );
                    assert(out@ =~= out0 + raw_open() + cite_open() + key + cite_close()
                        + raw_close());
                    assert(out@ =~= out0 + (raw_open() + cite_open() + key + cite_close()
                        + raw_close()));
                }
            } else {
                let ghost out0 = out@;
                append_slice_range(out, b, i, j + 1);
                proof {
                    lemma_valid_subrange_ascii_any(s, i as int, j + 1);
                    valid_utf8_concat(out0, s.subrange(i as int, j + 1));
                }
            }
        },
    }
}

/// Rewrite every bracketed citation group of `markdown` into the render
/// engine's citation-call syntax; groups without a usable key are kept as
/// written.
#[verifier::rlimit(100)]
#[verifier::loop_isolation(false)]
pub fn convert_citations(markdown: &str) -> (r: String)
    ensures
        encode_utf8(r@) == cited_bytes(markdown.spec_bytes()),
{
    broadcast use encode_utf8_valid_utf8, valid_utf8_concat, decode_utf8_encode_utf8;

    let ghost sb = markdown.spec_bytes();
    let b: &[u8] = markdown.as_bytes();
    let n: usize = b.len();
    let mut out: Vec<u8> = Vec::new();
    let mut i: usize = 0;
    proof {
        assert(out@ + cited_from(sb, 0) =~= cited_from(sb, 0));
    }
    while i < n
        invariant
            i <= n,
            n == sb.len(),
            b@ == sb,
            valid_utf8(sb),
            valid_utf8(out@),
            i == 0 || i == n || sb[i as int - 1] == RBRACK,
            cited_bytes(sb) == out@ + cited_from(sb, i as int),
        decreases n - i,
    {
        // scan for the next complete citation group
        let mut g: usize = i;
        let mut hit: Option<(usize, usize)> = None;
        while hit.is_none() && g < n
            invariant
                i <= g <= n,
                n == sb.len(),
                b@ == sb,
                forall|k: int| i <= k < g ==> !group_at(sb, k),
                match hit {
                    Some(p) => i <= p.0 == g && group_at(sb, p.0 as int) && p.1 == find_byte(
                        sb,
                        p.0 + 2,
                        n as int,
                        RBRACK,
                    ) && p.0 + 2 < p.1 < n && sb[p.1 as int] == RBRACK,
                    None => g <= n,
                },
            decreases n - g + (if hit.is_none() {
                1int
            } else {
                0int
            }),
        {
            match find_byte_in(b, g, n, LBRACK) {
                None => {
                    proof {
                        lemma_find_byte_props(sb, g as int, n as int, LBRACK);
                    }
                    g = n;
                },
                Some(p) => {
                    proof {
                        lemma_find_byte_props(sb, g as int, n as int, LBRACK);
                    }
                    let mut ok = false;
                    if p + 1 < n && b[p + 1] == AT {
                        if let Some(j) = find_byte_in(b, p + 2, n, RBRACK) {
                            if j > p + 2 {
                                proof {
                                    lemma_find_byte_props(sb, p + 2, n as int, RBRACK);
                                }
                                g = p;
                                hit = Some((p, j));
                                ok = true;
                            }
                        }
                    }
                    if !ok {
                        proof {
                            assert(!group_at(sb, p as int));
                        }
                        g = p + 1;
                    }
                },
            }
        }
        // copy the group-free stretch
        let ghost out0 = out@;
        append_slice_range(&mut out, b, i, g);
        proof {
            lemma_cited_skip(sb, i as int, g as int);
            if g < n {
                assert(sb[g as int] == LBRACK);
            }
            lemma_valid_subrange_ascii_any(sb, i as int, g as int);
            assert(cited_bytes(sb) =~= out@ + cited_from(sb, g as int));
        }
        match hit {
            Some(pj) => {
                append_replacement(&mut out, b, pj.0, pj.1);
                proof {
                    assert(cited_from(sb, pj.0 as int) == replacement(
                        sb,
                        pj.0 as int,
                        pj.1 as int,
                    ) + cited_from(sb, pj.1 + 1));
                    assert(cited_bytes(sb) =~= out@ + cited_from(sb, pj.1 + 1));
                }
                i = pj.1 + 1;
            },
            None => {
                proof {
                    assert(cited_from(sb, g as int) =~= Seq::<u8>::empty());
                }
                i = g;
            },
        }
    }
    proof {
        assert(cited_from(sb, i as int) =~= Seq::<u8>::empty());
        assert(cited_bytes(sb) =~= out@);
    }
    let r = string_from_utf8(out);
    r.unwrap()
}

} // verus!
