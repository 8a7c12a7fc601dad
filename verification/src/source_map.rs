//! Recovering rendered positions from the render engine's query output,
//! and joining them with the anchor list into the final source map.
//!
//! The query output's shape varies between engine versions, so the search
//! is deliberately tolerant: it looks for a string `label` field and then
//! for geometry under `location`, a `position`/`point`/`pos` object, or a
//! `rect` array, in that order. The search depth is capped.

use vstd::prelude::*;

verus! {

use vstd::string::{StringSliceAdditionalSpecFns, StringExecFns};
use crate::types::{AnchorMeta, EditorPosition, PdfPosition, AnchorEntry, SourceMapPayload};
use crate::bytestr::{str_chars, str_eq};

/// Why a position query cannot be used: its bytes are not a JSON document.
#[derive(Debug, Clone, Copy, PartialEq, Eq, Structural)]
pub enum QueryError {
    MalformedJson,
}

/// How deep the tolerant search descends into one report entry: matches
/// the parser's own recursion limit, so no parsed tree outruns it.
pub const SEARCH_DEPTH: u32 = 128;

/// A JSON document of unknown shape, with numbers carried as their
/// literal text.
pub enum JsonValue {
    Null,
    Bool(bool),
    Num(String),
    Str(String),
    Arr(Vec<JsonValue>),
    Obj(Vec<(String, JsonValue)>),
}

/// The JSON document parsed from the given bytes, when they form one; the
/// result depends on the bytes alone.
pub uninterp spec fn parsed_json(bytes: Seq<u8>) -> Option<JsonValue>;

#[verifier::external_type_specification]
#[verifier::external_body]
pub struct ExValue(serde_json::Value);

/// Converts a parsed JSON value into the library's tree, one variant at a
/// time; used only by [`parse_json`] below.
#[verifier::external_body]
fn value_to_tree(v: &serde_json::Value) -> JsonValue {
    match v {
        serde_json::Value::Null => JsonValue::Null,
        serde_json::Value::Bool(b) => JsonValue::Bool(*b),
        serde_json::Value::Number(n) => JsonValue::Num(n.to_string()),
        serde_json::Value::String(s) => JsonValue::Str(s.clone()),
        serde_json::Value::Array(a) => JsonValue::Arr(a.iter().map(value_to_tree).collect()),
        serde_json::Value::Object(o) => JsonValue::Obj(
            o.iter().map(|p| (p.0.clone(), value_to_tree(p.1))).collect(),
        ),
    }
}

/// Relies on `serde_json::from_slice`: parses the bytes as a JSON
/// document, or reports that they are not one.
#[verifier::external_body]
fn parse_json(bytes: &[u8]) -> (r: Option<JsonValue>)
    ensures
        r == parsed_json(bytes@),
{
    match serde_json::from_slice::<serde_json::Value>(bytes) {
        Ok(v) => Some(value_to_tree(&v)),
        Err(_) => None,
    }
}

/// First field of the object carrying the given key.
pub open spec fn obj_get(fs: Seq<(String, JsonValue)>, k: Seq<char>) -> Option<JsonValue>
    decreases fs.len(),
{
    if fs.len() == 0 {
        Option::<JsonValue>::None
    } else if fs[0].0@ == k {
        Some(fs[0].1)
    } else {
        obj_get(fs.drop_first(), k)
    }
}

/// The label recovered from a value, searching at most `fuel` levels deep:
/// a string-valued `label` field of the object itself, else the label of
/// its `value`, `target`, `node` or `fields` child, else the first label
/// among an array's elements.
pub open spec fn label_at(v: JsonValue, fuel: nat) -> Option<Seq<char>>
    decreases fuel, 1nat, 0int,
{
    if fuel == 0 {
        Option::<Seq<char>>::None
    } else {
        match v {
            JsonValue::Obj(fs) => {
                match obj_get(fs@, "label"@) {
                    Some(JsonValue::Str(s)) => Some(s@),
                    _ => {
                        let c1 = label_child(fs@, "value"@, (fuel - 1) as nat);
                        if c1 is Some {
                            c1
                        } else {
                            let c2 = label_child(fs@, "target"@, (fuel - 1) as nat);
                            if c2 is Some {
                                c2
                            } else {
                                let c3 = label_child(fs@, "node"@, (fuel - 1) as nat);
                                if c3 is Some {
                                    c3
                                } else {
                                    label_child(fs@, "fields"@, (fuel - 1) as nat)
                                }
                            }
                        }
                    },
                }
            },
            JsonValue::Arr(a) => label_arr(a@, 0, (fuel - 1) as nat),
            _ => Option::<Seq<char>>::None,
        }
    }
}

/// The label of the child under `k`, when there is one.
pub open spec fn label_child(fs: Seq<(String, JsonValue)>, k: Seq<char>, fuel: nat) -> Option<
    Seq<char>,
>
    decreases fuel, 2nat, 0int,
{
    match obj_get(fs, k) {
        Some(c) => label_at(c, fuel),
        None => Option::<Seq<char>>::None,
    }
}

/// The first label among the array elements from `i` on.
pub open spec fn label_arr(a: Seq<JsonValue>, i: int, fuel: nat) -> Option<Seq<char>>
    decreases fuel, 2nat, a.len() - i,
{
    if i < 0 || i >= a.len() {
        Option::<Seq<char>>::None
    } else {
        let h = label_at(a[i], fuel);
        if h is Some {
            h
        } else {
            label_arr(a, i + 1, fuel)
        }
    }
}

/// End of the digit run starting at `i`.
pub open spec fn digits_to(cs: Seq<char>, i: int) -> int
    decreases cs.len() - i,
{
    if i < 0 || i >= cs.len() || !('0' <= cs[i] && cs[i] <= '9') {
        i
    } else {
        digits_to(cs, i + 1)
    }
}

/// Whether the text is a plain floating-point literal: optional sign,
/// digits with an optional fraction, and an optional exponent.
pub open spec fn is_float_text(cs: Seq<char>) -> bool {
    let n = cs.len() as int;
    let i1: int = if n > 0 && (cs[0] == '+' || cs[0] == '-') {
        1
    } else {
        0
    };
    let d1 = digits_to(cs, i1);
    let has_int = d1 > i1;
    let i2: int = if d1 < n && cs[d1] == '.' {
        digits_to(cs, d1 + 1)
    } else {
        d1
    };
    let has_frac = d1 < n && cs[d1] == '.' && i2 > d1 + 1;
    let i3: int = if i2 < n && (cs[i2] == 'e' || cs[i2] == 'E') {
        let j: int = if i2 + 1 < n && (cs[i2 + 1] == '+' || cs[i2 + 1] == '-') {
            i2 + 2
        } else {
            i2 + 1
        };
        let d3 = digits_to(cs, j);
        if d3 > j {
            d3
        } else {
            i2
        }
    } else {
        i2
    };
    (has_int || has_frac) && i3 == n
}

/// Case-insensitive `inf`, `infinity` or `nan` after an optional sign,
/// the word forms a floating-point parse also accepts.
pub open spec fn is_special_float(cs: Seq<char>) -> bool {
    let st: int = if cs.len() > 0 && (cs[0] == '+' || cs[0] == '-') {
        1
    } else {
        0
    };
    let r = cs.skip(st);
    ||| (r.len() == 3 && (r[0] == 'i' || r[0] == 'I') && (r[1] == 'n' || r[1] == 'N') && (r[2]
        == 'f' || r[2] == 'F'))
    ||| (r.len() == 8 && (r[0] == 'i' || r[0] == 'I') && (r[1] == 'n' || r[1] == 'N') && (r[2]
        == 'f' || r[2] == 'F') && (r[3] == 'i' || r[3] == 'I') && (r[4] == 'n' || r[4] == 'N') && (
    r[5] == 'i' || r[5] == 'I') && (r[6] == 't' || r[6] == 'T') && (r[7] == 'y' || r[7] == 'Y'))
    ||| (r.len() == 3 && (r[0] == 'n' || r[0] == 'N') && (r[1] == 'a' || r[1] == 'A') && (r[2]
        == 'n' || r[2] == 'N'))
}

/// The coordinate text recovered from a field: a number's literal text, a
/// parsable string, and `0` for everything else.
pub open spec fn coord_of(v: Option<JsonValue>) -> Seq<char> {
    match v {
        Some(JsonValue::Num(s)) => s@,
        Some(JsonValue::Str(s)) => if is_float_text(s@) || is_special_float(s@) {
            s@
        } else {
            "0"@
        },
        _ => "0"@,
    }
}

/// The page number of an object: a non-negative integer `page` field,
/// numeric or held in a string (an optional plus sign allowed),
/// defaulting to one. Values with more than nineteen digits are treated
/// as unparsable.
pub open spec fn page_of(fs: Seq<(String, JsonValue)>) -> int {
    match obj_get(fs, "page"@) {
        Some(JsonValue::Num(s)) => page_digits(s@),
        Some(JsonValue::Str(s)) => page_digits(s@),
        _ => 1,
    }
}

/// The value of an all-digit page text after an optional plus sign, or
/// one.
pub open spec fn page_digits(cs: Seq<char>) -> int {
    let t = if cs.len() > 0 && cs[0] == '+' {
        cs.skip(1)
    } else {
        cs
    };
    if t.len() > 0 && t.len() <= 19 && digits_to(t, 0) == t.len() {
        digits_val(t, 0, 0)
    } else {
        1
    }
}

/// Decimal value of the digits from `i` on, accumulated onto `acc`.
pub open spec fn digits_val(cs: Seq<char>, i: int, acc: int) -> int
    decreases cs.len() - i,
{
    if i < 0 || i >= cs.len() {
        acc
    } else {
        digits_val(cs, i + 1, acc * 10 + (cs[i] as int - 48))
    }
}

/// The geometry carried directly by an object: a `page` with a
/// `position`, `point` or `pos` object holding `x` and `y`, or a `rect`
/// array whose first two elements are taken as x and y.
pub open spec fn page_xy_of(fs: Seq<(String, JsonValue)>) -> Option<(int, Seq<char>, Seq<char>)> {
    let page = (page_of(fs) as u64 as usize) as int;
    let pos = if obj_get(fs, "position"@) is Some {
        obj_get(fs, "position"@)
    } else if obj_get(fs, "point"@) is Some {
        obj_get(fs, "point"@)
    } else {
        obj_get(fs, "pos"@)
    };
    match pos {
        Some(JsonValue::Obj(pfs)) => Some(
            (page, coord_of(obj_get(pfs@, "x"@)), coord_of(obj_get(pfs@, "y"@))),
        ),
        _ => {
            match obj_get(fs, "rect"@) {
                Some(JsonValue::Arr(a)) => if a@.len() >= 2 {
                    Some((page, coord_of(Some(a@[0])), coord_of(Some(a@[1]))))
                } else {
                    Option::<(int, Seq<char>, Seq<char>)>::None
                },
                _ => Option::<(int, Seq<char>, Seq<char>)>::None,
            }
        },
    }
}

/// The geometry recovered from a value, searching at most `fuel` levels
/// deep: a `location` child's geometry, the object's own geometry, the
/// first geometry among its children, or among an array's elements.
pub open spec fn loc_at(v: JsonValue, fuel: nat) -> Option<(int, Seq<char>, Seq<char>)>
    decreases fuel, 1nat, 0int,
{
    if fuel == 0 {
        Option::<(int, Seq<char>, Seq<char>)>::None
    } else {
        match v {
            JsonValue::Obj(fs) => {
                let direct = match obj_get(fs@, "location"@) {
                    Some(JsonValue::Obj(lfs)) => page_xy_of(lfs@),
                    _ => Option::<(int, Seq<char>, Seq<char>)>::None,
                };
                if direct is Some {
                    direct
                } else {
                    let own = page_xy_of(fs@);
                    if own is Some {
                        own
                    } else {
                        loc_fields(fs@, 0, (fuel - 1) as nat)
                    }
                }
            },
            JsonValue::Arr(a) => loc_arr(a@, 0, (fuel - 1) as nat),
            _ => Option::<(int, Seq<char>, Seq<char>)>::None,
        }
    }
}

/// The first geometry among the field values from `i` on.
pub open spec fn loc_fields(fs: Seq<(String, JsonValue)>, i: int, fuel: nat) -> Option<
    (int, Seq<char>, Seq<char>),
>
    decreases fuel, 2nat, fs.len() - i,
{
    if i < 0 || i >= fs.len() {
        Option::<(int, Seq<char>, Seq<char>)>::None
    } else {
        let h = loc_at(fs[i].1, fuel);
        if h is Some {
            h
        } else {
            loc_fields(fs, i + 1, fuel)
        }
    }
}

/// The first geometry among the array elements from `i` on.
pub open spec fn loc_arr(a: Seq<JsonValue>, i: int, fuel: nat) -> Option<
    (int, Seq<char>, Seq<char>),
>
    decreases fuel, 2nat, a.len() - i,
{
    if i < 0 || i >= a.len() {
        Option::<(int, Seq<char>, Seq<char>)>::None
    } else {
        let h = loc_at(a[i], fuel);
        if h is Some {
            h
        } else {
            loc_arr(a, i + 1, fuel)
        }
    }
}


/// Look a key up among an object's fields.
fn obj_get_ref<'a>(fs: &'a Vec<(String, JsonValue)>, k: &str) -> (r: Option<&'a JsonValue>)
    ensures
        match r {
            Some(c) => obj_get(fs@, k@) == Some(*c),
            None => obj_get(fs@, k@) is None,
        },
{
    let mut i: usize = 0;
    proof {
        assert(fs@.skip(0) =~= fs@);
    }
    while i < fs.len()
        invariant
            i <= fs@.len(),
            obj_get(fs@, k@) == obj_get(fs@.skip(i as int), k@),
        decreases fs@.len() - i,
    {
        proof {
            assert(fs@.skip(i as int)[0] == fs@[i as int]);
            assert(fs@.skip(i as int).drop_first() =~= fs@.skip(i + 1));
        }
        if str_eq(fs[i].0.as_str(), k) {
            return Some(&fs[i].1);
        }
        i = i + 1;
    }
    proof {
        assert(fs@.skip(fs@.len() as int) =~= Seq::<(String, JsonValue)>::empty());
    }
    None
}

/// Recover the label of a value, searching at most `fuel` levels deep.
#[verifier::loop_isolation(false)]
fn find_label(v: &JsonValue, fuel: u32) -> (r: Option<String>)
    ensures
        match r {
            Some(l) => label_at(*v, fuel as nat) == Some(l@),
            None => label_at(*v, fuel as nat) is None,
        },
    decreases fuel, 1nat, 0int,
{
    if fuel == 0 {
        return None;
    }
    match v {
        JsonValue::Obj(fs) => {
            if let Some(c) = obj_get_ref(fs, "label") {
                if let JsonValue::Str(s) = c {
                    return Some(s.clone());
                }
            }
            let r1 = find_label_child(fs, "value", fuel - 1);
            if r1.is_some() {
                return r1;
            }
            let r2 = find_label_child(fs, "target", fuel - 1);
            if r2.is_some() {
                return r2;
            }
            let r3 = find_label_child(fs, "node", fuel - 1);
            if r3.is_some() {
                return r3;
            }
            find_label_child(fs, "fields", fuel - 1)
        },
        JsonValue::Arr(a) => {
            let mut i: usize = 0;
            while i < a.len()
                invariant
                    i <= a@.len(),
                    label_arr(a@, 0, (fuel - 1) as nat) == label_arr(a@, i as int, (fuel - 1) as nat),
                decreases a@.len() - i,
            {
                let h = find_label(&a[i], fuel - 1);
                if h.is_some() {
                    return h;
                }
                i = i + 1;
            }
            None
        },
        _ => None,
    }
}

/// Recover the label of the child under `k`.
fn find_label_child(fs: &Vec<(String, JsonValue)>, k: &str, fuel: u32) -> (r: Option<String>)
    ensures
        match r {
            Some(l) => label_child(fs@, k@, fuel as nat) == Some(l@),
            None => label_child(fs@, k@, fuel as nat) is None,
        },
    decreases fuel, 2nat, 0int,
{
    match obj_get_ref(fs, k) {
        Some(c) => find_label(c, fuel),
        None => None,
    }
}

/// Whether the characters form a plain floating-point literal.
fn float_text(cs: &Vec<char>) -> (r: bool)
    ensures
        r == is_float_text(cs@),
{
    let n: usize = cs.len();
    let mut i1: usize = 0;
    if n > 0 && (cs[0] == '+' || cs[0] == '-') {
        i1 = 1;
    }
    let d1: usize = digit_run(cs, i1);
    let has_int: bool = d1 > i1;
    let mut i2: usize = d1;
    let mut has_frac: bool = false;
    if d1 < n && cs[d1] == '.' {
        i2 = digit_run(cs, d1 + 1);
        has_frac = i2 > d1 + 1;
    }
    let mut i3: usize = i2;
    if i2 < n && (cs[i2] == 'e' || cs[i2] == 'E') {
        let j: usize = if i2 + 1 < n && (cs[i2 + 1] == '+' || cs[i2 + 1] == '-') {
            i2 + 2
        } else {
            i2 + 1
        };
        if j <= n {
            let d3: usize = digit_run(cs, j);
            if d3 > j {
                i3 = d3;
            }
        }
    }
    (has_int || has_frac) && i3 == n
}

/// Skip the digit run starting at `i`.
fn digit_run(cs: &Vec<char>, i: usize) -> (r: usize)
    ensures
        r == digits_to(cs@, i as int),
        i <= cs@.len() ==> i <= r <= cs@.len(),
        i > cs@.len() ==> r == i,
    decreases cs@.len() - i,
{
    let mut p: usize = i;
    while p < cs.len() && '0' <= cs[p] && cs[p] <= '9'
        invariant
            i <= p,
            p <= cs@.len() || p == i,
            digits_to(cs@, i as int) == digits_to(cs@, p as int),
        decreases cs@.len() - p,
    {
        p = p + 1;
    }
    p
}

/// Whether the characters spell an infinity or not-a-number word.
fn special_float(cs: &Vec<char>) -> (r: bool)
    ensures
        r == is_special_float(cs@),
{
    let n: usize = cs.len();
    let st: usize = if n > 0 && (cs[0] == '+' || cs[0] == '-') {
        1
    } else {
        0
    };
    proof {
        assert(forall|k: int| 0 <= k < cs@.skip(st as int).len() ==> #[trigger] cs@.skip(
            st as int,
        )[k] == cs@[k + st]);
    }
    if n == st + 3 {
        ((cs[st] == 'i' || cs[st] == 'I') && (cs[st + 1] == 'n' || cs[st + 1] == 'N') && (cs[st
            + 2] == 'f' || cs[st + 2] == 'F')) || ((cs[st] == 'n' || cs[st] == 'N') && (cs[st + 1]
            == 'a' || cs[st + 1] == 'A') && (cs[st + 2] == 'n' || cs[st + 2] == 'N'))
    } else if n == st + 8 {
        (cs[st] == 'i' || cs[st] == 'I') && (cs[st + 1] == 'n' || cs[st + 1] == 'N') && (cs[st + 2]
            == 'f' || cs[st + 2] == 'F') && (cs[st + 3] == 'i' || cs[st + 3] == 'I') && (cs[st + 4]
            == 'n' || cs[st + 4] == 'N') && (cs[st + 5] == 'i' || cs[st + 5] == 'I') && (cs[st + 6]
            == 't' || cs[st + 6] == 'T') && (cs[st + 7] == 'y' || cs[st + 7] == 'Y')
    } else {
        false
    }
}

/// The coordinate text of a field value.
fn coordinate_text(v: Option<&JsonValue>) -> (r: String)
    ensures
        r@ == coord_of(
            match v {
                Some(c) => Some(*c),
                None => None,
            },
        ),
{
    match v {
        Some(JsonValue::Num(s)) => s.clone(),
        Some(JsonValue::Str(s)) => {
            let cs = str_chars(s.as_str());
            if float_text(&cs) || special_float(&cs) {
                s.clone()
            } else {
                String::from_str("0")
            }
        },
        _ => String::from_str("0"),
    }
}

/// The page number of an object, defaulting to one.
fn object_page(fs: &Vec<(String, JsonValue)>) -> (r: u64)
    ensures
        r as int == page_of(fs@),
{
    let txt: Option<&String> = match obj_get_ref(fs, "page") {
        Some(JsonValue::Num(s)) => Some(s),
        Some(JsonValue::Str(s)) => Some(s),
        _ => None,
    };
    match txt {
        None => 1,
        Some(s) => {
            let cs_full = str_chars(s.as_str());
            let st: usize = if cs_full.len() > 0 && cs_full[0] == '+' {
                1
            } else {
                0
            };
            let mut cs: Vec<char> = Vec::new();
            let mut ii: usize = st;
            while ii < cs_full.len()
                invariant
                    st <= ii <= cs_full@.len(),
                    cs@ == cs_full@.subrange(st as int, ii as int),
                decreases cs_full@.len() - ii,
            {
                cs.push(cs_full[ii]);
                proof {
                    assert(cs_full@.subrange(st as int, ii + 1) =~= cs_full@.subrange(
                        st as int,
                        ii as int,
                    ).push(cs_full@[ii as int]));
                }
                ii = ii + 1;
            }
            proof {
                assert(cs@ =~= (if cs_full@.len() > 0 && cs_full@[0] == '+' {
                    cs_full@.skip(1)
                } else {
                    cs_full@
                }));
            }
            let n: usize = cs.len();
            let d: usize = digit_run(&cs, 0);
            if n > 0 && n <= 19 && d == n {
                let mut acc: u64 = 0;
                let mut i: usize = 0;
                proof {
                    assert(forall|k: int| 0 <= k < n ==> '0' <= #[trigger] cs@[k] <= '9') by {
                        lemma_digits_to_all(cs@, 0, n as int);
                    }
                }
                while i < n
                    invariant
                        i <= n,
                        n == cs@.len(),
                        n <= 19,
                        forall|k: int| 0 <= k < n ==> '0' <= #[trigger] cs@[k] <= '9',
                        acc as int == digits_val_partial(cs@, i as int),
                        (acc as int) < pow10(i as int),
                    decreases n - i,
                {
                    let c: char = cs[i];
                    let d0: u64 = (c as u32 as u64) - 48;
                    proof {
                        lemma_pow10_le(i as int, 18);
                        lemma_pow10_19();
                        assert(pow10(18) == 1000000000000000000) by {
                            reveal_with_fuel(pow10, 20);
                        }
                        assert(acc as int * 10 + d0 < pow10(i + 1));
                    }
                    acc = acc * 10 + d0;
                    i = i + 1;
                }
                proof {
                    lemma_digits_val_partial_total(cs@);
                }
                acc
            } else {
                1
            }
        },
    }
}

/// Value of the digits before position `i`.
pub open spec fn digits_val_partial(cs: Seq<char>, i: int) -> int
    decreases i,
{
    if i <= 0 {
        0
    } else {
        digits_val_partial(cs, i - 1) * 10 + (cs[i - 1] as int - 48)
    }
}

proof fn lemma_digits_to_all(cs: Seq<char>, i: int, e: int)
    requires
        0 <= i,
        digits_to(cs, i) == e,
        e <= cs.len(),
    ensures
        forall|k: int| i <= k < e ==> '0' <= #[trigger] cs[k] <= '9',
    decreases cs.len() - i,
{
    if i < cs.len() && '0' <= cs[i] && cs[i] <= '9' {
        lemma_digits_to_all(cs, i + 1, e);
    }
}

proof fn lemma_pow10_le(i: int, j: int)
    requires
        i <= j,
    ensures
        pow10(i) <= pow10(j),
        pow10(i) >= 1,
    decreases j - i + (if j >= 0 { j } else { 0 }),
{
    if i < j {
        lemma_pow10_le(i, j - 1);
    } else if i == j && j > 0 {
        lemma_pow10_le(i - 1, j - 1);
    }
}

/// Ten to the power `i`.
pub open spec fn pow10(i: int) -> int
    decreases i,
{
    if i <= 0 {
        1
    } else {
        10 * pow10(i - 1)
    }
}

proof fn lemma_pow10_19()
    ensures
        pow10(19) == 10000000000000000000,
    decreases 0int,
{
    reveal_with_fuel(pow10, 20);
}

proof fn lemma_digits_val_partial_total(cs: Seq<char>)
    ensures
        digits_val_partial(cs, cs.len() as int) == digits_val(cs, 0, 0),
{
    lemma_digits_val_shift(cs, 0);
}

proof fn lemma_digits_val_shift(cs: Seq<char>, i: int)
    requires
        0 <= i <= cs.len(),
    ensures
        digits_val(cs, i, digits_val_partial(cs, i)) == digits_val_partial(cs, cs.len() as int),
    decreases cs.len() - i,
{
    if i < cs.len() {
        lemma_digits_val_shift(cs, i + 1);
    }
}


/// Recover geometry directly carried by an object's fields.
fn object_page_xy(fs: &Vec<(String, JsonValue)>) -> (r: Option<PdfPosition>)
    ensures
        match r {
            Some(p) => page_xy_of(fs@) == Some((p.page as int, p.x@, p.y@)),
            None => page_xy_of(fs@) is None,
        },
{
    let page64: u64 = object_page(fs);
    #[verifier::truncate]
    let page: usize = page64 as usize;
    let pos: Option<&JsonValue> = match obj_get_ref(fs, "position") {
        Some(c) => Some(c),
        None => match obj_get_ref(fs, "point") {
            Some(c) => Some(c),
            None => obj_get_ref(fs, "pos"),
        },
    };
    match pos {
        Some(JsonValue::Obj(pfs)) => {
            let x = coordinate_text(obj_get_ref(pfs, "x"));
            let y = coordinate_text(obj_get_ref(pfs, "y"));
            Some(PdfPosition { page, x, y })
        },
        _ => {
            match obj_get_ref(fs, "rect") {
                Some(JsonValue::Arr(a)) => {
                    if a.len() >= 2 {
                        let x = coordinate_text(Some(&a[0]));
                        let y = coordinate_text(Some(&a[1]));
                        Some(PdfPosition { page, x, y })
                    } else {
                        None
                    }
                },
                _ => None,
            }
        },
    }
}

/// Recover the geometry of a value, searching at most `fuel` levels deep.
#[verifier::loop_isolation(false)]
fn find_location(v: &JsonValue, fuel: u32) -> (r: Option<PdfPosition>)
    ensures
        match r {
            Some(p) => loc_at(*v, fuel as nat) == Some((p.page as int, p.x@, p.y@)),
            None => loc_at(*v, fuel as nat) is None,
        },
    decreases fuel, 1nat, 0int,
{
    if fuel == 0 {
        return None;
    }
    match v {
        JsonValue::Obj(fs) => {
            if let Some(JsonValue::Obj(lfs)) = obj_get_ref(fs, "location") {
                let d = object_page_xy(lfs);
                if d.is_some() {
                    return d;
                }
            }
            let own = object_page_xy(fs);
            if own.is_some() {
                return own;
            }
            let mut i: usize = 0;
            while i < fs.len()
                invariant
                    i <= fs@.len(),
                    loc_fields(fs@, 0, (fuel - 1) as nat) == loc_fields(
                        fs@,
                        i as int,
                        (fuel - 1) as nat,
                    ),
                decreases fs@.len() - i,
            {
                let h = find_location(&fs[i].1, fuel - 1);
                if h.is_some() {
                    return h;
                }
                i = i + 1;
            }
            None
        },
        JsonValue::Arr(a) => {
            let mut i: usize = 0;
            while i < a.len()
                invariant
                    i <= a@.len(),
                    loc_arr(a@, 0, (fuel - 1) as nat) == loc_arr(a@, i as int, (fuel - 1) as nat),
                decreases a@.len() - i,
            {
                let h = find_location(&a[i], fuel - 1);
                if h.is_some() {
                    return h;
                }
                i = i + 1;
            }
            None
        },
        _ => None,
    }
}

/// Whether a label belongs to the synthetic anchor namespace.
pub open spec fn is_synthetic_label(cs: Seq<char>) -> bool {
    cs.len() >= 3 && cs[0] == 't' && cs[1] == 'f' && cs[2] == '-'
}

/// The model of one recovered position entry.
pub open spec fn pos_model(p: (String, PdfPosition)) -> (Seq<char>, (int, Seq<char>, Seq<char>)) {
    (p.0@, (p.1.page as int, p.1.x@, p.1.y@))
}

/// Store a recovered position, replacing an earlier one for the same
/// label.
pub open spec fn pos_set(
    m: Seq<(Seq<char>, (int, Seq<char>, Seq<char>))>,
    k: Seq<char>,
    v: (int, Seq<char>, Seq<char>),
) -> Seq<(Seq<char>, (int, Seq<char>, Seq<char>))>
    decreases m.len(),
{
    if m.len() == 0 {
        seq![(k, v)]
    } else if m[0].0 == k {
        seq![(m[0].0, v)] + m.drop_first()
    } else {
        seq![m[0]] + pos_set(m.drop_first(), k, v)
    }
}

/// The positions recovered from the report entries from `i` on, folded
/// onto `acc`.
pub open spec fn positions_fold(
    a: Seq<JsonValue>,
    i: int,
    acc: Seq<(Seq<char>, (int, Seq<char>, Seq<char>))>,
) -> Seq<(Seq<char>, (int, Seq<char>, Seq<char>))>
    decreases a.len() - i,
{
    if i < 0 || i >= a.len() {
        acc
    } else {
        let acc2 = match label_at(a[i], SEARCH_DEPTH as nat) {
            Some(l) => if is_synthetic_label(l) {
                match loc_at(a[i], SEARCH_DEPTH as nat) {
                    Some(p) => pos_set(acc, l, p),
                    None => acc,
                }
            } else {
                acc
            },
            None => acc,
        };
        positions_fold(a, i + 1, acc2)
    }
}

/// The positions recovered from a whole query document: one per
/// recognized synthetic label of a top-level report entry; a document
/// that is not an array yields none.
pub open spec fn positions_of(v: JsonValue) -> Seq<(Seq<char>, (int, Seq<char>, Seq<char>))> {
    match v {
        JsonValue::Arr(a) => positions_fold(a@, 0, Seq::empty()),
        _ => Seq::empty(),
    }
}

proof fn lemma_pos_set_found(
    m: Seq<(Seq<char>, (int, Seq<char>, Seq<char>))>,
    k: Seq<char>,
    v: (int, Seq<char>, Seq<char>),
    i: int,
)
    requires
        0 <= i < m.len(),
        m[i].0 == k,
        forall|j: int| 0 <= j < i ==> (#[trigger] m[j]).0 != k,
    ensures
        pos_set(m, k, v) =~= m.update(i, (m[i].0, v)),
    decreases i,
{
    if i == 0 {
    } else {
        assert(forall|j: int| 0 <= j < i - 1 ==> (#[trigger] m.drop_first()[j]).0 != k);
        assert(m.drop_first()[i - 1] == m[i]);
        lemma_pos_set_found(m.drop_first(), k, v, i - 1);
        assert(m.update(i, (m[i].0, v)).drop_first() =~= m.drop_first().update(
            i - 1,
            (m[i].0, v),
        ));
    }
}

proof fn lemma_pos_set_missing(
    m: Seq<(Seq<char>, (int, Seq<char>, Seq<char>))>,
    k: Seq<char>,
    v: (int, Seq<char>, Seq<char>),
)
    requires
        forall|j: int| 0 <= j < m.len() ==> (#[trigger] m[j]).0 != k,
    ensures
        pos_set(m, k, v) =~= m.push((k, v)),
    decreases m.len(),
{
    if m.len() > 0 {
        lemma_pos_set_missing(m.drop_first(), k, v);
        assert(m.push((k, v)).drop_first() =~= m.drop_first().push((k, v)));
    }
}

/// Store a recovered position in the map, replacing an earlier entry for
/// the same label.
fn positions_insert(m: &mut Vec<(String, PdfPosition)>, k: String, p: PdfPosition)
    ensures
        final(m)@.map_values(|e: (String, PdfPosition)| pos_model(e)) == pos_set(
            old(m)@.map_values(|e: (String, PdfPosition)| pos_model(e)),
            k@,
            (p.page as int, p.x@, p.y@),
        ),
{
    let ghost mm = m@.map_values(|e: (String, PdfPosition)| pos_model(e));
    let mut i: usize = 0;
    while i < m.len()
        invariant
            i <= m@.len(),
            m@ == old(m)@,
            mm == m@.map_values(|e: (String, PdfPosition)| pos_model(e)),
            forall|j: int| 0 <= j < i ==> (#[trigger] mm[j]).0 != k@,
        decreases m@.len() - i,
    {
        if str_eq(m[i].0.as_str(), k.as_str()) {
            let key2 = m[i].0.clone();
            m.remove(i);
            m.insert(i, (key2, p));
            proof {
                lemma_pos_set_found(mm, k@, (p.page as int, p.x@, p.y@), i as int);
                assert(m@.map_values(|e: (String, PdfPosition)| pos_model(e)) =~= mm.update(
                    i as int,
                    (mm[i as int].0, (p.page as int, p.x@, p.y@)),
                ));
            }
            return ;
        }
        i = i + 1;
    }
    m.push((k, p));
    proof {
        lemma_pos_set_missing(mm, k@, (p.page as int, p.x@, p.y@));
        assert(m@.map_values(|e: (String, PdfPosition)| pos_model(e)) =~= mm.push(
            (k@, (p.page as int, p.x@, p.y@)),
        ));
    }
}

/// Parse the render engine's position-query output and recover, for every
/// synthetic anchor label, the page and coordinates reported for it.
#[verifier::loop_isolation(false)]
pub fn pdf_positions_from_query(json_bytes: &[u8]) -> (r: Result<
    Vec<(String, PdfPosition)>,
    QueryError,
>)
    ensures
        r is Ok <==> parsed_json(json_bytes@) is Some,
        r matches Ok(m) ==> m@.map_values(|e: (String, PdfPosition)| pos_model(e)) == positions_of(
            parsed_json(json_bytes@).unwrap(),
        ),
{
    let parsed = parse_json(json_bytes);
    match parsed {
        None => Err(QueryError::MalformedJson),
        Some(v) => {
            let mut m: Vec<(String, PdfPosition)> = Vec::new();
            match v {
                JsonValue::Arr(entries) => {
                    let mut i: usize = 0;
                    proof {
                        assert(m@.map_values(|e: (String, PdfPosition)| pos_model(e)) =~= Seq::<
                            (Seq<char>, (int, Seq<char>, Seq<char>)),
                        >::empty());
                    }
                    while i < entries.len()
                        invariant
                            i <= entries@.len(),
                            positions_fold(entries@, 0, Seq::empty()) == positions_fold(
                                entries@,
                                i as int,
                                m@.map_values(|e: (String, PdfPosition)| pos_model(e)),
                            ),
                        decreases entries@.len() - i,
                    {
                        let ghost acc0 = m@.map_values(
                            |e: (String, PdfPosition)| pos_model(e),
                        );
                        if let Some(label) = find_label(&entries[i], SEARCH_DEPTH) {
                            let lc = str_chars(label.as_str());
                            let synthetic: bool = lc.len() >= 3 && lc[0] == 't' && lc[1] == 'f'
                                && lc[2] == '-';
                            if synthetic {
                                if let Some(p) = find_location(&entries[i], SEARCH_DEPTH) {
                                    positions_insert(&mut m, label, p);
                                }
                            }
                        }
                        i = i + 1;
                    }
                    Ok(m)
                },
                _ => {
                    proof {
                        assert(m@.map_values(|e: (String, PdfPosition)| pos_model(e)) =~= Seq::<
                            (Seq<char>, (int, Seq<char>, Seq<char>)),
                        >::empty());
                    }
                    Ok(m)
                },
            }
        },
    }
}

/// The position recorded for a label, when the map holds one.
pub open spec fn pos_lookup(m: Seq<(Seq<char>, (int, Seq<char>, Seq<char>))>, k: Seq<char>) -> Option<
    (int, Seq<char>, Seq<char>),
>
    decreases m.len(),
{
    if m.len() == 0 {
        Option::<(int, Seq<char>, Seq<char>)>::None
    } else if m[0].0 == k {
        Some(m[0].1)
    } else {
        pos_lookup(m.drop_first(), k)
    }
}

/// Look a label up in the position map.
fn positions_get<'a>(m: &'a Vec<(String, PdfPosition)>, k: &str) -> (r: Option<&'a PdfPosition>)
    ensures
        match r {
            Some(p) => pos_lookup(
                m@.map_values(|e: (String, PdfPosition)| pos_model(e)),
                k@,
            ) == Some((p.page as int, p.x@, p.y@)),
            None => pos_lookup(m@.map_values(|e: (String, PdfPosition)| pos_model(e)), k@)
                is None,
        },
{
    let ghost mm = m@.map_values(|e: (String, PdfPosition)| pos_model(e));
    let mut i: usize = 0;
    proof {
        assert(mm.skip(0) =~= mm);
    }
    while i < m.len()
        invariant
            i <= m@.len(),
            mm == m@.map_values(|e: (String, PdfPosition)| pos_model(e)),
            pos_lookup(mm, k@) == pos_lookup(mm.skip(i as int), k@),
        decreases m@.len() - i,
    {
        proof {
            assert(mm.skip(i as int)[0] == mm[i as int]);
            assert(mm.skip(i as int).drop_first() =~= mm.skip(i + 1));
        }
        if str_eq(m[i].0.as_str(), k) {
            return Some(&m[i].1);
        }
        i = i + 1;
    }
    proof {
        assert(mm.skip(mm.len() as int) =~= Seq::<
            (Seq<char>, (int, Seq<char>, Seq<char>)),
        >::empty());
    }
    None
}

/// Join the anchor list with the recovered positions: one entry per
/// anchor, in anchor order, carrying the rendered position exactly when
/// the map holds the anchor's identifier.
pub fn attach_pdf_positions(
    anchors: &Vec<AnchorMeta>,
    positions: &Vec<(String, PdfPosition)>,
) -> (r: SourceMapPayload)
    ensures
        r.anchors@.len() == anchors@.len(),
        forall|i: int|
            0 <= i < anchors@.len() ==> {
                let e = #[trigger] r.anchors@[i];
                let a = anchors@[i];
                let looked = pos_lookup(
                    positions@.map_values(|p: (String, PdfPosition)| pos_model(p)),
                    a.id@,
                );
                e.id@ == a.id@ && e.editor == (EditorPosition {
                    offset: a.offset,
                    line: a.line,
                    column: a.column,
                }) && (match e.pdf {
                    Some(p) => looked == Some((p.page as int, p.x@, p.y@)),
                    None => looked is None,
                })
            },
{
    let mut out: Vec<AnchorEntry> = Vec::new();
    let mut i: usize = 0;
    while i < anchors.len()
        invariant
            i <= anchors@.len(),
            out@.len() == i,
            forall|j: int|
                0 <= j < i ==> {
                    let e = #[trigger] out@[j];
                    let a = anchors@[j];
                    let looked = pos_lookup(
                        positions@.map_values(|p: (String, PdfPosition)| pos_model(p)),
                        a.id@,
                    );
                    e.id@ == a.id@ && e.editor == (EditorPosition {
                        offset: a.offset,
                        line: a.line,
                        column: a.column,
                    }) && (match e.pdf {
                        Some(p) => looked == Some((p.page as int, p.x@, p.y@)),
                        None => looked is None,
                    })
                },
        decreases anchors@.len() - i,
    {
        let a = &anchors[i];
        let pdf: Option<PdfPosition> = match positions_get(positions, a.id.as_str()) {
            Some(p) => Some(
                PdfPosition { page: p.page, x: p.x.clone(), y: p.y.clone() },
            ),
            None => None,
        };
        out.push(
            AnchorEntry {
                id: a.id.clone(),
                editor: EditorPosition { offset: a.offset, line: a.line, column: a.column },
                pdf,
            },
        );
        i = i + 1;
    }
    SourceMapPayload { anchors: out }
}

} // verus!


