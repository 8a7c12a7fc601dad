//! Slugification of heading text: lower-cased alphanumerics, separator
//! characters mapped to hyphens, everything else dropped, runs of hyphens
//! collapsed, and outer hyphens trimmed.

use vstd::prelude::*;

verus! {

use crate::bytestr::{str_chars, string_of_chars};

/// The lowercase mapping of a character; the result depends on the
/// character alone.
pub uninterp spec fn lower_of(c: char) -> Seq<char>;

/// Whether a character counts as alphanumeric; depends on the character
/// alone.
pub uninterp spec fn is_alnum_char(c: char) -> bool;

/// Whether a character counts as whitespace; depends on the character
/// alone.
pub uninterp spec fn is_space_char(c: char) -> bool;

/// Relies on `char::to_lowercase`: the lowercase form of a character,
/// possibly several characters long.
#[verifier::external_body]
fn lower_char(c: char) -> (r: Vec<char>)
    ensures
        r@ == lower_of(c),
{
    c.to_lowercase().collect()
}

/// Relies on `char::is_alphanumeric`.
#[verifier::external_body]
pub fn alnum_char_pub(c: char) -> (r: bool)
    ensures
        r == is_alnum_char(c),
{
    c.is_alphanumeric()
}

/// Relies on `char::is_whitespace`.
#[verifier::external_body]
fn space_char(c: char) -> (r: bool)
    ensures
        r == is_space_char(c),
{
    c.is_whitespace()
}

/// Whether slugification maps the character to a hyphen: whitespace and a
/// fixed set of separator characters (hyphen, slashes, em and en dash).
pub open spec fn is_separator_char(c: char) -> bool {
    is_space_char(c) || c == '-' || c == '/' || c == '\\' || c == '\u{2014}' || c == '\u{2013}'
}

/// What one character contributes to the raw slug.
pub open spec fn slug_map_char(c: char) -> Seq<char> {
    if is_alnum_char(c) {
        lower_of(c)
    } else if is_separator_char(c) {
        seq!['-']
    } else {
        Seq::<char>::empty()
    }
}

/// The raw slug: each character's contribution, in order.
pub open spec fn slug_mapped(t: Seq<char>) -> Seq<char>
    decreases t.len(),
{
    if t.len() == 0 {
        Seq::<char>::empty()
    } else {
        slug_mapped(t.drop_last()) + slug_map_char(t.last())
    }
}

/// Collapse runs of hyphens into a single hyphen; `prev_dash` says whether
/// a hyphen was just written.
pub open spec fn collapse_dashes(t: Seq<char>, prev_dash: bool) -> Seq<char>
    decreases t.len(),
{
    if t.len() == 0 {
        Seq::<char>::empty()
    } else if t[0] == '-' {
        if prev_dash {
            collapse_dashes(t.drop_first(), true)
        } else {
            seq!['-'] + collapse_dashes(t.drop_first(), true)
        }
    } else {
        seq![t[0]] + collapse_dashes(t.drop_first(), false)
    }
}

/// Drop leading hyphens.
pub open spec fn drop_leading_dashes(t: Seq<char>) -> Seq<char>
    decreases t.len(),
{
    if t.len() > 0 && t[0] == '-' {
        drop_leading_dashes(t.drop_first())
    } else {
        t
    }
}

/// Drop trailing hyphens.
pub open spec fn drop_trailing_dashes(t: Seq<char>) -> Seq<char>
    decreases t.len(),
{
    if t.len() > 0 && t.last() == '-' {
        drop_trailing_dashes(t.drop_last())
    } else {
        t
    }
}

/// The slug of a piece of heading text.
pub open spec fn slug_of(t: Seq<char>) -> Seq<char> {
    drop_trailing_dashes(drop_leading_dashes(collapse_dashes(slug_mapped(t), false)))
}

proof fn lemma_drop_leading_skip(t: Seq<char>, i: int)
    requires
        0 <= i <= t.len(),
        forall|k: int| 0 <= k < i ==> t[k] == '-',
    ensures
        drop_leading_dashes(t) == drop_leading_dashes(t.skip(i)),
    decreases i,
{
    if i > 0 {
        assert(t.skip(i - 1)[0] == t[i - 1]);
        assert(t.skip(i - 1).drop_first() =~= t.skip(i));
        lemma_drop_leading_skip(t, i - 1);
    } else {
        assert(t.skip(0) =~= t);
    }
}

proof fn lemma_drop_trailing_take(t: Seq<char>, i: int)
    requires
        0 <= i <= t.len(),
        forall|k: int| i <= k < t.len() ==> t[k] == '-',
    ensures
        drop_trailing_dashes(t) == drop_trailing_dashes(t.take(i)),
    decreases t.len() - i,
{
    if i < t.len() {
        assert(t.last() == '-');
        assert(t.drop_last() =~= t.take(t.len() - 1));
        lemma_drop_trailing_take(t.take(t.len() - 1), i);
        assert(t.take(t.len() - 1).take(i) =~= t.take(i));
    } else {
        assert(t.take(i) =~= t);
    }
}

/// Derive a URL-friendly identifier from heading text: alphanumerics are
/// lower-cased, whitespace and separators become hyphens, all else is
/// dropped, hyphen runs collapse, and outer hyphens are trimmed.
pub fn slugify(text: &str) -> (r: String)
    ensures
        r@ == slug_of(text@),
{
    let cs = str_chars(text);
    // map each character
    let mut mapped: Vec<char> = Vec::new();
    let mut i: usize = 0;
    while i < cs.len()
        invariant
            i <= cs@.len(),
            cs@ == text@,
            mapped@ == slug_mapped(cs@.take(i as int)),
        decreases cs@.len() - i,
    {
        let c = cs[i];
        if alnum_char_pub(c) {
            let low = lower_char(c);
            let mut k: usize = 0;
            while k < low.len()
                invariant
                    k <= low@.len(),
                    low@ == lower_of(c),
                    mapped@ == slug_mapped(cs@.take(i as int)) + low@.take(k as int),
                decreases low@.len() - k,
            {
                mapped.push(low[k]);
                proof {
                    assert(low@.take(k + 1) =~= low@.take(k as int).push(low@[k as int]));
                    assert(mapped@ =~= slug_mapped(cs@.take(i as int)) + low@.take(k + 1));
                }
                k = k + 1;
            }
            proof {
                assert(low@.take(low@.len() as int) =~= low@);
            }
        } else if space_char(c) || c == '-' || c == '/' || c == '\\' || c == '\u{2014}' || c
            == '\u{2013}' {
            mapped.push('-');
        } else {
        }
        proof {
            let pre = cs@.take(i as int);
            assert(cs@.take(i + 1).drop_last() =~= pre);
            assert(cs@.take(i + 1).last() == cs@[i as int]);
            assert(slug_mapped(cs@.take(i + 1)) == slug_mapped(pre) + slug_map_char(cs@[i as int]));
            assert(mapped@ =~= slug_mapped(pre) + slug_map_char(cs@[i as int]));
        }
        i = i + 1;
    }
    proof {
        assert(cs@.take(cs@.len() as int) =~= cs@);
    }
    // collapse hyphen runs
    let mut collapsed: Vec<char> = Vec::new();
    let mut prev_dash: bool = false;
    let mut j: usize = 0;
    proof {
        assert(mapped@.skip(0) =~= mapped@);
        assert(collapsed@ + collapse_dashes(mapped@, false) =~= collapse_dashes(mapped@, false));
    }
    while j < mapped.len()
        invariant
            j <= mapped@.len(),
            mapped@ == slug_mapped(text@),
            collapse_dashes(mapped@, false) == collapsed@ + collapse_dashes(
                mapped@.skip(j as int),
                prev_dash,
            ),
        decreases mapped@.len() - j,
    {
        let c = mapped[j];
        proof {
            assert(mapped@.skip(j as int)[0] == mapped@[j as int]);
            assert(mapped@.skip(j as int).drop_first() =~= mapped@.skip(j + 1));
        }
        if c == '-' {
            if !prev_dash {
                collapsed.push('-');
            }
            prev_dash = true;
        } else {
            collapsed.push(c);
            prev_dash = false;
        }
        j = j + 1;
    }
    proof {
        assert(mapped@.skip(mapped@.len() as int) =~= Seq::<char>::empty());
        assert(collapse_dashes(mapped@, false) =~= collapsed@);
    }
    // trim outer hyphens
    let n: usize = collapsed.len();
    let mut a: usize = 0;
    while a < n && collapsed[a] == '-'
        invariant
            a <= n,
            n == collapsed@.len(),
            forall|k: int| 0 <= k < a ==> collapsed@[k] == '-',
        decreases n - a,
    {
        a = a + 1;
    }
    let mut z: usize = n;
    while z > a && collapsed[z - 1] == '-'
        invariant
            a <= z <= n,
            n == collapsed@.len(),
            forall|k: int| z <= k < n ==> collapsed@[k] == '-',
        decreases z,
    {
        z = z - 1;
    }
    let mut trimmed: Vec<char> = Vec::new();
    let mut p: usize = a;
    while p < z
        invariant
            a <= p <= z <= n,
            n == collapsed@.len(),
            trimmed@ == collapsed@.subrange(a as int, p as int),
        decreases z - p,
    {
        trimmed.push(collapsed[p]);
        proof {
            assert(collapsed@.subrange(a as int, p + 1) =~= collapsed@.subrange(
                a as int,
                p as int,
            ).push(collapsed@[p as int]));
        }
        p = p + 1;
    }
    proof {
        let cv = collapsed@;
        lemma_drop_leading_skip(cv, a as int);
        if a < n {
            assert(cv.skip(a as int)[0] == cv[a as int]);
            assert(drop_leading_dashes(cv.skip(a as int)) == cv.skip(a as int));
        } else {
            assert(cv.skip(a as int) =~= Seq::<char>::empty());
        }
        let t = cv.skip(a as int);
        lemma_drop_trailing_take(t, z - a);
        if z > a {
            assert(t.take(z - a).last() == cv[z - 1]);
            assert(drop_trailing_dashes(t.take(z - a)) == t.take(z - a));
        } else {
            assert(t.take(z - a) =~= Seq::<char>::empty());
        }
        assert(forall|k: int| z - a <= k < t.len() ==> t[k] == '-');
        assert(trimmed@ =~= t.take(z - a));
        assert(trimmed@ == slug_of(text@));
    }
    string_of_chars(&trimmed)
}

} // verus!
