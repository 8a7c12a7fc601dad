//! Byte-buffer helpers shared by the rewrite passes: UTF-8 boundary
//! reasoning, buffer building, and decimal rendering of counters.

use vstd::prelude::*;

verus! {

use vstd::std_specs::iter::IteratorSpec;
use vstd::string::StringSliceAdditionalSpecFns;
use vstd::utf8::*;

/// A byte below 0x80 encodes a whole character, so the position after it is
/// a character boundary of any valid UTF-8 buffer.
pub proof fn lemma_boundary_after_ascii(bytes: Seq<u8>, i: int)
    requires
        valid_utf8(bytes),
        0 < i <= bytes.len(),
        bytes[i - 1] < 0x80,
    ensures
        is_char_boundary(bytes, i),
    decreases bytes.len(),
{
    assert(valid_first_scalar(bytes) && valid_utf8(pop_first_scalar(bytes)));
    let k = length_of_first_scalar(bytes);
    if i - 1 < k {
        if i - 1 == 0 {
            assert(is_leading_byte_width_1(bytes[0]));
            assert(k == 1);
            assert(is_char_boundary(pop_first_scalar(bytes), 0));
        } else {
            assert(is_continuation_byte(bytes[i - 1]));
            assert(false);
        }
    } else {
        let rest = pop_first_scalar(bytes);
        assert(rest[i - k - 1] == bytes[i - 1]);
        lemma_boundary_after_ascii(rest, i - k);
    }
}

/// A position holding a byte below 0x80 is a character boundary.
pub proof fn lemma_boundary_at_ascii(bytes: Seq<u8>, i: int)
    requires
        valid_utf8(bytes),
        0 <= i < bytes.len(),
        bytes[i] < 0x80,
    ensures
        is_char_boundary(bytes, i),
{
    broadcast use is_char_boundary_iff_not_is_continuation_byte;

    assert(!is_continuation_byte(bytes[i]));
}

/// A single byte below 0x80 is a valid UTF-8 buffer on its own.
pub proof fn lemma_valid_ascii_singleton(b: u8)
    requires
        b < 0x80,
    ensures
        valid_utf8(seq![b]),
{
    let s = seq![b];
    assert(is_leading_byte_width_1(s[0]));
    assert(length_of_first_scalar(s) == 1);
    assert(pop_first_scalar(s) =~= Seq::<u8>::empty());
    assert(valid_utf8(pop_first_scalar(s)));
}

/// A subrange cut where each end sits beside an ASCII byte (or at the
/// buffer's ends) is itself valid UTF-8.
pub proof fn lemma_valid_subrange_ascii(s: Seq<u8>, i: int, j: int)
    requires
        valid_utf8(s),
        0 <= i <= j <= s.len(),
        i == 0 || s[i - 1] < 0x80,
        j == s.len() || s[j] < 0x80,
    ensures
        valid_utf8(s.subrange(i, j)),
{
    lemma_valid_subrange_ascii_any(s, i, j);
}

/// As [`lemma_valid_subrange_ascii`], accepting an ASCII byte on either
/// side of each cut.
pub proof fn lemma_valid_subrange_ascii_any(s: Seq<u8>, i: int, j: int)
    requires
        valid_utf8(s),
        0 <= i <= j <= s.len(),
        i == 0 || i == j || s[i - 1] < 0x80 || (i < s.len() && s[i] < 0x80),
        j == s.len() || i == j || s[j] < 0x80 || (j > 0 && s[j - 1] < 0x80),
    ensures
        valid_utf8(s.subrange(i, j)),
{
    broadcast use is_char_boundary_start_end_of_seq;

    if i == j {
        assert(s.subrange(i, j) =~= Seq::<u8>::empty());
        assert(valid_utf8(s.subrange(i, j)));
    } else {
        if i > 0 {
            if s[i - 1] < 0x80 {
                lemma_boundary_after_ascii(s, i);
            } else {
                lemma_boundary_at_ascii(s, i);
            }
        }
        valid_utf8_split(s, i);
        let suffix = s.subrange(i, s.len() as int);
        if j == s.len() {
            assert(suffix.len() == s.len() - i);
        } else if s[j] < 0x80 {
            assert(suffix[j - i] == s[j]);
            lemma_boundary_at_ascii(suffix, j - i);
        } else {
            assert(suffix[j - i - 1] == s[j - 1]);
            lemma_boundary_after_ascii(suffix, j - i);
        }
        valid_utf8_split(suffix, j - i);
        assert(suffix.subrange(0, j - i) =~= s.subrange(i, j));
    }
}

/// Encoding distributes over concatenation of character sequences.
pub proof fn lemma_encode_utf8_concat(a: Seq<char>, b: Seq<char>)
    ensures
        encode_utf8(a + b) == encode_utf8(a) + encode_utf8(b),
    decreases a.len(),
{
    if a.len() == 0 {
        assert(a + b =~= b);
        assert(encode_utf8(a) + encode_utf8(b) =~= encode_utf8(b));
    } else {
        assert((a + b).drop_first() =~= a.drop_first() + b);
        lemma_encode_utf8_concat(a.drop_first(), b);
        assert(encode_utf8(a + b) =~= encode_utf8(a) + encode_utf8(b));
    }
}

/// Append `src[from..to)` to `out`.
pub fn append_slice_range(out: &mut Vec<u8>, src: &[u8], from: usize, to: usize)
    requires
        from <= to <= src@.len(),
    ensures
        final(out)@ == old(out)@ + src@.subrange(from as int, to as int),
{
    let mut i: usize = from;
    while i < to
        invariant
            from <= i <= to <= src@.len(),
            out@ == old(out)@ + src@.subrange(from as int, i as int),
        decreases to - i,
    {
        out.push(src[i]);
        proof {
            assert(src@.subrange(from as int, i + 1) =~= src@.subrange(from as int, i as int).push(
                src@[i as int],
            ));
        }
        i = i + 1;
    }
    proof {
        if from == to {
            assert(out@ =~= old(out)@ + src@.subrange(from as int, to as int));
        }
    }
}

/// Append the UTF-8 bytes of `s` to `out`.
pub fn append_str_bytes(out: &mut Vec<u8>, s: &str)
    ensures
        final(out)@ == old(out)@ + s.spec_bytes(),
{
    let b: &[u8] = s.as_bytes();
    let n: usize = b.len();
    append_slice_range(out, b, 0, n);
    proof {
        assert(b@.subrange(0, b@.len() as int) =~= b@);
    }
}

/// The substring of `s` covering byte range `[from, to)`, which must lie on
/// character boundaries.
pub fn substr_range<'a>(s: &'a str, from: usize, to: usize) -> (r: &'a str)
    requires
        from <= to <= s.spec_bytes().len(),
        is_char_boundary(s.spec_bytes(), from as int),
        is_char_boundary(s.spec_bytes(), to as int),
    ensures
        r.spec_bytes() == s.spec_bytes().subrange(from as int, to as int),
        r@ == decode_utf8(s.spec_bytes().subrange(from as int, to as int)),
{
    broadcast use vstd::utf8::encode_utf8_valid_utf8, vstd::utf8::encode_utf8_decode_utf8,
        vstd::utf8::is_char_boundary_start_end_of_seq,
        vstd::utf8::is_char_boundary_iff_not_is_continuation_byte;

    let ghost sb = s.spec_bytes();
    proof {
        valid_utf8_split(sb, from as int);
    }
    let (_, tail) = s.split_at(from);
    proof {
        assert(tail.spec_bytes() =~= sb.subrange(from as int, sb.len() as int));
        if to < sb.len() {
            assert(tail.spec_bytes()[to - from] == sb[to as int]);
            assert(!is_continuation_byte(sb[to as int]));
            assert(is_char_boundary(tail.spec_bytes(), to - from));
        } else {
            assert(is_char_boundary(tail.spec_bytes(), to - from));
        }
    }
    let (mid, _) = tail.split_at(to - from);
    proof {
        assert(mid.spec_bytes() =~= sb.subrange(from as int, to as int));
        valid_utf8_split(sb.subrange(from as int, sb.len() as int), to - from);
        decode_utf8_encode_utf8(mid.spec_bytes());
        encode_utf8_decode_utf8(mid@);
    }
    mid
}

/// Whether two string slices hold the same characters.
pub fn str_eq(a: &str, b: &str) -> (r: bool)
    ensures
        r == (a@ == b@),
{
    broadcast use vstd::utf8::encode_utf8_valid_utf8, vstd::utf8::decode_utf8_encode_utf8,
        vstd::utf8::encode_utf8_decode_utf8;

    let ab: &[u8] = a.as_bytes();
    let bb: &[u8] = b.as_bytes();
    if ab.len() != bb.len() {
        proof {
            assert(a@ != b@);
        }
        return false;
    }
    let n: usize = ab.len();
    let mut i: usize = 0;
    while i < n
        invariant
            i <= n,
            n == ab@.len() == bb@.len(),
            ab@ == a.spec_bytes(),
            bb@ == b.spec_bytes(),
            forall|k: int| 0 <= k < i ==> ab@[k] == bb@[k],
        decreases n - i,
    {
        if ab[i] != bb[i] {
            proof {
                assert(a.spec_bytes() != b.spec_bytes());
                assert(a@ != b@);
            }
            return false;
        }
        i = i + 1;
    }
    proof {
        assert(ab@ =~= bb@);
        assert(decode_utf8(a.spec_bytes()) == decode_utf8(b.spec_bytes()));
        encode_utf8_decode_utf8(a@);
        encode_utf8_decode_utf8(b@);
        decode_utf8_encode_utf8(a.spec_bytes());
        decode_utf8_encode_utf8(b.spec_bytes());
        assert(a@ == b@);
    }
    true
}

/// The characters of `s`, in order.
pub fn str_chars(s: &str) -> (r: Vec<char>)
    ensures
        r@ == s@,
{
    broadcast use vstd::string::axiom_spec_iter, vstd::string::next_postcondition;

    let mut r: Vec<char> = Vec::new();
    for c in it: s.chars()
        invariant
            it.seq() == s@,
            r@ == it.seq().take(it.index() as int),
    {
        r.push(c);
        proof {
            assert(it.seq().take(it.index() + 1) =~= it.seq().take(it.index() as int).push(
                it.seq()[it.index() as int],
            ));
        }
    }
    proof {
        assert(s@.take(s@.len() as int) =~= s@);
    }
    r
}

/// A string holding exactly the characters of `v`.
pub fn string_of_chars(v: &Vec<char>) -> (r: String)
    ensures
        r@ == v@,
{
    let mut r = String::new();
    let mut i: usize = 0;
    while i < v.len()
        invariant
            i <= v@.len(),
            r@ == v@.take(i as int),
        decreases v@.len() - i,
    {
        push_char(&mut r, v[i]);
        proof {
            assert(v@.take(i + 1) =~= v@.take(i as int).push(v@[i as int]));
        }
        i = i + 1;
    }
    proof {
        assert(v@.take(v@.len() as int) =~= v@);
    }
    r
}

/// Relies on `String::from_utf8`: succeeds exactly on valid UTF-8 input and
/// returns the string whose bytes are that input.
#[verifier::external_body]
pub fn string_from_utf8(v: Vec<u8>) -> (r: Option<String>)
    ensures
        r is Some <==> valid_utf8(v@),
        r is Some ==> r.unwrap()@ == decode_utf8(v@),
{
    String::from_utf8(v).ok()
}

/// Relies on `String::push`: appends the given character to the string.
#[verifier::external_body]
pub fn push_char(s: &mut String, c: char)
    ensures
        final(s)@ == old(s)@.push(c),
{
    s.push(c);
}

/// The character for decimal digit `d`.
pub open spec fn digit_char(d: int) -> char {
    (((48 + d) as u8) as char)
}

/// Decimal digit characters of the non-negative integer `n`, most
/// significant first.
pub open spec fn dec_digits(n: int) -> Seq<char>
    decreases n,
{
    if n < 10 {
        seq![digit_char(if n < 0 { 0 } else { n })]
    } else {
        dec_digits(n / 10).push(digit_char(n % 10))
    }
}

/// Append the decimal rendering of `n` to `s`.
pub fn push_u64_dec(s: &mut String, n: u64)
    ensures
        final(s)@ == old(s)@ + dec_digits(n as int),
    decreases n,
{
    if n >= 10 {
        push_u64_dec(s, n / 10);
        let d: u8 = (n % 10) as u8;
        push_char(s, (48 + d) as char);
        proof {
            assert(old(s)@ + dec_digits(n as int) =~= (old(s)@ + dec_digits(n as int / 10)).push(
                digit_char(n as int % 10),
            ));
        }
    } else {
        let d: u8 = n as u8;
        push_char(s, (48 + d) as char);
        proof {
            assert(old(s)@ + dec_digits(n as int) =~= old(s)@.push(digit_char(n as int)));
        }
    }
}

} // verus!
