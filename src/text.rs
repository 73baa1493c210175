//! Scanning byte sequences for delimiters, and the UTF-8 facts that let text
//! be split at ASCII delimiters.

use vstd::prelude::*;
use vstd::utf8::*;

verus! {

/// No byte of `s` equals `x`.
pub open spec fn no_byte(s: Seq<u8>, x: u8) -> bool {
    forall|i: int| 0 <= i < s.len() ==> #[trigger] s[i] != x
}

/// No character of `s` has the code `x`.
pub open spec fn no_char(s: Seq<char>, x: u8) -> bool {
    forall|i: int| 0 <= i < s.len() ==> #[trigger] s[i] as u32 != x as u32
}

/// The first index in `from .. to` that holds `x`, or `to` when there is
/// none.
pub open spec fn find(s: Seq<u8>, x: u8, from: int, to: int) -> int
    decreases to - from,
{
    if from >= to {
        to
    } else if s[from] == x {
        from
    } else {
        find(s, x, from + 1, to)
    }
}

pub proof fn lemma_find_ge(s: Seq<u8>, x: u8, from: int, to: int)
    ensures
        find(s, x, from, to) >= from || find(s, x, from, to) == to,
        from <= to ==> find(s, x, from, to) >= from,
    decreases to - from,
{
    if from < to && s[from] != x {
        lemma_find_ge(s, x, from + 1, to);
    }
}

/// Where `x` is absent from `a`, the first `x` after the start of `a` is the
/// one that follows it.
pub proof fn lemma_find_after(s: Seq<u8>, x: u8, from: int, to: int, a: Seq<u8>)
    requires
        0 <= from,
        from + a.len() < to <= s.len(),
        s.subrange(from, from + a.len()) == a,
        no_byte(a, x),
        s[from + a.len()] == x,
    ensures
        find(s, x, from, to) == from + a.len(),
    decreases a.len(),
{
    if a.len() > 0 {
        assert(s[from] == a[0]);
        assert(s.subrange(from + 1, from + 1 + a.drop_first().len()) =~= a.drop_first());
        lemma_find_after(s, x, from + 1, to, a.drop_first());
    }
}

/// Where `x` is absent from `s[from..to]`, it is not found there.
pub proof fn lemma_find_none(s: Seq<u8>, x: u8, from: int, to: int)
    requires
        0 <= from <= to <= s.len(),
        no_byte(s.subrange(from, to), x),
    ensures
        find(s, x, from, to) == to,
    decreases to - from,
{
    if from < to {
        assert(s.subrange(from, to)[0] == s[from]);
        assert(s.subrange(from + 1, to) =~= s.subrange(from, to).drop_first());
        lemma_find_none(s, x, from + 1, to);
    }
}

/// The UTF-8 encoding of text holds an ASCII byte only where the text holds
/// that character.
pub proof fn lemma_utf8_no_byte(cs: Seq<char>, x: u8)
    requires
        x < 128,
        no_char(cs, x),
    ensures
        no_byte(encode_utf8(cs), x),
    decreases cs.len(),
{
    if cs.len() > 0 {
        lemma_utf8_no_byte(cs.drop_first(), x);
        let c = cs[0] as u32;
        let e = encode_scalar(c);
        assert(c != x as u32);
        assert(no_byte(e, x)) by {
            if has_width_1_encoding(c) {
                assert((c & 0x7F) as u8 != x) by (bit_vector)
                    requires c <= 0x7F, c != x as u32;
            } else {
                assert(forall|y: u32| #![auto] (0xC0 | ((y >> 6) & 0x1F) as u8) >= 0x80u8)
                    by (bit_vector);
                assert(forall|y: u32| #![auto] (0xE0 | ((y >> 12) & 0x0F) as u8) >= 0x80u8)
                    by (bit_vector);
                assert(forall|y: u32| #![auto] (0xF0 | ((y >> 18) & 0x7) as u8) >= 0x80u8)
                    by (bit_vector);
                assert(forall|y: u32| #![auto] (0x80 | (y & 0x3F) as u8) >= 0x80u8) by (bit_vector);
                assert(forall|y: u32| #![auto] (0x80 | ((y >> 6) & 0x3F) as u8) >= 0x80u8)
                    by (bit_vector);
                assert(forall|y: u32| #![auto] (0x80 | ((y >> 12) & 0x3F) as u8) >= 0x80u8)
                    by (bit_vector);
            }
        }
        let whole = encode_utf8(cs);
        assert(whole == e + encode_utf8(cs.drop_first()));
        assert forall|i: int| 0 <= i < whole.len() implies #[trigger] whole[i] != x by {
            if i < e.len() {
                assert(whole[i] == e[i]);
            } else {
                assert(whole[i] == encode_utf8(cs.drop_first())[i - e.len()]);
            }
        }
    }
}

/// The index of the first `x` in `s[from..to]`, or `to`.
pub fn find_byte(s: &[u8], x: u8, from: usize, to: usize) -> (r: usize)
    requires
        from <= to <= s@.len(),
    ensures
        r == find(s@, x, from as int, to as int),
        from <= r <= to,
{
    let mut i = from;
    while i < to
        invariant
            from <= i <= to <= s@.len(),
            find(s@, x, from as int, to as int) == find(s@, x, i as int, to as int),
        decreases to - i,
    {
        if s[i] == x {
            return i;
        }
        i = i + 1;
    }
    i
}

/// Relies on String::from_utf8: it succeeds exactly on valid UTF-8, and the
/// string then holds the characters those bytes encode.
#[verifier::external_body]
pub fn string_from_utf8(b: &[u8]) -> (r: Option<String>)
    ensures
        r is Some <==> valid_utf8(b@),
        r is Some ==> r->0@ == decode_utf8(b@),
{
    String::from_utf8(b.to_vec()).ok()
}

/// Copies `s[from..to]`.
pub fn slice_to_vec(s: &[u8], from: usize, to: usize) -> (r: Vec<u8>)
    requires
        from <= to <= s@.len(),
    ensures
        r@ == s@.subrange(from as int, to as int),
{
    let mut r: Vec<u8> = Vec::new();
    let mut i = from;
    while i < to
        invariant
            from <= i <= to <= s@.len(),
            r@ == s@.subrange(from as int, i as int),
        decreases to - i,
    {
        r.push(s[i]);
        i = i + 1;
        proof {
            assert(r@ =~= s@.subrange(from as int, i as int));
        }
    }
    r
}

/// Reads `s[from..to]` as UTF-8 text.
pub fn utf8_text(s: &[u8], from: usize, to: usize) -> (r: Option<String>)
    requires
        from <= to <= s@.len(),
    ensures
        r is Some <==> valid_utf8(s@.subrange(from as int, to as int)),
        r is Some ==> r->0@ == decode_utf8(s@.subrange(from as int, to as int)),
{
    let v = slice_to_vec(s, from, to);
    string_from_utf8(v.as_slice())
}

} // verus!
