//! Byte strings: the order in which serials are kept, and the bridge between
//! bytes and text.

use vstd::prelude::*;
use vstd::utf8::*;

verus! {

/// Lexicographic order on byte strings: the first differing byte decides,
/// and a proper prefix comes first.
pub open spec fn lex_lt(a: Seq<u8>, b: Seq<u8>) -> bool
    decreases a.len(),
{
    if b.len() == 0 {
        false
    } else if a.len() == 0 {
        true
    } else if a[0] != b[0] {
        a[0] < b[0]
    } else {
        lex_lt(a.drop_first(), b.drop_first())
    }
}

/// The order of serials: that of their UTF-8 encodings, byte by byte.
pub open spec fn key_lt(a: Seq<char>, b: Seq<char>) -> bool {
    lex_lt(encode_utf8(a), encode_utf8(b))
}

/// No byte string comes before itself.
pub proof fn lemma_lex_irreflexive(a: Seq<u8>)
    ensures
        !lex_lt(a, a),
    decreases a.len(),
{
    if a.len() > 0 {
        lemma_lex_irreflexive(a.drop_first());
    }
}

/// What comes before a byte string comes before all that follow it.
pub proof fn lemma_lex_transitive(a: Seq<u8>, b: Seq<u8>, c: Seq<u8>)
    requires
        lex_lt(a, b),
        lex_lt(b, c),
    ensures
        lex_lt(a, c),
    decreases a.len(),
{
    if a.len() > 0 && a[0] == b[0] && b[0] == c[0] {
        lemma_lex_transitive(a.drop_first(), b.drop_first(), c.drop_first());
    }
}

/// Of two different byte strings one comes before the other.
pub proof fn lemma_lex_total(a: Seq<u8>, b: Seq<u8>)
    ensures
        lex_lt(a, b) || lex_lt(b, a) || a == b,
    decreases a.len(),
{
    if a.len() > 0 && b.len() > 0 && a[0] == b[0] {
        lemma_lex_total(a.drop_first(), b.drop_first());
        if a.drop_first() == b.drop_first() {
            assert(a =~= seq![a[0]] + a.drop_first());
            assert(b =~= seq![b[0]] + b.drop_first());
        }
    } else if a.len() == 0 && b.len() == 0 {
        assert(a =~= b);
    }
}

/// Serials are ordered strictly and totally: no serial comes before itself,
/// the order is transitive, and of two different serials one comes first.
pub proof fn lemma_key_order(a: Seq<char>, b: Seq<char>, c: Seq<char>)
    ensures
        !key_lt(a, a),
        key_lt(a, b) && key_lt(b, c) ==> key_lt(a, c),
        key_lt(a, b) || key_lt(b, a) || a == b,
        !(key_lt(a, b) && key_lt(b, a)),
{
    lemma_lex_irreflexive(encode_utf8(a));
    if key_lt(a, b) && key_lt(b, c) {
        lemma_lex_transitive(encode_utf8(a), encode_utf8(b), encode_utf8(c));
    }
    lemma_lex_total(encode_utf8(a), encode_utf8(b));
    if encode_utf8(a) == encode_utf8(b) {
        encode_utf8_decode_utf8(a);
        encode_utf8_decode_utf8(b);
    }
    if key_lt(a, b) && key_lt(b, a) {
        lemma_lex_transitive(encode_utf8(a), encode_utf8(b), encode_utf8(a));
    }
}

/// Whether `a` comes before `b` in lexicographic order.
pub fn bytes_less(a: &[u8], b: &[u8]) -> (r: bool)
    ensures
        r == lex_lt(a@, b@),
{
    let mut i: usize = 0;
    proof {
        assert(a@.skip(0) =~= a@);
        assert(b@.skip(0) =~= b@);
    }
    while i < a.len() && i < b.len()
        invariant
            i <= a.len(),
            i <= b.len(),
            lex_lt(a@, b@) == lex_lt(a@.skip(i as int), b@.skip(i as int)),
        decreases a.len() - i,
    {
        proof {
            assert(a@.skip(i as int).drop_first() =~= a@.skip(i as int + 1));
            assert(b@.skip(i as int).drop_first() =~= b@.skip(i as int + 1));
        }
        if a[i] != b[i] {
            return a[i] < b[i];
        }
        i = i + 1;
    }
    i < b.len()
}

/// Whether serial `a` comes before serial `b`.
pub fn key_less(a: &str, b: &str) -> (r: bool)
    ensures
        r == key_lt(a@, b@),
{
    bytes_less(a.as_bytes(), b.as_bytes())
}

/// A byte with one of its two highest bits set by force is 128 or more.
proof fn lemma_high_byte(y: u8)
    by (bit_vector)
    ensures
        (0x80u8 | y) >= 128u8,
        (0xC0u8 | y) >= 128u8,
        (0xE0u8 | y) >= 128u8,
        (0xF0u8 | y) >= 128u8,
{
}

/// The low seven bits of a number below 128 are that number.
proof fn lemma_low_byte(c: u32)
    by (bit_vector)
    requires
        c <= 0x7F,
    ensures
        ((c & 0x7F) as u8) as u32 == c,
{
}

/// A byte below 128 in the encoding of a character is that character.
pub proof fn lemma_scalar_low_bytes(c: u32)
    requires
        is_scalar(c),
    ensures
        1 <= encode_scalar(c).len() <= 4,
        forall|j: int|
            0 <= j < encode_scalar(c).len() && #[trigger] encode_scalar(c)[j] < 128 ==> c
                == encode_scalar(c)[j] as u32,
{
    let e = encode_scalar(c);
    if has_width_1_encoding(c) {
        lemma_low_byte(c);
    } else {
        lemma_high_byte(((c >> 6) & 0x1F) as u8);
        lemma_high_byte(((c >> 12) & 0x0F) as u8);
        lemma_high_byte(((c >> 18) & 0x7) as u8);
        lemma_high_byte((c & 0x3F) as u8);
        lemma_high_byte(((c >> 6) & 0x3F) as u8);
        lemma_high_byte(((c >> 12) & 0x3F) as u8);
    }
}

/// A byte below 128 in the encoding of a text is one of its characters, and
/// where the encoding ends in such a byte, the text ends in that character.
pub proof fn lemma_text_low_bytes(chars: Seq<char>)
    ensures
        forall|i: int|
            0 <= i < encode_utf8(chars).len() && #[trigger] encode_utf8(chars)[i] < 128
                ==> exists|j: int|
                0 <= j < chars.len() && #[trigger] chars[j] as u32 == encode_utf8(chars)[i] as u32,
        chars.len() > 0 ==> encode_utf8(chars).len() > 0,
        chars.len() > 0 && encode_utf8(chars).last() < 128 ==> chars.last() as u32 == encode_utf8(
            chars,
        ).last() as u32,
    decreases chars.len(),
{
    if chars.len() > 0 {
        let rest = chars.drop_first();
        let head = encode_scalar(chars[0] as u32);
        let all = encode_utf8(chars);
        char_is_scalar(chars[0]);
        lemma_scalar_low_bytes(chars[0] as u32);
        lemma_text_low_bytes(rest);
        assert(all == head + encode_utf8(rest));
        assert forall|i: int| 0 <= i < all.len() && #[trigger] all[i] < 128 implies exists|j: int|
            0 <= j < chars.len() && #[trigger] chars[j] as u32 == all[i] as u32 by {
            if i < head.len() {
                assert(all[i] == head[i]);
                assert(chars[0] as u32 == all[i] as u32);
            } else {
                assert(all[i] == encode_utf8(rest)[i - head.len()]);
                let j = choose|j: int|
                    0 <= j < rest.len() && #[trigger] rest[j] as u32 == encode_utf8(rest)[i
                        - head.len()] as u32;
                assert(chars[j + 1] == rest[j]);
            }
        }
        if all.last() < 128 {
            if rest.len() == 0 {
                assert(encode_utf8(rest).len() == 0);
                assert(all.last() == head[head.len() - 1]);
            } else {
                assert(all.last() == encode_utf8(rest).last());
                assert(chars.last() == rest.last());
            }
        }
    }
}

/// Whether two texts are the same.
pub fn text_equal(a: &str, b: &str) -> (r: bool)
    ensures
        r == (a@ == b@),
{
    let x = a.as_bytes();
    let y = b.as_bytes();
    proof {
        encode_utf8_decode_utf8(a@);
        encode_utf8_decode_utf8(b@);
    }
    if x.len() != y.len() {
        return false;
    }
    let mut i: usize = 0;
    while i < x.len()
        invariant
            i <= x.len(),
            x.len() == y.len(),
            x@ == encode_utf8(a@),
            y@ == encode_utf8(b@),
            forall|j: int| 0 <= j < i ==> x@[j] == y@[j],
        decreases x.len() - i,
    {
        if x[i] != y[i] {
            return false;
        }
        i = i + 1;
    }
    proof {
        assert(x@ =~= y@);
    }
    true
}

/// `core::str::from_utf8`. The call gives the bytes back as text exactly
/// where they are UTF-8, and the text it gives is encoded by those bytes.
#[verifier::external_body]
pub(crate) fn text_of(bytes: &[u8]) -> (r: Option<&str>)
    ensures
        r is Some <==> valid_utf8(bytes@),
        r matches Some(text) ==> encode_utf8(text@) == bytes@,
{
    core::str::from_utf8(bytes).ok()
}

} // verus!
