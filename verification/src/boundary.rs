//! Byte offsets and character indices.
//!
//! A text is held as UTF-8, and an offset into it counts bytes. Contracts speak
//! of characters. The lemmas here relate the two for offsets that fall on a
//! character boundary.

use vstd::prelude::*;
use vstd::utf8::*;

verus! {

/// The number of characters of `text` that are encoded in its first `offset`
/// bytes. Meaningful where `offset` is a character boundary of the encoding.
pub open spec fn chars_before(text: Seq<char>, offset: int) -> int {
    decode_utf8(encode_utf8(text).subrange(0, offset)).len() as int
}

/// The encoding of a concatenation is the concatenation of the encodings.
pub proof fn lemma_encode_concat(a: Seq<char>, b: Seq<char>)
    ensures
        encode_utf8(a + b) == encode_utf8(a) + encode_utf8(b),
    decreases a.len(),
{
    if a.len() == 0 {
        assert(a + b =~= b);
        assert(encode_utf8(a) + encode_utf8(b) =~= encode_utf8(b));
    } else {
        lemma_encode_concat(a.drop_first(), b);
        assert((a + b).drop_first() =~= a.drop_first() + b);
        assert((a + b)[0] == a[0]);
        assert(encode_utf8(a + b) =~= encode_utf8(a) + encode_utf8(b));
    }
}

/// Every character takes between one and four bytes.
pub proof fn lemma_scalar_width(c: char)
    ensures
        1 <= encode_scalar(c as u32).len() <= 4,
{
}

/// A text that is not empty has an encoding that is not empty.
pub proof fn lemma_encode_nonempty(a: Seq<char>)
    requires
        a.len() > 0,
    ensures
        encode_utf8(a).len() >= encode_scalar(a[0] as u32).len() >= 1,
{
    lemma_scalar_width(a[0]);
}

/// The place where two texts meet is a character boundary of their
/// concatenation, and the characters before it are those of the first text.
pub proof fn lemma_boundary_between(a: Seq<char>, b: Seq<char>)
    ensures
        is_char_boundary(encode_utf8(a + b), encode_utf8(a).len() as int),
        chars_before(a + b, encode_utf8(a).len() as int) == a.len(),
    decreases a.len(),
{
    let bytes = encode_utf8(a + b);
    encode_utf8_valid_utf8(a + b);
    lemma_encode_concat(a, b);
    assert(bytes.subrange(0, encode_utf8(a).len() as int) =~= encode_utf8(a));
    encode_utf8_decode_utf8(a);
    if a.len() > 0 {
        let rest = a.drop_first() + b;
        assert((a + b).drop_first() =~= rest);
        encode_utf8_first_scalar(a + b);
        lemma_scalar_width(a[0]);
        assert(pop_first_scalar(bytes) =~= encode_utf8(rest));
        lemma_boundary_between(a.drop_first(), b);
        lemma_encode_concat(a.drop_first(), b);
        assert(encode_utf8(a).len() == encode_scalar(a[0] as u32).len() + encode_utf8(
            a.drop_first(),
        ).len());
    }
}

/// A character boundary splits the text: the bytes before it encode the
/// characters before it, and the bytes after it encode the others.
pub proof fn lemma_boundary_split(text: Seq<char>, offset: int)
    requires
        is_char_boundary(encode_utf8(text), offset),
    ensures
        0 <= offset <= encode_utf8(text).len(),
        0 <= chars_before(text, offset) <= text.len(),
        encode_utf8(text.take(chars_before(text, offset))) == encode_utf8(text).subrange(
            0,
            offset,
        ),
        encode_utf8(text.skip(chars_before(text, offset))) == encode_utf8(text).subrange(
            offset,
            encode_utf8(text).len() as int,
        ),
        offset == encode_utf8(text).len() <==> chars_before(text, offset) == text.len(),
{
    let bytes = encode_utf8(text);
    let head = bytes.subrange(0, offset);
    let tail = bytes.subrange(offset, bytes.len() as int);
    encode_utf8_valid_utf8(text);
    encode_utf8_decode_utf8(text);
    valid_utf8_split(bytes, offset);
    decode_utf8_split(bytes, offset);
    decode_utf8_encode_utf8(head);
    decode_utf8_encode_utf8(tail);
    let k = chars_before(text, offset);
    assert(text.take(k) =~= decode_utf8(head));
    assert(text.skip(k) =~= decode_utf8(tail));
    if k < text.len() {
        lemma_encode_nonempty(text.skip(k));
    }
}

/// Stepping over one character leads from a boundary to the next one.
pub proof fn lemma_boundary_advance(text: Seq<char>, offset: int)
    requires
        is_char_boundary(encode_utf8(text), offset),
        chars_before(text, offset) < text.len(),
    ensures
        ({
            let k = chars_before(text, offset);
            let next = offset + encode_scalar(text[k] as u32).len();
            &&& 0 <= k
            &&& next <= encode_utf8(text).len()
            &&& is_char_boundary(encode_utf8(text), next)
            &&& chars_before(text, next) == k + 1
        }),
{
    lemma_boundary_split(text, offset);
    let k = chars_before(text, offset);
    let a = text.take(k + 1);
    let b = text.skip(k + 1);
    assert(a + b =~= text);
    assert(a =~= text.take(k) + seq![text[k]]);
    lemma_encode_concat(text.take(k), seq![text[k]]);
    assert(seq![text[k]].drop_first() =~= Seq::<char>::empty());
    assert(encode_utf8(seq![text[k]]) =~= encode_scalar(text[k] as u32)) by {
        reveal_with_fuel(encode_utf8, 2);
    }
    lemma_boundary_between(a, b);
    lemma_encode_concat(a, b);
}

/// A boundary of a text is a boundary of each prefix that reaches it, and
/// counts the same characters there.
pub proof fn lemma_boundary_in_prefix(text: Seq<char>, from: int, to: int)
    requires
        is_char_boundary(encode_utf8(text), from),
        is_char_boundary(encode_utf8(text), to),
        chars_before(text, from) <= chars_before(text, to),
    ensures
        from <= to,
        is_char_boundary(encode_utf8(text.take(chars_before(text, to))), from),
        chars_before(text.take(chars_before(text, to)), from) == chars_before(text, from),
{
    lemma_boundary_split(text, from);
    lemma_boundary_split(text, to);
    let k1 = chars_before(text, from);
    let k2 = chars_before(text, to);
    let a = text.take(k1);
    let b = text.subrange(k1, k2);
    assert(a + b =~= text.take(k2));
    lemma_boundary_between(a, b);
    lemma_encode_concat(a, b);
}

/// Tells whether two strings hold the same characters.
pub(crate) fn same_text(a: &str, b: &str) -> (r: bool)
    ensures
        r == (a@ == b@),
{
    let x = a.as_bytes();
    let y = b.as_bytes();
    proof {
        encode_utf8_decode_utf8(a@);
        encode_utf8_decode_utf8(b@);
    }
    if x.len() != y.len() {
        return false;
    }
    let mut i: usize = 0;
    while i < x.len()
        invariant
            i <= x@.len(),
            x@.len() == y@.len(),
            x@ == encode_utf8(a@),
            y@ == encode_utf8(b@),
            forall|k: int| 0 <= k < i ==> x@[k] == y@[k],
        decreases x@.len() - i,
    {
        if x[i] != y[i] {
            assert(x@[i as int] != y@[i as int]);
            return false;
        }
        i += 1;
    }
    assert(x@ =~= y@);
    true
}

} // verus!
