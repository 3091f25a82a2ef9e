//! Facts about the UTF-8 encoding of character sequences that the laws rely on.
use vstd::prelude::*;
use vstd::utf8::{
    encode_scalar, encode_utf8, has_width_1_encoding, has_width_2_encoding, has_width_3_encoding,
    has_width_4_encoding, is_scalar, leading_byte_width_1, leading_byte_width_2,
    leading_byte_width_3, leading_byte_width_4, last_continuation_byte,
    second_last_continuation_byte, third_last_continuation_byte,
};

verus! {

/// Encoding a concatenation encodes each part.
pub broadcast proof fn lemma_encode_concat(a: Seq<char>, b: Seq<char>)
    ensures
        #[trigger] encode_utf8(a + b) == encode_utf8(a) + encode_utf8(b),
    decreases a.len(),
{
    if a.len() == 0 {
        assert(a + b =~= b);
        assert(encode_utf8(a) =~= Seq::<u8>::empty());
        assert(encode_utf8(a) + encode_utf8(b) =~= encode_utf8(b));
    } else {
        lemma_encode_concat(a.drop_first(), b);
        assert((a + b).drop_first() =~= a.drop_first() + b);
        assert((a + b)[0] == a[0]);
        assert(encode_utf8(a + b) =~= encode_scalar(a[0] as u32) + encode_utf8(a.drop_first() + b));
        assert(encode_utf8(a) =~= encode_scalar(a[0] as u32) + encode_utf8(a.drop_first()));
    }
}

/// An ASCII character is encoded as its own code.
pub broadcast proof fn lemma_encode_ascii_char(c: char)
    requires
        (c as u32) < 128,
    ensures
        #[trigger] encode_utf8(seq![c]).len() == 1,
        encode_utf8(seq![c])[0] as int == c as int,
{
    let v = c as u32;
    lemma_encode_scalar_bytes(c);
    assert(seq![c].drop_first() =~= Seq::<char>::empty());
    assert(encode_utf8(seq![c]) =~= encode_scalar(v) + encode_utf8(Seq::<char>::empty()));
}

/// The bytes of a character's encoding are its own code when it is ASCII, and are
/// all at least 0x80 otherwise.
pub proof fn lemma_encode_scalar_bytes(c: char)
    ensures
        (c as u32) < 128 ==> encode_scalar(c as u32).len() == 1 && encode_scalar(c as u32)[0] as int
            == c as int,
        (c as u32) >= 128 ==> forall|k: int|
            0 <= k < encode_scalar(c as u32).len() ==> #[trigger] encode_scalar(c as u32)[k]
                >= 0x80,
        encode_scalar(c as u32).len() >= 1,
{
    let v = c as u32;
    assert(is_scalar(v));
    assert(v < 128 ==> ((v & 0x7F) as u8) as u32 == v) by (bit_vector);
    assert(0xC0 | ((v >> 6) & 0x1F) as u8 >= 0x80) by (bit_vector);
    assert(0xE0 | ((v >> 12) & 0x0F) as u8 >= 0x80) by (bit_vector);
    assert(0xF0 | ((v >> 18) & 0x7) as u8 >= 0x80) by (bit_vector);
    assert(0x80 | (v & 0x3F) as u8 >= 0x80) by (bit_vector);
    assert(0x80 | ((v >> 6) & 0x3F) as u8 >= 0x80) by (bit_vector);
    assert(0x80 | ((v >> 12) & 0x3F) as u8 >= 0x80) by (bit_vector);
    if has_width_1_encoding(v) {
        assert(encode_scalar(v) =~= seq![leading_byte_width_1(v)]);
    } else if has_width_2_encoding(v) {
        assert(encode_scalar(v) =~= seq![leading_byte_width_2(v), last_continuation_byte(v)]);
    } else if has_width_3_encoding(v) {
        assert(encode_scalar(v) =~= seq![
            leading_byte_width_3(v),
            second_last_continuation_byte(v),
            last_continuation_byte(v),
        ]);
    } else {
        assert(has_width_4_encoding(v));
        assert(encode_scalar(v) =~= seq![
            leading_byte_width_4(v),
            third_last_continuation_byte(v),
            second_last_continuation_byte(v),
            last_continuation_byte(v),
        ]);
    }
}

/// An ASCII byte in the encoding of `x` is the code of one of the characters of `x`.
pub proof fn lemma_ascii_byte_of_encoding(x: Seq<char>, j: int)
    requires
        0 <= j < encode_utf8(x).len(),
        encode_utf8(x)[j] < 0x80,
    ensures
        exists|i: int| 0 <= i < x.len() && #[trigger] x[i] as int == encode_utf8(x)[j] as int,
    decreases x.len(),
{
    if x.len() == 0 {
        assert(encode_utf8(x).len() == 0);
    } else {
        let first = encode_scalar(x[0] as u32);
        let rest = encode_utf8(x.drop_first());
        assert(encode_utf8(x) =~= first + rest);
        lemma_encode_scalar_bytes(x[0]);
        if j < first.len() {
            assert(first[j] == encode_utf8(x)[j]);
            assert((x[0] as u32) < 128);
            assert(j == 0);
            assert(x[0] as int == encode_utf8(x)[j] as int);
        } else {
            assert(rest[j - first.len()] == encode_utf8(x)[j]);
            lemma_ascii_byte_of_encoding(x.drop_first(), j - first.len());
            let k = choose|k: int|
                0 <= k < x.drop_first().len() && #[trigger] x.drop_first()[k] as int
                    == encode_utf8(x.drop_first())[j - first.len()] as int;
            assert(x[k + 1] as int == encode_utf8(x)[j] as int);
        }
    }
}

/// The encoding of a non-empty sequence starts with an ASCII byte exactly when the
/// sequence starts with an ASCII character, and then that byte is its code.
pub proof fn lemma_first_byte_of_encoding(x: Seq<char>)
    requires
        x.len() > 0,
    ensures
        encode_utf8(x).len() > 0,
        (encode_utf8(x)[0] < 0x80) <==> ((x[0] as u32) < 128),
        (x[0] as u32) < 128 ==> encode_utf8(x)[0] as int == x[0] as int,
{
    let first = encode_scalar(x[0] as u32);
    assert(encode_utf8(x) =~= first + encode_utf8(x.drop_first()));
    lemma_encode_scalar_bytes(x[0]);
    assert(encode_utf8(x)[0] == first[0]);
}

/// `<` immediately followed by `>`.
pub open spec fn has_empty_angle_pair(x: Seq<char>) -> bool {
    exists|i: int| 0 <= i && i + 1 < x.len() && x[i] == '<' && #[trigger] x[i + 1] == '>'
}

/// The byte `<` immediately followed by the byte `>`.
pub open spec fn has_empty_angle_pair_bytes(s: Seq<u8>) -> bool {
    exists|i: int| 0 <= i && i + 1 < s.len() && s[i] == 0x3C && #[trigger] s[i + 1] == 0x3E
}

/// The encoding holds the bytes `<>` only where the characters `<>` stand.
pub proof fn lemma_angle_pair_of_encoding(x: Seq<char>)
    ensures
        has_empty_angle_pair_bytes(encode_utf8(x)) ==> has_empty_angle_pair(x),
    decreases x.len(),
{
    if x.len() > 0 && has_empty_angle_pair_bytes(encode_utf8(x)) {
        let s = encode_utf8(x);
        let i = choose|i: int| 0 <= i && i + 1 < s.len() && s[i] == 0x3C && #[trigger] s[i + 1] == 0x3E;
        let first = encode_scalar(x[0] as u32);
        let tail = x.drop_first();
        let rest = encode_utf8(tail);
        assert(s =~= first + rest);
        lemma_encode_scalar_bytes(x[0]);
        if i < first.len() {
            assert(first[i] == s[i]);
            assert(i == 0 && first.len() == 1);
            assert(x[0] == '<');
            assert(rest[0] == s[1]);
            assert(tail.len() > 0);
            lemma_first_byte_of_encoding(tail);
            assert(tail[0] as int == 0x3E);
            assert(x[1] == tail[0]);
            assert(x[0int + 1] == '>');
        } else {
            assert(rest[i - first.len()] == s[i]);
            assert(rest[i - first.len() + 1] == s[i + 1]);
            assert(has_empty_angle_pair_bytes(rest));
            lemma_angle_pair_of_encoding(tail);
            let k = choose|k: int| 0 <= k && k + 1 < tail.len() && tail[k] == '<' && #[trigger] tail[k + 1] == '>';
            assert(x[k + 1] == '<');
            assert(x[k + 2] == '>');
            assert(x[(k + 1) + 1] == '>');
        }
    }
}

/// An ASCII character of `x` stands as its own code in the encoding of `x`.
pub proof fn lemma_ascii_char_in_encoding(x: Seq<char>, i: int)
    requires
        0 <= i < x.len(),
        (x[i] as u32) < 128,
    ensures
        exists|j: int|
            0 <= j < encode_utf8(x).len() && #[trigger] encode_utf8(x)[j] as int == x[i] as int,
    decreases x.len(),
{
    let first = encode_scalar(x[0] as u32);
    let rest = encode_utf8(x.drop_first());
    assert(encode_utf8(x) =~= first + rest);
    lemma_encode_scalar_bytes(x[0]);
    if i == 0 {
        assert(encode_utf8(x)[0] == first[0]);
    } else {
        assert(x.drop_first()[i - 1] == x[i]);
        lemma_ascii_char_in_encoding(x.drop_first(), i - 1);
        let j = choose|j: int|
            0 <= j < rest.len() && #[trigger] rest[j] as int == x.drop_first()[i - 1] as int;
        assert(encode_utf8(x)[first.len() + j] == rest[j]);
    }
}

} // verus!
