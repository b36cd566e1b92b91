//! Text and its UTF-8 bytes.
use vstd::prelude::*;
use vstd::utf8::*;

verus! {

/// The text that `String::from_utf8_lossy` makes of bytes: each sequence that
/// is not UTF-8 becomes the replacement character.
pub uninterp spec fn lossy_chars(bytes: Seq<u8>) -> Seq<char>;

/// The text of any bytes: what they encode where they are UTF-8, else what
/// `String::from_utf8_lossy` makes of them.
pub open spec fn lossy_text(bytes: Seq<u8>) -> Seq<char> {
    if valid_utf8(bytes) {
        decode_utf8(bytes)
    } else {
        lossy_chars(bytes)
    }
}

/// `String::from_utf8` takes bytes that are UTF-8, and only those.
#[verifier::external_body]
pub(crate) fn text_of_bytes(bytes: Vec<u8>) -> (r: Option<String>)
    ensures
        match r {
            Some(s) => valid_utf8(bytes@) && s@ == decode_utf8(bytes@),
            None => !valid_utf8(bytes@),
        },
{
    String::from_utf8(bytes).ok()
}

/// `String::from_utf8_lossy` gives the text of any bytes; bytes that are UTF-8
/// give exactly the text that they encode.
#[verifier::external_body]
pub(crate) fn lossy_text_of_bytes(bytes: &[u8]) -> (r: String)
    ensures
        r@ == lossy_chars(bytes@),
        valid_utf8(bytes@) ==> r@ == decode_utf8(bytes@),
{
    String::from_utf8_lossy(bytes).into_owned()
}

/// The bytes of a text.
pub fn bytes_of(s: &str) -> (r: Vec<u8>)
    ensures
        r@ == encode_utf8(s@),
{
    vstd::slice::slice_to_vec(s.as_bytes())
}

/// The text of any bytes.
pub fn read_lossy(bytes: &[u8]) -> (r: String)
    ensures
        r@ == lossy_text(bytes@),
{
    lossy_text_of_bytes(bytes)
}

/// Appends the bytes of a text.
pub fn push_text(out: &mut Vec<u8>, s: &str)
    ensures
        final(out)@ == old(out)@ + encode_utf8(s@),
{
    push_bytes(out, s.as_bytes());
}

/// Appends bytes.
pub fn push_bytes(out: &mut Vec<u8>, bytes: &[u8])
    ensures
        final(out)@ == old(out)@ + bytes@,
{
    let mut copy = vstd::slice::slice_to_vec(bytes);
    out.append(&mut copy);
}

/// The bytes of two texts in a row are the bytes of the one, then those of
/// the other.
pub proof fn lemma_encode_concat(a: Seq<char>, b: Seq<char>)
    ensures
        encode_utf8(a + b) == encode_utf8(a) + encode_utf8(b),
    decreases a.len(),
{
    if a.len() == 0 {
        assert(a + b =~= b);
        assert(encode_utf8(a) =~= Seq::<u8>::empty());
        assert(encode_utf8(a) + encode_utf8(b) =~= encode_utf8(b));
    } else {
        assert((a + b).drop_first() =~= a.drop_first() + b);
        lemma_encode_concat(a.drop_first(), b);
        assert(encode_utf8(a + b) =~= encode_utf8(a) + encode_utf8(b));
    }
}

/// The byte of one ASCII character.
pub proof fn lemma_encode_ascii(c: char)
    requires
        c <= '\u{7f}',
    ensures
        encode_utf8(seq![c]) == seq![c as u8],
{
    let s = seq![c];
    is_ascii_chars_encode_utf8(s);
    assert(s[0] as u8 == encode_utf8(s)[0]);
    assert(encode_utf8(s) =~= seq![c as u8]);
}

proof fn lemma_scalar_bytes(v: u32, b: u8)
    by (bit_vector)
    requires
        b <= 0x7f,
        v != b,
        v <= 0x10ffff,
    ensures
        has_width_1_encoding(v) ==> leading_byte_width_1(v) != b,
        has_width_2_encoding(v) ==> leading_byte_width_2(v) != b,
        has_width_3_encoding(v) ==> leading_byte_width_3(v) != b,
        leading_byte_width_4(v) != b,
        last_continuation_byte(v) != b,
        second_last_continuation_byte(v) != b,
        third_last_continuation_byte(v) != b,
{
}

proof fn lemma_scalar_lacks(d: char, c: char)
    requires
        c <= '\u{7f}',
        c != d,
    ensures
        !encode_scalar(d as u32).contains(c as u8),
{
    char_is_scalar(d);
    lemma_scalar_bytes(d as u32, c as u8);
}

/// The byte of an ASCII character occurs only where the character does.
pub proof fn lemma_encode_lacks(s: Seq<char>, c: char)
    requires
        c <= '\u{7f}',
        !s.contains(c),
    ensures
        !encode_utf8(s).contains(c as u8),
    decreases s.len(),
{
    if s.len() > 0 {
        let t = s.drop_first();
        assert(!t.contains(c)) by {
            if t.contains(c) {
                let i = choose|i: int| 0 <= i < t.len() && t[i] == c;
                assert(s[i + 1] == c);
            }
        }
        lemma_encode_lacks(t, c);
        assert(s.contains(s[0]));
        let first = encode_scalar(s[0] as u32);
        lemma_scalar_lacks(s[0], c);
        let all = encode_utf8(s);
        if all.contains(c as u8) {
            let i = choose|i: int| 0 <= i < all.len() && all[i] == c as u8;
            if i < first.len() {
                assert(first[i] == c as u8);
            } else {
                assert(encode_utf8(t)[i - first.len()] == c as u8);
            }
        }
    }
}

} // verus!
