//! The names of objects: SHA-256 digests in hexadecimal.
use vstd::prelude::*;
use sha2::Digest;

verus! {

/// The SHA-256 digest of bytes.
pub uninterp spec fn sha256(data: Seq<u8>) -> Seq<u8>;

/// `sha2::Sha256` digests bytes: the digest is a function of the bytes alone
/// and has 32 bytes.
#[verifier::external_body]
pub(crate) fn sha256_digest(data: &[u8]) -> (r: Vec<u8>)
    ensures
        r@ == sha256(data@),
        r@.len() == 32,
{
    let mut hasher = sha2::Sha256::new();
    hasher.update(data);
    hasher.finalize().to_vec()
}

/// The lower case hexadecimal digit of a number below sixteen.
pub open spec fn hex_digit(d: int) -> char {
    if d < 10 {
        (48 + d) as char
    } else {
        (87 + d) as char
    }
}

/// Bytes in hexadecimal, two digits for each.
pub open spec fn hex(bytes: Seq<u8>) -> Seq<char>
    decreases bytes.len(),
{
    if bytes.len() == 0 {
        Seq::empty()
    } else {
        hex(bytes.drop_last()) + seq![
            hex_digit(bytes.last() as int / 16),
            hex_digit(bytes.last() as int % 16),
        ]
    }
}

/// Whether a character is a lower case hexadecimal digit.
pub open spec fn is_hex_digit(c: char) -> bool {
    '0' <= c <= '9' || 'a' <= c <= 'f'
}

/// Whether a text is the name of an object: 64 lower case hexadecimal digits.
pub open spec fn is_object_name(s: Seq<char>) -> bool {
    s.len() == 64 && forall|i: int| 0 <= i < s.len() ==> is_hex_digit(#[trigger] s[i])
}

/// The name of the object that `data` is the serialized form of.
pub open spec fn object_name(data: Seq<u8>) -> Seq<char> {
    hex(sha256(data))
}

/// Hexadecimal text has two digits for each byte.
pub proof fn lemma_hex(bytes: Seq<u8>)
    ensures
        hex(bytes).len() == 2 * bytes.len(),
        forall|i: int| 0 <= i < hex(bytes).len() ==> is_hex_digit(#[trigger] hex(bytes)[i]),
    decreases bytes.len(),
{
    if bytes.len() > 0 {
        lemma_hex(bytes.drop_last());
        let before = hex(bytes.drop_last());
        let b: u8 = bytes.last();
        lemma_hex_digit(b);
        assert forall|i: int| 0 <= i < hex(bytes).len() implies is_hex_digit(
            #[trigger] hex(bytes)[i],
        ) by {
            if i < before.len() {
                assert(hex(bytes)[i] == before[i]);
            }
        }
    }
}

proof fn lemma_hex_digit(b: u8)
    ensures
        is_hex_digit(hex_digit(b as int / 16)),
        is_hex_digit(hex_digit(b as int % 16)),
{
}

fn hex_digit_of(d: u8) -> (r: char)
    requires
        d < 16,
    ensures
        r == hex_digit(d as int),
{
    if d < 10 {
        (48 + d) as char
    } else {
        (87 + d) as char
    }
}

/// Bytes in hexadecimal.
pub fn to_hex(bytes: &Vec<u8>) -> (r: String)
    ensures
        r@ == hex(bytes@),
{
    let mut out = String::new();
    let mut i: usize = 0;
    assert(bytes@.take(0) =~= Seq::<u8>::empty());
    while i < bytes.len()
        invariant
            i <= bytes@.len(),
            out@ == hex(bytes@.take(i as int)),
        decreases bytes@.len() - i,
    {
        out.push(hex_digit_of(bytes[i] / 16));
        out.push(hex_digit_of(bytes[i] % 16));
        assert(bytes@.take(i + 1).drop_last() =~= bytes@.take(i as int));
        i = i + 1;
        assert(out@ =~= hex(bytes@.take(i as int)));
    }
    assert(bytes@.take(i as int) =~= bytes@);
    out
}

/// The name of the object with the given serialized form.
pub fn hash_of(data: &[u8]) -> (r: String)
    ensures
        r@ == object_name(data@),
        is_object_name(r@),
{
    let digest = sha256_digest(data);
    proof {
        lemma_hex(digest@);
    }
    to_hex(&digest)
}

// ---------------------------------------------------------------------------
// Laws

/// The number that a lower case hexadecimal digit stands for.
pub open spec fn digit_value(c: char) -> int {
    if c <= '9' {
        c as int - '0' as int
    } else {
        c as int - 'a' as int + 10
    }
}

/// The digits of a hash tell every byte of it: two lower case hexadecimal digits
/// for each, the higher one first.
pub proof fn hex_tells_every_byte(bytes: Seq<u8>, i: int)
    requires
        0 <= i < bytes.len(),
    ensures
        hex(bytes).len() == 2 * bytes.len(),
        is_hex_digit(hex(bytes)[2 * i]),
        is_hex_digit(hex(bytes)[2 * i + 1]),
        16 * digit_value(hex(bytes)[2 * i]) + digit_value(hex(bytes)[2 * i + 1]) == bytes[i],
    decreases bytes.len(),
{
    lemma_hex(bytes);
    let less = bytes.drop_last();
    lemma_hex(less);
    if i < less.len() {
        hex_tells_every_byte(less, i);
        assert(hex(bytes)[2 * i] == hex(less)[2 * i]);
        assert(hex(bytes)[2 * i + 1] == hex(less)[2 * i + 1]);
    } else {
        let b = bytes.last() as int;
        assert(hex(bytes)[2 * i] == hex_digit(b / 16));
        assert(hex(bytes)[2 * i + 1] == hex_digit(b % 16));
    }
}

/// The name of an object is the digest of its bytes: two hexadecimal digits for
/// each byte of the digest.
pub proof fn object_name_tells_the_digest(data: Seq<u8>, i: int)
    requires
        0 <= i < sha256(data).len(),
    ensures
        object_name(data).len() == 2 * sha256(data).len(),
        16 * digit_value(object_name(data)[2 * i]) + digit_value(object_name(data)[2 * i + 1])
            == sha256(data)[i],
{
    hex_tells_every_byte(sha256(data), i);
}

} // verus!
