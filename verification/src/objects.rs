//! Where objects are kept: loose objects, one file each, compressed.
use vstd::prelude::*;
use vstd::utf8::*;
use crate::codec::{is_sound, object_bytes, object_round_trip, parse_object, read_back};
use crate::error::BrassError;
use crate::hash::{hash_of, is_hex_digit, is_object_name, object_name};
use crate::object::{BrassObject, ObjectView, Timestamp};
use crate::paths::{join, join_all, join_paths};
use crate::text::{chars_of, string_of};
use crate::utf8::{bytes_of, lemma_encode_concat, text_of_bytes};
use crate::zlib::{compress, decompress, zlib_stream};

verus! {

/// A loose object that is to be written unless it is there already.
#[derive(Debug, Clone, PartialEq, Eq)]
pub struct LooseObject {
    /// The name of the object.
    pub hash: String,
    /// The directory of its file.
    pub directory: String,
    /// Its file.
    pub path: String,
    /// The bytes of the object, not compressed.
    pub data: Vec<u8>,
}

/// The directory of the loose object of a given name.
pub open spec fn loose_directory(brass_dir: Seq<char>, hash: Seq<char>) -> Seq<char> {
    join(join(brass_dir, "objects"@), hash.take(2))
}

/// The file of the loose object of a given name.
pub open spec fn loose_path(brass_dir: Seq<char>, hash: Seq<char>) -> Seq<char> {
    join(loose_directory(brass_dir, hash), hash.skip(2))
}

/// Whether an object is named after its bytes and kept where its name says.
pub open spec fn is_in_place(o: LooseObject, brass_dir: Seq<char>) -> bool {
    &&& o.hash@ == object_name(o.data@)
    &&& is_object_name(o.hash@)
    &&& o.directory@ == loose_directory(brass_dir, o.hash@)
    &&& o.path@ == loose_path(brass_dir, o.hash@)
}

/// A hash cut behind its second byte; not where the hash is shorter or a
/// character of it would be cut through.
pub open spec fn split_hash(hash: Seq<char>) -> Option<(Seq<char>, Seq<char>)> {
    let bytes = encode_utf8(hash);
    if bytes.len() >= 2 && valid_utf8(bytes.take(2)) && valid_utf8(bytes.skip(2)) {
        Some((decode_utf8(bytes.take(2)), decode_utf8(bytes.skip(2))))
    } else {
        None
    }
}

/// The file in which the object of any name is looked for.
pub open spec fn lookup_path(brass_dir: Seq<char>, hash: Seq<char>) -> Option<Seq<char>> {
    match split_hash(hash) {
        Some((first, rest)) => Some(join(join(join(brass_dir, "objects"@), first), rest)),
        None => None,
    }
}

/// The object that stored bytes hold, or why they hold none. Where nothing is
/// stored there is no object.
pub open spec fn parse_stored(stored: Option<Seq<u8>>, now: Timestamp) -> Result<
    ObjectView,
    BrassError,
> {
    match stored {
        None => Err(BrassError::ObjectNotFound),
        Some(bytes) => match zlib_stream(bytes) {
            None => Err(BrassError::CorruptStream),
            Some((data, _)) => parse_object(data, now),
        },
    }
}

impl LooseObject {
    /// The loose object that holds some bytes.
    pub fn of_bytes(brass_dir: &str, data: Vec<u8>) -> (r: LooseObject)
        ensures
            r.data@ == data@,
            is_in_place(r, brass_dir@),
    {
        let hash = hash_of(data.as_slice());
        let cs = chars_of(hash.as_str());
        let first = string_of(&cs, 0, 2);
        let rest = string_of(&cs, 2, cs.len());
        assert(first@ =~= hash@.take(2));
        assert(rest@ =~= hash@.skip(2));
        let directory = join_all(brass_dir, "objects", first.as_str());
        let path = join_paths(directory.as_str(), rest.as_str());
        LooseObject { hash, directory, path, data }
    }

    /// The bytes that are written to the file.
    pub fn stored(&self) -> (r: Vec<u8>)
        ensures
            r@.len() > 0,
            forall|rest: Seq<u8>| #[trigger]
                zlib_stream(r@ + rest) == Some((self.data@, r@.len())),
    {
        compress(self.data.as_slice())
    }
}

/// The file in which the object of a given name is looked for.
pub fn object_path(brass_dir: &str, hash: &str) -> (r: Option<String>)
    ensures
        match r {
            Some(path) => lookup_path(brass_dir@, hash@) == Some(path@),
            None => lookup_path(brass_dir@, hash@) is None,
        },
{
    let bytes = bytes_of(hash);
    if bytes.len() < 2 {
        return None;
    }
    let all = bytes.as_slice();
    let first = vstd::slice::slice_to_vec(vstd::slice::slice_subrange(all, 0, 2));
    let rest = vstd::slice::slice_to_vec(vstd::slice::slice_subrange(all, 2, all.len()));
    assert(first@ =~= bytes@.take(2));
    assert(rest@ =~= bytes@.skip(2));
    match (text_of_bytes(first), text_of_bytes(rest)) {
        (Some(a), Some(b)) => Some(
            join_paths(join_all(brass_dir, "objects", a.as_str()).as_str(), b.as_str()),
        ),
        _ => None,
    }
}

/// Reads an object from the stored bytes that were found for it, if any were.
pub fn read_stored(stored: Option<&[u8]>, now: Timestamp) -> (r: Result<BrassObject, BrassError>)
    ensures
        ({
            let want = parse_stored(
                match stored {
                    Some(bytes) => Some(bytes@),
                    None => None,
                },
                now,
            );
            match r {
                Ok(o) => want == Ok::<ObjectView, BrassError>(o@),
                Err(e) => want == Err::<ObjectView, BrassError>(e),
            }
        }),
{
    match stored {
        None => Err(BrassError::ObjectNotFound),
        Some(bytes) => match decompress(bytes) {
            None => Err(BrassError::CorruptStream),
            Some((data, _)) => BrassObject::deserialize(data.as_slice(), now),
        },
    }
}

// ---------------------------------------------------------------------------
// Laws

proof fn lemma_ascii_name(s: Seq<char>)
    requires
        forall|i: int| 0 <= i < s.len() ==> is_hex_digit(#[trigger] s[i]),
    ensures
        encode_utf8(s).len() == s.len(),
{
    assert(is_ascii_chars(s)) by {
        assert forall|i: int| 0 <= i < s.len() implies '\0' <= #[trigger] s[i] <= '\u{7f}' by {
            assert(is_hex_digit(s[i]));
        }
    }
    is_ascii_chars_encode_utf8(s);
}

/// A written object is looked for where it was written.
pub proof fn written_object_is_looked_up(brass_dir: Seq<char>, hash: Seq<char>)
    requires
        is_object_name(hash),
    ensures
        lookup_path(brass_dir, hash) == Some(loose_path(brass_dir, hash)),
{
    let a = hash.take(2);
    let b = hash.skip(2);
    assert(hash =~= a + b);
    lemma_encode_concat(a, b);
    assert forall|i: int| 0 <= i < a.len() implies is_hex_digit(#[trigger] a[i]) by {
        assert(a[i] == hash[i]);
    }
    lemma_ascii_name(a);
    let bytes = encode_utf8(hash);
    assert(bytes.take(2) =~= encode_utf8(a));
    assert(bytes.skip(2) =~= encode_utf8(b));
    encode_utf8_valid_utf8(a);
    encode_utf8_valid_utf8(b);
    encode_utf8_decode_utf8(a);
    encode_utf8_decode_utf8(b);
}

/// An object is read back from what was written for it.
pub proof fn stored_object_is_read_back(o: ObjectView, stored: Seq<u8>, now: Timestamp)
    requires
        is_sound(o),
        zlib_stream(stored) == Some((object_bytes(o), stored.len())),
    ensures
        parse_stored(Some(stored), now) == Ok::<ObjectView, BrassError>(read_back(o, now)),
{
    object_round_trip(o, now);
}

/// A loose object is a file under `objects`: the first two characters of its name
/// are the directory, the rest is the file.
pub proof fn objects_have_their_own_places(brass_dir: Seq<char>, hash: Seq<char>)
    requires
        brass_dir.len() > 0,
        brass_dir.last() != '/',
        is_object_name(hash),
    ensures
        loose_path(brass_dir, hash) == brass_dir + "/objects/"@ + hash.take(2) + "/"@ + hash.skip(
            2,
        ),
        lookup_path(brass_dir, hash) == Some(loose_path(brass_dir, hash)),
{
    reveal_strlit("/");
    reveal_strlit("objects");
    reveal_strlit("/objects/");
    assert(is_hex_digit(hash[0]));
    assert(is_hex_digit(hash[1]));
    assert(is_hex_digit(hash[2]));
    let base = brass_dir.push('/') + "objects"@;
    assert(base.last() == 's');
    assert(join(brass_dir, "objects"@) == base);
    let dir = base.push('/') + hash.take(2);
    assert(hash.take(2)[0] == hash[0]);
    assert(dir.last() == hash[1]);
    assert(loose_directory(brass_dir, hash) == dir);
    assert(hash.skip(2)[0] == hash[2]);
    assert(dir.push('/') + hash.skip(2) =~= brass_dir + "/objects/"@ + hash.take(2) + "/"@
        + hash.skip(2));
    written_object_is_looked_up(brass_dir, hash);
}

/// What is stored is an object if it is there, is a sound stream, and the content
/// of the stream is the bytes of an object; otherwise what is wrong is told.
pub proof fn stored_object_is_its_stream(
    stored: Seq<u8>,
    content: Seq<u8>,
    taken: nat,
    now: Timestamp,
)
    ensures
        parse_stored(None, now) == Err::<ObjectView, BrassError>(BrassError::ObjectNotFound),
        zlib_stream(stored) is None ==> parse_stored(Some(stored), now) == Err::<
            ObjectView,
            BrassError,
        >(BrassError::CorruptStream),
        zlib_stream(stored) == Some((content, taken)) ==> parse_stored(Some(stored), now)
            == parse_object(content, now),
{
}

/// An object is looked for under its name, split behind the first two characters,
/// whatever ASCII characters the name holds; a shorter name is looked for nowhere.
pub proof fn names_are_split_behind_two(brass_dir: Seq<char>, hash: Seq<char>)
    requires
        is_ascii_chars(hash),
    ensures
        lookup_path(brass_dir, hash) == (if hash.len() < 2 {
            None
        } else {
            Some(loose_path(brass_dir, hash))
        }),
{
    is_ascii_chars_encode_utf8(hash);
    if hash.len() >= 2 {
        let a = hash.take(2);
        let b = hash.skip(2);
        assert(hash =~= a + b);
        lemma_encode_concat(a, b);
        assert(is_ascii_chars(a)) by {
            assert forall|i: int| 0 <= i < a.len() implies '\0' <= #[trigger] a[i] <= '\u{7f}' by {
                assert(a[i] == hash[i]);
            }
        }
        is_ascii_chars_encode_utf8(a);
        let bytes = encode_utf8(hash);
        assert(bytes.take(2) =~= encode_utf8(a));
        assert(bytes.skip(2) =~= encode_utf8(b));
        encode_utf8_valid_utf8(a);
        encode_utf8_valid_utf8(b);
        encode_utf8_decode_utf8(a);
        encode_utf8_decode_utf8(b);
    }
}

} // verus!
