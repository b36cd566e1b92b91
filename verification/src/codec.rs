//! Objects as bytes: a header, `<kind> <length>` and NUL, then the payload.
use vstd::prelude::*;
use vstd::utf8::*;
use crate::commit::{
    commit_read_back, commit_round_trip, commit_text, is_plain_commit, parse_commit,
};
use crate::decimal::{digits, format_number, is_digit, lemma_digits_value};
use crate::error::BrassError;
use crate::hash::{hash_of, is_object_name, object_name};
use crate::object::{Blob, BrassObject, Commit, ObjectView, Timestamp, Tree};
use crate::text::{
    find_byte, first_word, is_white_space, leading_word, lemma_position, lemma_position_is,
    lemma_word_len, position, same_text, trim_start,
};
use crate::tree::{is_storable, parse_tree, tree_payload, tree_round_trip};
use crate::utf8::{bytes_of, lemma_encode_lacks, lossy_text, push_bytes, read_lossy};

verus! {

/// The kind of an object, as its header names it.
pub open spec fn kind(o: ObjectView) -> Seq<char> {
    match o {
        ObjectView::Blob(_) => "blob"@,
        ObjectView::Tree(_) => "tree"@,
        ObjectView::Commit(_) => "commit"@,
    }
}

/// The bytes of an object behind its header.
pub open spec fn payload(o: ObjectView) -> Seq<u8> {
    match o {
        ObjectView::Blob(data) => data,
        ObjectView::Tree(entries) => tree_payload(entries),
        ObjectView::Commit(c) => encode_utf8(commit_text(c)),
    }
}

/// The header of an object, without the NUL that ends it.
pub open spec fn header(kind: Seq<char>, length: nat) -> Seq<char> {
    kind.push(' ') + digits(length)
}

/// An object as bytes.
pub open spec fn object_bytes(o: ObjectView) -> Seq<u8> {
    encode_utf8(header(kind(o), payload(o).len())).push(0) + payload(o)
}

/// The object of a given kind with a given payload.
pub open spec fn parse_payload(kind: Seq<char>, payload: Seq<u8>, now: Timestamp) -> Result<
    ObjectView,
    BrassError,
> {
    if kind == "blob"@ {
        Ok(ObjectView::Blob(payload))
    } else if kind == "tree"@ {
        match parse_tree(payload) {
            Ok(entries) => Ok(ObjectView::Tree(entries)),
            Err(e) => Err(e),
        }
    } else if kind == "commit"@ {
        Ok(ObjectView::Commit(parse_commit(lossy_text(payload), now)))
    } else {
        Err(BrassError::UnknownType)
    }
}

/// The object that bytes stand for: the first word before the first NUL is its
/// kind, what follows the NUL its payload.
pub open spec fn parse_object(data: Seq<u8>, now: Timestamp) -> Result<ObjectView, BrassError> {
    let p = position(data, 0u8);
    if p >= data.len() {
        Err(BrassError::MissingHeader)
    } else {
        match first_word(lossy_text(data.take(p))) {
            None => Err(BrassError::MissingType),
            Some(kind) => parse_payload(kind, data.skip(p + 1), now),
        }
    }
}

impl BrassObject {
    /// The name of the object and its bytes.
    pub fn serialize(&self) -> (r: (String, Vec<u8>))
        ensures
            r.1@ == object_bytes(self@),
            r.0@ == object_name(r.1@),
            is_object_name(r.0@),
    {
        let (kind_text, payload_bytes) = match self {
            BrassObject::Blob(b) => ("blob", vstd::slice::slice_to_vec(b.data.as_slice())),
            BrassObject::Tree(t) => ("tree", t.serialize_payload()),
            BrassObject::Commit(c) => ("commit", bytes_of(c.serialize_payload().as_str())),
        };
        assert(kind_text@ == kind(self@));
        assert(payload_bytes@ == payload(self@));
        let mut head = kind_text.to_owned();
        head.push(' ');
        head.append(format_number(payload_bytes.len() as u64).as_str());
        let mut data = bytes_of(head.as_str());
        data.push(0);
        push_bytes(&mut data, payload_bytes.as_slice());
        let name = hash_of(data.as_slice());
        (name, data)
    }

    /// Reads an object from its bytes; what it says of time is `now`.
    pub fn deserialize(data: &[u8], now: Timestamp) -> (r: Result<BrassObject, BrassError>)
        ensures
            match r {
                Ok(o) => parse_object(data@, now) == Ok::<ObjectView, BrassError>(o@),
                Err(e) => parse_object(data@, now) == Err::<ObjectView, BrassError>(e),
            },
    {
        assert(data@.skip(0) =~= data@);
        let nul = find_byte(data, 0u8, 0);
        if nul == data.len() {
            return Err(BrassError::MissingHeader);
        }
        let head_bytes = vstd::slice::slice_subrange(data, 0, nul);
        let body = vstd::slice::slice_subrange(data, nul + 1, data.len());
        assert(head_bytes@ =~= data@.take(nul as int));
        assert(body@ =~= data@.skip(nul + 1));
        let head = read_lossy(head_bytes);
        match leading_word(head.as_str()) {
            None => Err(BrassError::MissingType),
            Some(word) => BrassObject::of_payload(word.as_str(), body, now),
        }
    }

    /// Reads the payload of an object of a given kind.
    pub fn of_payload(kind: &str, payload: &[u8], now: Timestamp) -> (r: Result<
        BrassObject,
        BrassError,
    >)
        ensures
            match r {
                Ok(o) => parse_payload(kind@, payload@, now) == Ok::<ObjectView, BrassError>(o@),
                Err(e) => parse_payload(kind@, payload@, now) == Err::<ObjectView, BrassError>(e),
            },
    {
        if same_text(kind, "blob") {
            Ok(BrassObject::Blob(Blob { data: vstd::slice::slice_to_vec(payload) }))
        } else if same_text(kind, "tree") {
            match Tree::deserialize_payload(payload) {
                Ok(t) => Ok(BrassObject::Tree(t)),
                Err(e) => Err(e),
            }
        } else if same_text(kind, "commit") {
            match Commit::deserialize_payload(payload, now) {
                Ok(c) => Ok(BrassObject::Commit(c)),
                Err(e) => Err(e),
            }
        } else {
            Err(BrassError::UnknownType)
        }
    }
}

/// Whether the bytes of an object keep all that it holds.
pub open spec fn is_sound(o: ObjectView) -> bool {
    match o {
        ObjectView::Blob(_) => true,
        ObjectView::Tree(entries) => forall|i: int|
            0 <= i < entries.len() ==> is_storable(#[trigger] entries[i]),
        ObjectView::Commit(c) => is_plain_commit(c),
    }
}

/// An object as it is read back at a given time.
pub open spec fn read_back(o: ObjectView, now: Timestamp) -> ObjectView {
    match o {
        ObjectView::Commit(c) => ObjectView::Commit(commit_read_back(c, now)),
        _ => o,
    }
}

proof fn lemma_kind(o: ObjectView)
    ensures
        kind(o).len() > 0,
        forall|i: int| 0 <= i < kind(o).len() ==> 'a' <= #[trigger] kind(o)[i] <= 'z',
        o is Tree ==> kind(o) != "blob"@,
        o is Commit ==> kind(o) != "blob"@ && kind(o) != "tree"@,
{
    reveal_strlit("blob");
    reveal_strlit("tree");
    reveal_strlit("commit");
    assert("blob"@[0] == 'b');
    assert("tree"@[0] == 't');
    assert("commit"@[0] == 'c');
}

proof fn lemma_header(o: ObjectView, length: nat)
    ensures
        !header(kind(o), length).contains('\0'),
        first_word(header(kind(o), length)) == Some(kind(o)),
{
    let h = header(kind(o), length);
    let k = kind(o);
    lemma_kind(o);
    lemma_digits_value(length);
    if h.contains('\0') {
        let i = choose|i: int| 0 <= i < h.len() && h[i] == '\0';
        if i < k.len() {
            assert(h[i] == k[i]);
        } else if i > k.len() {
            assert(h[i] == digits(length)[i - k.len() - 1]);
            assert(is_digit(digits(length)[i - k.len() - 1]));
        }
    }
    assert(h[0] == k[0]);
    assert(trim_start(h) == h);
    assert forall|i: int| 0 <= i < k.len() implies !is_white_space(h[i]) by {
        assert(h[i] == k[i]);
    }
    lemma_word_len(h, k.len() as int);
    assert(h.take(k.len() as int) =~= k);
}

/// An object is read back from its bytes.
pub proof fn object_round_trip(o: ObjectView, now: Timestamp)
    requires
        is_sound(o),
    ensures
        parse_object(object_bytes(o), now) == Ok::<ObjectView, BrassError>(read_back(o, now)),
{
    let data = object_bytes(o);
    let h = header(kind(o), payload(o).len());
    lemma_header(o, payload(o).len());
    lemma_encode_lacks(h, '\0');
    let p = encode_utf8(h).len() as int;
    assert forall|i: int| 0 <= i < p implies data[i] != 0u8 by {
        assert(data[i] == encode_utf8(h)[i]);
        assert(encode_utf8(h).contains(encode_utf8(h)[i]));
    }
    lemma_position_is(data, 0u8, p);
    assert(data.take(p) =~= encode_utf8(h));
    assert(data.skip(p + 1) =~= payload(o));
    encode_utf8_valid_utf8(h);
    encode_utf8_decode_utf8(h);
    lemma_kind(o);
    match o {
        ObjectView::Blob(_) => {},
        ObjectView::Tree(entries) => {
            tree_round_trip(entries);
        },
        ObjectView::Commit(c) => {
            encode_utf8_valid_utf8(commit_text(c));
            encode_utf8_decode_utf8(commit_text(c));
            commit_round_trip(c, now);
        },
    }
}

/// An object is stored as its kind, the length of its payload and a NUL, and then
/// the payload.
pub proof fn stored_form_tells_kind_and_length(o: ObjectView)
    ensures
        object_bytes(o) == encode_utf8(
            (match o {
                ObjectView::Blob(_) => "blob "@,
                ObjectView::Tree(_) => "tree "@,
                ObjectView::Commit(_) => "commit "@,
            }) + digits(payload(o).len()),
        ) + seq![0u8] + payload(o),
        o matches ObjectView::Blob(data) ==> payload(o) == data,
{
    reveal_strlit("blob");
    reveal_strlit("blob ");
    reveal_strlit("tree");
    reveal_strlit("tree ");
    reveal_strlit("commit");
    reveal_strlit("commit ");
    assert("blob"@.push(' ') =~= "blob "@);
    assert("tree"@.push(' ') =~= "tree "@);
    assert("commit"@.push(' ') =~= "commit "@);
    let front = encode_utf8(header(kind(o), payload(o).len()));
    assert(front.push(0u8) =~= front + seq![0u8]);
}

/// Stored bytes are read by the first word before their first NUL: a blob is all
/// that follows, whatever it holds, and a word that is no kind is refused.
pub proof fn stored_form_is_read_by_its_kind(head: Seq<u8>, body: Seq<u8>, now: Timestamp)
    requires
        !head.contains(0u8),
    ensures
        parse_object(head, now) == Err::<ObjectView, BrassError>(BrassError::MissingHeader),
        ({
            let read = parse_object(head + seq![0u8] + body, now);
            match first_word(lossy_text(head)) {
                None => read == Err::<ObjectView, BrassError>(BrassError::MissingType),
                Some(word) => {
                    &&& word == "blob"@ ==> read == Ok::<ObjectView, BrassError>(
                        ObjectView::Blob(body),
                    )
                    &&& word == "tree"@ ==> (match parse_tree(body) {
                        Ok(entries) => read == Ok::<ObjectView, BrassError>(
                            ObjectView::Tree(entries),
                        ),
                        Err(e) => read == Err::<ObjectView, BrassError>(e),
                    })
                    &&& word == "commit"@ ==> read == Ok::<ObjectView, BrassError>(
                        ObjectView::Commit(parse_commit(lossy_text(body), now)),
                    )
                    &&& word != "blob"@ && word != "tree"@ && word != "commit"@ ==> read
                        == Err::<ObjectView, BrassError>(BrassError::UnknownType)
                },
            }
        }),
{
    reveal_strlit("blob");
    reveal_strlit("tree");
    reveal_strlit("commit");
    lemma_position(head, 0u8);
    let data = head + seq![0u8] + body;
    let n = head.len() as int;
    assert forall|i: int| 0 <= i < n implies data[i] != 0u8 by {
        assert(head.contains(head[i]));
    }
    lemma_position_is(data, 0u8, n);
    assert(data.take(n) =~= head);
    assert(data.skip(n + 1) =~= body);
    assert("blob"@[0] == 'b' && "tree"@[0] == 't' && "commit"@[0] == 'c');
}

} // verus!
