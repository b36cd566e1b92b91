//! Packs: stored objects one after the other in one file, and an index with
//! their places. Every stored object is a zlib stream with an end of its own,
//! so that a pack can be read without its index.
use vstd::prelude::*;
use crate::decimal::{
    digits, format_number, is_digit, lemma_digits_value, lemma_number_of_digits, number,
    parse_number,
};
use crate::error::BrassError;
use crate::objects::{is_in_place, LooseObject};
use crate::paths::{join, join_all};
use crate::text::{
    after_prefix, fields, lemma_lines_concat, lemma_pieces_first, lemma_position, lemma_position_is,
    lines, position, prefix_and_rest_are_the_text, same_text, split_fields, split_lines, views,
};
use crate::utf8::push_bytes;
use crate::zlib::{decompress, zlib_stream};

verus! {

/// An object that is to be packed: its name, and the bytes of its file.
#[derive(Debug, Clone, PartialEq, Eq)]
pub struct StoredObject {
    pub hash: String,
    pub stored: Vec<u8>,
}

/// A `StoredObject` as a mathematical value.
#[verifier::ext_equal]
pub struct StoredView {
    pub hash: Seq<char>,
    pub stored: Seq<u8>,
}

impl View for StoredObject {
    type V = StoredView;

    open spec fn view(&self) -> StoredView {
        StoredView { hash: self.hash@, stored: self.stored@ }
    }
}

/// Objects as mathematical values.
pub open spec fn stored_views(objects: Seq<StoredObject>) -> Seq<StoredView> {
    objects.map_values(|o: StoredObject| o@)
}

/// A pack that is to be written.
#[derive(Debug, Clone, PartialEq, Eq)]
pub struct Pack {
    /// How many objects it holds.
    pub count: usize,
    pub pack_path: String,
    pub idx_path: String,
    pub data: Vec<u8>,
    pub index: String,
}

/// The bytes of a pack.
pub open spec fn pack_data(objects: Seq<StoredView>) -> Seq<u8>
    decreases objects.len(),
{
    if objects.len() == 0 {
        Seq::empty()
    } else {
        pack_data(objects.drop_last()) + objects.last().stored
    }
}

/// A line of the index of a pack, without its line end.
pub open spec fn index_line(hash: Seq<char>, offset: nat, len: nat) -> Seq<char> {
    hash + "\t"@ + digits(offset) + "\t"@ + digits(len)
}

/// The index of a pack: for each object its name, where it begins, and how many
/// bytes it takes up.
pub open spec fn pack_index(objects: Seq<StoredView>) -> Seq<char>
    decreases objects.len(),
{
    if objects.len() == 0 {
        Seq::empty()
    } else {
        let before = objects.drop_last();
        pack_index(before) + index_line(
            objects.last().hash,
            pack_data(before).len(),
            objects.last().stored.len(),
        ) + "\n"@
    }
}

/// The place of an object that the first line for it gives: where it begins and
/// how many bytes it takes up. Lines without exactly three fields do not count.
pub open spec fn pack_lookup(ls: Seq<Seq<char>>, hash: Seq<char>) -> Result<
    Option<(nat, nat)>,
    BrassError,
>
    decreases ls.len(),
{
    if ls.len() == 0 {
        Ok(None)
    } else {
        let parts = fields(ls[0], '\t');
        if parts.len() == 3 && parts[0] == hash {
            match (number(parts[1], u64::MAX as nat), number(parts[2], usize::MAX as nat)) {
                (Some(offset), Some(len)) => Ok(Some((offset, len))),
                _ => Err(BrassError::PackIndexNotANumber),
            }
        } else {
            pack_lookup(ls.drop_first(), hash)
        }
    }
}

/// The place of an object that the index of a pack gives.
pub fn find_in_index(content: &str, hash: &str) -> (r: Result<Option<(u64, usize)>, BrassError>)
    ensures
        pack_lookup(lines(content@), hash@) == (match r {
            Ok(Some((offset, len))) => Ok(Some((offset as nat, len as nat))),
            Ok(None) => Ok(None),
            Err(e) => Err(e),
        }),
{
    let ls = split_lines(content);
    let ghost lv = views(ls@);
    let mut i: usize = 0;
    assert(lv.skip(0) =~= lv);
    while i < ls.len()
        invariant
            i <= ls@.len(),
            lv == views(ls@),
            lv == lines(content@),
            pack_lookup(lv, hash@) == pack_lookup(lv.skip(i as int), hash@),
        decreases ls@.len() - i,
    {
        assert(lv.skip(i as int)[0] == ls@[i as int]@);
        assert(lv.skip(i as int).drop_first() =~= lv.skip(i + 1));
        let parts = split_fields(ls[i].as_str(), '\t');
        let ghost pv = views(parts@);
        assert(pv.len() == parts@.len());
        if parts.len() == 3 {
            assert(pv[0] == parts@[0]@ && pv[1] == parts@[1]@ && pv[2] == parts@[2]@);
            if same_text(parts[0].as_str(), hash) {
                let offset = parse_number(parts[1].as_str(), u64::MAX);
                let len = parse_number(parts[2].as_str(), usize::MAX as u64);
                return match (offset, len) {
                    (Some(offset), Some(len)) => Ok(Some((offset, len as usize))),
                    _ => Err(BrassError::PackIndexNotANumber),
                };
            }
        }
        i = i + 1;
    }
    assert(lv.skip(i as int) =~= Seq::empty());
    Ok(None)
}

/// The name of a pack.
pub open spec fn pack_name(secs: u64) -> Seq<char> {
    "pack-"@ + digits(secs as nat)
}

/// Puts stored objects together into a pack that is named after the time.
pub fn build_pack(brass_dir: &str, objects: &Vec<StoredObject>, secs: u64) -> (r: Result<
    Pack,
    BrassError,
>)
    ensures
        match r {
            Ok(p) => {
                let all = stored_views(objects@);
                &&& objects@.len() > 0
                &&& p.count == objects@.len()
                &&& p.data@ == pack_data(all)
                &&& p.index@ == pack_index(all)
                &&& p.pack_path@ == join(join(brass_dir@, "packs"@), pack_name(secs) + ".pack"@)
                &&& p.idx_path@ == join(join(brass_dir@, "packs"@), pack_name(secs) + ".idx"@)
            },
            Err(e) => objects@.len() == 0 && e == BrassError::NothingToPack,
        },
{
    if objects.len() == 0 {
        return Err(BrassError::NothingToPack);
    }
    let ghost all = stored_views(objects@);
    let mut data: Vec<u8> = Vec::new();
    let mut index = String::new();
    let mut i: usize = 0;
    assert(all.take(0) =~= Seq::empty());
    while i < objects.len()
        invariant
            i <= objects@.len(),
            all == stored_views(objects@),
            data@ == pack_data(all.take(i as int)),
            index@ == pack_index(all.take(i as int)),
        decreases objects@.len() - i,
    {
        let ghost before = index@;
        assert(all.take(i + 1).drop_last() =~= all.take(i as int));
        assert(all.take(i + 1).last() == objects@[i as int]@);
        index.append(objects[i].hash.as_str());
        index.append("\t");
        index.append(format_number(data.len() as u64).as_str());
        index.append("\t");
        index.append(format_number(objects[i].stored.len() as u64).as_str());
        index.append("\n");
        assert(index@ =~= before + index_line(
            objects@[i as int].hash@,
            data@.len(),
            objects@[i as int].stored@.len(),
        ) + "\n"@);
        push_bytes(&mut data, objects[i].stored.as_slice());
        i = i + 1;
    }
    assert(all.take(i as int) =~= all);
    let mut name = "pack-".to_owned();
    name.append(format_number(secs).as_str());
    let mut pack_file = name.clone();
    pack_file.append(".pack");
    let mut idx_file = name;
    idx_file.append(".idx");
    Ok(
        Pack {
            count: objects.len(),
            pack_path: join_all(brass_dir, "packs", pack_file.as_str()),
            idx_path: join_all(brass_dir, "packs", idx_file.as_str()),
            data,
            index,
        },
    )
}

/// What the streams of a pack hold, one after the other, up to the first that
/// is not sound; and what is wrong with that one.
pub open spec fn unpack(data: Seq<u8>) -> (Seq<Seq<u8>>, Option<BrassError>)
    decreases data.len(),
{
    if data.len() == 0 {
        (Seq::empty(), None)
    } else {
        match zlib_stream(data) {
            None => (Seq::empty(), Some(BrassError::CorruptPack)),
            Some((content, taken)) => if taken == 0 || taken > data.len() {
                (Seq::empty(), Some(BrassError::PackWithoutProgress))
            } else {
                let rest = unpack(data.skip(taken as int));
                (seq![content] + rest.0, rest.1)
            },
        }
    }
}

/// The bytes of loose objects.
pub open spec fn contents(objects: Seq<LooseObject>) -> Seq<Seq<u8>> {
    objects.map_values(|o: LooseObject| o.data@)
}

/// The loose object of a stream of a pack and how many bytes the stream takes
/// up, given what a decoder made of it: the content and the number of bytes.
pub fn take_stream(brass_dir: &str, decoded: Option<(Vec<u8>, usize)>) -> (r: Result<
    (LooseObject, usize),
    BrassError,
>)
    ensures
        match decoded {
            None => r == Err::<(LooseObject, usize), BrassError>(BrassError::CorruptPack),
            Some((content, taken)) => if taken == 0 {
                r == Err::<(LooseObject, usize), BrassError>(BrassError::PackWithoutProgress)
            } else {
                r matches Ok((object, n)) && object.data@ == content@ && n == taken && is_in_place(
                    object,
                    brass_dir@,
                )
            },
        },
{
    match decoded {
        None => Err(BrassError::CorruptPack),
        Some((content, taken)) => {
            if taken == 0 {
                Err(BrassError::PackWithoutProgress)
            } else {
                Ok((LooseObject::of_bytes(brass_dir, content), taken))
            }
        },
    }
}

/// The objects of a pack as loose objects, up to the first that is not sound,
/// and what is wrong with that one.
pub fn unpack_objects(brass_dir: &str, pack: &[u8]) -> (r: (Vec<LooseObject>, Option<BrassError>))
    ensures
        contents(r.0@) == unpack(pack@).0,
        r.1 == unpack(pack@).1,
        forall|i: int| 0 <= i < r.0@.len() ==> is_in_place(#[trigger] r.0@[i], brass_dir@),
{
    let mut objects: Vec<LooseObject> = Vec::new();
    let mut at: usize = 0;
    assert(pack@.skip(0) =~= pack@);
    assert(contents(objects@) + unpack(pack@).0 =~= unpack(pack@).0);
    while at < pack.len()
        invariant
            at <= pack@.len(),
            unpack(pack@).0 == contents(objects@) + unpack(pack@.skip(at as int)).0,
            unpack(pack@).1 == unpack(pack@.skip(at as int)).1,
            forall|i: int|
                0 <= i < objects@.len() ==> is_in_place(#[trigger] objects@[i], brass_dir@),
        decreases pack@.len() - at,
    {
        let ghost rest = pack@.skip(at as int);
        let ghost before = contents(objects@);
        let tail = vstd::slice::slice_subrange(pack, at, pack.len());
        assert(tail@ =~= rest);
        match take_stream(brass_dir, decompress(tail)) {
            Err(e) => {
                assert(before + Seq::empty() =~= before);
                return (objects, Some(e));
            },
            Ok((object, taken)) => {
                objects.push(object);
                proof {
                    assert(rest.skip(taken as int) =~= pack@.skip(at + taken));
                    assert(contents(objects@) =~= before.push(object.data@));
                    let more = unpack(pack@.skip(at + taken)).0;
                    assert(before + (seq![object.data@] + more) =~= contents(objects@) + more);
                }
                at = at + taken;
            },
        }
    }
    assert(contents(objects@) + Seq::empty() =~= contents(objects@));
    (objects, None)
}

// ---------------------------------------------------------------------------
// Laws

/// Whether stored bytes are one zlib stream that holds the given content,
/// whatever follows.
pub open spec fn is_stream_of(stored: Seq<u8>, content: Seq<u8>) -> bool {
    &&& stored.len() > 0
    &&& forall|rest: Seq<u8>| #[trigger]
        zlib_stream(stored + rest) == Some((content, stored.len()))
}

proof fn lemma_pack_data_front(objects: Seq<StoredView>)
    requires
        objects.len() > 0,
    ensures
        pack_data(objects) == objects[0].stored + pack_data(objects.drop_first()),
    decreases objects.len(),
{
    if objects.len() == 1 {
        assert(objects.drop_last() =~= Seq::empty());
        assert(objects.drop_first() =~= Seq::empty());
        assert(pack_data(objects.drop_last()) =~= Seq::<u8>::empty());
        assert(pack_data(objects) =~= objects[0].stored);
    } else {
        lemma_pack_data_front(objects.drop_last());
        assert(objects.drop_last().drop_first() =~= objects.drop_first().drop_last());
        assert(pack_data(objects) =~= objects[0].stored + pack_data(objects.drop_first()));
    }
}

/// A pack gives back, in their order, the contents of all objects that were put
/// into it.
pub proof fn pack_round_trip(objects: Seq<StoredView>, held: Seq<Seq<u8>>)
    requires
        objects.len() == held.len(),
        forall|i: int|
            0 <= i < objects.len() ==> is_stream_of(#[trigger] objects[i].stored, held[i]),
    ensures
        unpack(pack_data(objects)) == (held, None::<BrassError>),
    decreases objects.len(),
{
    if objects.len() == 0 {
        assert(held =~= Seq::empty());
    } else {
        let rest = objects.drop_first();
        let more = held.drop_first();
        assert forall|i: int| 0 <= i < rest.len() implies is_stream_of(
            #[trigger] rest[i].stored,
            more[i],
        ) by {
            assert(rest[i] == objects[i + 1]);
            assert(is_stream_of(objects[i + 1].stored, held[i + 1]));
        }
        pack_round_trip(rest, more);
        lemma_pack_data_front(objects);
        let first = objects[0].stored;
        assert(is_stream_of(first, held[0]));
        assert(zlib_stream(first + pack_data(rest)) == Some((held[0], first.len())));
        assert((first + pack_data(rest)).skip(first.len() as int) =~= pack_data(rest));
        assert(seq![held[0]] + more =~= held);
    }
}

/// The lines of the index of a pack.
pub open spec fn index_lines(objects: Seq<StoredView>) -> Seq<Seq<char>> {
    Seq::new(
        objects.len(),
        |i: int|
            index_line(
                objects[i].hash,
                pack_data(objects.take(i)).len(),
                objects[i].stored.len(),
            ),
    )
}

/// Whether a hash can stand in the index of a pack.
pub open spec fn is_plain_hash(hash: Seq<char>) -> bool {
    !hash.contains('\t') && !hash.contains('\n')
}

#[verifier::rlimit(40)]
proof fn lemma_index_line(hash: Seq<char>, offset: nat, len: nat)
    requires
        is_plain_hash(hash),
    ensures
        !index_line(hash, offset, len).contains('\n'),
        index_line(hash, offset, len).last() != '\r',
        fields(index_line(hash, offset, len), '\t') == seq![hash, digits(offset), digits(len)],
{
    reveal_strlit("\t");
    lemma_digits_value(offset);
    lemma_digits_value(len);
    let a = digits(offset);
    let b = digits(len);
    let line = index_line(hash, offset, len);
    let p = hash.len() as int;
    let q = a.len() as int;
    let tail = a + "\t"@ + b;
    assert(line =~= hash + "\t"@ + tail);
    assert(line.last() == b.last());
    assert(is_digit(b.last()));
    assert(!line.contains('\n')) by {
        if line.contains('\n') {
            let i = choose|i: int| 0 <= i < line.len() && line[i] == '\n';
            if i < p {
                assert(hash.contains(hash[i]));
            } else if p < i < p + 1 + q {
                assert(is_digit(a[i - p - 1]));
            } else if i > p + 1 + q {
                assert(is_digit(b[i - p - q - 2]));
            }
        }
    }
    assert forall|i: int| 0 <= i < p implies line[i] != '\t' by {
        assert(hash.contains(hash[i]));
    }
    lemma_position_is(line, '\t', p);
    assert(line.take(p) =~= hash);
    assert(line.skip(p + 1) =~= tail);
    assert forall|i: int| 0 <= i < q implies tail[i] != '\t' by {
        assert(is_digit(a[i]));
    }
    lemma_position_is(tail, '\t', q);
    assert(tail.take(q) =~= a);
    assert(tail.skip(q + 1) =~= b);
    assert forall|i: int| 0 <= i < b.len() implies b[i] != '\t' by {
        assert(is_digit(b[i]));
    }
    lemma_position_is(b, '\t', b.len() as int);
    assert(fields(b, '\t') == seq![b]);
    assert(fields(tail, '\t') =~= seq![a, b]);
    assert(fields(line, '\t') =~= seq![hash, a, b]);
}

#[verifier::rlimit(40)]
proof fn lemma_index_lines(objects: Seq<StoredView>)
    requires
        forall|i: int| 0 <= i < objects.len() ==> is_plain_hash(#[trigger] objects[i].hash),
    ensures
        lines(pack_index(objects)) == index_lines(objects),
        pack_index(objects).len() > 0 ==> pack_index(objects).last() == '\n',
    decreases objects.len(),
{
    reveal_strlit("\n");
    if objects.len() == 0 {
        assert(lines(pack_index(objects)) =~= index_lines(objects));
    } else {
        let before = objects.drop_last();
        assert forall|i: int| 0 <= i < before.len() implies is_plain_hash(
            #[trigger] before[i].hash,
        ) by {
            assert(before[i] == objects[i]);
        }
        lemma_index_lines(before);
        let o = objects.last();
        let line = index_line(o.hash, pack_data(before).len(), o.stored.len());
        assert(is_plain_hash(objects[objects.len() - 1].hash));
        lemma_index_line(o.hash, pack_data(before).len(), o.stored.len());
        assert(line + "\n"@ =~= line + seq!['\n'] + Seq::<char>::empty());
        lemma_pieces_first(line, Seq::<char>::empty(), '\n', '\r');
        assert(lines(Seq::<char>::empty()) =~= Seq::empty());
        assert(lines(line + "\n"@) =~= seq![line]);
        lemma_lines_concat(pack_index(before), line + "\n"@);
        assert(pack_index(objects) =~= pack_index(before) + (line + "\n"@));
        assert forall|i: int| 0 <= i < before.len() implies before.take(i) == objects.take(i) by {
            assert(before.take(i) =~= objects.take(i));
        }
        assert(objects.take(objects.len() - 1) =~= before);
        assert(index_lines(objects) =~= index_lines(before).push(line));
        assert(lines(pack_index(objects)) =~= index_lines(objects));
    }
}

proof fn lemma_pack_part(objects: Seq<StoredView>, k: int)
    requires
        0 <= k < objects.len(),
    ensures
        ({
            let offset = pack_data(objects.take(k)).len() as int;
            let len = objects[k].stored.len();
            &&& offset + len <= pack_data(objects).len()
            &&& pack_data(objects).subrange(offset, offset + len) == objects[k].stored
        }),
    decreases objects.len(),
{
    let offset = pack_data(objects.take(k)).len() as int;
    let len = objects[k].stored.len();
    let before = objects.drop_last();
    if k == objects.len() - 1 {
        assert(objects.take(k) =~= before);
        assert(pack_data(objects).subrange(offset, offset + len) =~= objects[k].stored);
    } else {
        lemma_pack_part(before, k);
        assert(before.take(k) =~= objects.take(k));
        assert(pack_data(objects).subrange(offset, offset + len) =~= pack_data(before).subrange(
            offset,
            offset + len,
        ));
    }
}

proof fn lemma_lookup(objects: Seq<StoredView>, from: int, k: int)
    requires
        0 <= from <= k < objects.len(),
        forall|i: int| 0 <= i < objects.len() ==> is_plain_hash(#[trigger] objects[i].hash),
        forall|i: int| 0 <= i < k ==> #[trigger] objects[i].hash != objects[k].hash,
        pack_data(objects).len() <= usize::MAX,
    ensures
        pack_lookup(index_lines(objects).skip(from), objects[k].hash) == Ok::<
            Option<(nat, nat)>,
            BrassError,
        >(Some((pack_data(objects.take(k)).len(), objects[k].stored.len()))),
    decreases k - from,
{
    let ls = index_lines(objects).skip(from);
    let o = objects[from];
    let offset = pack_data(objects.take(from)).len();
    assert(is_plain_hash(o.hash));
    lemma_index_line(o.hash, offset, o.stored.len());
    assert(ls[0] == index_line(o.hash, offset, o.stored.len()));
    if from == k {
        lemma_pack_part(objects, k);
        lemma_number_of_digits(offset, u64::MAX as nat);
        lemma_number_of_digits(o.stored.len(), usize::MAX as nat);
    } else {
        assert(objects[from].hash != objects[k].hash);
        lemma_lookup(objects, from + 1, k);
        assert(ls.drop_first() =~= index_lines(objects).skip(from + 1));
    }
}

/// The index of a pack leads to every object of the pack: under its name it
/// gives the place in the pack where its stored bytes are. Where a name occurs
/// more than once, the first object counts.
pub proof fn index_leads_to_object(objects: Seq<StoredView>, k: int)
    requires
        0 <= k < objects.len(),
        forall|i: int| 0 <= i < objects.len() ==> is_plain_hash(#[trigger] objects[i].hash),
        forall|i: int| 0 <= i < k ==> #[trigger] objects[i].hash != objects[k].hash,
        pack_data(objects).len() <= usize::MAX,
    ensures
        pack_lookup(lines(pack_index(objects)), objects[k].hash) matches Ok(Some((offset, len)))
            && offset + len <= pack_data(objects).len() && pack_data(objects).subrange(
            offset as int,
            offset as int + len,
        ) == objects[k].stored,
{
    lemma_index_lines(objects);
    lemma_lookup(objects, 0, k);
    assert(index_lines(objects).skip(0) =~= index_lines(objects));
    lemma_pack_part(objects, k);
}

proof fn lemma_lookup_other(objects: Seq<StoredView>, from: int, hash: Seq<char>)
    requires
        0 <= from <= objects.len(),
        forall|i: int| 0 <= i < objects.len() ==> is_plain_hash(#[trigger] objects[i].hash),
        forall|i: int| 0 <= i < objects.len() ==> #[trigger] objects[i].hash != hash,
    ensures
        pack_lookup(index_lines(objects).skip(from), hash) == Ok::<
            Option<(nat, nat)>,
            BrassError,
        >(None),
    decreases objects.len() - from,
{
    let ls = index_lines(objects).skip(from);
    if from < objects.len() {
        let o = objects[from];
        let offset = pack_data(objects.take(from)).len();
        assert(is_plain_hash(o.hash));
        assert(objects[from].hash != hash);
        lemma_index_line(o.hash, offset, o.stored.len());
        assert(ls[0] == index_line(o.hash, offset, o.stored.len()));
        assert(ls.drop_first() =~= index_lines(objects).skip(from + 1));
        lemma_lookup_other(objects, from + 1, hash);
    }
}

/// A pack as it is kept: the text of its index, and its bytes.
#[verifier::ext_equal]
pub struct PackView {
    pub index: Seq<char>,
    pub data: Seq<u8>,
}

/// What comes of looking an object up: bytes, nothing, or a failure.
#[verifier::ext_equal]
pub enum Lookup {
    Found(Seq<u8>),
    Missing,
    Failed,
}

/// The stored bytes of an object in a pack. It fails where the index gives no
/// numbers or leads past the end of the pack.
pub open spec fn pack_stored(pack: PackView, hash: Seq<char>) -> Lookup {
    match pack_lookup(lines(pack.index), hash) {
        Ok(None) => Lookup::Missing,
        Ok(Some((offset, len))) => if offset + len <= pack.data.len() {
            Lookup::Found(pack.data.subrange(offset as int, offset as int + len))
        } else {
            Lookup::Failed
        },
        Err(_) => Lookup::Failed,
    }
}

/// The stored bytes of an object in the first of some packs that has it.
pub open spec fn packs_stored(packs: Seq<PackView>, hash: Seq<char>) -> Lookup
    decreases packs.len(),
{
    if packs.len() == 0 {
        Lookup::Missing
    } else {
        match pack_stored(packs[0], hash) {
            Lookup::Missing => packs_stored(packs.drop_first(), hash),
            other => other,
        }
    }
}

/// The stored bytes of an object: those of the loose object, or those in the
/// first pack that has it.
pub open spec fn stored_under(
    loose: Map<Seq<char>, Seq<u8>>,
    packs: Seq<PackView>,
    hash: Seq<char>,
) -> Lookup {
    if loose.contains_key(hash) {
        Lookup::Found(loose[hash])
    } else {
        packs_stored(packs, hash)
    }
}

/// The bytes that stored bytes hold.
pub open spec fn opened(found: Lookup) -> Lookup {
    match found {
        Lookup::Found(stored) => match zlib_stream(stored) {
            Some((content, _)) => Lookup::Found(content),
            None => Lookup::Failed,
        },
        other => other,
    }
}

/// The pack of some objects.
pub open spec fn pack_of(objects: Seq<StoredView>) -> PackView {
    PackView { index: pack_index(objects), data: pack_data(objects) }
}

/// Whether objects are the loose ones: all of them, as they are stored.
pub open spec fn are_the_loose(objects: Seq<StoredView>, loose: Map<Seq<char>, Seq<u8>>) -> bool {
    &&& forall|i: int|
        0 <= i < objects.len() ==> loose.contains_key((#[trigger] objects[i]).hash)
            && loose[objects[i].hash] == objects[i].stored && is_plain_hash(objects[i].hash)
    &&& forall|h: Seq<char>| #[trigger]
        loose.contains_key(h) ==> exists|i: int|
            0 <= i < objects.len() && (#[trigger] objects[i]).hash == h
}

proof fn lemma_pack_stored(
    objects: Seq<StoredView>,
    loose: Map<Seq<char>, Seq<u8>>,
    hash: Seq<char>,
)
    requires
        are_the_loose(objects, loose),
        pack_data(objects).len() <= usize::MAX,
    ensures
        pack_stored(pack_of(objects), hash) == (if loose.contains_key(hash) {
            Lookup::Found(loose[hash])
        } else {
            Lookup::Missing
        }),
{
    assert forall|i: int| 0 <= i < objects.len() implies is_plain_hash(
        #[trigger] objects[i].hash,
    ) by {
        assert(loose.contains_key(objects[i].hash));
    }
    if loose.contains_key(hash) {
        let hashes = objects.map_values(|o: StoredView| o.hash);
        let some = choose|i: int| 0 <= i < objects.len() && (#[trigger] objects[i]).hash == hash;
        assert(hashes[some] == hash);
        let k = position(hashes, hash);
        lemma_position(hashes, hash);
        assert(hashes[k] == hash);
        assert(objects[k].hash == hash);
        assert forall|i: int| 0 <= i < k implies #[trigger] objects[i].hash != objects[k].hash by {
            assert(hashes[i] != hash);
        }
        index_leads_to_object(objects, k);
        assert(loose[objects[k].hash] == objects[k].stored);
    } else {
        assert forall|i: int| 0 <= i < objects.len() implies #[trigger] objects[i].hash
            != hash by {
            assert(loose.contains_key(objects[i].hash));
        }
        lemma_index_lines(objects);
        lemma_lookup_other(objects, 0, hash);
        assert(index_lines(objects).skip(0) =~= index_lines(objects));
    }
}

proof fn lemma_one_pack_more(
    packs: Seq<PackView>,
    pack: PackView,
    at: int,
    hash: Seq<char>,
    content: Option<Lookup>,
)
    requires
        0 <= at <= packs.len(),
        match content {
            Some(c) => opened(pack_stored(pack, hash)) == c && pack_stored(pack, hash) is Found
                && forall|i: int|
                0 <= i < packs.len() ==> pack_stored(#[trigger] packs[i], hash) is Missing
                    || opened(pack_stored(packs[i], hash)) == c,
            None => pack_stored(pack, hash) is Missing,
        },
    ensures
        match content {
            Some(c) => opened(packs_stored(packs.insert(at, pack), hash)) == c,
            None => packs_stored(packs.insert(at, pack), hash) == packs_stored(packs, hash),
        },
    decreases at,
{
    let all = packs.insert(at, pack);
    if at == 0 {
        assert(all[0] == pack);
        assert(all.drop_first() =~= packs);
    } else {
        let rest = packs.drop_first();
        assert(all[0] == packs[0]);
        assert(all.drop_first() =~= rest.insert(at - 1, pack));
        if let Some(c) = content {
            assert forall|i: int| 0 <= i < rest.len() implies pack_stored(
                #[trigger] rest[i],
                hash,
            ) is Missing || opened(pack_stored(rest[i], hash)) == c by {
                assert(rest[i] == packs[i + 1]);
            }
        }
        lemma_one_pack_more(rest, pack, at - 1, hash, content);
    }
}

/// Packing loses and changes no object: wherever the new pack comes to stand
/// among the packs, and whichever of the loose files could be removed, every
/// lookup gives the bytes that it gave before. The older packs have to be
/// sound: what they hold under the name of a loose object are the bytes of that
/// object.
pub proof fn packing_keeps_every_object(
    loose: Map<Seq<char>, Seq<u8>>,
    packs: Seq<PackView>,
    objects: Seq<StoredView>,
    left: Map<Seq<char>, Seq<u8>>,
    at: int,
    hash: Seq<char>,
)
    requires
        are_the_loose(objects, loose),
        pack_data(objects).len() <= usize::MAX,
        left.submap_of(loose),
        0 <= at <= packs.len(),
        loose.contains_key(hash) ==> forall|i: int|
            0 <= i < packs.len() ==> pack_stored(#[trigger] packs[i], hash) is Missing || opened(
                pack_stored(packs[i], hash),
            ) == opened(Lookup::Found(loose[hash])),
    ensures
        opened(stored_under(left, packs.insert(at, pack_of(objects)), hash)) == opened(
            stored_under(loose, packs, hash),
        ),
{
    lemma_pack_stored(objects, loose, hash);
    if left.contains_key(hash) {
        assert(left.dom().contains(hash));
        assert(loose.dom().contains(hash));
    } else if loose.contains_key(hash) {
        lemma_one_pack_more(
            packs,
            pack_of(objects),
            at,
            hash,
            Some(opened(Lookup::Found(loose[hash]))),
        );
    } else {
        lemma_one_pack_more(packs, pack_of(objects), at, hash, None);
    }
}

/// A pack is the stored objects, all of them, in order, with nothing between.
pub proof fn pack_holds_every_object(objects: Seq<StoredView>)
    ensures
        pack_data(objects) == objects.map_values(|o: StoredView| o.stored).flatten(),
    decreases objects.len(),
{
    let bytes = |o: StoredView| o.stored;
    if objects.len() == 0 {
        assert(objects.map_values(bytes) =~= Seq::empty());
    } else {
        let less = objects.drop_last();
        pack_holds_every_object(less);
        assert(objects.map_values(bytes) =~= less.map_values(bytes).push(bytes(objects.last())));
        less.map_values(bytes).lemma_flatten_push(bytes(objects.last()));
    }
}

/// The index of a pack has a line for each object, in order: its name, how many
/// bytes stand before it, and how many it takes up.
pub proof fn pack_index_tells_every_place(objects: Seq<StoredView>)
    ensures
        pack_index(objects) == Seq::new(
            objects.len(),
            |i: int|
                objects[i].hash + seq!['\t'] + digits(
                    objects.take(i).map_values(|o: StoredView| o.stored).flatten().len(),
                ) + seq!['\t'] + digits(objects[i].stored.len()) + seq!['\n'],
        ).flatten(),
    decreases objects.len(),
{
    let row = |i: int|
        objects[i].hash + seq!['\t'] + digits(
            objects.take(i).map_values(|o: StoredView| o.stored).flatten().len(),
        ) + seq!['\t'] + digits(objects[i].stored.len()) + seq!['\n'];
    if objects.len() == 0 {
        assert(Seq::new(objects.len(), row) =~= Seq::empty());
    } else {
        let less = objects.drop_last();
        let n = less.len() as int;
        let before = |i: int|
            less[i].hash + seq!['\t'] + digits(
                less.take(i).map_values(|o: StoredView| o.stored).flatten().len(),
            ) + seq!['\t'] + digits(less[i].stored.len()) + seq!['\n'];
        pack_index_tells_every_place(less);
        pack_holds_every_object(less);
        reveal_strlit("\t");
        reveal_strlit("\n");
        assert("\t"@ =~= seq!['\t']);
        assert("\n"@ =~= seq!['\n']);
        assert forall|i: int| 0 <= i < n implies #[trigger] before(i) == row(i) by {
            assert(less.take(i) =~= objects.take(i));
        }
        assert(objects.take(n) =~= less);
        let rows = Seq::new(less.len(), before);
        assert(Seq::new(objects.len(), row) =~= rows.push(row(n)));
        rows.lemma_flatten_push(row(n));
        assert(pack_index(objects) =~= pack_index(less) + row(n));
    }
}

/// Whether a line of the index of a pack is for an object: its name and two more
/// fields behind tabs.
pub open spec fn is_line_for(line: Seq<char>, hash: Seq<char>) -> bool {
    fields(line, '\t').len() == 3 && fields(line, '\t')[0] == hash
}

/// The first line for an object gives its place, or is refused where a field is no
/// number; an object is missing if and only if there is no line for it.
pub proof fn first_line_gives_the_place(ls: Seq<Seq<char>>, hash: Seq<char>) -> (k: int)
    ensures
        0 <= k <= ls.len(),
        forall|j: int| 0 <= j < k ==> !is_line_for(#[trigger] ls[j], hash),
        k < ls.len() ==> is_line_for(ls[k], hash),
        k == ls.len() ==> pack_lookup(ls, hash) == Ok::<Option<(nat, nat)>, BrassError>(None),
        k < ls.len() ==> ({
            let offset = number(fields(ls[k], '\t')[1], u64::MAX as nat);
            let len = number(fields(ls[k], '\t')[2], usize::MAX as nat);
            if offset is Some && len is Some {
                pack_lookup(ls, hash) == Ok::<Option<(nat, nat)>, BrassError>(
                    Some((offset->0, len->0)),
                )
            } else {
                pack_lookup(ls, hash) == Err::<Option<(nat, nat)>, BrassError>(
                    BrassError::PackIndexNotANumber,
                )
            }
        }),
    decreases ls.len(),
{
    if ls.len() == 0 || is_line_for(ls[0], hash) {
        0
    } else {
        let rest = ls.drop_first();
        let k = first_line_gives_the_place(rest, hash);
        assert forall|j: int| 0 <= j < k + 1 implies !is_line_for(#[trigger] ls[j], hash) by {
            if j > 0 {
                assert(ls[j] == rest[j - 1]);
            }
        }
        if k + 1 < ls.len() {
            assert(ls[k + 1] == rest[k]);
        }
        k + 1
    }
}

/// A pack with something behind its last good stream that is no stream still
/// gives every object before it, and says that it is corrupt.
pub proof fn good_part_of_a_pack_is_kept(
    objects: Seq<StoredView>,
    held: Seq<Seq<u8>>,
    rest: Seq<u8>,
)
    requires
        objects.len() == held.len(),
        forall|i: int|
            0 <= i < objects.len() ==> is_stream_of(#[trigger] objects[i].stored, held[i]),
        rest.len() > 0,
        zlib_stream(rest) is None,
    ensures
        unpack(pack_data(objects) + rest) == (held, Some(BrassError::CorruptPack)),
    decreases objects.len(),
{
    if objects.len() == 0 {
        assert(held =~= Seq::empty());
        assert(pack_data(objects) + rest =~= rest);
    } else {
        let others = objects.drop_first();
        let more = held.drop_first();
        assert forall|i: int| 0 <= i < others.len() implies is_stream_of(
            #[trigger] others[i].stored,
            more[i],
        ) by {
            assert(others[i] == objects[i + 1]);
            assert(is_stream_of(objects[i + 1].stored, held[i + 1]));
        }
        good_part_of_a_pack_is_kept(others, more, rest);
        lemma_pack_data_front(objects);
        let first = objects[0].stored;
        let tail = pack_data(others) + rest;
        assert(is_stream_of(first, held[0]));
        assert(pack_data(objects) + rest =~= first + tail);
        assert(zlib_stream(first + tail) == Some((held[0], first.len())));
        assert((first + tail).skip(first.len() as int) =~= tail);
        assert(seq![held[0]] + more =~= held);
    }
}

/// A pack is named after the second in which it is made; packs of different
/// seconds have different names.
pub proof fn packs_are_named_after_the_time(a: u64, b: u64)
    ensures
        after_prefix(pack_name(a), "pack-"@) == Some(digits(a as nat)),
        pack_name(a) == pack_name(b) ==> a == b,
{
    prefix_and_rest_are_the_text(pack_name(a), "pack-"@, digits(a as nat));
    prefix_and_rest_are_the_text(pack_name(b), "pack-"@, digits(b as nat));
    lemma_digits_value(a as nat);
    lemma_digits_value(b as nat);
}

} // verus!
