//! The index: the staged files, and the binary file that holds them.
//!
//! The file begins with `BRIX`, the format version and the number of entries.
//! Each entry has a fixed part (the tag of the mode, 64 bytes of hash, seconds
//! and nanoseconds of the time, the file size, the length of the path) and then
//! the path. All numbers are little-endian. Because the path has a length, it
//! may hold any character.
use vstd::prelude::*;
use vstd::bytes::*;
use vstd::utf8::*;
use crate::error::BrassError;
use crate::mode::FileMode;
use crate::object::Timestamp;
use crate::paths::{components, components_of, same_texts};
use crate::text::{lemma_position, lemma_position_is, position, views};
use crate::utf8::{bytes_of, push_bytes, text_of_bytes};

verus! {

/// A staged file.
#[derive(Debug, Clone, PartialEq, Eq)]
pub struct IndexEntry {
    pub path: String,
    pub hash: String,
    pub mode: FileMode,
    pub modified_at: Timestamp,
    pub file_size: u64,
}

/// The staged files, in the order in which they were first staged.
#[derive(Debug, Clone, PartialEq, Eq)]
pub struct Index {
    pub entries: Vec<IndexEntry>,
}

/// An `IndexEntry` as a mathematical value.
#[verifier::ext_equal]
pub struct IndexEntryView {
    pub path: Seq<char>,
    pub hash: Seq<char>,
    pub mode: FileMode,
    pub modified_at: Timestamp,
    pub file_size: u64,
}

impl View for IndexEntry {
    type V = IndexEntryView;

    open spec fn view(&self) -> IndexEntryView {
        IndexEntryView {
            path: self.path@,
            hash: self.hash@,
            mode: self.mode,
            modified_at: self.modified_at,
            file_size: self.file_size,
        }
    }
}

impl View for Index {
    type V = Seq<IndexEntryView>;

    open spec fn view(&self) -> Seq<IndexEntryView> {
        self.entries@.map_values(|e: IndexEntry| e@)
    }
}

/// The four bytes that an index begins with.
pub open spec fn magic() -> Seq<u8> {
    seq![66, 82, 73, 88]
}

/// The format version.
pub const INDEX_VERSION: u32 = 1;

/// How many bytes the hash of an entry takes up.
pub const INDEX_HASH_LEN: usize = 64;

/// How many bytes an entry takes up in front of its path.
pub const FIXED_ENTRY_LEN: usize = 89;

/// Bytes cut off or filled up with `0` to the given length.
pub open spec fn fitted(bytes: Seq<u8>, len: nat) -> Seq<u8> {
    Seq::new(len, |i: int| if i < bytes.len() { bytes[i] } else { 48u8 })
}

/// One entry as bytes.
pub open spec fn entry_bytes(e: IndexEntryView) -> Seq<u8> {
    let path = encode_utf8(e.path);
    seq![e.mode.tag()] + fitted(encode_utf8(e.hash), INDEX_HASH_LEN as nat) + spec_u64_to_le_bytes(
        e.modified_at.secs,
    ) + spec_u32_to_le_bytes(e.modified_at.nanos) + spec_u64_to_le_bytes(e.file_size)
        + spec_u32_to_le_bytes(path.len() as u32) + path
}

/// Entries as bytes, one after the other.
pub open spec fn entries_bytes(entries: Seq<IndexEntryView>) -> Seq<u8>
    decreases entries.len(),
{
    if entries.len() == 0 {
        Seq::empty()
    } else {
        entries_bytes(entries.drop_last()) + entry_bytes(entries.last())
    }
}

/// The index as bytes.
pub open spec fn index_bytes(entries: Seq<IndexEntryView>) -> Seq<u8> {
    magic() + spec_u32_to_le_bytes(INDEX_VERSION) + spec_u32_to_le_bytes(entries.len() as u32)
        + entries_bytes(entries)
}

/// The time that a number of seconds and any number of nanoseconds add up to,
/// unless it is later than any time that a file can have.
pub open spec fn time_of(secs: u64, nanos: u32) -> Option<Timestamp> {
    let whole = secs + nanos / 1_000_000_000;
    if whole <= i64::MAX {
        Some(Timestamp { secs: whole as u64, nanos: nanos % 1_000_000_000 })
    } else {
        None
    }
}

/// The entry that stands at `at` in `data`, and where it ends.
pub open spec fn entry_at(data: Seq<u8>, at: int) -> Result<(IndexEntryView, int), BrassError> {
    if at + FIXED_ENTRY_LEN > data.len() {
        Err(BrassError::IndexTruncated)
    } else {
        let hash = data.subrange(at + 1, at + 65);
        let secs = spec_u64_from_le_bytes(data.subrange(at + 65, at + 73));
        let nanos = spec_u32_from_le_bytes(data.subrange(at + 73, at + 77));
        let size = spec_u64_from_le_bytes(data.subrange(at + 77, at + 85));
        let path_len = spec_u32_from_le_bytes(data.subrange(at + 85, at + 89));
        let end = at + 89 + path_len;
        if !valid_utf8(hash) {
            Err(BrassError::IndexHashNotUtf8)
        } else if end > data.len() {
            Err(BrassError::IndexPathOutOfData)
        } else if !valid_utf8(data.subrange(at + 89, end)) {
            Err(BrassError::IndexPathNotUtf8)
        } else {
            match time_of(secs, nanos) {
                None => Err(BrassError::IndexTimeOutOfRange),
                Some(modified_at) => Ok(
                    (
                        IndexEntryView {
                            path: decode_utf8(data.subrange(at + 89, end)),
                            hash: decode_utf8(hash),
                            mode: FileMode::of_tag(data[at]),
                            modified_at,
                            file_size: size,
                        },
                        end,
                    ),
                ),
            }
        }
    }
}

/// The `count` entries that stand at `at` in `data`, or what is wrong with the
/// first bad one.
pub open spec fn entries_at(data: Seq<u8>, at: int, count: nat) -> Result<
    Seq<IndexEntryView>,
    BrassError,
>
    decreases count,
{
    if count == 0 {
        Ok(Seq::empty())
    } else {
        match entry_at(data, at) {
            Err(e) => Err(e),
            Ok((first, end)) => match entries_at(data, end, (count - 1) as nat) {
                Err(e) => Err(e),
                Ok(rest) => Ok(seq![first] + rest),
            },
        }
    }
}

/// The entries of an index file, or what is wrong with it.
pub open spec fn parse_index(data: Seq<u8>) -> Result<Seq<IndexEntryView>, BrassError> {
    let version = spec_u32_from_le_bytes(data.subrange(4, 8));
    if data.len() < 12 {
        Err(BrassError::IndexTooShort)
    } else if data.take(4) != magic() {
        Err(BrassError::IndexBadMagic)
    } else if version != INDEX_VERSION {
        Err(BrassError::IndexBadVersion(version))
    } else {
        entries_at(data, 12, spec_u32_from_le_bytes(data.subrange(8, 12)) as nat)
    }
}

fn read_time(secs: u64, nanos: u32) -> (r: Option<Timestamp>)
    ensures
        r == time_of(secs, nanos),
{
    let carry: u64 = (nanos / 1_000_000_000) as u64;
    if secs <= 9_223_372_036_854_775_807 - carry {
        Some(Timestamp { secs: secs + carry, nanos: nanos % 1_000_000_000 })
    } else {
        None
    }
}

fn read_u32(data: &[u8], at: usize) -> (r: u32)
    requires
        at + 4 <= data@.len(),
    ensures
        r == spec_u32_from_le_bytes(data@.subrange(at as int, at + 4)),
{
    assert(data@.len() == data.len());
    u32_from_le_bytes(vstd::slice::slice_subrange(data, at, at + 4))
}

fn read_u64(data: &[u8], at: usize) -> (r: u64)
    requires
        at + 8 <= data@.len(),
    ensures
        r == spec_u64_from_le_bytes(data@.subrange(at as int, at + 8)),
{
    assert(data@.len() == data.len());
    u64_from_le_bytes(vstd::slice::slice_subrange(data, at, at + 8))
}

fn read_text(data: &[u8], from: usize, to: usize) -> (r: Option<String>)
    requires
        from <= to <= data@.len(),
    ensures
        match r {
            Some(s) => valid_utf8(data@.subrange(from as int, to as int)) && s@ == decode_utf8(
                data@.subrange(from as int, to as int),
            ),
            None => !valid_utf8(data@.subrange(from as int, to as int)),
        },
{
    text_of_bytes(vstd::slice::slice_to_vec(vstd::slice::slice_subrange(data, from, to)))
}

fn read_entry(data: &[u8], at: usize) -> (r: Result<(IndexEntry, usize), BrassError>)
    requires
        at <= data@.len(),
    ensures
        match r {
            Ok((e, end)) => entry_at(data@, at as int) == Ok::<(IndexEntryView, int), BrassError>(
                (e@, end as int),
            ) && end <= data@.len(),
            Err(e) => entry_at(data@, at as int) == Err::<(IndexEntryView, int), BrassError>(e),
        },
{
    if data.len() - at < FIXED_ENTRY_LEN {
        return Err(BrassError::IndexTruncated);
    }
    let hash = match read_text(data, at + 1, at + 65) {
        Some(hash) => hash,
        None => {
            return Err(BrassError::IndexHashNotUtf8);
        },
    };
    let secs = read_u64(data, at + 65);
    let nanos = read_u32(data, at + 73);
    let file_size = read_u64(data, at + 77);
    let path_len: usize = read_u32(data, at + 85) as usize;
    let start: usize = at + 89;
    if path_len > data.len() - start {
        return Err(BrassError::IndexPathOutOfData);
    }
    let end: usize = start + path_len;
    match read_text(data, start, end) {
        None => Err(BrassError::IndexPathNotUtf8),
        Some(path) => match read_time(secs, nanos) {
            None => Err(BrassError::IndexTimeOutOfRange),
            Some(modified_at) => Ok(
                (
                    IndexEntry {
                        path,
                        hash,
                        mode: FileMode::from_tag(data[at]),
                        modified_at,
                        file_size,
                    },
                    end,
                ),
            ),
        },
    }
}

fn push_entry(buf: &mut Vec<u8>, e: &IndexEntry)
    ensures
        final(buf)@ == old(buf)@ + entry_bytes(e@),
{
    buf.push(e.mode.to_tag());
    let mut hash = bytes_of(e.hash.as_str());
    let ghost whole = hash@;
    hash.resize(INDEX_HASH_LEN, 48);
    assert(hash@ =~= fitted(whole, 64));
    push_bytes(buf, hash.as_slice());
    push_bytes(buf, u64_to_le_bytes(e.modified_at.secs).as_slice());
    push_bytes(buf, u32_to_le_bytes(e.modified_at.nanos).as_slice());
    push_bytes(buf, u64_to_le_bytes(e.file_size).as_slice());
    let path = bytes_of(e.path.as_str());
    push_bytes(buf, u32_to_le_bytes(#[verifier::truncate] (path.len() as u32)).as_slice());
    push_bytes(buf, path.as_slice());
    assert(buf@ =~= old(buf)@ + entry_bytes(e@));
}

impl Default for Index {
    fn default() -> (r: Index)
        ensures
            r@ == Seq::<IndexEntryView>::empty(),
    {
        let r = Index { entries: Vec::new() };
        assert(r@ =~= Seq::<IndexEntryView>::empty());
        r
    }
}

impl Index {
    /// Reads the index from the content of its file; a file that does not
    /// exist is an empty index.
    pub fn load(content: Option<&[u8]>) -> (r: Result<Index, BrassError>)
        ensures
            match content {
                None => r matches Ok(index) && index@ == Seq::<IndexEntryView>::empty(),
                Some(data) => match r {
                    Ok(index) => parse_index(data@) == Ok::<Seq<IndexEntryView>, BrassError>(
                        index@,
                    ),
                    Err(e) => parse_index(data@) == Err::<Seq<IndexEntryView>, BrassError>(e),
                },
            },
    {
        match content {
            None => Ok(Index::default()),
            Some(data) => Index::from_bytes(data),
        }
    }

    /// Reads the index from bytes.
    pub fn from_bytes(data: &[u8]) -> (r: Result<Index, BrassError>)
        ensures
            match r {
                Ok(index) => parse_index(data@) == Ok::<Seq<IndexEntryView>, BrassError>(index@),
                Err(e) => parse_index(data@) == Err::<Seq<IndexEntryView>, BrassError>(e),
            },
    {
        if data.len() < 12 {
            return Err(BrassError::IndexTooShort);
        }
        if data[0] != 66 || data[1] != 82 || data[2] != 73 || data[3] != 88 {
            proof {
                if data@.take(4) == magic() {
                    assert(data@.take(4)[0] == 66 && data@.take(4)[1] == 82);
                    assert(data@.take(4)[2] == 73 && data@.take(4)[3] == 88);
                }
            }
            return Err(BrassError::IndexBadMagic);
        }
        assert(data@.take(4) =~= magic());
        let version = read_u32(data, 4);
        if version != INDEX_VERSION {
            return Err(BrassError::IndexBadVersion(version));
        }
        let count = read_u32(data, 8);
        let mut index = Index { entries: Vec::new() };
        let mut left: u32 = count;
        let mut at: usize = 12;
        let ghost whole = entries_at(data@, 12, count as nat);
        proof {
            if let Ok(rest) = whole {
                assert(index@ + rest =~= rest);
            }
        }
        while left > 0
            invariant
                at <= data@.len(),
                match entries_at(data@, at as int, left as nat) {
                    Ok(rest) => whole == Ok::<Seq<IndexEntryView>, BrassError>(index@ + rest),
                    Err(e) => whole == Err::<Seq<IndexEntryView>, BrassError>(e),
                },
                whole == parse_index(data@),
            decreases left,
        {
            let ghost before = index@;
            match read_entry(data, at) {
                Err(e) => {
                    return Err(e);
                },
                Ok((entry, end)) => {
                    index.entries.push(entry);
                    assert(index@ =~= before.push(entry@));
                    at = end;
                    left = left - 1;
                    proof {
                        if let Ok(rest) = entries_at(data@, at as int, left as nat) {
                            assert(before + (seq![entry@] + rest) =~= index@ + rest);
                        }
                    }
                },
            }
        }
        assert(index@ + Seq::empty() =~= index@);
        Ok(index)
    }

    /// The content of the file that holds the index.
    pub fn save(&self) -> (r: Vec<u8>)
        ensures
            r@ == index_bytes(self@),
    {
        let mut buf: Vec<u8> = vec![66, 82, 73, 88];
        assert(buf@ =~= magic());
        push_bytes(&mut buf, u32_to_le_bytes(INDEX_VERSION).as_slice());
        push_bytes(
            &mut buf,
            u32_to_le_bytes(#[verifier::truncate] (self.entries.len() as u32)).as_slice(),
        );
        let ghost head = buf@;
        let mut i: usize = 0;
        assert(self@.take(0) =~= Seq::<IndexEntryView>::empty());
        assert(head + entries_bytes(self@.take(0)) =~= head);
        while i < self.entries.len()
            invariant
                i <= self.entries@.len(),
                buf@ == head + entries_bytes(self@.take(i as int)),
            decreases self.entries@.len() - i,
        {
            push_entry(&mut buf, &self.entries[i]);
            assert(self@.take(i + 1).drop_last() =~= self@.take(i as int));
            i = i + 1;
            assert(buf@ =~= head + entries_bytes(self@.take(i as int)));
        }
        assert(self@.take(i as int) =~= self@);
        buf
    }

    /// The place of the first entry for a path, or the number of entries.
    pub fn find(&self, path: &str) -> (r: usize)
        ensures
            r == place(self@, path@),
            r <= self.entries@.len(),
    {
        let wanted = components_of(path);
        let ghost ks = keys(self@);
        let mut i: usize = 0;
        while i < self.entries.len()
            invariant
                i <= self.entries@.len(),
                ks == keys(self@),
                views(wanted@) == components(path@),
                forall|k: int| 0 <= k < i ==> ks[k] != components(path@),
            decreases self.entries@.len() - i,
        {
            assert(ks[i as int] == components(self.entries@[i as int].path@));
            if same_texts(&components_of(self.entries[i].path.as_str()), &wanted) {
                proof {
                    lemma_position_is(ks, components(path@), i as int);
                }
                return i;
            }
            i = i + 1;
        }
        proof {
            lemma_position_is(ks, components(path@), i as int);
        }
        i
    }

    /// Stages a file: its entry takes the place of the entry for the same
    /// path, or comes last.
    pub fn stage(&mut self, entry: IndexEntry)
        ensures
            final(self)@ == staged(old(self)@, entry@),
    {
        let ghost before = self@;
        let at = self.find(entry.path.as_str());
        if at < self.entries.len() {
            self.entries.set(at, entry);
            assert(self@ =~= before.update(at as int, entry@));
        } else {
            self.entries.push(entry);
            assert(self@ =~= before.push(entry@));
        }
    }
}

/// The paths of entries, each as its components.
pub open spec fn keys(entries: Seq<IndexEntryView>) -> Seq<Seq<Seq<char>>> {
    entries.map_values(|e: IndexEntryView| components(e.path))
}

/// The place of the first entry for a path, or the number of entries.
pub open spec fn place(entries: Seq<IndexEntryView>, path: Seq<char>) -> int {
    position(keys(entries), components(path))
}

/// The entries once another has been staged.
pub open spec fn staged(entries: Seq<IndexEntryView>, e: IndexEntryView) -> Seq<IndexEntryView> {
    if place(entries, e.path) < entries.len() {
        entries.update(place(entries, e.path), e)
    } else {
        entries.push(e)
    }
}

// ---------------------------------------------------------------------------
// Laws

/// Staging keeps one entry for each path.
pub proof fn staging_keeps_paths_apart(entries: Seq<IndexEntryView>, e: IndexEntryView)
    requires
        keys(entries).no_duplicates(),
    ensures
        keys(staged(entries, e)).no_duplicates(),
{
    let ks = keys(entries);
    let at = place(entries, e.path);
    lemma_position(ks, components(e.path));
    if at < entries.len() {
        assert(keys(staged(entries, e)) =~= ks);
    } else {
        assert(keys(staged(entries, e)) =~= ks.push(components(e.path)));
        assert forall|i: int| 0 <= i < ks.len() implies ks[i] != components(e.path) by {
            assert(ks.contains(ks[i]));
        }
    }
}

/// A staged entry is found under its path, and the entries of other paths stay
/// as they are.
pub proof fn staged_entry_is_found(entries: Seq<IndexEntryView>, e: IndexEntryView)
    ensures
        ({
            let after = staged(entries, e);
            &&& place(after, e.path) < after.len()
            &&& after[place(after, e.path)] == e
            &&& forall|i: int|
                0 <= i < entries.len() && components(#[trigger] entries[i].path) != components(
                    e.path,
                ) ==> after[i] == entries[i]
        }),
{
    let ks = keys(entries);
    let k = components(e.path);
    let at = place(entries, e.path);
    let after = staged(entries, e);
    lemma_position(ks, k);
    assert(keys(after).len() == after.len());
    assert forall|i: int| 0 <= i < at implies keys(after)[i] != k by {
        assert(keys(after)[i] == ks[i]);
    }
    assert(keys(after)[at] == k);
    lemma_position_is(keys(after), k, at);
    assert forall|i: int|
        0 <= i < entries.len() && components(#[trigger] entries[i].path) != components(
            e.path,
        ) implies after[i] == entries[i] by {
        assert(ks[i] == components(entries[i].path));
    }
}

/// Whether the bytes of an entry keep all that it holds: a hash of 64 bytes, a
/// time that a file can have, and a path whose length fits.
pub open spec fn is_exact(e: IndexEntryView) -> bool {
    &&& encode_utf8(e.hash).len() == INDEX_HASH_LEN
    &&& e.modified_at.secs <= i64::MAX
    &&& e.modified_at.nanos < 1_000_000_000
    &&& encode_utf8(e.path).len() <= u32::MAX
}

proof fn lemma_entry_at(pre: Seq<u8>, e: IndexEntryView, post: Seq<u8>)
    requires
        is_exact(e),
    ensures
        entry_at(pre + entry_bytes(e) + post, pre.len() as int) == Ok::<
            (IndexEntryView, int),
            BrassError,
        >((e, (pre + entry_bytes(e)).len() as int)),
{
    let data = pre + entry_bytes(e) + post;
    let at = pre.len() as int;
    let hash = encode_utf8(e.hash);
    let path = encode_utf8(e.path);
    lemma_auto_spec_u32_to_from_le_bytes();
    lemma_auto_spec_u64_to_from_le_bytes();
    let b1 = spec_u64_to_le_bytes(e.modified_at.secs);
    let b2 = spec_u32_to_le_bytes(e.modified_at.nanos);
    let b3 = spec_u64_to_le_bytes(e.file_size);
    let b4 = spec_u32_to_le_bytes(path.len() as u32);
    assert(fitted(hash, 64) =~= hash);
    assert(data =~= pre + (seq![e.mode.tag()] + (hash + (b1 + (b2 + (b3 + (b4 + (path
        + post))))))));
    assert(data[at] == e.mode.tag());
    assert(data.subrange(at + 1, at + 65) =~= hash);
    assert(data.subrange(at + 65, at + 73) =~= b1);
    assert(data.subrange(at + 73, at + 77) =~= b2);
    assert(data.subrange(at + 77, at + 85) =~= b3);
    assert(data.subrange(at + 85, at + 89) =~= b4);
    assert(data.subrange(at + 89, at + 89 + path.len()) =~= path);
    encode_utf8_valid_utf8(e.hash);
    encode_utf8_valid_utf8(e.path);
    encode_utf8_decode_utf8(e.hash);
    encode_utf8_decode_utf8(e.path);
    e.mode.tag_round_trip();
}

proof fn lemma_entries_bytes_front(entries: Seq<IndexEntryView>)
    requires
        entries.len() > 0,
    ensures
        entries_bytes(entries) == entry_bytes(entries[0]) + entries_bytes(entries.drop_first()),
    decreases entries.len(),
{
    if entries.len() == 1 {
        assert(entries.drop_last() =~= Seq::empty());
        assert(entries.drop_first() =~= Seq::empty());
        assert(entries_bytes(entries.drop_last()) =~= Seq::<u8>::empty());
        assert(entries_bytes(entries) =~= entry_bytes(entries[0]));
    } else {
        lemma_entries_bytes_front(entries.drop_last());
        assert(entries.drop_last().drop_first() =~= entries.drop_first().drop_last());
        assert(entries_bytes(entries) =~= entry_bytes(entries[0]) + entries_bytes(
            entries.drop_first(),
        ));
    }
}

proof fn lemma_entries_at(pre: Seq<u8>, entries: Seq<IndexEntryView>)
    requires
        forall|i: int| 0 <= i < entries.len() ==> is_exact(#[trigger] entries[i]),
    ensures
        entries_at(pre + entries_bytes(entries), pre.len() as int, entries.len()) == Ok::<
            Seq<IndexEntryView>,
            BrassError,
        >(entries),
    decreases entries.len(),
{
    if entries.len() == 0 {
        assert(entries =~= Seq::empty());
    } else {
        let rest = entries.drop_first();
        let first = entry_bytes(entries[0]);
        lemma_entries_bytes_front(entries);
        assert(pre + entries_bytes(entries) =~= pre + first + entries_bytes(rest));
        lemma_entry_at(pre, entries[0], entries_bytes(rest));
        assert forall|i: int| 0 <= i < rest.len() implies is_exact(#[trigger] rest[i]) by {
            assert(rest[i] == entries[i + 1]);
        }
        lemma_entries_at(pre + first, rest);
        assert(seq![entries[0]] + rest =~= entries);
    }
}

/// An index is read back from its bytes, whatever characters its paths hold.
pub proof fn index_round_trip(entries: Seq<IndexEntryView>)
    requires
        entries.len() <= u32::MAX,
        forall|i: int| 0 <= i < entries.len() ==> is_exact(#[trigger] entries[i]),
    ensures
        parse_index(index_bytes(entries)) == Ok::<Seq<IndexEntryView>, BrassError>(entries),
{
    lemma_auto_spec_u32_to_from_le_bytes();
    let v = spec_u32_to_le_bytes(INDEX_VERSION);
    let n = spec_u32_to_le_bytes(entries.len() as u32);
    let pre = magic() + v + n;
    let data = index_bytes(entries);
    assert(data =~= pre + entries_bytes(entries));
    assert(data.take(4) =~= magic());
    assert(data.subrange(4, 8) =~= v);
    assert(data.subrange(8, 12) =~= n);
    lemma_entries_at(pre, entries);
}

/// The file of an index is `BRIX`, the version, the number of entries, and then
/// every entry, in order.
pub proof fn index_holds_every_entry(entries: Seq<IndexEntryView>)
    ensures
        index_bytes(entries) == encode_utf8("BRIX"@) + spec_u32_to_le_bytes(1)
            + spec_u32_to_le_bytes(entries.len() as u32) + entries.map_values(
            |e: IndexEntryView| entry_bytes(e),
        ).flatten(),
{
    reveal_strlit("BRIX");
    let mark = "BRIX"@;
    is_ascii_chars_encode_utf8(mark);
    assert(encode_utf8(mark) =~= magic());
    lemma_entries_are_all(entries);
}

proof fn lemma_entries_are_all(entries: Seq<IndexEntryView>)
    ensures
        entries_bytes(entries) == entries.map_values(
            |e: IndexEntryView| entry_bytes(e),
        ).flatten(),
    decreases entries.len(),
{
    let row = |e: IndexEntryView| entry_bytes(e);
    if entries.len() == 0 {
        assert(entries.map_values(row) =~= Seq::empty());
    } else {
        let less = entries.drop_last();
        lemma_entries_are_all(less);
        assert(entries.map_values(row) =~= less.map_values(row).push(row(entries.last())));
        less.map_values(row).lemma_flatten_push(row(entries.last()));
    }
}

/// Each part of an entry stands in its own place: the tag of the mode, the hash,
/// cut off or filled up with zeros to its place, the time, the size, the length
/// of the path, and the path.
pub proof fn entry_parts_stand_in_place(e: IndexEntryView)
    ensures
        ({
            let b = entry_bytes(e);
            let hash = encode_utf8(e.hash);
            let path = encode_utf8(e.path);
            &&& b.len() == 89 + path.len()
            &&& b[0] == (match e.mode {
                FileMode::Regular => 0u8,
                FileMode::Executable => 1u8,
                FileMode::Directory => 2u8,
                FileMode::Symlink => 3u8,
            })
            &&& forall|i: int|
                0 <= i < 64 ==> #[trigger] b.subrange(1, 65)[i] == (if i < hash.len() {
                    hash[i]
                } else {
                    48u8
                })
            &&& b.subrange(65, 73) == spec_u64_to_le_bytes(e.modified_at.secs)
            &&& b.subrange(73, 77) == spec_u32_to_le_bytes(e.modified_at.nanos)
            &&& b.subrange(77, 85) == spec_u64_to_le_bytes(e.file_size)
            &&& b.subrange(85, 89) == spec_u32_to_le_bytes(path.len() as u32)
            &&& b.skip(89) == path
        }),
{
    let b = entry_bytes(e);
    let path = encode_utf8(e.path);
    lemma_auto_spec_u64_to_from_le_bytes();
    lemma_auto_spec_u32_to_from_le_bytes();
    assert(b.subrange(65, 73) =~= spec_u64_to_le_bytes(e.modified_at.secs));
    assert(b.subrange(73, 77) =~= spec_u32_to_le_bytes(e.modified_at.nanos));
    assert(b.subrange(77, 85) =~= spec_u64_to_le_bytes(e.file_size));
    assert(b.subrange(85, 89) =~= spec_u32_to_le_bytes(path.len() as u32));
    assert(b.skip(89) =~= path);
}

/// The time of an entry is the seconds and nanoseconds that were read, put into
/// whole seconds and what is left; it is refused if and only if it is later than
/// any time that a file can have.
pub proof fn time_adds_up(secs: u64, nanos: u32)
    ensures
        match time_of(secs, nanos) {
            Some(t) => {
                &&& t.secs * 1_000_000_000 + t.nanos == secs * 1_000_000_000 + nanos
                &&& t.nanos < 1_000_000_000
                &&& t.secs <= i64::MAX
            },
            None => secs * 1_000_000_000 + nanos >= (i64::MAX + 1) * 1_000_000_000,
        },
{
}

/// An entry that is read is what stands in the places of its parts; it is read if
/// and only if there is room for it, its two texts are UTF-8, and its time is one.
pub proof fn entry_is_read_from_its_place(data: Seq<u8>, at: int)
    requires
        0 <= at,
        at + 89 <= data.len(),
    ensures
        ({
            let hash = data.subrange(at + 1, at + 65);
            let secs = spec_u64_from_le_bytes(data.subrange(at + 65, at + 73));
            let nanos = spec_u32_from_le_bytes(data.subrange(at + 73, at + 77));
            let size = spec_u64_from_le_bytes(data.subrange(at + 77, at + 85));
            let end = at + 89 + spec_u32_from_le_bytes(data.subrange(at + 85, at + 89));
            match entry_at(data, at) {
                Ok((e, to)) => {
                    &&& to == end
                    &&& end <= data.len()
                    &&& encode_utf8(e.hash) == hash
                    &&& encode_utf8(e.path) == data.subrange(at + 89, end)
                    &&& e.file_size == size
                    &&& Some(e.modified_at) == time_of(secs, nanos)
                    &&& e.mode == FileMode::of_tag(data[at])
                },
                Err(e) => {
                    ||| e == BrassError::IndexHashNotUtf8 && !valid_utf8(hash)
                    ||| e == BrassError::IndexPathOutOfData && end > data.len()
                    ||| e == BrassError::IndexPathNotUtf8 && !valid_utf8(
                        data.subrange(at + 89, end),
                    )
                    ||| e == BrassError::IndexTimeOutOfRange && time_of(secs, nanos) is None
                },
            }
        }),
{
    let hash = data.subrange(at + 1, at + 65);
    let end = at + 89 + spec_u32_from_le_bytes(data.subrange(at + 85, at + 89));
    if entry_at(data, at) is Ok {
        decode_utf8_encode_utf8(hash);
        decode_utf8_encode_utf8(data.subrange(at + 89, end));
    }
}

/// An index is refused if it is too short for its front part, does not begin with
/// `BRIX`, has another version, or ends before its entries do; one that is read
/// has as many entries as it says.
pub proof fn bad_index_is_refused(data: Seq<u8>)
    ensures
        data.len() < 12 ==> parse_index(data) == Err::<Seq<IndexEntryView>, BrassError>(
            BrassError::IndexTooShort,
        ),
        data.len() >= 12 && data.take(4) != encode_utf8("BRIX"@) ==> parse_index(data) == Err::<
            Seq<IndexEntryView>,
            BrassError,
        >(BrassError::IndexBadMagic),
        data.len() >= 12 && data.take(4) == encode_utf8("BRIX"@) ==> ({
            let version = spec_u32_from_le_bytes(data.subrange(4, 8));
            let count = spec_u32_from_le_bytes(data.subrange(8, 12));
            &&& version != 1 ==> parse_index(data) == Err::<Seq<IndexEntryView>, BrassError>(
                BrassError::IndexBadVersion(version),
            )
            &&& version == 1 && count > 0 && data.len() < 12 + 89 ==> parse_index(data) == Err::<
                Seq<IndexEntryView>,
                BrassError,
            >(BrassError::IndexTruncated)
            &&& parse_index(data) matches Ok(entries) ==> version == 1 && entries.len() == count
        }),
{
    reveal_strlit("BRIX");
    let mark = "BRIX"@;
    is_ascii_chars_encode_utf8(mark);
    assert(encode_utf8(mark) =~= magic());
    if data.len() >= 12 {
        lemma_entry_count(data, 12, spec_u32_from_le_bytes(data.subrange(8, 12)) as nat);
    }
}

proof fn lemma_entry_count(data: Seq<u8>, at: int, count: nat)
    ensures
        entries_at(data, at, count) matches Ok(entries) ==> entries.len() == count,
    decreases count,
{
    if count > 0 {
        if let Ok((_, end)) = entry_at(data, at) {
            lemma_entry_count(data, end, (count - 1) as nat);
        }
    }
}

/// Staging puts a path that was not staged behind all others, and adds nothing
/// else.
pub proof fn staging_adds_one_path(entries: Seq<IndexEntryView>, e: IndexEntryView)
    ensures
        (exists|i: int|
            0 <= i < entries.len() && components((#[trigger] entries[i]).path) == components(
                e.path,
            )) ==> staged(entries, e).len() == entries.len(),
        (forall|i: int|
            0 <= i < entries.len() ==> components((#[trigger] entries[i]).path) != components(
                e.path,
            )) ==> staged(entries, e) == entries.push(e),
{
    let ks = keys(entries);
    let key = components(e.path);
    lemma_position(ks, key);
    let at = place(entries, e.path);
    if at < entries.len() {
        assert(ks[at] == components(entries[at].path));
    }
    if exists|i: int|
        0 <= i < entries.len() && components((#[trigger] entries[i]).path) == components(e.path) {
        let i = choose|i: int|
            0 <= i < entries.len() && components((#[trigger] entries[i]).path) == components(
                e.path,
            );
        assert(ks[i] == key);
    }
}

/// Nothing of an index is lost in its view: it has every entry, in order, with all
/// that is known of it.
pub proof fn index_view_tells_every_entry(index: Index)
    ensures
        index@.len() == index.entries@.len(),
        forall|i: int|
            0 <= i < index@.len() ==> (#[trigger] index@[i]).path == index.entries@[i].path@
                && index@[i].hash == index.entries@[i].hash@ && index@[i].mode
                == index.entries@[i].mode && index@[i].modified_at
                == index.entries@[i].modified_at && index@[i].file_size
                == index.entries@[i].file_size,
{
}

} // verus!
