//! Trees as bytes. A tree is a row of lines, `<octal mode> <name>NUL<hash>`:
//! the name may hold spaces, because only the first space ends the mode, and
//! NUL stands neither in a name nor in a hash.
use vstd::prelude::*;
use vstd::utf8::*;
use crate::error::BrassError;
use crate::mode::FileMode;
use crate::object::{Tree, TreeEntry, TreeEntryView};
use crate::text::{
    chars_of, find_char, is_ended, lemma_pieces_first, lemma_position, lemma_position_is,
    lemma_trim_ends, pieces, pieces_are_the_whole_text, position, split_byte_lines, string_of, trim,
    trimmed,
};
use crate::utf8::{
    lemma_encode_ascii, lemma_encode_concat, lemma_encode_lacks, push_text, text_of_bytes,
};

verus! {

/// One entry as bytes, with its line end.
pub open spec fn entry_bytes(e: TreeEntryView) -> Seq<u8> {
    entry_line(e).push(10)
}

/// One entry as bytes, without its line end.
pub open spec fn entry_line(e: TreeEntryView) -> Seq<u8> {
    (encode_utf8(e.mode.octal()).push(32) + encode_utf8(e.name)).push(0) + encode_utf8(e.hash)
}

/// The bytes of a tree: one line for each entry.
pub open spec fn tree_payload(entries: Seq<TreeEntryView>) -> Seq<u8>
    decreases entries.len(),
{
    if entries.len() == 0 {
        Seq::empty()
    } else {
        entry_bytes(entries[0]) + tree_payload(entries.drop_first())
    }
}

/// The part of a line before the first `sep` and the part after it; where
/// there is no `sep`, the whole line and nothing.
pub open spec fn split_header(header: Seq<char>, sep: char) -> (Seq<char>, Seq<char>) {
    let p = position(header, sep);
    if p < header.len() {
        (header.take(p), header.skip(p + 1))
    } else {
        (header, Seq::empty())
    }
}

/// The entry that a line stands for, if there is a NUL in the line.
pub open spec fn parse_entry(line: Seq<char>) -> Option<TreeEntryView> {
    let p = position(line, '\0');
    if p < line.len() {
        let (mode, name) = split_header(line.take(p), ' ');
        Some(
            TreeEntryView {
                mode: FileMode::of_octal(mode),
                name,
                hash: trim(line.skip(p + 1)),
            },
        )
    } else {
        None
    }
}

/// What one line adds to a tree: nothing where it is empty, else an entry.
pub open spec fn parse_line(line: Seq<u8>) -> Result<Seq<TreeEntryView>, BrassError> {
    if !valid_utf8(line) {
        Err(BrassError::TreeNotUtf8)
    } else if line.len() == 0 {
        Ok(Seq::empty())
    } else {
        match parse_entry(decode_utf8(line)) {
            Some(e) => Ok(seq![e]),
            None => Err(BrassError::TreeEntryWithoutNul),
        }
    }
}

/// The entries of the lines of a tree, or what is wrong with the first bad one.
pub open spec fn parse_lines(lines: Seq<Seq<u8>>) -> Result<Seq<TreeEntryView>, BrassError>
    decreases lines.len(),
{
    if lines.len() == 0 {
        Ok(Seq::empty())
    } else {
        match parse_line(lines[0]) {
            Err(e) => Err(e),
            Ok(first) => match parse_lines(lines.drop_first()) {
                Err(e) => Err(e),
                Ok(rest) => Ok(first + rest),
            },
        }
    }
}

/// The entries that the bytes of a tree stand for.
pub open spec fn parse_tree(payload: Seq<u8>) -> Result<Seq<TreeEntryView>, BrassError> {
    parse_lines(pieces(payload, 10u8, 13u8))
}

proof fn lemma_payload_push(entries: Seq<TreeEntryView>, e: TreeEntryView)
    ensures
        tree_payload(entries.push(e)) == tree_payload(entries) + entry_bytes(e),
    decreases entries.len(),
{
    if entries.len() == 0 {
        assert(entries.push(e).drop_first() =~= entries);
        assert(tree_payload(entries) =~= Seq::<u8>::empty());
        assert(tree_payload(entries.push(e)) =~= entry_bytes(e));
        assert(tree_payload(entries) + entry_bytes(e) =~= entry_bytes(e));
    } else {
        assert(entries.push(e).drop_first() =~= entries.drop_first().push(e));
        lemma_payload_push(entries.drop_first(), e);
        assert(tree_payload(entries.push(e)) =~= tree_payload(entries) + entry_bytes(e));
    }
}

fn read_entry(line: &str) -> (r: Option<TreeEntry>)
    ensures
        match r {
            Some(e) => parse_entry(line@) == Some(e@),
            None => parse_entry(line@) is None,
        },
{
    let cs = chars_of(line);
    proof {
        assert(cs@.skip(0) =~= line@);
    }
    let nul = find_char(&cs, '\0', 0);
    if nul == cs.len() {
        return None;
    }
    let hash = trimmed(string_of(&cs, nul + 1, cs.len()).as_str());
    let header_text = string_of(&cs, 0, nul);
    let header = chars_of(header_text.as_str());
    proof {
        assert(cs@.subrange(nul + 1, cs@.len() as int) =~= line@.skip(nul + 1));
        assert(header@ =~= line@.take(nul as int));
        assert(header@.skip(0) =~= header@);
    }
    let space = find_char(&header, ' ', 0);
    let mode = string_of(&header, 0, space);
    let name = if space == header.len() {
        String::new()
    } else {
        string_of(&header, space + 1, header.len())
    };
    proof {
        assert(mode@ =~= split_header(header@, ' ').0);
        assert(name@ =~= split_header(header@, ' ').1);
    }
    Some(TreeEntry { mode: FileMode::from_octal_str(mode.as_str()), name, hash })
}

impl Tree {
    /// The bytes of the tree: `<octal mode> <name>NUL<hash>` and a line feed
    /// for each entry.
    pub fn serialize_payload(&self) -> (r: Vec<u8>)
        ensures
            r@ == tree_payload(self@),
    {
        let mut buf: Vec<u8> = Vec::new();
        let mut i: usize = 0;
        assert(self@.take(0) =~= Seq::<TreeEntryView>::empty());
        while i < self.entries.len()
            invariant
                i <= self.entries@.len(),
                buf@ == tree_payload(self@.take(i as int)),
            decreases self.entries@.len() - i,
        {
            let entry = &self.entries[i];
            let ghost before = buf@;
            push_text(&mut buf, entry.mode.to_octal_str());
            buf.push(32);
            push_text(&mut buf, entry.name.as_str());
            buf.push(0);
            push_text(&mut buf, entry.hash.as_str());
            buf.push(10);
            proof {
                assert(buf@ =~= before + entry_bytes(entry@));
                assert(self@.take(i + 1) =~= self@.take(i as int).push(entry@));
                lemma_payload_push(self@.take(i as int), entry@);
            }
            i = i + 1;
        }
        assert(self@.take(i as int) =~= self@);
        buf
    }

    /// Reads the bytes of a tree.
    pub fn deserialize_payload(payload: &[u8]) -> (r: Result<Tree, BrassError>)
        ensures
            match r {
                Ok(t) => parse_tree(payload@) == Ok::<Seq<TreeEntryView>, BrassError>(t@),
                Err(e) => parse_tree(payload@) == Err::<Seq<TreeEntryView>, BrassError>(e),
            },
    {
        let lines = split_byte_lines(payload);
        let ghost all = lines@.map_values(|x: Vec<u8>| x@);
        let mut tree = Tree { entries: Vec::new() };
        let mut i: usize = 0;
        proof {
            assert(all.skip(0) =~= all);
            if let Ok(rest) = parse_lines(all) {
                assert(tree@ + rest =~= rest);
            }
        }
        while i < lines.len()
            invariant
                i <= lines@.len(),
                all == lines@.map_values(|x: Vec<u8>| x@),
                match parse_lines(all.skip(i as int)) {
                    Ok(rest) => parse_lines(all) == Ok::<Seq<TreeEntryView>, BrassError>(
                        tree@ + rest,
                    ),
                    Err(e) => parse_lines(all) == Err::<Seq<TreeEntryView>, BrassError>(e),
                },
                parse_lines(all) == parse_tree(payload@),
            decreases lines@.len() - i,
        {
            let ghost rest_lines = all.skip(i as int);
            let ghost before = tree@;
            let line = &lines[i];
            proof {
                assert(rest_lines[0] == line@);
                assert(rest_lines.drop_first() =~= all.skip(i + 1));
            }
            match text_of_bytes(vstd::slice::slice_to_vec(line.as_slice())) {
                None => {
                    return Err(BrassError::TreeNotUtf8);
                },
                Some(text) => {
                    if line.len() > 0 {
                        match read_entry(text.as_str()) {
                            None => {
                                return Err(BrassError::TreeEntryWithoutNul);
                            },
                            Some(entry) => {
                                tree.entries.push(entry);
                                assert(tree@ =~= before.push(entry@));
                                proof {
                                    if let Ok(rest) = parse_lines(all.skip(i + 1)) {
                                        assert(before + (seq![entry@] + rest) =~= tree@ + rest);
                                    }
                                }
                            },
                        }
                    } else {
                        proof {
                            if let Ok(rest) = parse_lines(all.skip(i + 1)) {
                                assert(Seq::<TreeEntryView>::empty() + rest =~= rest);
                            }
                        }
                    }
                },
            }
            i = i + 1;
        }
        assert(all.skip(i as int) =~= Seq::empty());
        assert(tree@ + Seq::empty() =~= tree@);
        Ok(tree)
    }
}

/// Whether an entry can be told from its line: the name holds neither NUL nor
/// a line feed, and the hash is one line without white space around it.
pub open spec fn is_storable(e: TreeEntryView) -> bool {
    &&& !e.name.contains('\0')
    &&& !e.name.contains('\n')
    &&& !e.hash.contains('\n')
    &&& trim(e.hash) == e.hash
}

/// The text of an entry's line.
spec fn entry_text(e: TreeEntryView) -> Seq<char> {
    (e.mode.octal().push(' ') + e.name).push('\0') + e.hash
}

proof fn lemma_entry_line(e: TreeEntryView)
    ensures
        entry_line(e) == encode_utf8(entry_text(e)),
{
    let a = e.mode.octal();
    lemma_encode_ascii(' ');
    lemma_encode_ascii('\0');
    lemma_encode_concat(a, seq![' ']);
    assert(a + seq![' '] =~= a.push(' '));
    lemma_encode_concat(a.push(' '), e.name);
    let b = a.push(' ') + e.name;
    lemma_encode_concat(b, seq!['\0']);
    assert(b + seq!['\0'] =~= b.push('\0'));
    lemma_encode_concat(b.push('\0'), e.hash);
    assert(encode_utf8(a.push(' ')) =~= encode_utf8(a).push(32));
    assert(encode_utf8(b.push('\0')) =~= encode_utf8(b).push(0));
}

proof fn lemma_parse_entry(e: TreeEntryView)
    requires
        is_storable(e),
    ensures
        parse_entry(entry_text(e)) == Some(e),
{
    let t = entry_text(e);
    let a = e.mode.octal();
    let header = a.push(' ') + e.name;
    e.mode.lemma_octal_digits();
    e.mode.octal_round_trip();
    assert forall|i: int| 0 <= i < header.len() implies t[i] != '\0' by {
        if i < 6 {
            assert(t[i] == a[i]);
        } else if i > 6 {
            assert(t[i] == e.name[i - 7]);
            assert(e.name.contains(e.name[i - 7]));
        }
    }
    lemma_position_is(t, '\0', header.len() as int);
    assert(t.take(header.len() as int) =~= header);
    assert(t.skip(header.len() as int + 1) =~= e.hash);
    assert forall|i: int| 0 <= i < 6 implies header[i] != ' ' by {
        assert(header[i] == a[i]);
    }
    lemma_position_is(header, ' ', 6);
    assert(header.take(6) =~= a);
    assert(header.skip(7) =~= e.name);
}

proof fn lemma_line_ends(e: TreeEntryView)
    requires
        is_storable(e),
    ensures
        !entry_line(e).contains(10u8),
        entry_line(e).last() != 13u8,
{
    let t = entry_text(e);
    let a = e.mode.octal();
    e.mode.lemma_octal_digits();
    lemma_entry_line(e);
    assert(!t.contains('\n')) by {
        if t.contains('\n') {
            let i = choose|i: int| 0 <= i < t.len() && t[i] == '\n';
            let n = a.len() + 1 + e.name.len();
            if i < a.len() {
                assert(t[i] == a[i]);
            } else if a.len() < i < n {
                assert(e.name.contains(e.name[i - a.len() - 1]));
            } else if i > n {
                assert(e.hash.contains(e.hash[i - n - 1]));
            }
        }
    }
    lemma_encode_lacks(t, '\n');
    if e.hash.len() > 0 {
        lemma_trim_ends(e.hash);
        let last = e.hash.last();
        lemma_encode_concat(e.hash.drop_last(), seq![last]);
        assert(e.hash.drop_last() + seq![last] =~= e.hash);
        lemma_encode_lacks(seq![last], '\r');
        let tail = encode_utf8(seq![last]);
        encode_utf8_first_scalar(seq![last]);
        assert(tail.len() > 0);
        assert(entry_line(e).last() == tail.last());
        assert(tail.contains(tail.last()));
    } else {
        assert(encode_utf8(e.hash) =~= Seq::<u8>::empty());
    }
}

/// A tree is read back from its bytes, entry by entry.
pub proof fn tree_round_trip(entries: Seq<TreeEntryView>)
    requires
        forall|i: int| 0 <= i < entries.len() ==> is_storable(#[trigger] entries[i]),
    ensures
        parse_tree(tree_payload(entries)) == Ok::<Seq<TreeEntryView>, BrassError>(entries),
    decreases entries.len(),
{
    if entries.len() == 0 {
        assert(entries =~= Seq::empty());
        assert(pieces(tree_payload(entries), 10u8, 13u8) =~= Seq::empty());
    } else {
        let e = entries[0];
        let rest = entries.drop_first();
        assert forall|i: int| 0 <= i < rest.len() implies is_storable(#[trigger] rest[i]) by {
            assert(rest[i] == entries[i + 1]);
        }
        tree_round_trip(rest);
        lemma_line_ends(e);
        let line = entry_line(e);
        assert(tree_payload(entries) =~= line + seq![10u8] + tree_payload(rest));
        lemma_pieces_first(line, tree_payload(rest), 10u8, 13u8);
        let ls = pieces(tree_payload(entries), 10u8, 13u8);
        assert(ls[0] == line);
        assert(ls.drop_first() =~= pieces(tree_payload(rest), 10u8, 13u8));
        lemma_entry_line(e);
        lemma_parse_entry(e);
        encode_utf8_valid_utf8(entry_text(e));
        encode_utf8_decode_utf8(entry_text(e));
        assert(seq![e] + rest =~= entries);
    }
}

/// A tree is stored as all its entries, in order: the mode in octal, a space, the
/// name, a NUL, the hash, and a line feed.
pub proof fn tree_holds_every_entry(entries: Seq<TreeEntryView>)
    ensures
        tree_payload(entries) == entries.map_values(
            |e: TreeEntryView|
                encode_utf8(
                    match e.mode {
                        FileMode::Regular => "100644"@,
                        FileMode::Executable => "100755"@,
                        FileMode::Directory => "040000"@,
                        FileMode::Symlink => "120000"@,
                    },
                ) + seq![0x20u8] + encode_utf8(e.name) + seq![0u8] + encode_utf8(e.hash)
                    + seq![0x0au8],
        ).flatten(),
    decreases entries.len(),
{
    let row = |e: TreeEntryView|
        encode_utf8(
            match e.mode {
                FileMode::Regular => "100644"@,
                FileMode::Executable => "100755"@,
                FileMode::Directory => "040000"@,
                FileMode::Symlink => "120000"@,
            },
        ) + seq![0x20u8] + encode_utf8(e.name) + seq![0u8] + encode_utf8(e.hash) + seq![0x0au8];
    if entries.len() == 0 {
        assert(entries.map_values(row) =~= Seq::empty());
    } else {
        let less = entries.drop_first();
        tree_holds_every_entry(less);
        assert(entries.map_values(row).drop_first() =~= less.map_values(row));
        assert(entries.map_values(row)[0] == row(entries[0]));
        assert(row(entries[0]) =~= entry_bytes(entries[0]));
    }
}

/// A line of a tree is read as a mode up to the first space, a name up to the
/// first NUL, and a hash; without a space it has no name, and without a NUL it is
/// no entry.
pub proof fn entry_is_read_from_its_line(mode: Seq<char>, name: Seq<char>, hash: Seq<char>)
    requires
        !mode.contains(' '),
        !mode.contains('\0'),
        !name.contains('\0'),
    ensures
        parse_entry(mode + seq![' '] + name + seq!['\0'] + hash) == Some(
            TreeEntryView { mode: FileMode::of_octal(mode), name, hash: trim(hash) },
        ),
        parse_entry(mode + seq!['\0'] + hash) == Some(
            TreeEntryView {
                mode: FileMode::of_octal(mode),
                name: Seq::empty(),
                hash: trim(hash),
            },
        ),
        parse_entry(name) is None,
{
    let front = mode + seq![' '] + name;
    let line = front + seq!['\0'] + hash;
    let n = front.len() as int;
    assert forall|i: int| 0 <= i < n implies line[i] != '\0' by {
        if i < mode.len() {
            assert(mode.contains(mode[i]));
        } else if i > mode.len() {
            assert(name.contains(name[i - mode.len() - 1]));
        }
    }
    lemma_position_is(line, '\0', n);
    assert(line.take(n) =~= front);
    assert(line.skip(n + 1) =~= hash);
    let k = mode.len() as int;
    assert forall|i: int| 0 <= i < k implies front[i] != ' ' by {
        assert(mode.contains(mode[i]));
    }
    lemma_position_is(front, ' ', k);
    assert(front.take(k) =~= mode);
    assert(front.skip(k + 1) =~= name);
    let bare = mode + seq!['\0'] + hash;
    assert forall|i: int| 0 <= i < k implies bare[i] != '\0' by {
        assert(mode.contains(mode[i]));
    }
    lemma_position_is(bare, '\0', k);
    assert(bare.take(k) =~= mode);
    assert(bare.skip(k + 1) =~= hash);
    lemma_position(mode, ' ');
    lemma_position(name, '\0');
}

/// Whether a line of a tree can be read.
pub open spec fn is_good_line(line: Seq<u8>) -> bool {
    valid_utf8(line) && (line.len() > 0 ==> decode_utf8(line).contains('\0'))
}

/// A tree is read line by line: it can be read if and only if each of its lines
/// can, and then it has an entry for each that is not empty, in order.
pub proof fn tree_is_read_line_by_line(ls: Seq<Seq<u8>>)
    ensures
        parse_lines(ls) is Ok <==> forall|i: int|
            0 <= i < ls.len() ==> is_good_line(#[trigger] ls[i]),
        parse_lines(ls) matches Ok(entries) ==> entries == ls.filter(
            |l: Seq<u8>| l.len() > 0,
        ).map_values(|l: Seq<u8>| parse_entry(decode_utf8(l))->0),
    decreases ls.len(),
{
    let full = |l: Seq<u8>| l.len() > 0;
    let entry = |l: Seq<u8>| parse_entry(decode_utf8(l))->0;
    if ls.len() == 0 {
        reveal(Seq::filter);
        assert(ls.filter(full).map_values(entry) =~= Seq::empty());
    } else {
        let rest = ls.drop_first();
        tree_is_read_line_by_line(rest);
        lemma_position(decode_utf8(ls[0]), '\0');
        assert(parse_line(ls[0]) is Ok <==> is_good_line(ls[0]));
        let one = seq![ls[0]];
        assert(ls =~= one + rest);
        Seq::filter_distributes_over_add(one, rest, full);
        assert(one.filter(full) =~= if full(ls[0]) {
            one
        } else {
            Seq::empty()
        }) by {
            reveal(Seq::filter);
            assert(one.drop_last() =~= Seq::empty());
            assert(one.drop_last().filter(full) =~= Seq::empty());
        }
        if parse_lines(rest) is Ok {
            assert forall|i: int| 0 <= i < rest.len() implies is_good_line(#[trigger] rest[i]) by {}
            if is_good_line(ls[0]) {
                assert forall|i: int| 0 <= i < ls.len() implies is_good_line(#[trigger] ls[i]) by {
                    if i > 0 {
                        assert(ls[i] == rest[i - 1]);
                    }
                }
                assert(ls.filter(full).map_values(entry) =~= one.filter(full).map_values(entry)
                    + rest.filter(full).map_values(entry));
            }
        } else {
            let j = choose|j: int| 0 <= j < rest.len() && !is_good_line(#[trigger] rest[j]);
            assert(!is_good_line(ls[j + 1]));
        }
    }
}

/// A tree that cannot be read fails with what is wrong with its first bad line: it
/// is no UTF-8, or has no NUL.
pub proof fn first_bad_line_is_told(ls: Seq<Seq<u8>>, k: int)
    requires
        0 <= k < ls.len(),
        !is_good_line(ls[k]),
        forall|i: int| 0 <= i < k ==> is_good_line(#[trigger] ls[i]),
    ensures
        parse_lines(ls) == Err::<Seq<TreeEntryView>, BrassError>(
            if valid_utf8(ls[k]) {
                BrassError::TreeEntryWithoutNul
            } else {
                BrassError::TreeNotUtf8
            },
        ),
    decreases k,
{
    lemma_position(decode_utf8(ls[0]), '\0');
    if k > 0 {
        assert(is_good_line(ls[0]));
        let rest = ls.drop_first();
        assert forall|i: int| 0 <= i < k - 1 implies is_good_line(#[trigger] rest[i]) by {
            assert(rest[i] == ls[i + 1]);
        }
        first_bad_line_is_told(rest, k - 1);
    }
}

/// The lines of a tree are read up to line feeds, without a carriage return before
/// one.
pub proof fn tree_lines_end_in_line_feeds(payload: Seq<u8>) -> (r: (Seq<Seq<u8>>, Seq<Seq<u8>>))
    ensures
        parse_tree(payload) == parse_lines(r.0),
        r.0.len() == r.1.len(),
        forall|i: int|
            0 <= i < r.0.len() ==> is_ended(
                r.0[i],
                #[trigger] r.1[i],
                i == r.0.len() - 1,
                0x0au8,
                0x0du8,
            ),
        payload == Seq::new(r.0.len(), |i: int| r.0[i] + r.1[i]).flatten(),
{
    let ls = pieces(payload, 0x0au8, 0x0du8);
    let ends = pieces_are_the_whole_text(payload, 0x0au8, 0x0du8);
    assert(Seq::new(ls.len(), |i: int| ls[i] + ends[i]) =~= Seq::new(
        ends.len(),
        |i: int| ls[i] + ends[i],
    ));
    (ls, ends)
}

} // verus!
