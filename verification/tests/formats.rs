use brass::error::BrassError;
use brass::hash::{hash_of, to_hex};
use brass::index::{Index, IndexEntry};
use brass::mode::FileMode;
use brass::object::{Blob, BrassObject, Commit, Signature, Timestamp, Tree, TreeEntry};
use brass::objects::{object_path, read_stored, LooseObject};
use brass::utf8::{bytes_of, push_bytes, push_text, read_lossy};

const NOW: Timestamp = Timestamp { secs: 1_700_000_000, nanos: 5 };

fn entry(mode: FileMode, name: &str, hash: &str) -> TreeEntry {
    TreeEntry { mode, name: name.to_string(), hash: hash.to_string() }
}

fn person(name: &str, email: &str) -> Signature {
    Signature { name: name.to_string(), email: email.to_string(), timestamp: NOW }
}

fn commit(tree: &str, parents: &[&str], message: &str) -> Commit {
    Commit {
        tree_hash: tree.to_string(),
        parent_hashes: parents.iter().map(|p| p.to_string()).collect(),
        author: person("Ala Kot", "ala@x.pl"),
        committer: person("Ola", "ola@x.pl"),
        message: message.to_string(),
    }
}

fn index_entry(path: &str, hash: &str) -> IndexEntry {
    IndexEntry {
        path: path.to_string(),
        hash: hash.to_string(),
        mode: FileMode::Executable,
        modified_at: Timestamp { secs: 0x0102030405060708, nanos: 0x0a0b0c0d },
        file_size: 77,
    }
}

#[test]
fn modes_as_octal_strings() {
    assert_eq!(FileMode::Regular.to_octal_str(), "100644");
    assert_eq!(FileMode::Executable.to_octal_str(), "100755");
    assert_eq!(FileMode::Directory.to_octal_str(), "040000");
    assert_eq!(FileMode::Symlink.to_octal_str(), "120000");
}

#[test]
fn modes_from_octal_strings() {
    for mode in [FileMode::Regular, FileMode::Executable, FileMode::Directory, FileMode::Symlink] {
        assert_eq!(FileMode::from_octal_str(mode.to_octal_str()), mode);
    }
    assert_eq!(FileMode::from_octal_str("40000"), FileMode::Directory);
    assert_eq!(FileMode::from_octal_str(""), FileMode::Regular);
    assert_eq!(FileMode::from_octal_str("100755 "), FileMode::Regular);
}

#[test]
fn modes_as_tags() {
    assert_eq!(FileMode::Regular.to_tag(), 0);
    assert_eq!(FileMode::Executable.to_tag(), 1);
    assert_eq!(FileMode::Directory.to_tag(), 2);
    assert_eq!(FileMode::Symlink.to_tag(), 3);
    for tag in 0..4u8 {
        assert_eq!(FileMode::from_tag(tag).to_tag(), tag);
    }
    assert_eq!(FileMode::from_tag(200), FileMode::Regular);
}

#[test]
fn hashes_are_sha256_in_hexadecimal() {
    assert_eq!(hash_of(b""), "e3b0c44298fc1c149afbf4c8996fb92427ae41e4649b934ca495991b7852b855");
    assert_eq!(to_hex(&vec![0, 9, 10, 15, 16, 255]), "00090a0f10ff");
}

#[test]
fn lossy_text_replaces_what_is_not_utf8() {
    assert_eq!(read_lossy(b"zupa"), "zupa");
    assert_eq!(read_lossy(&[b'a', 0xff, b'b']), "a\u{fffd}b");
    assert_eq!(read_lossy("żółw".as_bytes()), "żółw");
}

#[test]
fn bytes_of_text() {
    assert_eq!(bytes_of("ż"), vec![0xc5, 0xbc]);
    let mut out = vec![1];
    push_text(&mut out, "a");
    push_bytes(&mut out, &[2, 3]);
    assert_eq!(out, vec![1, b'a', 2, 3]);
}

#[test]
fn blob_is_named_after_its_bytes() {
    let (name, data) = BrassObject::Blob(Blob { data: b"hello".to_vec() }).serialize();
    assert_eq!(data, b"blob 5\0hello");
    assert_eq!(name, "8aec4e4876f854f688d0ebfc8f37598f38e5fd6903cccc850ca36591175aeb60");
}

#[test]
fn empty_blob() {
    let (name, data) = BrassObject::Blob(Blob { data: Vec::new() }).serialize();
    assert_eq!(data, b"blob 0\0");
    assert_eq!(name, "473a0f4c3be8a93681a267e3b1e9a7dcda1185436fe141f7749120a303721813");
}

#[test]
fn tree_as_bytes() {
    let hash = "ab".repeat(32);
    let tree = Tree { entries: vec![entry(FileMode::Regular, "a b.txt", &hash)] };
    let payload = tree.serialize_payload();
    assert_eq!(payload, format!("100644 a b.txt\0{}\n", hash).into_bytes());
    let (name, _) = BrassObject::Tree(tree).serialize();
    assert_eq!(name, "6490fe20aa7d94c38caad207be23f2e2c95798144e5736e8279393d5696f09db");
}

#[test]
fn tree_is_read_back() {
    let tree = Tree {
        entries: vec![
            entry(FileMode::Regular, "zwykły plik", "1f"),
            entry(FileMode::Directory, "dir", "2f"),
            entry(FileMode::Symlink, " spaced  name ", "3f"),
            entry(FileMode::Executable, "", ""),
        ],
    };
    assert_eq!(Tree::deserialize_payload(&tree.serialize_payload()), Ok(tree));
}

#[test]
fn tree_name_with_line_feed_is_not_read_back() {
    let tree = Tree { entries: vec![entry(FileMode::Regular, "a\nb", "1f")] };
    assert_eq!(
        Tree::deserialize_payload(&tree.serialize_payload()),
        Err(BrassError::TreeEntryWithoutNul)
    );
}

#[test]
fn tree_lines_that_are_odd() {
    assert_eq!(Tree::deserialize_payload(b""), Ok(Tree { entries: vec![] }));
    assert_eq!(
        Tree::deserialize_payload(b"\n\r\n40000 d\0  7f \r\n\n100755\0aa"),
        Ok(Tree {
            entries: vec![
                entry(FileMode::Directory, "d", "7f"),
                entry(FileMode::Executable, "", "aa"),
            ],
        })
    );
}

#[test]
fn tree_errors() {
    assert_eq!(
        Tree::deserialize_payload(b"100644 a\0aa\n100644 b bb\n"),
        Err(BrassError::TreeEntryWithoutNul)
    );
    assert_eq!(
        Tree::deserialize_payload(&[b'1', 0xff, 0, b'\n']),
        Err(BrassError::TreeNotUtf8)
    );
}

#[test]
fn commit_as_text() {
    let c = commit("t1", &["p1", "p2"], "temat\n\ntreść");
    assert_eq!(
        c.serialize_payload(),
        "tree t1\nparent p1\nparent p2\nauthor Ala Kot <ala@x.pl>\ncommitter Ola <ola@x.pl>\n\ntemat\n\ntreść\n"
    );
}

#[test]
fn commit_is_read_back() {
    let c = commit("t1", &["p1", "p2"], "temat\n\ntreść");
    let text = c.serialize_payload();
    let back = Commit::deserialize_payload(text.as_bytes(), NOW).unwrap();
    let mut want = c.clone();
    want.committer.email = "Ola <ola@x.pl".to_string();
    assert_eq!(back, want);
    assert_eq!(Commit::from_text(&text, NOW), want);
}

#[test]
fn addresses_lose_the_angles_at_their_end() {
    let mut c = commit("t1", &[], "m");
    c.author.email = "a>>".to_string();
    c.committer.email = ">".to_string();
    let back = Commit::from_text(&c.serialize_payload(), NOW);
    assert_eq!(back.author.email, "a");
    assert_eq!(back.committer.name, "Ola");
    assert_eq!(back.committer.email, "Ola <");
}

#[test]
fn commit_text_that_is_odd() {
    let c = Commit::from_text("tree a\ntree b\nauthor nobody\nwhat is this\n", NOW);
    assert_eq!(c.tree_hash, "b");
    assert_eq!(c.author.name, "");
    assert_eq!(c.message, "");
    let d = Commit::from_text("author A <B <c>>>\r\n\r\n  m1  \r\nm2\r\n\r\n", NOW);
    assert_eq!(d.author.name, "A");
    assert_eq!(d.author.email, "B <c");
    assert_eq!(d.message, "m1  \nm2");
}

#[test]
fn objects_are_read_back_from_bytes() {
    let blob = BrassObject::Blob(Blob { data: vec![0, 1, 2, 255] });
    assert_eq!(BrassObject::deserialize(&blob.serialize().1, NOW), Ok(blob));
    let tree = BrassObject::Tree(Tree { entries: vec![entry(FileMode::Regular, "a", "1f")] });
    assert_eq!(BrassObject::deserialize(&tree.serialize().1, NOW), Ok(tree));
}

#[test]
fn object_errors() {
    assert_eq!(BrassObject::deserialize(b"blob 3abc", NOW), Err(BrassError::MissingHeader));
    assert_eq!(BrassObject::deserialize(b" \t\0abc", NOW), Err(BrassError::MissingType));
    assert_eq!(BrassObject::deserialize(b"blub 3\0abc", NOW), Err(BrassError::UnknownType));
    assert_eq!(BrassObject::of_payload("Blob", b"", NOW), Err(BrassError::UnknownType));
}

#[test]
fn object_length_in_the_header_does_not_count() {
    assert_eq!(
        BrassObject::deserialize(b" blob 99 x\0abc", NOW),
        Ok(BrassObject::Blob(Blob { data: b"abc".to_vec() }))
    );
}

#[test]
fn loose_objects_are_compressed_and_read_back() {
    let blob = BrassObject::Blob(Blob { data: b"hello".repeat(100) });
    let (name, data) = blob.serialize();
    let loose = LooseObject::of_bytes("/r/.brass_control", data.clone());
    assert_eq!(loose.hash, name);
    assert_eq!(loose.directory, format!("/r/.brass_control/objects/{}", &name[..2]));
    assert_eq!(loose.path, format!("/r/.brass_control/objects/{}/{}", &name[..2], &name[2..]));
    assert_eq!(object_path("/r/.brass_control", &name), Some(loose.path.clone()));
    let stored = loose.stored();
    assert_ne!(stored, data);
    assert!(stored.len() < data.len());
    assert_eq!(read_stored(Some(&stored), NOW), Ok(blob));
}

#[test]
fn stored_bytes_that_hold_no_object() {
    assert_eq!(read_stored(None, NOW), Err(BrassError::ObjectNotFound));
    assert_eq!(read_stored(Some(b"not zlib"), NOW), Err(BrassError::CorruptStream));
    let loose = LooseObject::of_bytes("r", b"blob 3\0abc".to_vec());
    let stored = loose.stored();
    assert_eq!(
        read_stored(Some(&stored[..stored.len() - 6]), NOW),
        Err(BrassError::CorruptStream)
    );
}

#[test]
fn names_that_cannot_be_cut() {
    assert_eq!(object_path("d", "a"), None);
    assert_eq!(object_path("d", "aż"), None);
    assert_eq!(object_path("d", "żb"), Some("d/objects/ż/b".to_string()));
}

#[test]
fn index_as_bytes() {
    let hash = "cd".repeat(32);
    let index = Index { entries: vec![index_entry("a\tb", &hash)] };
    let mut want = b"BRIX\x01\0\0\0\x01\0\0\0\x01".to_vec();
    want.extend_from_slice(hash.as_bytes());
    want.extend_from_slice(&[8, 7, 6, 5, 4, 3, 2, 1, 0x0d, 0x0c, 0x0b, 0x0a, 77, 0, 0, 0, 0, 0, 0, 0]);
    want.extend_from_slice(&[3, 0, 0, 0]);
    want.extend_from_slice(b"a\tb");
    assert_eq!(index.save(), want);
    assert_eq!(Index::from_bytes(&want), Ok(index));
}

#[test]
fn index_keeps_any_path() {
    let hash = "0f".repeat(32);
    let index = Index {
        entries: vec![
            index_entry("zwykły.txt", &hash),
            index_entry("a\nb\tc", &hash),
            index_entry("", &hash),
        ],
    };
    assert_eq!(Index::load(Some(&index.save())), Ok(index));
    assert_eq!(Index::load(None), Ok(Index { entries: vec![] }));
}

#[test]
fn index_fits_hashes_to_their_room() {
    let index = Index { entries: vec![index_entry("p", "abc"), index_entry("q", &"e".repeat(70))] };
    let back = Index::from_bytes(&index.save()).unwrap();
    assert_eq!(back.entries[0].hash, format!("abc{}", "0".repeat(61)));
    assert_eq!(back.entries[1].hash, "e".repeat(64));
}

#[test]
fn index_times_are_made_whole() {
    let mut data = Index { entries: vec![index_entry("p", &"a".repeat(64))] }.save();
    data[12 + 73..12 + 77].copy_from_slice(&3_500_000_000u32.to_le_bytes());
    let back = Index::from_bytes(&data).unwrap();
    assert_eq!(
        back.entries[0].modified_at,
        Timestamp { secs: 0x0102030405060708 + 3, nanos: 500_000_000 }
    );
}

#[test]
fn index_errors() {
    let hash = "a".repeat(64);
    let good = Index { entries: vec![index_entry("path", &hash)] }.save();
    assert_eq!(Index::from_bytes(&good[..11]), Err(BrassError::IndexTooShort));
    let mut bad = good.clone();
    bad[0] = b'b';
    assert_eq!(Index::from_bytes(&bad), Err(BrassError::IndexBadMagic));
    let mut bad = good.clone();
    bad[4] = 2;
    assert_eq!(Index::from_bytes(&bad), Err(BrassError::IndexBadVersion(2)));
    assert_eq!(Index::from_bytes(&good[..12 + 88]), Err(BrassError::IndexTruncated));
    assert_eq!(Index::from_bytes(&good[..good.len() - 1]), Err(BrassError::IndexPathOutOfData));
    let mut bad = good.clone();
    bad[13] = 0xff;
    assert_eq!(Index::from_bytes(&bad), Err(BrassError::IndexHashNotUtf8));
    let mut bad = good.clone();
    let last = bad.len() - 1;
    bad[last] = 0xff;
    assert_eq!(Index::from_bytes(&bad), Err(BrassError::IndexPathNotUtf8));
    let mut bad = good.clone();
    for i in 77..85 {
        bad[i] = 0xff;
    }
    assert_eq!(Index::from_bytes(&bad), Err(BrassError::IndexTimeOutOfRange));
    let mut bad = good;
    bad[8] = 2;
    assert_eq!(Index::from_bytes(&bad), Err(BrassError::IndexTruncated));
}

#[test]
fn staging_replaces_the_entry_of_the_same_path() {
    let mut index = Index::default();
    index.stage(index_entry("a/b", "1"));
    index.stage(index_entry("c", "2"));
    index.stage(index_entry("a//./b", "3"));
    assert_eq!(index.entries.len(), 2);
    assert_eq!(index.entries[0].hash, "3");
    assert_eq!(index.entries[0].path, "a//./b");
    assert_eq!(index.find("c"), 1);
    assert_eq!(index.find("d"), 2);
}

#[test]
fn objects_as_they_are_shown() {
    let blob = BrassObject::Blob(Blob { data: b"a\nb".to_vec() });
    assert_eq!(blob.show(), "a\nb\n");
    let tree = BrassObject::Tree(Tree {
        entries: vec![entry(FileMode::Regular, "x", "1f"), entry(FileMode::Symlink, "y", "2f")],
    });
    assert_eq!(tree.show(), "Regular 1f\tx\nSymlink 2f\ty\n");
    let c = BrassObject::Commit(commit("t1", &["p1"], "m"));
    assert_eq!(c.show(), "Tree: t1\nAuthor: Ala Kot <ala@x.pl>\n\nm\n");
}
