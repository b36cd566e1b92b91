use brass::error::BrassError;
use brass::history::Reach;
use brass::index::{Index, IndexEntry};
use brass::mode::FileMode;
use brass::object::{Blob, BrassObject, Commit, Signature, Timestamp};
use brass::objects::{read_stored, LooseObject};
use brass::pack::{find_in_index, take_stream, StoredObject};
use brass::repository::Repository;
use brass::store::ObjectStore;
use brass::upkeep::{collect_all_reachable_hashes, PullResult};

const NOW: Timestamp = Timestamp { secs: 0, nanos: 0 };

fn repo() -> Repository {
    Repository::init("/r", None, None, None)
}

fn blob(text: &str) -> BrassObject {
    BrassObject::Blob(Blob { data: text.as_bytes().to_vec() })
}

fn stored(text: &str) -> StoredObject {
    let loose = repo().write_object(&blob(text));
    StoredObject { hash: loose.hash.clone(), stored: loose.stored() }
}

#[test]
fn pack_and_its_index() {
    let objects = vec![stored("one"), stored("two")];
    let pack = repo().pack(&objects, 1234).unwrap();
    assert_eq!(pack.count, 2);
    assert_eq!(pack.pack_path, "/r/.brass_control/packs/pack-1234.pack");
    assert_eq!(pack.idx_path, "/r/.brass_control/packs/pack-1234.idx");
    let a = objects[0].stored.len();
    let b = objects[1].stored.len();
    assert_eq!(
        pack.index,
        format!("{}\t0\t{}\n{}\t{}\t{}\n", objects[0].hash, a, objects[1].hash, a, b)
    );
    assert_eq!(pack.data, [objects[0].stored.clone(), objects[1].stored.clone()].concat());
}

#[test]
fn index_leads_to_the_objects() {
    let objects = vec![stored("one"), stored("two"), stored("three")];
    let pack = repo().pack(&objects, 0).unwrap();
    for (object, text) in objects.iter().zip(["one", "two", "three"]) {
        let (offset, len) = find_in_index(&pack.index, &object.hash).unwrap().unwrap();
        let part = &pack.data[offset as usize..offset as usize + len];
        assert_eq!(part, &object.stored[..]);
        assert_eq!(read_stored(Some(part), NOW), Ok(blob(text)));
    }
    assert_eq!(find_in_index(&pack.index, "none"), Ok(None));
}

#[test]
fn index_lines_that_are_odd() {
    assert_eq!(find_in_index("h\t1\nh\t2\t3\t4\nh\t5\t6\nh\t7\t8\n", "h"), Ok(Some((5, 6))));
    assert_eq!(find_in_index("h\tx\t6\n", "h"), Err(BrassError::PackIndexNotANumber));
    assert_eq!(find_in_index("h\t6\t-1\n", "h"), Err(BrassError::PackIndexNotANumber));
}

#[test]
fn nothing_to_pack() {
    assert_eq!(repo().pack(&vec![], 1), Err(BrassError::NothingToPack));
}

#[test]
fn pack_is_unpacked() {
    let objects = vec![stored("one"), stored(""), stored("two")];
    let pack = repo().pack(&objects, 0).unwrap();
    let (loose, error) = repo().unpack_objects(&pack.data);
    assert_eq!(error, None);
    assert_eq!(loose.len(), 3);
    for (l, o) in loose.iter().zip(&objects) {
        assert_eq!(l.hash, o.hash);
    }
    assert_eq!(loose[2], repo().write_object(&blob("two")));
}

#[test]
fn large_pack_is_unpacked_stream_by_stream() {
    let mut seed: u32 = 1;
    let mut noise = String::new();
    for _ in 0..60_000 {
        seed = seed.wrapping_mul(1_664_525).wrapping_add(1_013_904_223);
        noise.push((b'a' + (seed >> 24) as u8 % 26) as char);
    }
    let objects = vec![stored(&noise), stored("small"), stored(&noise[1..])];
    assert!(objects[0].stored.len() > 32 * 1024);
    let pack = repo().pack(&objects, 0).unwrap();
    let (loose, error) = repo().unpack_objects(&pack.data);
    assert_eq!(error, None);
    let hashes: Vec<String> = loose.iter().map(|l| l.hash.clone()).collect();
    let want: Vec<String> = objects.iter().map(|o| o.hash.clone()).collect();
    assert_eq!(hashes, want);
}

#[test]
fn corrupt_pack_gives_what_comes_before() {
    let mut data = stored("one").stored;
    data.extend_from_slice(b"garbage");
    let (loose, error) = repo().unpack_objects(&data);
    assert_eq!(loose.len(), 1);
    assert_eq!(error, Some(BrassError::CorruptPack));
    assert_eq!(repo().unpack_objects(&[]), (vec![], None));
}

#[test]
fn streams_of_a_pack() {
    assert_eq!(take_stream("d", None), Err(BrassError::CorruptPack));
    assert_eq!(take_stream("d", Some((vec![1], 0))), Err(BrassError::PackWithoutProgress));
    let (object, taken) = take_stream("d", Some((vec![], 9))).unwrap();
    assert_eq!(taken, 9);
    assert_eq!(
        object.path,
        "d/objects/e3/b0c44298fc1c149afbf4c8996fb92427ae41e4649b934ca495991b7852b855"
    );
}

#[test]
fn fetch_remembers_the_remote() {
    let pack = repo().pack(&vec![stored("one")], 0).unwrap();
    let plan = repo().fetch(Some("abc"), "main", &pack.data);
    assert_eq!(plan.objects.len(), 1);
    assert_eq!(plan.error, None);
    let update = plan.tracking.unwrap();
    assert_eq!(update.path, "/r/.brass_control/refs/remotes/origin/main");
    assert_eq!(update.text, "abc\n");
    assert!(update.make_parent);
    assert_eq!(repo().tracking_file("main"), update.path);
    assert_eq!(repo().fetch(None, "main", &pack.data).tracking, None);
}

#[test]
fn fetch_of_a_corrupt_pack_remembers_nothing() {
    let plan = repo().fetch(Some("abc"), "main", b"xx");
    assert_eq!(plan.error, Some(BrassError::CorruptPack));
    assert_eq!(plan.tracking, None);
}

fn pull(tracking: &str, local: &str, history: &[(&str, &[&str])]) -> PullResult {
    let mut walk = repo().pull_fast_forward(Some(tracking), local).unwrap();
    let mut store = ObjectStore::new();
    loop {
        match walk.advance(&store) {
            Ok(result) => return result,
            Err(hash) => {
                let found = history.iter().find(|(h, _)| *h == hash).map(|(_, parents)| {
                    let who =
                        || Signature { name: String::new(), email: String::new(), timestamp: NOW };
                    BrassObject::Commit(Commit {
                        tree_hash: String::new(),
                        parent_hashes: parents.iter().map(|p| p.to_string()).collect(),
                        author: who(),
                        committer: who(),
                        message: String::new(),
                    })
                });
                store = ObjectStore::new();
                store.insert(hash, found);
            }
        }
    }
}

#[test]
fn pull_moves_forward_only() {
    assert_eq!(
        repo().pull_fast_forward(None, "a").err(),
        Some(BrassError::TrackingRefMissing)
    );
    let history: &[(&str, &[&str])] =
        &[("a", &[]), ("b", &["a"]), ("c", &["b"]), ("m", &["c", "a"]), ("x", &["a"])];
    let forward = |hash: &str| PullResult::FastForwarded(hash.to_string());
    assert_eq!(pull("a\n", "a", &[]), PullResult::AlreadyUpToDate);
    assert_eq!(pull(" b\n", "", &[]), forward("b"));
    assert_eq!(pull(" b\n", "a", history), forward("b"));
    assert_eq!(pull("c\n", "a", history), forward("c"));
    assert_eq!(pull("m\n", "b", history), forward("m"));
    assert_eq!(
        pull("c\n", "x", history),
        PullResult::DivergedNeedsMerge { local: "x".to_string(), remote: "c".to_string() }
    );
    assert_eq!(
        pull("a\n", "b", history),
        PullResult::DivergedNeedsMerge { local: "b".to_string(), remote: "a".to_string() }
    );
}

#[test]
fn packed_objects_are_looked_up_as_before() {
    let r = repo();
    let texts = ["one", "two", "three"];
    let loose: Vec<LooseObject> = texts.iter().map(|t| r.write_object(&blob(t))).collect();
    let objects: Vec<StoredObject> = loose
        .iter()
        .map(|o| StoredObject { hash: o.hash.clone(), stored: o.stored() })
        .collect();
    let pack = r.pack(&objects, 7).unwrap();
    for (object, text) in loose.iter().zip(texts) {
        let (offset, len) = find_in_index(&pack.index, &object.hash).unwrap().unwrap();
        let stored = &pack.data[offset as usize..offset as usize + len];
        assert_eq!(r.read_object(Some(stored), NOW), Ok(blob(text)));
    }
    assert_eq!(find_in_index(&pack.index, "other"), Ok(None));
}

#[test]
fn garbage_is_what_was_not_seen() {
    let index = Index {
        entries: vec![IndexEntry {
            path: "p".to_string(),
            hash: "kept".to_string(),
            mode: FileMode::Regular,
            modified_at: NOW,
            file_size: 0,
        }],
    };
    let mut store = ObjectStore::new();
    store.insert("root".to_string(), Some(blob("x")));
    let mut reach: Reach = collect_all_reachable_hashes(vec!["root".to_string()], &index);
    assert_eq!(reach.advance(&store), None);
    let names: Vec<String> =
        ["old", "root", "kept", "older"].iter().map(|s| s.to_string()).collect();
    assert_eq!(repo().gc(&reach, &names), vec![0, 3]);
}
