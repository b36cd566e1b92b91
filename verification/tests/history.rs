use brass::blame::read_blob_as_string;
use brass::error::BrassError;
use brass::files::{flatten_tree_from_commit, FileEntry, Halt};
use brass::history::Reach;
use brass::lca::{find_lca, LcaSearch, LcaStep};
use brass::log::LogWalk;
use brass::blame::BlameWalk;
use brass::mode::FileMode;
use brass::object::{Blob, BrassObject, Commit, Signature, Timestamp, Tree, TreeEntry};
use brass::store::ObjectStore;

const NOW: Timestamp = Timestamp { secs: 0, nanos: 0 };

fn person(name: &str) -> Signature {
    Signature { name: name.to_string(), email: format!("{}@x", name), timestamp: NOW }
}

fn commit(tree: &str, parents: &[&str], author: &str, message: &str) -> BrassObject {
    BrassObject::Commit(Commit {
        tree_hash: tree.to_string(),
        parent_hashes: parents.iter().map(|p| p.to_string()).collect(),
        author: person(author),
        committer: person(author),
        message: message.to_string(),
    })
}

fn tree(entries: &[(FileMode, &str, &str)]) -> BrassObject {
    BrassObject::Tree(Tree {
        entries: entries
            .iter()
            .map(|(mode, name, hash)| TreeEntry {
                mode: *mode,
                name: name.to_string(),
                hash: hash.to_string(),
            })
            .collect(),
    })
}

fn blob(text: &str) -> BrassObject {
    BrassObject::Blob(Blob { data: text.as_bytes().to_vec() })
}

fn store(objects: Vec<(&str, BrassObject)>) -> ObjectStore {
    let mut s = ObjectStore::new();
    for (hash, object) in objects {
        s.insert(hash.to_string(), Some(object));
    }
    s
}

fn graph() -> ObjectStore {
    // a <- b <- d, a <- c <- e, e also on d; x stands alone
    store(vec![
        ("a", commit("t", &[], "A", "a")),
        ("b", commit("t", &["a"], "A", "b")),
        ("c", commit("t", &["a"], "A", "c")),
        ("d", commit("t", &["b"], "A", "d")),
        ("e", commit("t", &["c", "d"], "A", "e")),
        ("x", commit("t", &[], "A", "x")),
    ])
}

#[test]
fn common_ancestors() {
    let s = graph();
    assert_eq!(find_lca(&s, "d", "c"), LcaStep::Found("a".to_string()));
    assert_eq!(find_lca(&s, "d", "e"), LcaStep::Found("d".to_string()));
    assert_eq!(find_lca(&s, "e", "b"), LcaStep::Found("b".to_string()));
    assert_eq!(find_lca(&s, "b", "b"), LcaStep::Found("b".to_string()));
    assert_eq!(find_lca(&s, "x", "e"), LcaStep::NoneFound);
}

#[test]
fn nearest_ancestor_is_not_always_the_lowest() {
    // m has the parents [n, r]; n leads to l, r is an old ancestor of l
    let s = store(vec![
        ("r", commit("t", &[], "A", "")),
        ("l", commit("t", &["r"], "A", "")),
        ("n", commit("t", &["l"], "A", "")),
        ("m", commit("t", &["n", "r"], "A", "")),
    ]);
    assert_eq!(find_lca(&s, "l", "m"), LcaStep::Found("r".to_string()));
}

#[test]
fn search_asks_for_what_it_needs() {
    let full = graph();
    let mut s = ObjectStore::new();
    let mut search = LcaSearch::new("d", "c");
    let mut asked = Vec::new();
    let found = loop {
        match search.advance(&s) {
            LcaStep::Need(hash) => {
                asked.push(hash.clone());
                let object = full.get(&hash).unwrap().clone();
                s = ObjectStore::new();
                s.insert(hash, object);
            }
            other => break other,
        }
    };
    assert_eq!(found, LcaStep::Found("a".to_string()));
    assert_eq!(asked, vec!["d", "b", "a", "c"]);
}

#[test]
fn unreadable_commits_end_a_walk() {
    let mut s = graph();
    s.insert("gone".to_string(), None);
    s.insert("y".to_string(), Some(commit("t", &["gone", "a"], "A", "")));
    assert_eq!(find_lca(&s, "y", "b"), LcaStep::Found("a".to_string()));
    assert_eq!(find_lca(&s, "gone", "y"), LcaStep::Found("gone".to_string()));
}

#[test]
fn ancestors_of_a_commit() {
    let s = graph();
    let mut reach = Reach::ancestors("e");
    assert_eq!(reach.advance(&s), None);
    for hash in ["a", "b", "c", "d", "e"] {
        assert!(reach.has_seen(hash));
    }
    assert!(!reach.has_seen("x"));
    assert!(!reach.has_seen("t"));
}

#[test]
fn reachable_objects() {
    let mut s = store(vec![
        ("c1", commit("t1", &["c0"], "A", "")),
        ("t1", tree(&[(FileMode::Regular, "f", "b1"), (FileMode::Directory, "d", "t2")])),
        ("t2", tree(&[(FileMode::Regular, "g", "b2")])),
        ("b1", blob("1")),
        ("b2", blob("2")),
    ]);
    s.insert("c0".to_string(), None);
    let mut reach = Reach::objects(vec!["c1".to_string()], &vec!["staged".to_string()]);
    assert_eq!(reach.advance(&s), None);
    for hash in ["c1", "c0", "t1", "t2", "b1", "b2", "staged"] {
        assert!(reach.has_seen(hash));
    }
    assert!(!reach.has_seen("b3"));
}

#[test]
fn what_is_kept_leads_nowhere() {
    let s = store(vec![("t1", tree(&[(FileMode::Regular, "f", "b1")])), ("b1", blob("1"))]);
    let mut reach = Reach::objects(vec!["t1".to_string()], &vec!["t1".to_string()]);
    assert_eq!(reach.advance(&s), None);
    assert!(!reach.has_seen("b1"));
}

fn file(path: &str, hash: &str, mode: FileMode) -> FileEntry {
    FileEntry { path: path.to_string(), hash: hash.to_string(), mode }
}

#[test]
fn files_of_a_commit() {
    let s = store(vec![
        ("c", commit("t", &[], "A", "")),
        (
            "t",
            tree(&[
                (FileMode::Regular, "a", "1"),
                (FileMode::Directory, "d", "t2"),
                (FileMode::Symlink, "d/x", "2"),
                (FileMode::Regular, "./a", "3"),
            ]),
        ),
        ("t2", tree(&[(FileMode::Executable, "x", "4")])),
    ]);
    let files = flatten_tree_from_commit(&s, "c").unwrap();
    assert_eq!(
        files.entries(),
        &vec![
            file("a", "1", FileMode::Regular),
            file("d/x", "2", FileMode::Symlink),
            file("./a", "3", FileMode::Regular),
        ]
    );
    assert_eq!(files.get("d//x").map(|f| f.hash.clone()), Some("2".to_string()));
    assert_eq!(files.get("nope"), None);
}

#[test]
fn files_of_what_is_no_commit() {
    let mut s = store(vec![("b", blob("x")), ("c", commit("t", &[], "A", ""))]);
    assert_eq!(flatten_tree_from_commit(&s, "b").unwrap().entries(), &vec![]);
    assert_eq!(flatten_tree_from_commit(&s, "c").err(), Some(Halt::Need("t".to_string())));
    s.insert("t".to_string(), None);
    assert_eq!(flatten_tree_from_commit(&s, "c").unwrap().entries(), &vec![]);
}

#[test]
fn tree_in_itself_is_an_error() {
    let s = store(vec![
        ("c", commit("t", &[], "A", "")),
        ("t", tree(&[(FileMode::Directory, "d", "t")])),
    ]);
    assert_eq!(
        flatten_tree_from_commit(&s, "c").err(),
        Some(Halt::Failed(BrassError::CyclicTree))
    );
}

#[test]
fn files_of_a_large_tree() {
    let entries: Vec<TreeEntry> = (0..60000)
        .map(|i| TreeEntry {
            mode: FileMode::Regular,
            name: format!("d{}/f{}", i % 7, i),
            hash: format!("{}", i),
        })
        .collect();
    let s = store(vec![
        ("c", commit("t", &[], "A", "")),
        ("t", BrassObject::Tree(Tree { entries })),
    ]);
    let files = flatten_tree_from_commit(&s, "c").unwrap();
    assert_eq!(files.entries().len(), 60000);
    assert_eq!(files.get("d3//f59993/").map(|f| f.hash.clone()), Some("59993".to_string()));
    assert_eq!(files.get("./d3/f59993"), None);
    assert_eq!(files.get("d4/f59993"), None);
}

#[test]
fn log_of_first_parents() {
    let s = graph();
    let mut walk = LogWalk::new(Some("e"), None);
    assert_eq!(walk.advance(&s), None);
    assert_eq!(
        walk.text,
        "\x1b[33mcommit e\x1b[0m\nParents: c d\nAuthor: A <A@x>\n\n    e\n\n\
         \x1b[33mcommit c\x1b[0m\nParents: a\nAuthor: A <A@x>\n\n    c\n\n\
         \x1b[33mcommit a\x1b[0m\nAuthor: A <A@x>\n\n    a\n\n"
    );
}

#[test]
fn log_with_a_limit() {
    let s = graph();
    let mut walk = LogWalk::new(Some("e"), Some(1));
    assert_eq!(walk.advance(&s), None);
    assert_eq!(
        walk.text,
        "\x1b[33mcommit e\x1b[0m\nParents: c d\nAuthor: A <A@x>\n\n    e\n\n"
    );
    let mut none = LogWalk::new(Some("e"), Some(0));
    assert_eq!(none.advance(&s), None);
    assert_eq!(none.text, "");
}

#[test]
fn log_without_a_commit() {
    let s = ObjectStore::new();
    let mut walk = LogWalk::new(None, None);
    assert_eq!(walk.advance(&s), None);
    assert_eq!(walk.text, "Brak commitów w historii.\n");
    let mut ask = LogWalk::new(Some("q"), None);
    assert_eq!(ask.advance(&s), Some("q".to_string()));
}

#[test]
fn log_stops_at_what_was_seen() {
    let s = store(vec![
        ("p", commit("t", &["q"], "A", "p")),
        ("q", commit("t", &["p"], "A", "q")),
    ]);
    let mut walk = LogWalk::new(Some("p"), None);
    assert_eq!(walk.advance(&s), None);
    assert_eq!(walk.text.matches("commit ").count(), 2);
}

#[test]
fn blame_puts_lines_down_to_commits() {
    let s = store(vec![
        ("1111111aaa", commit("t1", &[], "Ala", "")),
        ("2222222bbb", commit("t2", &["1111111aaa"], "Ola", "")),
        ("t1", tree(&[(FileMode::Regular, "f", "b1")])),
        ("t2", tree(&[(FileMode::Regular, "f", "b2")])),
        ("b1", blob("one\nold\n")),
        ("b2", blob("one\ntwo\n")),
    ]);
    let mut walk = BlameWalk::new("./f", "one\ntwo\nold\nnew\n", "2222222bbb");
    assert_eq!(walk.advance(&s), Ok(()));
    assert_eq!(walk.report().unwrap().lines().count(), 4);

    let mut walk = BlameWalk::new("f", "one\ntwo\nold\nnew\n", "2222222bbb");
    assert_eq!(walk.advance(&s), Ok(()));
    assert_eq!(
        walk.report(),
        Some(
            "   1 | 2222222 (Ola)             | one\n\
             \x20  2 | 2222222 (Ola)             | two\n\
             \x20  3 | 1111111 (Ala)             | old\n\
             \x20  4 | Uncommitted change        | new\n"
                .to_string()
        )
    );
}

#[test]
fn blame_needs_objects_and_fails() {
    let mut s = store(vec![("h", commit("t", &["h"], "A", ""))]);
    let mut walk = BlameWalk::new("f", "x\n", "h");
    assert_eq!(walk.advance(&s), Err(Halt::Need("t".to_string())));
    s.insert("t".to_string(), Some(tree(&[(FileMode::Regular, "f", "b")])));
    assert_eq!(walk.advance(&s), Err(Halt::Need("b".to_string())));
    s.insert("b".to_string(), Some(blob("x\n")));
    assert_eq!(walk.advance(&s), Err(Halt::Failed(BrassError::CyclicHistory)));
    assert_eq!(walk.report(), None);
}

#[test]
fn text_of_a_blob() {
    assert_eq!(read_blob_as_string(Some(&blob("x"))), "x");
    assert_eq!(read_blob_as_string(Some(&tree(&[]))), "");
    assert_eq!(read_blob_as_string(None), "");
}
