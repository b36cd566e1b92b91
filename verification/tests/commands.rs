use brass::checkout::{checkout_index, FileContent};
use brass::config::{AccessLevel, AccessRule, AclConfig, BrassConfig};
use brass::error::BrassError;
use brass::files::{flatten_tree_from_commit, FileEntry, FileMap, Halt};
use brass::ignore::{normalize, BrassIgnore};
use brass::index::{Index, IndexEntry};
use brass::leaf::{leaf_commit, LeafMerge, LeafMergeResult, MergePlan};
use brass::mode::FileMode;
use brass::object::{Blob, BrassObject, Commit, Signature, Timestamp, Tree, TreeEntry};
use brass::refs::{read_head, read_ref, read_root, Head, RefKind};
use brass::remote::{
    check_server_key, choose_key_file, fetch_command, format_known_host, key_files,
    load_known_host, push_command,
    read_ref_hash, HostCheck,
};
use brass::repository::{Repository, WorkFile};
use brass::status::{file_is_modified, find_staged_hash, scan_visible, EntryKind, ScanAction};
use brass::store::ObjectStore;

const NOW: Timestamp = Timestamp { secs: 9, nanos: 8 };

fn rule(user: &str, pattern: &str, access: AccessLevel) -> AccessRule {
    AccessRule { user: user.to_string(), path_pattern: pattern.to_string(), access }
}

fn repo() -> Repository {
    let acl = AclConfig { rules: vec![rule("Anonymous", "secret/**", AccessLevel::ReadOnly)] };
    Repository::init("/r", None, Some(acl), Some("*.log\nbuild/\n# note\n\n/top/x\n"))
}

fn blob(text: &str) -> BrassObject {
    BrassObject::Blob(Blob { data: text.as_bytes().to_vec() })
}

fn entry(path: &str, hash: &str) -> IndexEntry {
    IndexEntry {
        path: path.to_string(),
        hash: hash.to_string(),
        mode: FileMode::Regular,
        modified_at: NOW,
        file_size: 1,
    }
}

fn files(list: &[(&str, &str)]) -> FileMap {
    let mut map = FileMap::new();
    for (path, hash) in list {
        map.put(path.to_string(), hash.to_string(), FileMode::Regular);
    }
    map
}

fn merge_files(
    r: &Repository,
    store: &ObjectStore,
    base: FileMap,
    target: FileMap,
    leaf: FileMap,
) -> MergePlan {
    let mut merge = LeafMerge::new(base, target, leaf, "l");
    assert_eq!(merge.advance(r, store), None);
    merge.plan
}

#[test]
fn default_settings() {
    let c = BrassConfig::default();
    assert_eq!(c.user_name, "Anonymous");
    assert_eq!(c.user_email, "user@localhost");
    assert_eq!(c.default_branch, "main");
    assert!(!c.is_admin);
    assert_eq!(AclConfig::default().rules.len(), 0);
}

#[test]
fn access_rules() {
    let acl = AclConfig {
        rules: vec![
            rule("ala", "docs/**", AccessLevel::ReadOnly),
            rule("*", "lock/*", AccessLevel::ReadOnly),
            rule("ala", "docs/free", AccessLevel::ReadWrite),
        ],
    };
    assert!(!acl.can_write("ala", "docs/a"));
    assert!(!acl.can_write("ala", "docs/free"));
    assert!(!acl.can_write("ala", "docsother"));
    assert!(acl.can_write("ola", "docs/a"));
    assert!(!acl.can_write("ola", "lock/a"));
    assert!(acl.can_write("ola", "other"));
    assert!(AclConfig::default().can_write("ala", "docs/a"));
}

#[test]
fn layout_of_a_repository() {
    let plan = Repository::init_plan("/r");
    assert_eq!(
        plan.directories,
        vec![
            "/r/.brass_control/objects",
            "/r/.brass_control/packs",
            "/r/.brass_control/refs/heads",
            "/r/.brass_control/refs/leaves",
            "/r/.brass_control/refs/tags",
        ]
    );
    assert_eq!(plan.head_path, "/r/.brass_control/HEAD");
    assert_eq!(plan.head_text, "ref: refs/heads/main\n");
    assert_eq!(plan.config_path, "/r/.brass_control/.brass_config.xml");
    assert_eq!(plan.acl_path, "/r/.brass_control/.brass_acl.xml");
    assert_eq!(plan.ignore_path, "/r/.brass_control_ignore");
    let r = repo();
    assert_eq!(r.worktree, "/r");
    assert_eq!(r.brass_dir, "/r/.brass_control");
    assert_eq!(r.config, BrassConfig::default());
    assert_eq!(r.acl.rules.len(), 1);
}

#[test]
fn ignore_patterns_are_normalized() {
    assert_eq!(normalize("build/"), "build/**");
    assert_eq!(normalize("*.log"), "**/*.log");
    assert_eq!(normalize("//top/x"), "top/x");
    assert_eq!(normalize("a/b"), "a/b");
}

#[test]
fn ignored_files() {
    let i = repo().ignore;
    assert_eq!(
        i.raw_patterns,
        vec![
            ".brass_control/**",
            "**/.brass_control/**",
            ".brass_control_ignore",
            "*.log",
            "build/",
            "/top/x",
        ]
    );
    assert!(i.is_ignored("a/b.log"));
    assert!(i.is_ignored("build/x"));
    assert!(!i.is_ignored("sub/build/x"));
    assert!(i.is_ignored("top/x"));
    assert!(i.is_ignored(".brass_control/HEAD"));
    assert!(i.is_ignored("sub/.brass_control/HEAD"));
    assert!(i.is_ignored(".brass_control_ignore"));
    assert!(!i.is_ignored("a.txt"));
}

#[test]
fn patterns_that_are_none_are_dropped() {
    let i = BrassIgnore::load(Some("a{b\n*.tmp\n"));
    assert_eq!(i.raw_patterns.len(), 4);
    assert_eq!(i.raw_patterns[3], "*.tmp");
    assert!(i.is_ignored("x.tmp"));
}

#[test]
fn default_ignore_rules() {
    let i = BrassIgnore::default();
    assert_eq!(i.raw_patterns, vec![".brass_control/**"]);
    assert!(i.is_ignored("d/.brass_control/index"));
    assert!(!i.is_ignored(".brass_control_ignore"));
    assert!(BrassIgnore::load(None).is_ignored(".brass_control_ignore"));
}

#[test]
fn adding_files() {
    let r = repo();
    let mut index = Index::default();
    let file = WorkFile::File { content: b"hello".to_vec(), readonly: false };
    let object = r.add("a.txt", &file, NOW, &mut index).unwrap().unwrap();
    assert_eq!(object.data, b"blob 5\0hello");
    assert_eq!(index.entries.len(), 1);
    let e = &index.entries[0];
    assert_eq!((e.path.as_str(), &e.hash, e.mode), ("a.txt", &object.hash, FileMode::Executable));
    assert_eq!((e.modified_at, e.file_size), (NOW, 5));

    let readonly = WorkFile::File { content: vec![], readonly: true };
    r.add("b", &readonly, NOW, &mut index).unwrap();
    assert_eq!(index.entries[1].mode, FileMode::Regular);
    let link = WorkFile::Link { target: "ż".to_string() };
    let object = r.add("c", &link, NOW, &mut index).unwrap().unwrap();
    assert_eq!(object.data, b"blob 2\0\xc5\xbc");
    assert_eq!(index.entries[2].mode, FileMode::Symlink);
    assert_eq!(index.entries[2].file_size, 2);
}

#[test]
fn adding_is_refused_or_passed_over() {
    let r = repo();
    let mut index = Index::default();
    let file = WorkFile::File { content: vec![], readonly: true };
    assert_eq!(r.check_add("x.log"), Ok(false));
    assert_eq!(r.add("x.log", &file, NOW, &mut index), Ok(None));
    assert_eq!(
        r.add("secret/key", &file, NOW, &mut index),
        Err(BrassError::PermissionDenied)
    );
    assert_eq!(r.check_add("a"), Ok(true));
    assert_eq!(r.check_add_visible("secret/x", true), Ok(false));
    assert_eq!(index.entries.len(), 0);
}

#[test]
fn committing_the_index() {
    let r = repo();
    let mut index = Index::default();
    let file = WorkFile::File { content: b"hello".to_vec(), readonly: true };
    r.stage_file("d/a", &file, NOW, &mut index);
    let author =
        Signature { name: "Ala".to_string(), email: "a@x".to_string(), timestamp: NOW };
    let (tree, commit) = r.commit("wiadomość", &author, &index, Some("parent1"));
    let hash = index.entries[0].hash.clone();
    let payload = format!("100644 d/a\0{}\n", hash);
    assert_eq!(tree.data, format!("tree {}\0{}", payload.len(), payload).into_bytes());
    let text = format!(
        "tree {}\nparent parent1\nauthor Ala <a@x>\ncommitter Ala <a@x>\n\nwiadomość\n",
        tree.hash
    );
    assert_eq!(commit.data, format!("commit {}\0{}", text.len(), text).into_bytes());

    let (_, first) = r.commit("m", &author, &index, None);
    let object = r.read_object(Some(&first.stored()), NOW).unwrap();
    assert!(matches!(object, BrassObject::Commit(c) if c.parent_hashes.is_empty()));
}

#[test]
fn committed_files_are_read_back() {
    let r = repo();
    let mut index = Index::default();
    for (path, text) in [("a", "1"), ("d/b", "2")] {
        let file = WorkFile::File { content: text.as_bytes().to_vec(), readonly: false };
        r.stage_file(path, &file, NOW, &mut index);
    }
    let author = Signature { name: "A".to_string(), email: "a@x".to_string(), timestamp: NOW };
    let (tree, commit) = r.commit("m", &author, &index, None);
    let mut store = ObjectStore::new();
    for object in [&tree, &commit] {
        let read = r.read_object(Some(&object.stored()), NOW).ok();
        store.insert(object.hash.clone(), read);
    }
    let found = flatten_tree_from_commit(&store, &commit.hash).unwrap();
    assert_eq!(found.entries().len(), 2);
    for (f, e) in found.entries().iter().zip(&index.entries) {
        assert_eq!((&f.path, &f.hash, f.mode), (&e.path, &e.hash, e.mode));
    }
    let report = r.status(&index, &found, &vec![], &vec![]);
    assert_eq!(
        report,
        "--- Staged Changes ---\n\n--- Unstaged Changes ---\n\n--- Untracked Files ---\n"
    );
}

#[test]
fn refs_as_paths() {
    let leaf = RefKind::Leaf { user: "ala".to_string(), name: "l".to_string() };
    assert_eq!(RefKind::Branch("main".to_string()).to_path_suffix(), "refs/heads/main");
    assert_eq!(leaf.to_path_suffix(), "refs/leaves/ala/l");
    assert_eq!(RefKind::Tag("v1".to_string()).to_path_suffix(), "refs/tags/v1");
}

#[test]
fn head_and_refs() {
    assert_eq!(read_head("ref: refs/heads/main\n"), Head::Ref("refs/heads/main".to_string()));
    assert_eq!(read_head(" abc \n"), Head::Detached("abc".to_string()));
    assert_eq!(read_ref(" abc\n"), "abc");
    assert_eq!(read_root("abc\n"), Some("abc".to_string()));
    assert_eq!(read_root("ref: refs/heads/x\n"), None);
    assert_eq!(read_root(" \n"), None);
}

#[test]
fn moving_the_current_commit() {
    let r = repo();
    let head = "ref: refs/heads/main\n";
    let update = r.update_head_target(head, "abc");
    assert_eq!(update.path, "/r/.brass_control/refs/heads/main");
    assert_eq!(update.text, "abc\n");
    assert!(update.make_parent);
    assert_eq!(r.head_ref_path(head), Some(update.path));
    assert_eq!(r.get_head_commit_hash(head, &update.text), "abc");
    let update = r.update_head_target("old\n", "abc");
    assert_eq!(update.path, "/r/.brass_control/HEAD");
    assert!(!update.make_parent);
    assert_eq!(r.get_head_commit_hash(&update.text, ""), "abc");
}

#[test]
fn tags_and_leaves() {
    let r = repo();
    let tag = r.create_tag("v1", "abc");
    assert_eq!(tag.path, "/r/.brass_control/refs/tags/v1");
    assert_eq!(tag.text, "abc\n");
    assert_eq!(r.delete_tag("v1", true), Ok(tag.path));
    assert_eq!(r.delete_tag("v1", false), Err(BrassError::TagMissing));
    let (leaf, head) = r.create_leaf("l", "abc");
    assert_eq!(leaf.path, "/r/.brass_control/refs/leaves/Anonymous/l");
    assert_eq!(leaf.text, "abc\n");
    assert_eq!(head.path, "/r/.brass_control/HEAD");
    assert_eq!(head.text, "ref: refs/leaves/Anonymous/l\n");
    let tags = r.list_tags(&vec![("v1".to_string(), " abc\n".to_string())]);
    assert_eq!(tags, vec![("v1".to_string(), "abc".to_string())]);
    let leaves = r.list_leaves(&vec![("ala".to_string(), "l".to_string())]);
    assert_eq!(leaves, vec!["ala/l"]);
}

#[test]
fn what_checkout_means() {
    let r = repo();
    assert_eq!(r.checkout_ref("tags/v1", true, true), "/r/.brass_control/refs/tags/v1");
    assert_eq!(r.checkout_ref("ala/l", true, true), "/r/.brass_control/refs/leaves/ala/l");
    assert_eq!(r.checkout_ref("main", true, true), r.branch_file("main"));
    assert_eq!(r.checkout_ref("v1", false, true), r.tag_file("v1"));
    assert_eq!(r.checkout_ref("v1", false, false), "");
    let plan = r.checkout("main", &r.branch_file("main"), Some("abc\n"), false).unwrap();
    assert_eq!((plan.commit.as_str(), plan.head_text.as_str()), ("abc", "ref: refs/heads/main\n"));
    let plan = r.checkout("abc", "", None, true).unwrap();
    assert_eq!((plan.commit.as_str(), plan.head_text.as_str()), ("abc", "abc\n"));
    let plan = r.checkout("/tmp/x", "/tmp/x", Some("abc"), false).unwrap();
    assert_eq!(plan.head_text, "ref: /tmp/x\n");
    assert_eq!(r.checkout("q", "", None, false), Err(BrassError::CheckoutTargetMissing));
}

#[test]
fn files_that_checkout_writes() {
    let r = repo();
    let file = FileEntry { path: "d/a".to_string(), hash: "h".to_string(), mode: FileMode::Regular };
    let write = r.checkout_file(&file, Some(&blob("x"))).unwrap();
    assert_eq!(write.path, "/r/d/a");
    assert_eq!(write.content, FileContent::Bytes(b"x".to_vec()));
    let link = FileEntry { mode: FileMode::Symlink, ..file.clone() };
    let write = r.checkout_file(&link, Some(&blob("target"))).unwrap();
    assert_eq!(write.content, FileContent::Link("target".to_string()));
    assert_eq!(r.checkout_file(&file, None), None);
    let e = Repository::checkout_entry(&link, NOW, 4);
    assert_eq!((e.path.as_str(), e.mode, e.file_size), ("d/a", FileMode::Symlink, 4));
}

#[test]
fn files_that_checkout_removes() {
    let target = files(&[("a", "1"), ("b", "2")]);
    let current = files(&[("./x", "1"), ("b", "9"), ("c", "3")]);
    assert_eq!(repo().stale_files(&target, &current), vec!["/r/./x", "/r/c"]);
}

#[test]
fn files_that_are_compared() {
    let r = repo();
    let index = Index { entries: vec![entry("a", "1"), entry("b", "2"), entry("./a", "3")] };
    let all = r.diff(None, &index);
    assert_eq!(all.len(), 3);
    assert_eq!(all[1].hash, Some("2".to_string()));
    let one = r.diff(Some("b//"), &index);
    assert_eq!((one[0].path.as_str(), one[0].hash.clone()), ("b//", Some("2".to_string())));
    assert_eq!(r.diff(Some("z"), &index)[0].hash, None);
    let twice = Index { entries: vec![entry("a", "1"), entry("a", "2")] };
    assert_eq!(find_staged_hash(&twice, "a"), Some("2".to_string()));
}

#[test]
fn status_report() {
    let r = repo();
    let index = Index { entries: vec![entry("a", "1"), entry("b", "2"), entry("n", "5")] };
    let head = files(&[("a", "1"), ("b", "9"), ("gone", "3")]);
    let modified = vec!["a".to_string()];
    let untracked = vec!["u1".to_string(), "u2".to_string()];
    assert_eq!(
        r.status(&index, &head, &modified, &untracked),
        "--- Staged Changes ---\n  staged: b\n  staged: n\n  deleted (staged): gone\n\
         \n--- Unstaged Changes ---\n  modified: a\n\
         \n--- Untracked Files ---\n  u1\n  u2\n"
    );
}

#[test]
fn scanning_the_working_tree() {
    let r = repo();
    let index = Index { entries: vec![entry("a", "1")] };
    assert_eq!(r.scan_entry("x.log", EntryKind::File, &index), ScanAction::Skip);
    assert_eq!(r.scan_entry("d", EntryKind::Directory, &index), ScanAction::Descend);
    assert_eq!(r.scan_entry("a", EntryKind::File, &index), ScanAction::Compare("1".to_string()));
    assert_eq!(r.scan_entry("b", EntryKind::File, &index), ScanAction::Untracked);
    assert_eq!(scan_visible("b", EntryKind::Other, &index), ScanAction::Skip);
    let (name, _) = blob("x").serialize();
    assert!(!file_is_modified(b"x".to_vec(), &name));
    assert!(file_is_modified(b"y".to_vec(), &name));
}

#[test]
fn merging_a_leaf() {
    let r = repo();
    let base = files(&[("same", "1"), ("mine", "2"), ("yours", "3"), ("dropped", "4"), ("both", "5")]);
    let target = files(&[("same", "1"), ("mine", "20"), ("yours", "3"), ("dropped", "4"), ("both", "50")]);
    let leaf = files(&[("same", "1"), ("mine", "2"), ("yours", "30"), ("both", "51"), ("new", "6")]);
    let mut store = ObjectStore::new();
    store.insert("5".to_string(), Some(blob("a\n")));
    store.insert("50".to_string(), Some(blob("a\nb")));
    store.insert("51".to_string(), Some(blob("a\nb\n")));
    let plan = merge_files(&r, &store, base, target, leaf);
    assert_eq!(r.merge_refusal(&plan), None);
    let (merged, _) = blob("a\nb\n").serialize();
    let entries: Vec<(&str, &str)> =
        plan.entries.iter().map(|e| (e.name.as_str(), e.hash.as_str())).collect();
    assert_eq!(
        entries,
        vec![("same", "1"), ("mine", "20"), ("yours", "30"), ("both", &merged), ("new", "6")]
    );
    assert_eq!(plan.files.len(), 1);
    assert_eq!(plan.files[0].path, "/r/both");
    assert_eq!(plan.files[0].text, "a\nb\n");
    assert_eq!(plan.files[0].blob, Some(r.write_object(&blob("a\nb\n"))));
}

#[test]
fn merging_a_leaf_that_conflicts() {
    let r = repo();
    let base = files(&[("f", "1")]);
    let target = files(&[("f", "2")]);
    let leaf = files(&[("f", "3")]);
    let mut merge = LeafMerge::new(base, target, leaf, "l");
    let mut store = ObjectStore::new();
    for (hash, text) in [("1", "a\n"), ("2", "b\n"), ("3", "c\n")] {
        assert_eq!(merge.advance(&r, &store), Some(hash.to_string()));
        store.insert(hash.to_string(), Some(blob(text)));
    }
    assert_eq!(merge.advance(&r, &store), None);
    assert!(merge.plan.conflict);
    assert_eq!(merge.plan.entries.len(), 0);
    assert_eq!(
        merge.plan.files[0].text,
        "<<<<<<< TARGET\nb\n=======\nc\n>>>>>>> LEAF (l)\n"
    );
    assert_eq!(merge.plan.files[0].blob, None);
    assert_eq!(
        r.merge_refusal(&merge.plan),
        Some(LeafMergeResult::ConflictInLeaf {
            path: "Pliki z konfliktami zapisano na dysku".to_string(),
        })
    );
}

#[test]
fn merging_a_leaf_past_the_access_rules() {
    let r = repo();
    let base = files(&[("a", "1"), ("secret/k", "2")]);
    let target = files(&[("a", "1"), ("secret/k", "2")]);
    let leaf = files(&[("a", "9"), ("secret/k", "3")]);
    let store = ObjectStore::new();
    let plan = merge_files(&r, &store, base, target, leaf);
    assert_eq!(plan.denied, Some("secret/k".to_string()));
    assert_eq!(
        r.merge_refusal(&plan),
        Some(LeafMergeResult::PermissionDenied {
            user: "Anonymous".to_string(),
            forbidden_path: "secret/k".to_string(),
        })
    );
}

#[test]
fn merging_looks_at_each_path_once() {
    let r = repo();
    let base = files(&[("d/a", "1")]);
    let target = files(&[("d//a", "1"), ("t", "2")]);
    let leaf = files(&[("d/./a", "3"), ("t/", "2")]);
    let plan = merge_files(&r, &ObjectStore::new(), base, target, leaf);
    let entries: Vec<(&str, &str)> =
        plan.entries.iter().map(|e| (e.name.as_str(), e.hash.as_str())).collect();
    assert_eq!(entries, vec![("d/a", "3"), ("t", "2")]);
}

#[test]
fn merge_commit_has_two_parents() {
    let r = repo();
    let (tree, commit) = r.merge_commit(vec![], "t1", "l1", "liść", NOW);
    assert_eq!(tree.data, b"tree 0\0");
    let object = r.read_object(Some(&commit.stored()), NOW).unwrap();
    let want = Commit {
        tree_hash: tree.hash,
        parent_hashes: vec!["t1".to_string(), "l1".to_string()],
        author: Signature {
            name: "Anonymous".to_string(),
            email: "user@localhost".to_string(),
            timestamp: NOW,
        },
        committer: Signature {
            name: "Anonymous".to_string(),
            email: "Anonymous <user@localhost".to_string(),
            timestamp: NOW,
        },
        message: "Merge leaf 'liść' into target".to_string(),
    };
    assert_eq!(object, BrassObject::Commit(want));
}

#[test]
fn merges_that_cannot_start() {
    assert_eq!(leaf_commit(None), Err(BrassError::LeafMissing));
    assert_eq!(leaf_commit(Some("abc\n")), Ok("abc".to_string()));
    assert_eq!(repo().merge_leaf("h", None, "l").err(), Some(BrassError::LeafMissing));
}

fn commit_of(tree: &str, parents: &[&str]) -> BrassObject {
    let who = || Signature { name: "A".to_string(), email: "a@x".to_string(), timestamp: NOW };
    BrassObject::Commit(Commit {
        tree_hash: tree.to_string(),
        parent_hashes: parents.iter().map(|p| p.to_string()).collect(),
        author: who(),
        committer: who(),
        message: String::new(),
    })
}

fn tree_of(list: &[(&str, &str)]) -> BrassObject {
    BrassObject::Tree(Tree {
        entries: list
            .iter()
            .map(|(name, hash)| TreeEntry {
                mode: FileMode::Regular,
                name: name.to_string(),
                hash: hash.to_string(),
            })
            .collect(),
    })
}

fn forked() -> Vec<(&'static str, BrassObject)> {
    vec![
        ("base", commit_of("t0", &[])),
        ("head", commit_of("t1", &["base"])),
        ("leaf", commit_of("t2", &["base"])),
        ("alone", commit_of("t2", &[])),
        ("t0", tree_of(&[("a", "1"), ("b", "2"), ("c", "3")])),
        ("t1", tree_of(&[("a", "10"), ("b", "2"), ("c", "30")])),
        ("t2", tree_of(&[("a", "1"), ("b", "20"), ("c", "31"), ("d", "4")])),
        ("3", blob("x\n")),
        ("30", blob("x\ny")),
        ("31", blob("x\ny\n")),
    ]
}

/// Carries a merge to its end; tells which objects it looked up.
fn run_merge(
    r: &Repository,
    objects: &[(&str, BrassObject)],
    head: &str,
    leaf: &str,
) -> (Result<MergePlan, BrassError>, Vec<String>) {
    let mut walk = r.merge_leaf(head, Some(leaf), "l").unwrap();
    let mut store = ObjectStore::new();
    let mut asked = Vec::new();
    loop {
        match walk.advance(r, &store) {
            Ok(plan) => {
                assert_eq!((walk.head.as_str(), walk.leaf.as_str()), (head, leaf));
                return (Ok(plan), asked);
            }
            Err(Halt::Failed(e)) => return (Err(e), asked),
            Err(Halt::Need(hash)) => {
                let found = objects.iter().find(|(h, _)| *h == hash).map(|(_, o)| o.clone());
                asked.push(hash.clone());
                store.insert(hash, found);
            }
        }
    }
}

fn named(plan: &MergePlan) -> Vec<(&str, &str)> {
    plan.entries.iter().map(|e| (e.name.as_str(), e.hash.as_str())).collect()
}

#[test]
fn a_merge_compares_with_the_common_ancestor() {
    let r = repo();
    let (plan, asked) = run_merge(&r, &forked(), "head", "leaf");
    let plan = plan.unwrap();
    let (merged, _) = blob("x\ny\n").serialize();
    assert_eq!(r.merge_refusal(&plan), None);
    assert_eq!(named(&plan), vec![("a", "10"), ("b", "20"), ("c", &merged), ("d", "4")]);
    assert_eq!(asked, vec!["head", "base", "leaf", "t0", "t1", "t2", "3", "30", "31"]);
}

#[test]
fn a_merge_needs_a_common_ancestor() {
    let (plan, _) = run_merge(&repo(), &forked(), "head", "alone");
    assert_eq!(plan, Err(BrassError::NoCommonAncestor));
}

#[test]
fn a_leaf_merged_again_changes_nothing() {
    let r = repo();
    let mut objects = forked();
    let (plan, _) = run_merge(&r, &objects, "head", "leaf");
    let first = plan.unwrap();
    objects.push(("t3", tree_of(&named(&first))));
    objects.push(("merged", commit_of("t3", &["head", "leaf"])));
    let (plan, _) = run_merge(&r, &objects, "merged", "leaf");
    let again = plan.unwrap();
    assert_eq!(r.merge_refusal(&again), None);
    assert!(again.files.is_empty());
    let mut before = named(&first);
    let mut after = named(&again);
    before.sort();
    after.sort();
    assert_eq!(after, before);
}

#[test]
fn the_index_after_a_checkout() {
    let mut target = files(&[("a", "1"), ("b", "2")]);
    target.put("c".to_string(), "3".to_string(), FileMode::Executable);
    let later = Timestamp { secs: 5, nanos: 6 };
    let index = checkout_index(&target, &vec![Some((NOW, 1)), None, Some((later, 7))]);
    let last = IndexEntry {
        path: "c".to_string(),
        hash: "3".to_string(),
        mode: FileMode::Executable,
        modified_at: later,
        file_size: 7,
    };
    assert_eq!(index.entries, vec![entry("a", "1"), last]);
}

#[test]
fn status_is_clean_after_a_checkout() {
    let target = files(&[("a", "1"), ("d/b", "2")]);
    let index = checkout_index(&target, &vec![Some((NOW, 1)), Some((NOW, 2))]);
    assert_eq!(
        repo().status(&index, &target, &vec![], &vec![]),
        "--- Staged Changes ---\n\n--- Unstaged Changes ---\n\n--- Untracked Files ---\n"
    );
}

#[test]
fn a_cloned_repository_is_the_same() {
    let r = repo().clone();
    assert_eq!((r.worktree.as_str(), r.brass_dir.as_str()), ("/r", "/r/.brass_control"));
    assert_eq!(r.config, BrassConfig::default());
    assert_eq!(r.acl.rules, repo().acl.rules);
    assert_eq!(r.ignore.raw_patterns, repo().ignore.raw_patterns);
    assert!(r.ignore.is_ignored("x.log"));
    assert!(!r.ignore.is_ignored("x.txt"));
}

#[test]
fn where_the_private_key_is() {
    let files = key_files("/home/ala");
    assert_eq!(files.0, "/home/ala/.ssh/id_ed25519");
    assert_eq!(files.1, "/home/ala/.ssh/id_rsa");
    assert_eq!(choose_key_file(files.clone(), (true, true)), Some(files.0.clone()));
    assert_eq!(choose_key_file(files.clone(), (false, true)), Some(files.1.clone()));
    assert_eq!(choose_key_file(files, (false, false)), None);
}

#[test]
fn known_hosts() {
    let list = "a:22 f1\nnonsense\nb:22  f2 \na:22 f3\n";
    assert_eq!(load_known_host(list, "a:22"), Some("f3".to_string()));
    assert_eq!(load_known_host(list, "b:22"), Some("f2".to_string()));
    assert_eq!(load_known_host(list, "c:22"), None);
    assert_eq!(check_server_key(Some(list), "a:22", "f3"), HostCheck::Trusted);
    assert_eq!(
        check_server_key(Some(list), "a:22", "f1"),
        HostCheck::Changed { expected: "f3".to_string() }
    );
    assert_eq!(check_server_key(None, "a:22", "f1"), HostCheck::Unknown);
}

#[test]
fn trust_on_first_use() {
    let mut list = String::from("b:22 f2\n");
    let first = check_server_key(Some(&list), "a:22", "f1");
    assert_eq!(first, HostCheck::Unknown);
    assert!(first.accepts());
    list.push_str(&format_known_host("a:22", "f1"));
    assert_eq!(list, "b:22 f2\na:22 f1\n");
    assert!(check_server_key(Some(&list), "a:22", "f1").accepts());
    assert!(!check_server_key(Some(&list), "a:22", "other").accepts());
}

#[test]
fn talking_to_a_server() {
    assert_eq!(push_command("main"), "brass-receive-pack main");
    assert_eq!(fetch_command("main"), "brass-upload-pack main");
    assert_eq!(
        read_ref_hash("hello\nref-hash: abc \nref-hash:def\n"),
        Some("abc".to_string())
    );
    assert_eq!(read_ref_hash("hello\n"), None);
}
