//! A repository: its layout, and what each command writes.
use vstd::prelude::*;
use crate::codec::object_bytes;
use crate::config::{may_write, AclConfig, BrassConfig};
use crate::blame::{blame_from, BlameWalk};
use crate::error::BrassError;
use crate::globs::set_patterns;
use crate::history::Step;
use crate::ignore::{all_rules, any_matches, built, patterns, raws, usable, BrassIgnore};
use crate::index::{staged, Index, IndexEntry, IndexEntryView};
use crate::log::{log_from, LogWalk};
use crate::mode::FileMode;
use crate::object::{
    Blob, BrassObject, Commit, CommitView, ObjectView, Signature, Timestamp, Tree, TreeEntry,
    TreeEntryView,
};
use crate::objects::{
    is_in_place, lookup_path, object_path, parse_stored, read_stored, LooseObject,
};
use crate::paths::{join, join_all, join_paths};
use crate::refs::{
    detached_head_round_trip, head_commit, head_text, parse_head, read_head, read_ref, ref_path,
    ref_round_trip, ref_target, ref_text, write_head, write_ref, Head, HeadView,
    RefKind, RefView,
};
use crate::text::{begins_with, lines, trim, views, views_empty, views_push};
use crate::utf8::bytes_of;
use vstd::utf8::encode_utf8;

verus! {

/// A repository: a working tree and the control directory in it.
#[derive(Debug)]
pub struct Repository {
    pub worktree: String,
    pub brass_dir: String,
    pub ignore: BrassIgnore,
    pub config: BrassConfig,
    pub acl: AclConfig,
}

impl Clone for Repository {
    fn clone(&self) -> (r: Repository)
        ensures
            r.worktree == self.worktree,
            r.brass_dir == self.brass_dir,
            views(r.ignore.raw_patterns@) == views(self.ignore.raw_patterns@),
            set_patterns(r.ignore.glob_set) == set_patterns(self.ignore.glob_set),
            r.config == self.config,
            r.acl.rules@ == self.acl.rules@,
    {
        Repository {
            worktree: self.worktree.clone(),
            brass_dir: self.brass_dir.clone(),
            ignore: self.ignore.clone(),
            config: self.config.clone(),
            acl: self.acl.clone(),
        }
    }
}

/// What has to be there before a repository can be used.
#[derive(Debug, Clone, PartialEq, Eq)]
pub struct InitPlan {
    /// Directories that are made with all directories above them.
    pub directories: Vec<String>,
    /// A file that is written unless it exists, and its content.
    pub head_path: String,
    pub head_text: String,
    /// The settings; written unless they exist.
    pub config_path: String,
    /// The access rules; written unless they exist.
    pub acl_path: String,
    /// The ignore file; it need not exist.
    pub ignore_path: String,
}

/// The control directory of a working tree.
pub open spec fn control_dir(path: Seq<char>) -> Seq<char> {
    join(path, ".brass_control"@)
}

/// The directories of a repository.
pub open spec fn directories(brass_dir: Seq<char>) -> Seq<Seq<char>> {
    seq![
        join(brass_dir, "objects"@),
        join(brass_dir, "packs"@),
        join(join(brass_dir, "refs"@), "heads"@),
        join(join(brass_dir, "refs"@), "leaves"@),
        join(join(brass_dir, "refs"@), "tags"@),
    ]
}

/// A file that is to be written, after the directories above it where
/// `make_parent` is set.
#[derive(Debug, Clone, PartialEq, Eq)]
pub struct RefUpdate {
    pub path: String,
    pub text: String,
    pub make_parent: bool,
}

/// A file of the working tree, as it is on disk.
#[derive(Debug, Clone, PartialEq, Eq)]
pub enum WorkFile {
    /// A symbolic link and its target.
    Link { target: String },
    /// Any other file.
    File { content: Vec<u8>, readonly: bool },
}

/// What of a file is stored.
pub open spec fn stored_data(file: WorkFile) -> Seq<u8> {
    match file {
        WorkFile::Link { target } => encode_utf8(target@),
        WorkFile::File { content, readonly: _ } => content@,
    }
}

/// The mode that a file is staged with: a file that can be written counts as
/// executable.
pub open spec fn staged_mode(file: WorkFile) -> FileMode {
    match file {
        WorkFile::Link { target: _ } => FileMode::Symlink,
        WorkFile::File { content: _, readonly } => if readonly {
            FileMode::Regular
        } else {
            FileMode::Executable
        },
    }
}

/// Whether a path is staged: not where it is ignored, and refused where the user
/// may not write it.
pub open spec fn add_verdict(ignored: bool, writable: bool) -> Result<bool, BrassError> {
    if ignored {
        Ok(false)
    } else if !writable {
        Err(BrassError::PermissionDenied)
    } else {
        Ok(true)
    }
}

/// The index entry that a file is staged with.
pub open spec fn staged_entry(
    path: Seq<char>,
    hash: Seq<char>,
    file: WorkFile,
    modified_at: Timestamp,
) -> IndexEntryView {
    IndexEntryView {
        path,
        hash,
        mode: staged_mode(file),
        modified_at,
        file_size: stored_data(file).len() as u64,
    }
}

/// The entries of the tree that an index is committed as.
pub open spec fn index_tree(index: Seq<IndexEntryView>) -> Seq<TreeEntryView> {
    index.map_values(
        |e: IndexEntryView| TreeEntryView { mode: e.mode, name: e.path, hash: e.hash },
    )
}

/// The parents of a commit that is made on top of the current one, if there is
/// one.
pub open spec fn parents_of_head(head: Option<Seq<char>>) -> Seq<Seq<char>> {
    match head {
        Some(hash) => seq![hash],
        None => Seq::empty(),
    }
}

/// The text of an optional string.
pub open spec fn text_view(text: Option<&str>) -> Option<Seq<char>> {
    match text {
        Some(s) => Some(s@),
        None => None,
    }
}

impl Repository {
    /// What has to be there before a repository can be used in a directory.
    pub fn init_plan(path: &str) -> (r: InitPlan)
        ensures
            views(r.directories@) == directories(control_dir(path@)),
            r.head_path@ == join(control_dir(path@), "HEAD"@),
            r.head_text@ == "ref: refs/heads/main\n"@,
            r.config_path@ == join(control_dir(path@), ".brass_config.xml"@),
            r.acl_path@ == join(control_dir(path@), ".brass_acl.xml"@),
            r.ignore_path@ == join(path@, ".brass_control_ignore"@),
    {
        broadcast use {views_empty, views_push};

        let dir = join_paths(path, ".brass_control");
        let d = dir.as_str();
        let mut dirs: Vec<String> = Vec::new();
        dirs.push(join_paths(d, "objects"));
        dirs.push(join_paths(d, "packs"));
        dirs.push(join_all(d, "refs", "heads"));
        dirs.push(join_all(d, "refs", "leaves"));
        dirs.push(join_all(d, "refs", "tags"));
        assert(views(dirs@) =~= directories(control_dir(path@)));
        InitPlan {
            directories: dirs,
            head_path: join_paths(d, "HEAD"),
            head_text: "ref: refs/heads/main\n".to_owned(),
            config_path: join_paths(d, ".brass_config.xml"),
            acl_path: join_paths(d, ".brass_acl.xml"),
            ignore_path: join_paths(path, ".brass_control_ignore"),
        }
    }

    /// The repository of a directory, from the settings, the access rules and
    /// the ignore file that were found there; settings and rules that are not
    /// there are the default ones.
    pub fn init(
        path: &str,
        config: Option<BrassConfig>,
        acl: Option<AclConfig>,
        ignore_text: Option<&str>,
    ) -> (r: Repository)
        ensures
            r.worktree@ == path@,
            r.brass_dir@ == control_dir(path@),
            match config {
                Some(c) => r.config == c,
                None => r.config.user_name@ == "Anonymous"@ && r.config.user_email@
                    == "user@localhost"@ && r.config.default_branch@ == "main"@
                    && !r.config.is_admin,
            },
            match acl {
                Some(a) => r.acl == a,
                None => r.acl.rules@.len() == 0,
            },
            ({
                let rules = usable(all_rules(text_view(ignore_text)));
                &&& views(r.ignore.raw_patterns@) == raws(rules)
                &&& set_patterns(r.ignore.glob_set) == built(patterns(rules))
            }),
    {
        Repository {
            worktree: path.to_owned(),
            brass_dir: join_paths(path, ".brass_control"),
            ignore: BrassIgnore::load(ignore_text),
            config: match config {
                Some(c) => c,
                None => BrassConfig::default(),
            },
            acl: match acl {
                Some(a) => a,
                None => AclConfig::default(),
            },
        }
    }

    /// The loose object that an object is written as.
    pub fn write_object(&self, object: &BrassObject) -> (r: LooseObject)
        ensures
            r.data@ == object_bytes(object@),
            is_in_place(r, self.brass_dir@),
    {
        let (_, data) = object.serialize();
        LooseObject::of_bytes(self.brass_dir.as_str(), data)
    }

    /// The file in which the object of a given name is looked for; none where
    /// the name has no first two bytes.
    pub fn object_path(&self, hash: &str) -> (r: Option<String>)
        ensures
            match r {
                Some(path) => lookup_path(self.brass_dir@, hash@) == Some(path@),
                None => lookup_path(self.brass_dir@, hash@) is None,
            },
    {
        object_path(self.brass_dir.as_str(), hash)
    }

    /// Reads an object from the stored bytes that were found for it, if any
    /// were; what it says of time is `now`.
    pub fn read_object(&self, stored: Option<&[u8]>, now: Timestamp) -> (r: Result<
        BrassObject,
        BrassError,
    >)
        ensures
            ({
                let want = parse_stored(
                    match stored {
                        Some(bytes) => Some(bytes@),
                        None => None,
                    },
                    now,
                );
                match r {
                    Ok(o) => want == Ok::<ObjectView, BrassError>(o@),
                    Err(e) => want == Err::<ObjectView, BrassError>(e),
                }
            }),
    {
        read_stored(stored, now)
    }

    /// Whether a path may be staged: `false` where it is ignored, an error
    /// where the user may not write it.
    pub fn check_add(&self, path: &str) -> (r: Result<bool, BrassError>)
        ensures
            r == add_verdict(
                any_matches(set_patterns(self.ignore.glob_set), path@),
                may_write(self.acl.rules@, self.config.user_name@, path@),
            ),
    {
        self.check_add_visible(path, self.ignore.is_ignored(path))
    }

    /// Whether a path may be staged, given whether it is ignored.
    pub fn check_add_visible(&self, path: &str, ignored: bool) -> (r: Result<bool, BrassError>)
        ensures
            r == add_verdict(
                ignored,
                may_write(self.acl.rules@, self.config.user_name@, path@),
            ),
    {
        if ignored {
            Ok(false)
        } else if !self.acl.can_write(self.config.user_name.as_str(), path) {
            Err(BrassError::PermissionDenied)
        } else {
            Ok(true)
        }
    }

    /// Stages a file: gives the blob that is to be written and puts an entry
    /// for it into the index. A path that is ignored changes nothing; a path
    /// that the user may not write is refused.
    pub fn add(
        &self,
        path: &str,
        file: &WorkFile,
        modified_at: Timestamp,
        index: &mut Index,
    ) -> (r: Result<Option<LooseObject>, BrassError>)
        ensures
            match add_verdict(
                any_matches(set_patterns(self.ignore.glob_set), path@),
                may_write(self.acl.rules@, self.config.user_name@, path@),
            ) {
                Ok(false) => r matches Ok(None) && *final(index) == *old(index),
                Err(e) => r == Err::<Option<LooseObject>, BrassError>(e) && *final(index) == *old(
                    index,
                ),
                Ok(true) => {
                    &&& r matches Ok(Some(o))
                    &&& o.data@ == object_bytes(ObjectView::Blob(stored_data(*file)))
                    &&& is_in_place(o, self.brass_dir@)
                    &&& final(index)@ == staged(
                        old(index)@,
                        staged_entry(path@, o.hash@, *file, modified_at),
                    )
                },
            },
    {
        match self.check_add(path) {
            Err(e) => Err(e),
            Ok(false) => Ok(None),
            Ok(true) => Ok(Some(self.stage_file(path, file, modified_at, index))),
        }
    }

    /// Stages a file that may be staged.
    pub fn stage_file(
        &self,
        path: &str,
        file: &WorkFile,
        modified_at: Timestamp,
        index: &mut Index,
    ) -> (r: LooseObject)
        ensures
            r.data@ == object_bytes(ObjectView::Blob(stored_data(*file))),
            is_in_place(r, self.brass_dir@),
            final(index)@ == staged(
                old(index)@,
                staged_entry(path@, r.hash@, *file, modified_at),
            ),
    {
        let (data, mode) = match file {
            WorkFile::Link { target } => (bytes_of(target.as_str()), FileMode::Symlink),
            WorkFile::File { content, readonly } => (
                vstd::slice::slice_to_vec(content.as_slice()),
                if *readonly {
                    FileMode::Regular
                } else {
                    FileMode::Executable
                },
            ),
        };
        let file_size: u64 = data.len() as u64;
        let object = self.write_object(&BrassObject::Blob(Blob { data }));
        index.stage(
            IndexEntry {
                path: path.to_owned(),
                hash: object.hash.clone(),
                mode,
                modified_at,
                file_size,
            },
        );
        object
    }

    /// The tree and the commit that the index is committed as, on top of the
    /// current commit, if there is one.
    pub fn commit(
        &self,
        message: &str,
        author: &Signature,
        index: &Index,
        head: Option<&str>,
    ) -> (r: (LooseObject, LooseObject))
        ensures
            r.0.data@ == object_bytes(ObjectView::Tree(index_tree(index@))),
            is_in_place(r.0, self.brass_dir@),
            r.1.data@ == object_bytes(
                ObjectView::Commit(
                    CommitView {
                        tree_hash: r.0.hash@,
                        parent_hashes: parents_of_head(text_view(head)),
                        author: author@,
                        committer: author@,
                        message: message@,
                    },
                ),
            ),
            is_in_place(r.1, self.brass_dir@),
    {
        let mut tree = Tree { entries: Vec::new() };
        let ghost want = index_tree(index@);
        let mut i: usize = 0;
        assert(tree@ =~= want.take(0));
        while i < index.entries.len()
            invariant
                i <= index.entries@.len(),
                want == index_tree(index@),
                tree@ == want.take(i as int),
            decreases index.entries@.len() - i,
        {
            let ghost before = tree@;
            let e = &index.entries[i];
            let entry = TreeEntry { mode: e.mode, name: e.path.clone(), hash: e.hash.clone() };
            tree.entries.push(entry);
            i = i + 1;
            assert(tree@ =~= before.push(entry@));
            assert(tree@ =~= want.take(i as int));
        }
        assert(want.take(i as int) =~= want);
        let tree_object = self.write_object(&BrassObject::Tree(tree));
        let mut parent_hashes: Vec<String> = Vec::new();
        if let Some(hash) = head {
            parent_hashes.push(hash.to_owned());
        }
        assert(views(parent_hashes@) =~= parents_of_head(text_view(head)));
        let commit_object = self.write_object(
            &BrassObject::Commit(
                Commit {
                    tree_hash: tree_object.hash.clone(),
                    parent_hashes,
                    author: author.copy(),
                    committer: author.copy(),
                    message: message.to_owned(),
                },
            ),
        );
        (tree_object, commit_object)
    }

    /// The file that names the current commit, where `HEAD` leads to a ref.
    pub fn head_ref_path(&self, head_content: &str) -> (r: Option<String>)
        ensures
            match parse_head(head_content@) {
                HeadView::Ref(path) => r matches Some(file) && file@ == join(
                    self.brass_dir@,
                    path,
                ),
                HeadView::Detached(_) => r is None,
            },
    {
        match read_head(head_content) {
            Head::Ref(path) => Some(join_paths(self.brass_dir.as_str(), path.as_str())),
            Head::Detached(_) => None,
        }
    }

    /// The current commit: what the ref that `HEAD` leads to says, or what
    /// `HEAD` says itself. `ref_content` is the content of that ref and does not
    /// count where there is none.
    pub fn get_head_commit_hash(&self, head_content: &str, ref_content: &str) -> (r: String)
        ensures
            r@ == head_commit(head_content@, ref_content@),
    {
        match read_head(head_content) {
            Head::Ref(_) => read_ref(ref_content),
            Head::Detached(hash) => hash,
        }
    }

    /// How the current commit is moved: the ref that `HEAD` leads to is
    /// written, or `HEAD` itself.
    pub fn update_head_target(&self, head_content: &str, hash: &str) -> (r: RefUpdate)
        ensures
            r.text@ == ref_text(hash@),
            match parse_head(head_content@) {
                HeadView::Ref(path) => r.path@ == join(self.brass_dir@, path) && r.make_parent,
                HeadView::Detached(_) => r.path@ == join(self.brass_dir@, "HEAD"@)
                    && !r.make_parent,
            },
    {
        match self.head_ref_path(head_content) {
            Some(path) => RefUpdate { path, text: write_ref(hash), make_parent: true },
            None => RefUpdate {
                path: join_paths(self.brass_dir.as_str(), "HEAD"),
                text: write_ref(hash),
                make_parent: false,
            },
        }
    }

    /// The file of a ref.
    pub fn ref_file(&self, kind: &RefKind) -> (r: String)
        ensures
            r@ == join(self.brass_dir@, ref_path(kind@)),
    {
        join_paths(self.brass_dir.as_str(), kind.to_path_suffix().as_str())
    }

    /// How a tag is made for a commit.
    pub fn create_tag(&self, name: &str, hash: &str) -> (r: RefUpdate)
        ensures
            r.path@ == join(self.brass_dir@, ref_path(RefView::Tag(name@))),
            r.text@ == ref_text(hash@),
            r.make_parent,
    {
        RefUpdate {
            path: self.ref_file(&RefKind::Tag(name.to_owned())),
            text: write_ref(hash),
            make_parent: true,
        }
    }

    /// The file that is removed with a tag; `exists` tells whether it is there.
    pub fn delete_tag(&self, name: &str, exists: bool) -> (r: Result<String, BrassError>)
        ensures
            match r {
                Ok(path) => exists && path@ == join(
                    self.brass_dir@,
                    ref_path(RefView::Tag(name@)),
                ),
                Err(e) => !exists && e == BrassError::TagMissing,
            },
    {
        if exists {
            Ok(self.ref_file(&RefKind::Tag(name.to_owned())))
        } else {
            Err(BrassError::TagMissing)
        }
    }

    /// The leaf of a given name that belongs to the user.
    pub fn own_leaf(&self, name: &str) -> (r: RefKind)
        ensures
            r@ == (RefView::Leaf { user: self.config.user_name@, name: name@ }),
    {
        RefKind::Leaf { user: self.config.user_name.clone(), name: name.to_owned() }
    }

    /// How a leaf is made from the current commit and becomes current: its ref
    /// and the content of `HEAD`.
    pub fn create_leaf(&self, name: &str, head: &str) -> (r: (RefUpdate, RefUpdate))
        ensures
            ({
                let leaf = ref_path(
                    RefView::Leaf { user: self.config.user_name@, name: name@ },
                );
                &&& r.0.path@ == join(self.brass_dir@, leaf)
                &&& r.0.text@ == ref_text(head@)
                &&& r.0.make_parent
                &&& r.1.path@ == join(self.brass_dir@, "HEAD"@)
                &&& r.1.text@ == head_text(leaf)
                &&& !r.1.make_parent
            }),
    {
        let leaf = self.own_leaf(name);
        let suffix = leaf.to_path_suffix();
        (
            RefUpdate { path: self.ref_file(&leaf), text: write_ref(head), make_parent: true },
            RefUpdate {
                path: join_paths(self.brass_dir.as_str(), "HEAD"),
                text: write_head(suffix.as_str()),
                make_parent: false,
            },
        )
    }
}

/// What is listed of a tag: its name and the commit it names.
pub open spec fn tag_list(files: Seq<(String, String)>) -> Seq<(Seq<char>, Seq<char>)> {
    files.map_values(|f: (String, String)| (f.0@, ref_target(f.1@)))
}

/// What is listed of a leaf: its user and its name.
pub open spec fn leaf_list(files: Seq<(String, String)>) -> Seq<Seq<char>> {
    files.map_values(|f: (String, String)| f.0@ + "/"@ + f.1@)
}

impl Repository {
    /// The tags, given the names and contents of their files.
    pub fn list_tags(&self, files: &Vec<(String, String)>) -> (r: Vec<(String, String)>)
        ensures
            r@.map_values(|t: (String, String)| (t.0@, t.1@)) == tag_list(files@),
    {
        let ghost want = tag_list(files@);
        let ghost pair = |t: (String, String)| (t.0@, t.1@);
        let mut out: Vec<(String, String)> = Vec::new();
        let mut i: usize = 0;
        assert(out@.map_values(pair) =~= want.take(0));
        while i < files.len()
            invariant
                i <= files@.len(),
                want == tag_list(files@),
                pair == (|t: (String, String)| (t.0@, t.1@)),
                out@.map_values(pair) == want.take(i as int),
            decreases files@.len() - i,
        {
            let ghost before = out@.map_values(pair);
            let tag = (files[i].0.clone(), read_ref(files[i].1.as_str()));
            out.push(tag);
            i = i + 1;
            assert(out@.map_values(pair) =~= before.push((tag.0@, tag.1@)));
            assert(out@.map_values(pair) =~= want.take(i as int));
        }
        assert(want.take(i as int) =~= want);
        out
    }

    /// The leaves, given their users and names.
    pub fn list_leaves(&self, files: &Vec<(String, String)>) -> (r: Vec<String>)
        ensures
            views(r@) == leaf_list(files@),
    {
        let ghost want = leaf_list(files@);
        let mut out: Vec<String> = Vec::new();
        let mut i: usize = 0;
        assert(views(out@) =~= want.take(0));
        while i < files.len()
            invariant
                i <= files@.len(),
                want == leaf_list(files@),
                views(out@) == want.take(i as int),
            decreases files@.len() - i,
        {
            let ghost before = views(out@);
            let mut label = files[i].0.clone();
            label.append("/");
            label.append(files[i].1.as_str());
            out.push(label);
            i = i + 1;
            assert(views(out@) =~= before.push(label@));
            assert(views(out@) =~= want.take(i as int));
        }
        assert(want.take(i as int) =~= want);
        out
    }

    /// The log of the current commit, if there is one.
    pub fn log(&self, head: Option<&str>, limit: Option<usize>) -> (r: LogWalk)
        ensures
            forall|m: Map<Seq<char>, Option<ObjectView>>|
                m.dom().finite() ==> #[trigger] r.outcome(m) == (match head {
                    Some(hash) => log_from(m, hash@, limit, Set::empty()),
                    None => Step::Done("Brak commitów w historii.\n"@),
                }),
    {
        LogWalk::new(head, limit)
    }

    /// The search for the commits that the lines of a file come from.
    pub fn blame(&self, path: &str, text: &str, head: &str) -> (r: BlameWalk)
        ensures
            r.is_valid(),
            views(r.lines@) == lines(text@),
            forall|m: Map<Seq<char>, Option<ObjectView>>| #[trigger]
                r.outcome(m) == blame_from(
                    m,
                    path@,
                    lines(text@),
                    Seq::new(lines(text@).len(), |i: int| None),
                    head@,
                    Set::empty(),
                ),
    {
        BlameWalk::new(path, text, head)
    }
}

// ---------------------------------------------------------------------------
// Laws

/// Once the current commit has been moved, it is what it was moved to: the
/// content that was written is read back as the commit.
pub proof fn moved_head_is_read_back(head: Seq<char>, hash: Seq<char>)
    requires
        trim(hash) == hash,
        !begins_with(hash, "ref: "@),
    ensures
        match parse_head(head) {
            HeadView::Ref(_) => head_commit(head, ref_text(hash)) == hash,
            HeadView::Detached(_) => forall|other: Seq<char>| #[trigger]
                head_commit(ref_text(hash), other) == hash,
        },
{
    ref_round_trip(hash);
    detached_head_round_trip(hash);
}

/// A commit is made of what is staged: each staged file is an entry of its
/// tree, with its path, mode and hash, in the same order.
pub proof fn committed_tree_is_the_index(index: Seq<IndexEntryView>)
    ensures
        index_tree(index).len() == index.len(),
        forall|i: int|
            0 <= i < index.len() ==> (#[trigger] index_tree(index)[i]).name == index[i].path
                && index_tree(index)[i].mode == index[i].mode && index_tree(index)[i].hash
                == index[i].hash,
{
}

/// A link is staged as a link, with where it leads to; a file with its content, as
/// one that can be run unless it is read-only. The size is that of what is stored.
pub proof fn file_is_staged_as_it_is(
    path: Seq<char>,
    hash: Seq<char>,
    file: WorkFile,
    modified_at: Timestamp,
)
    ensures
        ({
            let e = staged_entry(path, hash, file, modified_at);
            &&& e.path == path
            &&& e.hash == hash
            &&& e.modified_at == modified_at
            &&& match file {
                WorkFile::Link { target } => {
                    &&& stored_data(file) == encode_utf8(target@)
                    &&& e.mode == FileMode::Symlink
                    &&& e.file_size == encode_utf8(target@).len() as u64
                },
                WorkFile::File { content, readonly } => {
                    &&& stored_data(file) == content@
                    &&& e.mode == FileMode::Regular <==> readonly
                    &&& e.mode == FileMode::Executable <==> !readonly
                    &&& e.file_size == content@.len() as u64
                },
            }
        }),
{
}

/// A path is staged if and only if it is not ignored and may be written; one that
/// is ignored is passed over, whoever may write it.
pub proof fn only_writable_paths_are_staged(ignored: bool, writable: bool)
    ensures
        add_verdict(ignored, writable) == Ok::<bool, BrassError>(true) <==> !ignored && writable,
        add_verdict(ignored, writable) == Ok::<bool, BrassError>(false) <==> ignored,
{
}

/// A first commit has no parent; every other has the commit before it.
pub proof fn commit_follows_the_one_before(hash: Seq<char>)
    ensures
        parents_of_head(None).len() == 0,
        parents_of_head(Some(hash)).len() == 1,
        parents_of_head(Some(hash))[0] == hash,
{
}

/// The list of tags has every tag, in order, with the commit that was written to
/// it; the list of leaves has every leaf, as its user and its name.
pub proof fn lists_leave_nothing_out(
    files: Seq<(String, String)>,
    i: int,
    hash: Seq<char>,
)
    requires
        0 <= i < files.len(),
        trim(hash) == hash,
    ensures
        tag_list(files).len() == files.len(),
        tag_list(files)[i].0 == files[i].0@,
        files[i].1@ == ref_text(hash) ==> tag_list(files)[i].1 == hash,
        leaf_list(files).len() == files.len(),
        leaf_list(files)[i] == files[i].0@ + seq!['/'] + files[i].1@,
{
    ref_round_trip(hash);
    reveal_strlit("/");
    assert("/"@ =~= seq!['/']);
}

/// A new repository has a directory for each kind of thing it keeps, in the control
/// directory of the working tree.
pub proof fn control_directory_has_every_part(path: Seq<char>)
    requires
        path.len() > 0,
        path.last() != '/',
    ensures
        control_dir(path) == path + "/.brass_control"@,
        directories(control_dir(path)) == seq![
            control_dir(path) + "/objects"@,
            control_dir(path) + "/packs"@,
            control_dir(path) + "/refs/heads"@,
            control_dir(path) + "/refs/leaves"@,
            control_dir(path) + "/refs/tags"@,
        ],
{
    reveal_strlit(".brass_control");
    reveal_strlit("/.brass_control");
    reveal_strlit("objects");
    reveal_strlit("/objects");
    reveal_strlit("packs");
    reveal_strlit("/packs");
    reveal_strlit("refs");
    reveal_strlit("heads");
    reveal_strlit("leaves");
    reveal_strlit("tags");
    reveal_strlit("/refs/heads");
    reveal_strlit("/refs/leaves");
    reveal_strlit("/refs/tags");
    let dir = control_dir(path);
    assert(dir =~= path + "/.brass_control"@);
    assert(dir.last() == 'l');
    let refs = join(dir, "refs"@);
    assert(refs =~= dir.push('/') + "refs"@);
    assert(refs.last() == 's');
    assert(join(dir, "objects"@) =~= dir + "/objects"@);
    assert(join(dir, "packs"@) =~= dir + "/packs"@);
    assert(join(refs, "heads"@) =~= dir + "/refs/heads"@);
    assert(join(refs, "leaves"@) =~= dir + "/refs/leaves"@);
    assert(join(refs, "tags"@) =~= dir + "/refs/tags"@);
}

} // verus!
