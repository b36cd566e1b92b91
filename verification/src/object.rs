//! The objects of a repository: blobs, trees and commits.
use vstd::prelude::*;
use crate::mode::FileMode;
use crate::text::views;

verus! {

/// The content of a file.
#[derive(Debug, Clone, PartialEq, Eq)]
pub struct Blob {
    pub data: Vec<u8>,
}

/// One line of a tree.
#[derive(Debug, Clone, PartialEq, Eq)]
pub struct TreeEntry {
    pub mode: FileMode,
    pub name: String,
    pub hash: String,
}

/// A directory.
#[derive(Debug, Clone, PartialEq, Eq)]
pub struct Tree {
    pub entries: Vec<TreeEntry>,
}

/// A point in time: seconds and nanoseconds since the Unix epoch.
#[derive(Debug, Clone, Copy, PartialEq, Eq, Structural)]
pub struct Timestamp {
    pub secs: u64,
    pub nanos: u32,
}

/// Who did something, and when.
#[derive(Debug, Clone, PartialEq, Eq)]
pub struct Signature {
    pub name: String,
    pub email: String,
    pub timestamp: Timestamp,
}

/// A state of the whole tree, with its history.
#[derive(Debug, Clone, PartialEq, Eq)]
pub struct Commit {
    pub tree_hash: String,
    pub parent_hashes: Vec<String>,
    pub author: Signature,
    pub committer: Signature,
    pub message: String,
}

/// An object of the repository.
#[derive(Debug, Clone, PartialEq, Eq)]
pub enum BrassObject {
    Blob(Blob),
    Tree(Tree),
    Commit(Commit),
}

/// A `TreeEntry` as a mathematical value.
#[verifier::ext_equal]
pub struct TreeEntryView {
    pub mode: FileMode,
    pub name: Seq<char>,
    pub hash: Seq<char>,
}

/// A `Signature` as a mathematical value.
#[verifier::ext_equal]
pub struct SignatureView {
    pub name: Seq<char>,
    pub email: Seq<char>,
    pub timestamp: Timestamp,
}

/// A `Commit` as a mathematical value.
#[verifier::ext_equal]
pub struct CommitView {
    pub tree_hash: Seq<char>,
    pub parent_hashes: Seq<Seq<char>>,
    pub author: SignatureView,
    pub committer: SignatureView,
    pub message: Seq<char>,
}

/// A `BrassObject` as a mathematical value.
#[verifier::ext_equal]
pub enum ObjectView {
    Blob(Seq<u8>),
    Tree(Seq<TreeEntryView>),
    Commit(CommitView),
}

impl View for TreeEntry {
    type V = TreeEntryView;

    open spec fn view(&self) -> TreeEntryView {
        TreeEntryView { mode: self.mode, name: self.name@, hash: self.hash@ }
    }
}

impl View for Tree {
    type V = Seq<TreeEntryView>;

    open spec fn view(&self) -> Seq<TreeEntryView> {
        self.entries@.map_values(|e: TreeEntry| e@)
    }
}

impl View for Signature {
    type V = SignatureView;

    open spec fn view(&self) -> SignatureView {
        SignatureView { name: self.name@, email: self.email@, timestamp: self.timestamp }
    }
}

impl View for Commit {
    type V = CommitView;

    open spec fn view(&self) -> CommitView {
        CommitView {
            tree_hash: self.tree_hash@,
            parent_hashes: views(self.parent_hashes@),
            author: self.author@,
            committer: self.committer@,
            message: self.message@,
        }
    }
}

impl View for BrassObject {
    type V = ObjectView;

    open spec fn view(&self) -> ObjectView {
        match self {
            BrassObject::Blob(b) => ObjectView::Blob(b.data@),
            BrassObject::Tree(t) => ObjectView::Tree(t@),
            BrassObject::Commit(c) => ObjectView::Commit(c@),
        }
    }
}

impl Signature {
    /// A second signature that says the same.
    pub fn copy(&self) -> (r: Signature)
        ensures
            r@ == self@,
    {
        Signature {
            name: self.name.clone(),
            email: self.email.clone(),
            timestamp: self.timestamp,
        }
    }
}

// ---------------------------------------------------------------------------
// Laws

/// Nothing of a tree is lost in its view: it has every entry, in order, with its
/// mode, its name and its hash.
pub proof fn tree_view_tells_every_entry(t: Tree)
    ensures
        t@.len() == t.entries@.len(),
        forall|i: int|
            0 <= i < t@.len() ==> (#[trigger] t@[i]).mode == t.entries@[i].mode && t@[i].name
                == t.entries@[i].name@ && t@[i].hash == t.entries@[i].hash@,
{
}

/// Nothing of a commit is lost in its view.
pub proof fn commit_view_tells_everything(c: Commit)
    ensures
        c@.tree_hash == c.tree_hash@,
        c@.parent_hashes.len() == c.parent_hashes@.len(),
        forall|i: int|
            0 <= i < c@.parent_hashes.len() ==> #[trigger] c@.parent_hashes[i]
                == c.parent_hashes@[i]@,
        c@.message == c.message@,
        c@.author.name == c.author.name@,
        c@.author.email == c.author.email@,
        c@.author.timestamp == c.author.timestamp,
        c@.committer.name == c.committer.name@,
        c@.committer.email == c.committer.email@,
        c@.committer.timestamp == c.committer.timestamp,
{
}

/// An object is viewed as what it is.
pub proof fn object_view_tells_the_kind(b: Blob, t: Tree, c: Commit)
    ensures
        BrassObject::Blob(b)@ == ObjectView::Blob(b.data@),
        BrassObject::Tree(t)@ == ObjectView::Tree(t@),
        BrassObject::Commit(c)@ == ObjectView::Commit(c@),
{
}

} // verus!
