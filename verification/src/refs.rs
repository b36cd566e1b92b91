//! Names for commits: branches, leaves, tags, and the current commit.
use vstd::prelude::*;
use crate::paths::{join, join_all, join_paths};
use crate::text::{
    after_prefix, begins_with, has_prefix, is_blank, is_white_space, lemma_trim_line_end,
    prefix_and_rest_are_the_text, strip_prefix, trim, trim_end, trim_start,
    trim_takes_white_space_only, trimmed,
};

verus! {

/// What a ref stands for.
#[derive(Debug, Clone, PartialEq, Eq)]
pub enum RefKind {
    Branch(String),
    Leaf { user: String, name: String },
    Tag(String),
}

/// A `RefKind` as a mathematical value.
#[verifier::ext_equal]
pub enum RefView {
    Branch(Seq<char>),
    Leaf { user: Seq<char>, name: Seq<char> },
    Tag(Seq<char>),
}

impl View for RefKind {
    type V = RefView;

    open spec fn view(&self) -> RefView {
        match self {
            RefKind::Branch(name) => RefView::Branch(name@),
            RefKind::Leaf { user, name } => RefView::Leaf { user: user@, name: name@ },
            RefKind::Tag(name) => RefView::Tag(name@),
        }
    }
}

/// A ref as a path inside the control directory.
pub open spec fn ref_path(r: RefView) -> Seq<char> {
    match r {
        RefView::Branch(name) => join("refs/heads"@, name),
        RefView::Leaf { user, name } => join(join("refs/leaves"@, user), name),
        RefView::Tag(name) => join("refs/tags"@, name),
    }
}

impl RefKind {
    /// The ref as a path inside the control directory.
    pub fn to_path_suffix(&self) -> (r: String)
        ensures
            r@ == ref_path(self@),
    {
        match self {
            RefKind::Branch(name) => join_paths("refs/heads", name.as_str()),
            RefKind::Leaf { user, name } => join_all("refs/leaves", user.as_str(), name.as_str()),
            RefKind::Tag(name) => join_paths("refs/tags", name.as_str()),
        }
    }
}

/// What the current commit is known by: a ref, or the commit itself.
#[derive(Debug, Clone, PartialEq, Eq)]
pub enum Head {
    /// A path inside the control directory.
    Ref(String),
    /// A commit.
    Detached(String),
}

/// A `Head` as a mathematical value.
#[verifier::ext_equal]
pub enum HeadView {
    Ref(Seq<char>),
    Detached(Seq<char>),
}

impl View for Head {
    type V = HeadView;

    open spec fn view(&self) -> HeadView {
        match self {
            Head::Ref(path) => HeadView::Ref(path@),
            Head::Detached(hash) => HeadView::Detached(hash@),
        }
    }
}

/// What the content of `HEAD` stands for.
pub open spec fn parse_head(text: Seq<char>) -> HeadView {
    match after_prefix(trim(text), "ref: "@) {
        Some(path) => HeadView::Ref(path),
        None => HeadView::Detached(trim(text)),
    }
}

/// The content of `HEAD` for a ref.
pub open spec fn head_text(path: Seq<char>) -> Seq<char> {
    "ref: "@ + path + "\n"@
}

/// The content of a ref that names a commit.
pub open spec fn ref_text(hash: Seq<char>) -> Seq<char> {
    hash.push('\n')
}

/// The commit that a ref names.
pub open spec fn ref_target(text: Seq<char>) -> Seq<char> {
    trim(text)
}

/// The commit that a file under `refs` adds to the roots of the repository:
/// none where it is empty or leads to another ref.
pub open spec fn root_of(text: Seq<char>) -> Option<Seq<char>> {
    if trim(text).len() > 0 && !begins_with(trim(text), "ref: "@) {
        Some(trim(text))
    } else {
        None
    }
}

/// Reads the content of `HEAD`.
pub fn read_head(text: &str) -> (r: Head)
    ensures
        r@ == parse_head(text@),
{
    let content = trimmed(text);
    match strip_prefix(content.as_str(), "ref: ") {
        Some(path) => Head::Ref(path),
        None => Head::Detached(content),
    }
}

/// The content of `HEAD` for a ref.
pub fn write_head(path: &str) -> (r: String)
    ensures
        r@ == head_text(path@),
{
    let mut out = "ref: ".to_owned();
    out.append(path);
    out.append("\n");
    out
}

/// The content of a ref that names a commit.
pub fn write_ref(hash: &str) -> (r: String)
    ensures
        r@ == ref_text(hash@),
{
    let mut out = hash.to_owned();
    out.push('\n');
    out
}

/// The commit that a ref names.
pub fn read_ref(text: &str) -> (r: String)
    ensures
        r@ == ref_target(text@),
{
    trimmed(text)
}

/// The commit that a file under `refs` adds to the roots of the repository.
pub fn read_root(text: &str) -> (r: Option<String>)
    ensures
        match r {
            Some(hash) => root_of(text@) == Some(hash@),
            None => root_of(text@) is None,
        },
{
    let hash = trimmed(text);
    if !is_blank(hash.as_str()) && !has_prefix(hash.as_str(), "ref: ") {
        Some(hash)
    } else {
        None
    }
}

/// The commit that `HEAD` leads to: the content of the ref that it names, or
/// what it says itself. `ref_content` is the content of that ref.
pub open spec fn head_commit(head: Seq<char>, ref_content: Seq<char>) -> Seq<char> {
    match parse_head(head) {
        HeadView::Ref(_) => ref_target(ref_content),
        HeadView::Detached(hash) => hash,
    }
}

// ---------------------------------------------------------------------------
// Laws

/// A ref gives back the commit that was written to it.
pub proof fn ref_round_trip(hash: Seq<char>)
    requires
        trim(hash) == hash,
    ensures
        ref_target(ref_text(hash)) == hash,
{
    lemma_trim_line_end(hash);
}

/// `HEAD` gives back the ref that was written to it.
pub proof fn head_round_trip(path: Seq<char>)
    requires
        path.len() > 0,
        !is_white_space(path.last()),
    ensures
        parse_head(head_text(path)) == HeadView::Ref(path),
{
    reveal_strlit("ref: ");
    reveal_strlit("\n");
    let text = head_text(path);
    let body = "ref: "@ + path;
    assert(text =~= body.push('\n'));
    assert(trim_start(text) == text);
    assert(text.drop_last() =~= body);
    assert(body.last() == path.last());
    assert(trim_end(body) == body);
    assert(trim(text) == body);
    assert(body.take(5) =~= "ref: "@);
    assert(body.skip(5) =~= path);
}

/// A commit that is written to `HEAD` itself is the current commit, unless its
/// name looks like the mention of a ref.
pub proof fn detached_head_round_trip(hash: Seq<char>)
    requires
        trim(hash) == hash,
        !begins_with(hash, "ref: "@),
    ensures
        parse_head(ref_text(hash)) == HeadView::Detached(hash),
{
    lemma_trim_line_end(hash);
}

/// A branch, a leaf and a tag stand each in its own directory of the control
/// directory, under its name, a leaf under the name of its user first.
pub proof fn refs_have_their_own_places(user: Seq<char>, name: Seq<char>)
    requires
        user.len() > 0,
        user[0] != '/',
        user.last() != '/',
        name.len() > 0,
        name[0] != '/',
    ensures
        ref_path(RefView::Branch(name)) == "refs/heads/"@ + name,
        ref_path(RefView::Leaf { user, name }) == "refs/leaves/"@ + user + "/"@ + name,
        ref_path(RefView::Tag(name)) == "refs/tags/"@ + name,
{
    reveal_strlit("/");
    reveal_strlit("refs/heads");
    reveal_strlit("refs/heads/");
    reveal_strlit("refs/leaves");
    reveal_strlit("refs/leaves/");
    reveal_strlit("refs/tags");
    reveal_strlit("refs/tags/");
    assert("refs/heads"@.push('/') =~= "refs/heads/"@);
    assert("refs/leaves"@.push('/') =~= "refs/leaves/"@);
    assert("refs/tags"@.push('/') =~= "refs/tags/"@);
    let place = "refs/leaves/"@ + user;
    assert(place.last() == user.last());
    assert(place.push('/') + name =~= "refs/leaves/"@ + user + "/"@ + name);
}

/// A ref that names a commit adds that commit to the roots; one that leads to
/// another ref, or holds only white space, adds none.
pub proof fn roots_are_the_named_commits(hash: Seq<char>, path: Seq<char>, blank: Seq<char>)
    requires
        trim(hash) == hash,
        hash.len() > 0,
        forall|rest: Seq<char>| hash != #[trigger] ("ref: "@ + rest),
        path.len() > 0,
        !is_white_space(path.last()),
        forall|i: int| 0 <= i < blank.len() ==> is_white_space(#[trigger] blank[i]),
    ensures
        root_of(ref_text(hash)) == Some(hash),
        root_of(head_text(path)) is None,
        root_of(blank) is None,
{
    lemma_trim_line_end(hash);
    if begins_with(hash, "ref: "@) {
        let n = "ref: "@.len() as int;
        assert(hash =~= "ref: "@ + hash.skip(n));
    }
    head_round_trip(path);
    let r = trim_takes_white_space_only(blank);
    if r.0 < r.1 {
        assert(is_white_space(blank[r.0]));
    }
}

/// The current commit is the one that was written to the ref that `HEAD` names,
/// or to `HEAD` itself.
pub proof fn current_commit_is_the_written_one(
    path: Seq<char>,
    hash: Seq<char>,
    other: Seq<char>,
)
    requires
        path.len() > 0,
        !is_white_space(path.last()),
        trim(hash) == hash,
        forall|rest: Seq<char>| hash != #[trigger] ("ref: "@ + rest),
    ensures
        head_commit(head_text(path), ref_text(hash)) == hash,
        head_commit(ref_text(hash), other) == hash,
{
    head_round_trip(path);
    ref_round_trip(hash);
    if begins_with(hash, "ref: "@) {
        let n = "ref: "@.len() as int;
        assert(hash =~= "ref: "@ + hash.skip(n));
    }
    detached_head_round_trip(hash);
}

/// Once `HEAD` was written for a branch or a leaf, the current ref is that branch
/// or leaf.
pub proof fn head_names_the_chosen_ref(user: Seq<char>, name: Seq<char>)
    requires
        name.len() > 0,
        !is_white_space(name.last()),
    ensures
        parse_head(head_text(ref_path(RefView::Branch(name)))) == HeadView::Ref(
            ref_path(RefView::Branch(name)),
        ),
        parse_head(head_text(ref_path(RefView::Leaf { user, name }))) == HeadView::Ref(
            ref_path(RefView::Leaf { user, name }),
        ),
{
    let branch = ref_path(RefView::Branch(name));
    let leaf = ref_path(RefView::Leaf { user, name });
    assert(branch.last() == name.last());
    assert(leaf.last() == name.last());
    head_round_trip(branch);
    head_round_trip(leaf);
}

/// White space around what stands in `HEAD` or in a ref does not count: behind
/// `ref: ` stands the path of a ref, and anything else is the name of a commit.
pub proof fn heads_are_read_trimmed(text: Seq<char>, path: Seq<char>)
    ensures
        trim(text) == "ref: "@ + path ==> parse_head(text) == HeadView::Ref(path) && root_of(
            text,
        ) is None,
        (forall|rest: Seq<char>| trim(text) != #[trigger] ("ref: "@ + rest)) ==> parse_head(text)
            == HeadView::Detached(trim(text)) && root_of(text) == (if trim(text).len() > 0 {
            Some(trim(text))
        } else {
            None
        }),
        ref_target(text) == trim(text),
{
    let mark = "ref: "@;
    prefix_and_rest_are_the_text(trim(text), mark, path);
    if let Some(rest) = after_prefix(trim(text), mark) {
        prefix_and_rest_are_the_text(trim(text), mark, rest);
    }
}

} // verus!
