//! Checking out: which commit is meant, and what happens to the working tree.
use vstd::prelude::*;
use crate::error::BrassError;
use crate::files::{
    commit_files, commit_paths_are_apart, file_at, file_keys, file_views, FileEntry, FileMap,
    FileView,
};
use crate::history::Step;
use crate::index::{keys, place, Index, IndexEntry, IndexEntryView};
use crate::mode::FileMode;
use crate::object::{BrassObject, ObjectView, Timestamp};
use crate::paths::{
    below, below_and_back, components, is_absolute, join, join_all, join_paths, strip_base,
};
use crate::refs::{
    head_round_trip, head_text, parse_head, read_ref, ref_path, ref_target, ref_text,
    refs_have_their_own_places, write_head, write_ref, HeadView, RefView,
};
use crate::repository::Repository;
use crate::text::{
    begins_with, has_char, has_prefix, is_white_space, lemma_position, lemma_position_is, position,
    views, views_empty, views_push,
};
use crate::utf8::{lossy_text, read_lossy};

verus! {

/// The ref that a name given to checkout stands for, as a file: a tag under
/// `tags/`, a leaf where there is another slash, else a branch, else a tag,
/// where there is one. Nothing where there is none.
pub open spec fn checkout_ref(
    brass_dir: Seq<char>,
    target: Seq<char>,
    branch_exists: bool,
    tag_exists: bool,
) -> Seq<char> {
    let refs = join(brass_dir, "refs"@);
    if begins_with(target, "tags/"@) {
        join(refs, target)
    } else if target.contains('/') {
        join(join(refs, "leaves"@), target)
    } else if branch_exists {
        join(join(refs, "heads"@), target)
    } else if tag_exists {
        join(join(refs, "tags"@), target)
    } else {
        Seq::empty()
    }
}

/// How `HEAD` names a ref, given its file: from the control directory on, where
/// the file is in it.
pub open spec fn ref_name(brass_dir: Seq<char>, file: Seq<char>) -> Seq<char> {
    match below(file, brass_dir) {
        Some(name) => name,
        None => file,
    }
}

/// A commit that is checked out, and what `HEAD` says then.
#[derive(Debug, Clone, PartialEq, Eq)]
pub struct CheckoutPlan {
    pub commit: String,
    pub head_text: String,
}

/// How a file is written.
#[derive(Debug, Clone, PartialEq, Eq)]
pub enum FileContent {
    /// As a symbolic link to a target.
    Link(String),
    /// With some bytes.
    Bytes(Vec<u8>),
}

/// A file that is written to the working tree.
#[derive(Debug, Clone, PartialEq, Eq)]
pub struct FileWrite {
    pub path: String,
    pub content: FileContent,
}

/// A `FileContent` as a mathematical value.
#[verifier::ext_equal]
pub enum ContentView {
    Link(Seq<char>),
    Bytes(Seq<u8>),
}

impl View for FileContent {
    type V = ContentView;

    open spec fn view(&self) -> ContentView {
        match self {
            FileContent::Link(target) => ContentView::Link(target@),
            FileContent::Bytes(data) => ContentView::Bytes(data@),
        }
    }
}

/// How the content of a file of a commit is written: a symbolic link as a link,
/// every other file with its bytes.
pub open spec fn checkout_content(mode: FileMode, data: Seq<u8>) -> ContentView {
    if mode == FileMode::Symlink {
        ContentView::Link(lossy_text(data))
    } else {
        ContentView::Bytes(data)
    }
}

/// The paths of the files of one commit that another does not have, as files of
/// the working tree.
pub open spec fn stale_files(
    worktree: Seq<char>,
    target: Seq<FileView>,
    current: Seq<FileView>,
) -> Seq<Seq<char>>
    decreases current.len(),
{
    if current.len() == 0 {
        Seq::empty()
    } else {
        let before = stale_files(worktree, target, current.drop_last());
        if file_at(target, current.last().path) is None {
            before.push(join(worktree, current.last().path))
        } else {
            before
        }
    }
}

/// The index entry of a file that was written.
pub open spec fn written_entry(
    f: FileView,
    modified_at: Timestamp,
    file_size: u64,
) -> IndexEntryView {
    IndexEntryView { path: f.path, hash: f.hash, mode: f.mode, modified_at, file_size }
}

/// The index after a checkout: an entry for each file that was written, in the
/// order of the files. `written` tells for each file when it was written and
/// how long it is, or that it was not written.
pub open spec fn checkout_entries(
    files: Seq<FileView>,
    written: Seq<Option<(Timestamp, u64)>>,
) -> Seq<IndexEntryView>
    decreases files.len(),
{
    if files.len() == 0 || written.len() == 0 {
        Seq::empty()
    } else {
        (match written[0] {
            Some((modified_at, file_size)) => seq![
                written_entry(files[0], modified_at, file_size),
            ],
            None => Seq::empty(),
        }) + checkout_entries(files.drop_first(), written.drop_first())
    }
}

/// The index after a checkout, given what was written of the files.
pub fn checkout_index(files: &FileMap, written: &Vec<Option<(Timestamp, u64)>>) -> (r: Index)
    ensures
        r@ == checkout_entries(files@, written@),
{
    let list = files.entries();
    let mut index = Index { entries: Vec::new() };
    let ghost whole = checkout_entries(files@, written@);
    let mut i: usize = 0;
    assert(files@.skip(0) =~= files@);
    assert(written@.skip(0) =~= written@);
    assert(index@ + whole =~= whole);
    while i < list.len() && i < written.len()
        invariant
            i <= list@.len(),
            file_views(list@) == files@,
            i <= written@.len(),
            whole == checkout_entries(files@, written@),
            whole == index@ + checkout_entries(files@.skip(i as int), written@.skip(i as int)),
        decreases list@.len() - i,
    {
        let ghost before = index@;
        let ghost rest = checkout_entries(files@.skip(i + 1), written@.skip(i + 1));
        assert(files@.skip(i as int)[0] == list@[i as int]@);
        assert(files@.skip(i as int).drop_first() =~= files@.skip(i + 1));
        assert(written@.skip(i as int).drop_first() =~= written@.skip(i + 1));
        match written[i] {
            Some((modified_at, file_size)) => {
                let entry = Repository::checkout_entry(&list[i], modified_at, file_size);
                index.entries.push(entry);
                assert(index@ =~= before.push(entry@));
                assert(before + (seq![entry@] + rest) =~= index@ + rest);
            },
            None => {
                assert(before + (Seq::empty() + rest) =~= index@ + rest);
            },
        }
        i = i + 1;
    }
    assert(index@ + Seq::empty() =~= index@);
    index
}

impl Repository {
    /// The file of the branch that a name may stand for.
    pub fn branch_file(&self, name: &str) -> (r: String)
        ensures
            r@ == join(join(join(self.brass_dir@, "refs"@), "heads"@), name@),
    {
        join_paths(join_all(self.brass_dir.as_str(), "refs", "heads").as_str(), name)
    }

    /// The file of the tag that a name may stand for.
    pub fn tag_file(&self, name: &str) -> (r: String)
        ensures
            r@ == join(join(join(self.brass_dir@, "refs"@), "tags"@), name@),
    {
        join_paths(join_all(self.brass_dir.as_str(), "refs", "tags").as_str(), name)
    }

    /// The ref that a name given to checkout stands for, as a file; empty where
    /// there is none.
    pub fn checkout_ref(&self, target: &str, branch_exists: bool, tag_exists: bool) -> (r: String)
        ensures
            r@ == checkout_ref(self.brass_dir@, target@, branch_exists, tag_exists),
    {
        if has_prefix(target, "tags/") {
            join_all(self.brass_dir.as_str(), "refs", target)
        } else if has_char(target, '/') {
            join_paths(join_all(self.brass_dir.as_str(), "refs", "leaves").as_str(), target)
        } else if branch_exists {
            self.branch_file(target)
        } else if tag_exists {
            self.tag_file(target)
        } else {
            String::new()
        }
    }

    /// What is checked out: the commit that the ref names, where the ref is
    /// there; else the target itself, where it names an object that can be
    /// read. `HEAD` then names the ref or the commit.
    pub fn checkout(
        &self,
        target: &str,
        ref_file: &str,
        ref_content: Option<&str>,
        is_object: bool,
    ) -> (r: Result<CheckoutPlan, BrassError>)
        ensures
            match ref_content {
                Some(text) => r matches Ok(plan) && plan.commit@ == ref_target(text@)
                    && plan.head_text@ == head_text(ref_name(self.brass_dir@, ref_file@)),
                None => if is_object {
                    r matches Ok(plan) && plan.commit@ == target@ && plan.head_text@ == ref_text(
                        target@,
                    )
                } else {
                    r == Err::<CheckoutPlan, BrassError>(BrassError::CheckoutTargetMissing)
                },
            },
    {
        match ref_content {
            Some(text) => {
                let name = match strip_base(ref_file, self.brass_dir.as_str()) {
                    Some(name) => name,
                    None => ref_file.to_owned(),
                };
                Ok(CheckoutPlan { commit: read_ref(text), head_text: write_head(name.as_str()) })
            },
            None => {
                if is_object {
                    Ok(CheckoutPlan { commit: target.to_owned(), head_text: write_ref(target) })
                } else {
                    Err(BrassError::CheckoutTargetMissing)
                }
            },
        }
    }

    /// How a file of a commit is written, given what was found under its hash:
    /// only blobs are written, symbolic links as links.
    pub fn checkout_file(&self, file: &FileEntry, found: Option<&BrassObject>) -> (r: Option<
        FileWrite,
    >)
        ensures
            match found {
                Some(BrassObject::Blob(b)) => r matches Some(w) && w.path@ == join(
                    self.worktree@,
                    file.path@,
                ) && (if file.mode == FileMode::Symlink {
                    w.content matches FileContent::Link(text) && text@ == lossy_text(b.data@)
                } else {
                    w.content matches FileContent::Bytes(data) && data@ == b.data@
                }),
                _ => r is None,
            },
            match found {
                Some(BrassObject::Blob(b)) => r matches Some(w) && w.content@ == checkout_content(
                    file.mode,
                    b.data@,
                ),
                _ => r is None,
            },
    {
        match found {
            Some(BrassObject::Blob(b)) => {
                let content = if file.mode == FileMode::Symlink {
                    FileContent::Link(read_lossy(b.data.as_slice()))
                } else {
                    FileContent::Bytes(vstd::slice::slice_to_vec(b.data.as_slice()))
                };
                let path = join_paths(self.worktree.as_str(), file.path.as_str());
                Some(FileWrite { path, content })
            },
            _ => None,
        }
    }

    /// The index entry of a file that was written.
    pub fn checkout_entry(file: &FileEntry, modified_at: Timestamp, file_size: u64) -> (r:
        IndexEntry)
        ensures
            r@ == written_entry(file@, modified_at, file_size),
    {
        IndexEntry {
            path: file.path.clone(),
            hash: file.hash.clone(),
            mode: file.mode,
            modified_at,
            file_size,
        }
    }

    /// The files of the working tree that are removed: those of the current
    /// commit that the commit that is checked out does not have.
    pub fn stale_files(&self, target: &FileMap, current: &FileMap) -> (r: Vec<String>)
        ensures
            views(r@) == stale_files(self.worktree@, target@, current@),
    {
        broadcast use {views_empty, views_push};

        let list = current.entries();
        let mut out: Vec<String> = Vec::new();
        let mut i: usize = 0;
        assert(current@.take(0) =~= Seq::empty());
        while i < list.len()
            invariant
                i <= list@.len(),
                file_views(list@) == current@,
                views(out@) == stale_files(self.worktree@, target@, current@.take(i as int)),
            decreases list@.len() - i,
        {
            let path = list[i].path.as_str();
            assert(current@.take(i + 1).drop_last() =~= current@.take(i as int));
            assert(current@.take(i + 1).last() == list@[i as int]@);
            if target.get(path).is_none() {
                let ghost before = out@;
                let file = join_paths(self.worktree.as_str(), path);
                out.push(file);
                assert(views(out@) == views(before).push(file@));
            }
            i = i + 1;
        }
        assert(current@.take(i as int) =~= current@);
        out
    }
}

// ---------------------------------------------------------------------------
// Laws

/// After a ref was checked out, `HEAD` leads to that ref: the path it names,
/// seen from the control directory, is the file of the ref.
pub proof fn head_leads_to_the_ref(brass_dir: Seq<char>, file: Seq<char>)
    requires
        below(file, brass_dir) is Some || is_absolute(file),
        ref_name(brass_dir, file).len() > 0,
        !is_white_space(ref_name(brass_dir, file).last()),
    ensures
        parse_head(head_text(ref_name(brass_dir, file))) == HeadView::Ref(
            ref_name(brass_dir, file),
        ),
        components(join(brass_dir, ref_name(brass_dir, file))) == components(file),
{
    head_round_trip(ref_name(brass_dir, file));
    below_and_back(file, brass_dir);
}

proof fn lemma_checkout_entries(
    files: Seq<FileView>,
    written: Seq<Option<(Timestamp, u64)>>,
    i: int,
)
    requires
        file_keys(files).no_duplicates(),
        written.len() == files.len(),
    ensures
        ({
            let index = checkout_entries(files, written);
            &&& keys(index).no_duplicates()
            &&& forall|k: Seq<Seq<char>>| #[trigger]
                keys(index).contains(k) ==> file_keys(files).contains(k)
            &&& 0 <= i < files.len() ==> match written[i] {
                Some((modified_at, file_size)) => place(index, files[i].path) < index.len()
                    && index[place(index, files[i].path)] == written_entry(
                    files[i],
                    modified_at,
                    file_size,
                ),
                None => place(index, files[i].path) == index.len(),
            }
        }),
    decreases files.len(),
{
    let index = checkout_entries(files, written);
    let ks = keys(index);
    if files.len() == 0 {
        assert(ks =~= Seq::empty());
    } else {
        let less_files = files.drop_first();
        let less = checkout_entries(less_files, written.drop_first());
        let less_keys = keys(less);
        let first = components(files[0].path);
        assert(file_keys(less_files) =~= file_keys(files).drop_first());
        lemma_checkout_entries(less_files, written.drop_first(), i - 1);
        assert(file_keys(files)[0] == first);
        assert forall|k: Seq<Seq<char>>| #[trigger] file_keys(less_files).contains(k) implies k
            != first && file_keys(files).contains(k) by {
            let j = choose|j: int| 0 <= j < less_files.len() && file_keys(less_files)[j] == k;
            assert(file_keys(files)[j + 1] == k);
        }
        assert(file_keys(files).contains(first));
        let key = components(files[i].path);
        if 0 < i < files.len() {
            assert(less_files[i - 1] == files[i]);
            assert(file_keys(files)[i] == key);
        }
        lemma_position(less_keys, key);
        let at = position(less_keys, key);
        match written[0] {
            None => {
                assert(index =~= less);
                if i == 0 && less_keys.contains(key) {
                    assert(file_keys(less_files).contains(key));
                }
            },
            Some((modified_at, file_size)) => {
                let e = written_entry(files[0], modified_at, file_size);
                assert(index =~= seq![e] + less);
                assert(ks =~= seq![first] + less_keys);
                assert forall|a: int, b: int| 0 <= a < b < ks.len() implies ks[a] != ks[b] by {
                    assert(ks[b] == less_keys[b - 1]);
                    assert(less_keys.contains(less_keys[b - 1]));
                    if a > 0 {
                        assert(ks[a] == less_keys[a - 1]);
                    }
                }
                assert forall|k: Seq<Seq<char>>| #[trigger] ks.contains(k) implies file_keys(
                    files,
                ).contains(k) by {
                    let j = choose|j: int| 0 <= j < ks.len() && ks[j] == k;
                    if j > 0 {
                        assert(less_keys[j - 1] == k);
                        assert(less_keys.contains(k));
                    }
                }
                if i == 0 {
                    lemma_position_is(ks, key, 0);
                } else if 0 < i < files.len() {
                    assert forall|j: int| 0 <= j < at + 1 implies ks[j] != key by {
                        if j > 0 {
                            assert(ks[j] == less_keys[j - 1]);
                        }
                    }
                    lemma_position_is(ks, key, at + 1);
                }
            },
        }
    }
}

/// After a commit was checked out the index has one entry for each file that
/// was written, with the hash and the mode that the commit has, and none for
/// any other path.
pub proof fn checkout_index_is_what_was_written(
    m: Map<Seq<char>, Option<ObjectView>>,
    commit: Seq<char>,
    files: Seq<FileView>,
    written: Seq<Option<(Timestamp, u64)>>,
)
    requires
        m.dom().finite(),
        commit_files(m, commit) == Step::Done(Ok::<Seq<FileView>, BrassError>(files)),
        written.len() == files.len(),
    ensures
        ({
            let index = checkout_entries(files, written);
            &&& keys(index).no_duplicates()
            &&& forall|k: Seq<Seq<char>>| #[trigger]
                keys(index).contains(k) ==> file_keys(files).contains(k)
            &&& forall|i: int|
                0 <= i < files.len() ==> match written[i] {
                    Some((modified_at, file_size)) => place(index, (#[trigger] files[i]).path)
                        < index.len() && index[place(index, files[i].path)] == written_entry(
                        files[i],
                        modified_at,
                        file_size,
                    ),
                    None => place(index, files[i].path) == index.len(),
                }
        }),
{
    commit_paths_are_apart(m, commit);
    lemma_checkout_entries(files, written, -1);
    assert forall|i: int| 0 <= i < files.len() implies match written[i] {
        Some((modified_at, file_size)) => {
            let index = checkout_entries(files, written);
            place(index, (#[trigger] files[i]).path) < index.len() && index[place(
                index,
                files[i].path,
            )] == written_entry(files[i], modified_at, file_size)
        },
        None => place(checkout_entries(files, written), files[i].path) == checkout_entries(
            files,
            written,
        ).len(),
    } by {
        lemma_checkout_entries(files, written, i);
    }
}

/// Checking out removes exactly the files that the current commit has and the
/// other has not.
pub proof fn stale_files_are_the_difference(
    worktree: Seq<char>,
    target: Seq<FileView>,
    current: Seq<FileView>,
)
    ensures
        forall|i: int|
            0 <= i < current.len() && file_at(target, (#[trigger] current[i]).path) is None
                ==> stale_files(worktree, target, current).contains(
                join(worktree, current[i].path),
            ),
        forall|p: Seq<char>| #[trigger]
            stale_files(worktree, target, current).contains(p) ==> exists|i: int|
                0 <= i < current.len() && file_at(target, (#[trigger] current[i]).path) is None
                    && p == join(worktree, current[i].path),
    decreases current.len(),
{
    if current.len() > 0 {
        let before = current.drop_last();
        stale_files_are_the_difference(worktree, target, before);
        let s = stale_files(worktree, target, before);
        let all = stale_files(worktree, target, current);
        let last = join(worktree, current.last().path);
        assert forall|i: int|
            0 <= i < current.len() && file_at(
                target,
                (#[trigger] current[i]).path,
            ) is None implies all.contains(join(worktree, current[i].path)) by {
            if i < before.len() {
                assert(before[i] == current[i]);
                let k = choose|k: int|
                    0 <= k < s.len() && s[k] == join(worktree, current[i].path);
                assert(all[k] == s[k]);
            } else {
                assert(all[s.len() as int] == last);
            }
        }
        assert forall|p: Seq<char>| #[trigger] all.contains(p) implies exists|i: int|
            0 <= i < current.len() && file_at(target, (#[trigger] current[i]).path) is None && p
                == join(worktree, current[i].path) by {
            let k = choose|k: int| 0 <= k < all.len() && all[k] == p;
            if k < s.len() {
                assert(s[k] == p);
                assert(s.contains(p));
                let i = choose|i: int|
                    0 <= i < before.len() && file_at(target, (#[trigger] before[i]).path) is None
                        && p == join(worktree, before[i].path);
                assert(current[i] == before[i]);
            } else {
                assert(current[current.len() - 1] == current.last());
            }
        }
    }
}

/// A name given to checkout leads to the file of the ref that it stands for: with
/// `tags/` in front to that tag, with a user in front to the leaf, and a bare name
/// to the branch, or to the tag where there is no branch.
pub proof fn checkout_finds_the_ref(brass_dir: Seq<char>, user: Seq<char>, name: Seq<char>)
    requires
        brass_dir.len() > 0,
        brass_dir.last() != '/',
        name.len() > 0,
        !name.contains('/'),
        user.len() > 0,
        !user.contains('/'),
        user != "tags"@,
    ensures
        forall|branch: bool, tag: bool| #[trigger]
            checkout_ref(brass_dir, "tags/"@ + name, branch, tag) == brass_dir + "/"@ + ref_path(
                RefView::Tag(name),
            ),
        forall|branch: bool, tag: bool| #[trigger]
            checkout_ref(brass_dir, user + "/"@ + name, branch, tag) == brass_dir + "/"@
                + ref_path(RefView::Leaf { user, name }),
        forall|tag: bool| #[trigger]
            checkout_ref(brass_dir, name, true, tag) == brass_dir + "/"@ + ref_path(
                RefView::Branch(name),
            ),
        checkout_ref(brass_dir, name, false, true) == brass_dir + "/"@ + ref_path(
            RefView::Tag(name),
        ),
        checkout_ref(brass_dir, name, false, false).len() == 0,
{
    reveal_strlit("/");
    reveal_strlit("refs");
    reveal_strlit("heads");
    reveal_strlit("leaves");
    reveal_strlit("tags");
    reveal_strlit("tags/");
    reveal_strlit("refs/heads/");
    reveal_strlit("refs/leaves/");
    reveal_strlit("refs/tags/");
    assert(name.contains(name[0]));
    assert(name.contains(name.last()));
    assert(user.contains(user[0]));
    assert(user.contains(user.last()));
    refs_have_their_own_places(user, name);
    let refs = brass_dir.push('/') + "refs"@;
    assert(join(brass_dir, "refs"@) == refs);
    let tag = "tags/"@ + name;
    assert(tag.take(5) =~= "tags/"@);
    assert(tag[0] == 't');
    assert(refs.push('/') + tag =~= brass_dir + "/"@ + ("refs/tags/"@ + name));
    let leaf = user + "/"@ + name;
    assert(leaf[user.len() as int] == '/');
    assert(leaf.contains('/'));
    assert(leaf[0] == user[0]);
    if begins_with(leaf, "tags/"@) {
        let front = leaf.take(5);
        assert(front[4] == '/');
        assert(leaf[4] == '/');
        if user.len() < 4 {
            assert(front[user.len() as int] == '/');
        } else if user.len() > 4 {
            assert(user.contains(user[4]));
        } else {
            assert forall|i: int| 0 <= i < 4 implies user[i] == "tags"@[i] by {
                assert(front[i] == "tags/"@[i]);
            }
            assert(user =~= "tags"@);
        }
    }
    let leaves = refs.push('/') + "leaves"@;
    assert(join(refs, "leaves"@) == leaves);
    assert(leaves.push('/') + leaf =~= brass_dir + "/"@ + ("refs/leaves/"@ + user + "/"@ + name));
    if begins_with(name, "tags/"@) {
        assert(name.take(5)[4] == '/');
        assert(name.contains(name[4]));
    }
    let heads = refs.push('/') + "heads"@;
    assert(join(refs, "heads"@) == heads);
    assert(heads.push('/') + name =~= brass_dir + "/"@ + ("refs/heads/"@ + name));
    let tags = refs.push('/') + "tags"@;
    assert(join(refs, "tags"@) == tags);
    assert(tags.push('/') + name =~= brass_dir + "/"@ + ("refs/tags/"@ + name));
}

/// `HEAD` names a ref from the control directory on, and by its whole file where
/// the file is not in there.
pub proof fn refs_are_named_from_the_control_directory(brass_dir: Seq<char>, file: Seq<char>)
    ensures
        below(file, brass_dir) matches Some(name) ==> ref_name(brass_dir, file) == name,
        below(file, brass_dir) is None ==> ref_name(brass_dir, file) == file,
{
}

} // verus!
