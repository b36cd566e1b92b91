//! Merging a leaf into the current commit.
use vstd::prelude::*;
use vstd::utf8::encode_utf8;
use crate::blame::{blob_text, read_blob_as_string};
use crate::codec::object_bytes;
use crate::config::{may_write, AccessRule};
use crate::error::BrassError;
use crate::files::{file_keys, file_place, file_views, hash_at, FileEntry, FileMap, FileView};
use crate::hash::object_name;
use crate::history::Step;
use crate::merge::{
    chunks_text, format_merged_chunks, has_conflict, merge, three_way_line_merge,
};
use crate::mode::FileMode;
use crate::object::{
    Blob, BrassObject, Commit, CommitView, ObjectView, Signature, SignatureView, Timestamp, Tree,
    TreeEntry, TreeEntryView,
};
use crate::objects::{is_in_place, LooseObject};
use crate::paths::{components, join, join_paths};
use crate::refs::{read_ref, ref_target};
use crate::repository::Repository;
use crate::store::{extends, ObjectStore};
use crate::text::{
    after_prefix, lemma_position, prefix_and_rest_are_the_text, same_text, views, views_empty,
    views_push,
};
use crate::utf8::bytes_of;

verus! {

/// What a merge of a leaf comes to.
#[derive(Debug, Clone, PartialEq, Eq)]
pub enum LeafMergeResult {
    /// The merge commit.
    Success(String),
    /// The leaf changes a path that the user may not write.
    PermissionDenied { user: String, forbidden_path: String },
    /// Files with conflicts were written to the working tree.
    ConflictInLeaf { path: String },
}

/// A file whose text was merged: it is written to the working tree, and where
/// there is no conflict its blob is written too.
#[derive(Debug, Clone, PartialEq, Eq)]
pub struct MergedFile {
    pub path: String,
    pub text: String,
    pub blob: Option<LooseObject>,
}

/// How a leaf is merged: the files whose texts were merged, in order; the
/// entries of the merged tree; whether there was a conflict; and the path that
/// the user may not write, if the merge stopped there.
#[derive(Debug, Clone, PartialEq, Eq)]
pub struct MergePlan {
    pub files: Vec<MergedFile>,
    pub entries: Vec<TreeEntry>,
    pub conflict: bool,
    pub denied: Option<String>,
}

/// A `MergedFile` as a mathematical value; of the blob, its bytes.
#[verifier::ext_equal]
pub struct MergedView {
    pub path: Seq<char>,
    pub text: Seq<char>,
    pub blob: Option<Seq<u8>>,
}

/// A `MergePlan` as a mathematical value.
#[verifier::ext_equal]
pub struct PlanView {
    pub files: Seq<MergedView>,
    pub entries: Seq<TreeEntryView>,
    pub conflict: bool,
    pub denied: Option<Seq<char>>,
}

impl View for MergedFile {
    type V = MergedView;

    open spec fn view(&self) -> MergedView {
        MergedView {
            path: self.path@,
            text: self.text@,
            blob: match self.blob {
                Some(o) => Some(o.data@),
                None => None,
            },
        }
    }
}

impl View for MergePlan {
    type V = PlanView;

    open spec fn view(&self) -> PlanView {
        PlanView {
            files: self.files@.map_values(|f: MergedFile| f@),
            entries: self.entries@.map_values(|e: TreeEntry| e@),
            conflict: self.conflict,
            denied: match self.denied {
                Some(p) => Some(p@),
                None => None,
            },
        }
    }
}

/// What a merge is made from: the files of the common ancestor, of the current
/// commit and of the leaf; and who merges, under which rules, where.
#[verifier::ext_equal]
pub struct MergeInput {
    pub base: Seq<FileView>,
    pub target: Seq<FileView>,
    pub leaf: Seq<FileView>,
    pub leaf_name: Seq<char>,
    pub rules: Seq<AccessRule>,
    pub user: Seq<char>,
    pub worktree: Seq<char>,
}

/// The plan of a merge of nothing.
pub open spec fn empty_plan() -> PlanView {
    PlanView { files: Seq::empty(), entries: Seq::empty(), conflict: false, denied: None }
}

/// The entries with one more for a path, where there is a hash for it.
pub open spec fn with_entry(
    entries: Seq<TreeEntryView>,
    path: Seq<char>,
    hash: Option<Seq<char>>,
) -> Seq<TreeEntryView> {
    match hash {
        Some(h) => entries.push(TreeEntryView { mode: FileMode::Regular, name: path, hash: h }),
        None => entries,
    }
}

/// The text of the file under a hash, if there is one.
pub open spec fn text_under(m: Map<Seq<char>, Option<ObjectView>>, hash: Option<Seq<char>>) -> Step<
    Seq<char>,
> {
    match hash {
        None => Step::Done(Seq::empty()),
        Some(h) => if m.contains_key(h) {
            Step::Done(blob_text(m[h]))
        } else {
            Step::Need(h)
        },
    }
}

/// The plan with a path at which all three texts differ: the merged text is
/// written, and unless it holds a conflict becomes part of the merged tree.
pub open spec fn merge_texts(
    input: MergeInput,
    plan: PlanView,
    path: Seq<char>,
    base: Seq<char>,
    target: Seq<char>,
    leaf: Seq<char>,
) -> PlanView {
    let chunks = merge(base, target, leaf);
    let text = chunks_text(chunks, input.leaf_name);
    let blob = object_bytes(ObjectView::Blob(encode_utf8(text)));
    let file = join(input.worktree, path);
    if has_conflict(chunks) {
        PlanView {
            files: plan.files.push(MergedView { path: file, text, blob: None }),
            conflict: true,
            ..plan
        }
    } else {
        PlanView {
            files: plan.files.push(MergedView { path: file, text, blob: Some(blob) }),
            entries: with_entry(plan.entries, path, Some(object_name(blob))),
            ..plan
        }
    }
}

/// The plan with one path more. A leaf that changes the path needs the right to
/// write it. A side that did not change gives way to the other; where both
/// changed in different ways the texts are merged.
pub open spec fn merge_path(
    m: Map<Seq<char>, Option<ObjectView>>,
    input: MergeInput,
    plan: PlanView,
    path: Seq<char>,
) -> Step<PlanView> {
    let base = hash_at(input.base, path);
    let target = hash_at(input.target, path);
    let leaf = hash_at(input.leaf, path);
    if leaf != base && !may_write(input.rules, input.user, path) {
        Step::Done(PlanView { denied: Some(path), ..plan })
    } else if target == leaf {
        Step::Done(PlanView { entries: with_entry(plan.entries, path, target), ..plan })
    } else if base == target {
        Step::Done(PlanView { entries: with_entry(plan.entries, path, leaf), ..plan })
    } else if base == leaf {
        Step::Done(PlanView { entries: with_entry(plan.entries, path, target), ..plan })
    } else {
        match (text_under(m, base), text_under(m, target), text_under(m, leaf)) {
            (Step::Done(b), Step::Done(t), Step::Done(l)) => Step::Done(
                merge_texts(input, plan, path, b, t, l),
            ),
            (Step::Need(h), _, _) => Step::Need(h),
            (_, Step::Need(h), _) => Step::Need(h),
            (_, _, Step::Need(h)) => Step::Need(h),
        }
    }
}

/// The plan with some paths more; it goes no further than a path that the user
/// may not write.
pub open spec fn merge_from(
    m: Map<Seq<char>, Option<ObjectView>>,
    input: MergeInput,
    plan: PlanView,
    paths: Seq<Seq<char>>,
) -> Step<PlanView>
    decreases paths.len(),
{
    if paths.len() == 0 || plan.denied is Some {
        Step::Done(plan)
    } else {
        match merge_path(m, input, plan, paths[0]) {
            Step::Need(h) => Step::Need(h),
            Step::Done(next) => merge_from(m, input, next, paths.drop_first()),
        }
    }
}

/// The paths of `files` that are not among `paths` yet, put behind them.
pub open spec fn add_paths(paths: Seq<FileView>, files: Seq<FileView>) -> Seq<FileView>
    decreases files.len(),
{
    if files.len() == 0 {
        paths
    } else {
        let before = add_paths(paths, files.drop_last());
        if file_place(before, files.last().path) < before.len() {
            before
        } else {
            before.push(files.last())
        }
    }
}

/// All paths of the three commits, each once.
pub open spec fn all_paths(
    base: Seq<FileView>,
    target: Seq<FileView>,
    leaf: Seq<FileView>,
) -> Seq<Seq<char>> {
    add_paths(add_paths(add_paths(Seq::empty(), base), target), leaf).map_values(
        |f: FileView| f.path,
    )
}

/// The plan for all paths.
pub open spec fn merge_plan(
    m: Map<Seq<char>, Option<ObjectView>>,
    input: MergeInput,
) -> Step<PlanView> {
    merge_from(m, input, empty_plan(), all_paths(input.base, input.target, input.leaf))
}

// ---------------------------------------------------------------------------

fn push_paths(all: &mut FileMap, files: &FileMap)
    ensures
        final(all)@ == add_paths(old(all)@, files@),
{
    let ghost start = all@;
    let list = files.entries();
    let mut i: usize = 0;
    assert(files@.take(0) =~= Seq::empty());
    while i < list.len()
        invariant
            i <= list@.len(),
            file_views(list@) == files@,
            all@ == add_paths(start, files@.take(i as int)),
        decreases list@.len() - i,
    {
        let f = &list[i];
        assert(files@.take(i + 1).drop_last() =~= files@.take(i as int));
        assert(files@.take(i + 1).last() == f@);
        if all.get(f.path.as_str()).is_none() {
            all.put(f.path.clone(), f.hash.clone(), f.mode);
        }
        i = i + 1;
    }
    assert(files@.take(i as int) =~= files@);
}

/// All paths of three commits, each once.
pub fn union_paths(base: &FileMap, target: &FileMap, leaf: &FileMap) -> (r: Vec<String>)
    ensures
        views(r@) == all_paths(base@, target@, leaf@),
{
    let mut all = FileMap::new();
    push_paths(&mut all, base);
    push_paths(&mut all, target);
    push_paths(&mut all, leaf);
    let ghost want = all_paths(base@, target@, leaf@);
    let list = all.entries();
    let mut out: Vec<String> = Vec::new();
    let mut i: usize = 0;
    assert(views(out@) =~= want.take(0));
    while i < list.len()
        invariant
            i <= list@.len(),
            file_views(list@) == all@,
            want == all@.map_values(|f: FileView| f.path),
            views(out@) == want.take(i as int),
        decreases list@.len() - i,
    {
        let ghost before = views(out@);
        let path = list[i].path.clone();
        out.push(path);
        assert(want[i as int] == file_views(list@)[i as int].path);
        i = i + 1;
        assert(views(out@) =~= before.push(path@));
        assert(views(out@) =~= want.take(i as int));
    }
    assert(want.take(i as int) =~= want);
    out
}

/// A hash, as a mathematical value.
pub open spec fn hash_view(hash: Option<&FileEntry>) -> Option<Seq<char>> {
    match hash {
        Some(f) => Some(f.hash@),
        None => None,
    }
}

fn same_hash(a: Option<&FileEntry>, b: Option<&FileEntry>) -> (r: bool)
    ensures
        r == (hash_view(a) == hash_view(b)),
{
    match (a, b) {
        (Some(x), Some(y)) => same_text(x.hash.as_str(), y.hash.as_str()),
        (None, None) => true,
        _ => false,
    }
}

fn read_text(store: &ObjectStore, file: Option<&FileEntry>) -> (r: Result<String, String>)
    ensures
        text_under(store@, hash_view(file)) == (match r {
            Ok(text) => Step::Done(text@),
            Err(hash) => Step::Need(hash@),
        }),
{
    match file {
        None => Ok(String::new()),
        Some(f) => match store.get(f.hash.as_str()) {
            None => Err(f.hash.clone()),
            Some(answer) => Ok(read_blob_as_string(answer.as_ref())),
        },
    }
}

impl MergePlan {
    fn take(&mut self, path: &str, file: Option<&FileEntry>)
        ensures
            final(self)@ == (PlanView {
                entries: with_entry(old(self)@.entries, path@, hash_view(file)),
                ..old(self)@
            }),
            final(self).files == old(self).files,
    {
        let ghost before = self@.entries;
        if let Some(f) = file {
            let entry = TreeEntry {
                mode: FileMode::Regular,
                name: path.to_owned(),
                hash: f.hash.clone(),
            };
            self.entries.push(entry);
            assert(self@.entries =~= before.push(entry@));
        }
        assert(self@ =~= PlanView {
            entries: with_entry(old(self)@.entries, path@, hash_view(file)),
            ..old(self)@
        });
    }
}

impl Repository {
    /// What a merge is made from.
    pub open spec fn merge_input(
        &self,
        base: Seq<FileView>,
        target: Seq<FileView>,
        leaf: Seq<FileView>,
        leaf_name: Seq<char>,
    ) -> MergeInput {
        MergeInput {
            base,
            target,
            leaf,
            leaf_name,
            rules: self.acl.rules@,
            user: self.config.user_name@,
            worktree: self.worktree@,
        }
    }

    fn merge_three_texts(
        &self,
        plan: &mut MergePlan,
        path: &str,
        texts: (String, String, String),
        leaf_name: &str,
        Ghost(input): Ghost<MergeInput>,
    )
        requires
            input.leaf_name == leaf_name@,
            input.worktree == self.worktree@,
        ensures
            final(plan)@ == merge_texts(
                input,
                old(plan)@,
                path@,
                texts.0@,
                texts.1@,
                texts.2@,
            ),
            blobs_in_place(old(plan).files@, self.brass_dir@) ==> blobs_in_place(
                final(plan).files@,
                self.brass_dir@,
            ),
    {
        let ghost before = plan@;
        let ghost files = plan.files@;
        let chunks = three_way_line_merge(
            texts.0.as_str(),
            texts.1.as_str(),
            texts.2.as_str(),
        );
        let (conflict, text) = format_merged_chunks(&chunks, leaf_name);
        let file = join_paths(self.worktree.as_str(), path);
        if conflict {
            let merged = MergedFile { path: file, text, blob: None };
            plan.files.push(merged);
            plan.conflict = true;
            assert(plan@.files =~= before.files.push(merged@));
        } else {
            let object = self.write_object(
                &BrassObject::Blob(Blob { data: bytes_of(text.as_str()) }),
            );
            let entry = TreeEntry {
                mode: FileMode::Regular,
                name: path.to_owned(),
                hash: object.hash.clone(),
            };
            plan.entries.push(entry);
            assert(plan@.entries =~= before.entries.push(entry@));
            let merged = MergedFile { path: file, text, blob: Some(object) };
            plan.files.push(merged);
            assert(plan@.files =~= before.files.push(merged@));
        }
        assert(plan@ =~= merge_texts(input, before, path@, texts.0@, texts.1@, texts.2@));
    }

    fn merge_one_path(
        &self,
        store: &ObjectStore,
        plan: &mut MergePlan,
        path: &str,
        base: &FileMap,
        target: &FileMap,
        leaf: &FileMap,
        leaf_name: &str,
    ) -> (r: Option<String>)
        ensures
            merge_path(
                store@,
                self.merge_input(base@, target@, leaf@, leaf_name@),
                old(plan)@,
                path@,
            ) == (match r {
                None => Step::Done(final(plan)@),
                Some(hash) => Step::Need(hash@),
            }),
            r is Some ==> *final(plan) == *old(plan),
            blobs_in_place(old(plan).files@, self.brass_dir@) ==> blobs_in_place(
                final(plan).files@,
                self.brass_dir@,
            ),
    {
        let ghost input = self.merge_input(base@, target@, leaf@, leaf_name@);
        let base_file = base.get(path);
        let target_file = target.get(path);
        let leaf_file = leaf.get(path);
        if !same_hash(leaf_file, base_file) && !self.acl.can_write(
            self.config.user_name.as_str(),
            path,
        ) {
            plan.denied = Some(path.to_owned());
            assert(plan@ =~= PlanView { denied: Some(path@), ..old(plan)@ });
            return None;
        }
        if same_hash(target_file, leaf_file) {
            plan.take(path, target_file);
        } else if same_hash(base_file, target_file) {
            plan.take(path, leaf_file);
        } else if same_hash(base_file, leaf_file) {
            plan.take(path, target_file);
        } else {
            let b = match read_text(store, base_file) {
                Ok(text) => text,
                Err(hash) => {
                    return Some(hash);
                },
            };
            let t = match read_text(store, target_file) {
                Ok(text) => text,
                Err(hash) => {
                    return Some(hash);
                },
            };
            let l = match read_text(store, leaf_file) {
                Ok(text) => text,
                Err(hash) => {
                    return Some(hash);
                },
            };
            self.merge_three_texts(plan, path, (b, t, l), leaf_name, Ghost(input));
        }
        None
    }
}

/// Whether the blobs of merged files are named and kept as their bytes say.
pub open spec fn blobs_in_place(files: Seq<MergedFile>, brass_dir: Seq<char>) -> bool {
    forall|i: int|
        0 <= i < files.len() ==> match (#[trigger] files[i]).blob {
            Some(o) => is_in_place(o, brass_dir),
            None => true,
        }
}

/// The merging of a leaf, path by path.
pub struct LeafMerge {
    pub base: FileMap,
    pub target: FileMap,
    pub leaf: FileMap,
    pub leaf_name: String,
    /// All paths of the three commits.
    pub paths: Vec<String>,
    /// How many of them have been merged.
    pub next: usize,
    pub plan: MergePlan,
}

impl LeafMerge {
    /// What the merge will come to from where it stands.
    pub open spec fn outcome(
        &self,
        repo: Repository,
        m: Map<Seq<char>, Option<ObjectView>>,
    ) -> Step<PlanView> {
        merge_from(
            m,
            repo.merge_input(self.base@, self.target@, self.leaf@, self.leaf_name@),
            self.plan@,
            views(self.paths@).skip(self.next as int),
        )
    }

    /// Whether the merge stands at one of its paths or at their end.
    pub open spec fn is_valid(&self) -> bool {
        self.next <= self.paths@.len()
    }

    /// The merge of a leaf, given the files of the common ancestor, of the
    /// current commit and of the leaf.
    pub fn new(base: FileMap, target: FileMap, leaf: FileMap, leaf_name: &str) -> (r: LeafMerge)
        ensures
            r.is_valid(),
            r.plan.files@.len() == 0,
            forall|repo: Repository, m: Map<Seq<char>, Option<ObjectView>>| #[trigger]
                r.outcome(repo, m) == merge_plan(
                    m,
                    repo.merge_input(base@, target@, leaf@, leaf_name@),
                ),
    {
        let paths = union_paths(&base, &target, &leaf);
        let plan = MergePlan {
            files: Vec::new(),
            entries: Vec::new(),
            conflict: false,
            denied: None,
        };
        assert(plan@ =~= empty_plan());
        assert(views(paths@).skip(0) =~= views(paths@));
        LeafMerge { base, target, leaf, leaf_name: leaf_name.to_owned(), paths, next: 0, plan }
    }

    /// Goes on as far as the known objects allow: gives the hash that has to be
    /// looked up next, or nothing when the plan is complete.
    pub fn advance(&mut self, repo: &Repository, store: &ObjectStore) -> (r: Option<String>)
        requires
            old(self).is_valid(),
        ensures
            final(self).is_valid(),
            old(self).outcome(*repo, store@) == (match r {
                Some(hash) => Step::Need(hash@),
                None => Step::Done(final(self).plan@),
            }),
            blobs_in_place(old(self).plan.files@, repo.brass_dir@) ==> blobs_in_place(
                final(self).plan.files@,
                repo.brass_dir@,
            ),
            forall|m: Map<Seq<char>, Option<ObjectView>>| #[trigger]
                extends(m, store@) ==> old(self).outcome(*repo, m) == (match r {
                    Some(_) => final(self).outcome(*repo, m),
                    None => Step::Done(final(self).plan@),
                }),
    {
        store.finite();
        let ghost known = store@;
        let ghost input = repo.merge_input(
            self.base@,
            self.target@,
            self.leaf@,
            self.leaf_name@,
        );
        let ghost all = views(self.paths@);
        while self.next < self.paths.len() && self.plan.denied.is_none()
            invariant
                known == store@,
                extends(known, known),
                self.is_valid(),
                all == views(self.paths@),
                input == repo.merge_input(
                    self.base@,
                    self.target@,
                    self.leaf@,
                    self.leaf_name@,
                ),
                blobs_in_place(old(self).plan.files@, repo.brass_dir@) ==> blobs_in_place(
                    self.plan.files@,
                    repo.brass_dir@,
                ),
                forall|m: Map<Seq<char>, Option<ObjectView>>| #[trigger]
                    extends(m, known) ==> old(self).outcome(*repo, m) == self.outcome(*repo, m),
            decreases self.paths@.len() - self.next,
        {
            let ghost before = *self;
            let ghost rest = all.skip(self.next as int);
            assert(rest[0] == self.paths@[self.next as int]@);
            assert(rest.drop_first() =~= all.skip(self.next + 1));
            let needed = repo.merge_one_path(
                store,
                &mut self.plan,
                self.paths[self.next].as_str(),
                &self.base,
                &self.target,
                &self.leaf,
                self.leaf_name.as_str(),
            );
            if needed.is_some() {
                assert(old(self).outcome(*repo, known) == before.outcome(*repo, known));
                return needed;
            }
            self.next = self.next + 1;
            proof {
                lemma_merge_path_stable(known, input, before.plan@, rest[0]);
                assert forall|m: Map<Seq<char>, Option<ObjectView>>| #[trigger]
                    extends(m, known) implies before.outcome(*repo, m) == self.outcome(
                    *repo,
                    m,
                ) by {
                    assert(merge_path(m, input, before.plan@, rest[0]) == merge_path(
                        known,
                        input,
                        before.plan@,
                        rest[0],
                    ));
                }
            }
        }
        None
    }
}

proof fn lemma_merge_path_stable(
    m: Map<Seq<char>, Option<ObjectView>>,
    input: MergeInput,
    plan: PlanView,
    path: Seq<char>,
)
    requires
        merge_path(m, input, plan, path) is Done,
    ensures
        forall|more: Map<Seq<char>, Option<ObjectView>>| #[trigger]
            extends(more, m) ==> merge_path(more, input, plan, path) == merge_path(
                m,
                input,
                plan,
                path,
            ),
{
    let base = hash_at(input.base, path);
    let target = hash_at(input.target, path);
    let leaf = hash_at(input.leaf, path);
    assert forall|more: Map<Seq<char>, Option<ObjectView>>| #[trigger]
        extends(more, m) implies merge_path(more, input, plan, path) == merge_path(
        m,
        input,
        plan,
        path,
    ) by {
        lemma_text_stable(m, more, base);
        lemma_text_stable(m, more, target);
        lemma_text_stable(m, more, leaf);
    }
}

proof fn lemma_text_stable(
    m: Map<Seq<char>, Option<ObjectView>>,
    more: Map<Seq<char>, Option<ObjectView>>,
    hash: Option<Seq<char>>,
)
    requires
        extends(more, m),
    ensures
        text_under(m, hash) is Done ==> text_under(more, hash) == text_under(m, hash),
{
    if let Some(h) = hash {
        if m.contains_key(h) {
            assert(m.dom().contains(h));
            assert(more[h] == m[h]);
        }
    }
}

/// The commit that a leaf names, given the content of its ref, if there is one.
pub fn leaf_commit(ref_content: Option<&str>) -> (r: Result<String, BrassError>)
    ensures
        match ref_content {
            Some(text) => r matches Ok(hash) && hash@ == ref_target(text@),
            None => r == Err::<String, BrassError>(BrassError::LeafMissing),
        },
{
    match ref_content {
        Some(text) => Ok(read_ref(text)),
        None => Err(BrassError::LeafMissing),
    }
}

/// The message of a merge commit.
pub open spec fn merge_message(leaf_name: Seq<char>) -> Seq<char> {
    "Merge leaf '"@ + leaf_name + "' into target"@
}

impl Repository {
    /// What a merge comes to where it ends without a commit: the user may not
    /// write a path that the leaf changes, or there was a conflict.
    pub fn merge_refusal(&self, plan: &MergePlan) -> (r: Option<LeafMergeResult>)
        ensures
            match plan@.denied {
                Some(path) => r matches Some(
                    LeafMergeResult::PermissionDenied { user, forbidden_path },
                ) && user@ == self.config.user_name@ && forbidden_path@ == path,
                None => if plan.conflict {
                    r matches Some(LeafMergeResult::ConflictInLeaf { path }) && path@
                        == "Pliki z konfliktami zapisano na dysku"@
                } else {
                    r is None
                },
            },
    {
        match &plan.denied {
            Some(path) => Some(
                LeafMergeResult::PermissionDenied {
                    user: self.config.user_name.clone(),
                    forbidden_path: path.clone(),
                },
            ),
            None => {
                if plan.conflict {
                    Some(
                        LeafMergeResult::ConflictInLeaf {
                            path: "Pliki z konfliktami zapisano na dysku".to_owned(),
                        },
                    )
                } else {
                    None
                }
            },
        }
    }

    /// The tree and the commit of a merge; its parents are the current commit
    /// and the leaf.
    pub fn merge_commit(
        &self,
        entries: Vec<TreeEntry>,
        target: &str,
        leaf: &str,
        leaf_name: &str,
        now: Timestamp,
    ) -> (r: (LooseObject, LooseObject))
        ensures
            r.0.data@ == object_bytes(
                ObjectView::Tree(entries@.map_values(|e: TreeEntry| e@)),
            ),
            is_in_place(r.0, self.brass_dir@),
            ({
                let by = SignatureView {
                    name: self.config.user_name@,
                    email: self.config.user_email@,
                    timestamp: now,
                };
                r.1.data@ == object_bytes(
                    ObjectView::Commit(
                        CommitView {
                            tree_hash: r.0.hash@,
                            parent_hashes: seq![target@, leaf@],
                            author: by,
                            committer: by,
                            message: merge_message(leaf_name@),
                        },
                    ),
                )
            }),
            is_in_place(r.1, self.brass_dir@),
    {
        broadcast use {views_empty, views_push};

        let tree = Tree { entries };
        let tree_object = self.write_object(&BrassObject::Tree(tree));
        let author = Signature {
            name: self.config.user_name.clone(),
            email: self.config.user_email.clone(),
            timestamp: now,
        };
        let committer = author.copy();
        let mut parent_hashes: Vec<String> = Vec::new();
        parent_hashes.push(target.to_owned());
        parent_hashes.push(leaf.to_owned());
        assert(views(parent_hashes@) =~= seq![target@, leaf@]);
        let mut message = "Merge leaf '".to_owned();
        message.append(leaf_name);
        message.append("' into target");
        let commit_object = self.write_object(
            &BrassObject::Commit(
                Commit {
                    tree_hash: tree_object.hash.clone(),
                    parent_hashes,
                    author,
                    committer,
                    message,
                },
            ),
        );
        (tree_object, commit_object)
    }
}

// ---------------------------------------------------------------------------
// Laws

/// A leaf is never merged past the access rules: a plan that was not stopped
/// changes no path that the user may not write, and a plan that was stopped
/// names a path that the leaf changes and the user may not write.
pub proof fn merge_respects_access(
    m: Map<Seq<char>, Option<ObjectView>>,
    input: MergeInput,
    plan: PlanView,
    paths: Seq<Seq<char>>,
)
    requires
        plan.denied is None,
        merge_from(m, input, plan, paths) is Done,
    ensures
        match merge_from(m, input, plan, paths)->Done_0.denied {
            None => forall|i: int|
                0 <= i < paths.len() ==> hash_at(input.leaf, #[trigger] paths[i]) == hash_at(
                    input.base,
                    paths[i],
                ) || may_write(input.rules, input.user, paths[i]),
            Some(p) => hash_at(input.leaf, p) != hash_at(input.base, p) && !may_write(
                input.rules,
                input.user,
                p,
            ),
        },
    decreases paths.len(),
{
    if paths.len() > 0 {
        if let Step::Done(next) = merge_path(m, input, plan, paths[0]) {
            let rest = paths.drop_first();
            if next.denied is None {
                merge_respects_access(m, input, next, rest);
                assert forall|i: int|
                    0 <= i < paths.len() && merge_from(
                        m,
                        input,
                        plan,
                        paths,
                    )->Done_0.denied is None implies hash_at(input.leaf, #[trigger] paths[i])
                    == hash_at(input.base, paths[i]) || may_write(
                    input.rules,
                    input.user,
                    paths[i],
                ) by {
                    if i > 0 {
                        assert(rest[i - 1] == paths[i]);
                    }
                }
            }
        }
    }
}

/// Where the leaf did not change a path since the common ancestor, the merged
/// tree has the path as the current commit has it; where the current commit did
/// not change it, as the leaf has it. No text is merged for such a path.
pub proof fn unchanged_side_gives_way(
    m: Map<Seq<char>, Option<ObjectView>>,
    input: MergeInput,
    plan: PlanView,
    path: Seq<char>,
)
    requires
        hash_at(input.leaf, path) == hash_at(input.base, path) || may_write(
            input.rules,
            input.user,
            path,
        ),
    ensures
        hash_at(input.leaf, path) == hash_at(input.base, path) ==> merge_path(m, input, plan, path)
            == Step::Done(
            PlanView {
                entries: with_entry(plan.entries, path, hash_at(input.target, path)),
                ..plan
            },
        ),
        hash_at(input.target, path) == hash_at(input.base, path) ==> merge_path(
            m,
            input,
            plan,
            path,
        ) == Step::Done(
            PlanView {
                entries: with_entry(plan.entries, path, hash_at(input.leaf, path)),
                ..plan
            },
        ),
{
}

proof fn lemma_add_paths(paths: Seq<FileView>, files: Seq<FileView>)
    requires
        file_keys(paths).no_duplicates(),
    ensures
        file_keys(add_paths(paths, files)).no_duplicates(),
        forall|k: Seq<Seq<char>>| #[trigger]
            file_keys(add_paths(paths, files)).contains(k) <==> file_keys(paths).contains(k)
                || file_keys(files).contains(k),
    decreases files.len(),
{
    let all = add_paths(paths, files);
    if files.len() == 0 {
        assert(file_keys(files) =~= Seq::empty());
    } else {
        let less = files.drop_last();
        let before = add_paths(paths, less);
        let last = files.last();
        let key = components(last.path);
        lemma_add_paths(paths, less);
        lemma_position(file_keys(before), key);
        assert(file_keys(files) =~= file_keys(less).push(key));
        if file_place(before, last.path) < before.len() {
        } else {
            assert(file_keys(all) =~= file_keys(before).push(key));
            assert forall|i: int| 0 <= i < before.len() implies file_keys(before)[i] != key by {
                assert(file_keys(before).contains(file_keys(before)[i]));
            }
        }
        assert forall|k: Seq<Seq<char>>| #[trigger] file_keys(all).contains(k) <==> file_keys(
            paths,
        ).contains(k) || file_keys(files).contains(k) by {
            lemma_push_contains(file_keys(less), key, k);
            lemma_push_contains(file_keys(before), key, k);
        }
    }
}

proof fn lemma_push_contains<T>(s: Seq<T>, x: T, k: T)
    ensures
        s.push(x).contains(k) <==> s.contains(k) || k == x,
{
    if s.contains(k) {
        let i = choose|i: int| 0 <= i < s.len() && s[i] == k;
        assert(s.push(x)[i] == k);
    }
    if k == x {
        assert(s.push(x)[s.len() as int] == k);
    }
    if s.push(x).contains(k) {
        let i = choose|i: int| 0 <= i < s.push(x).len() && s.push(x)[i] == k;
        if i < s.len() {
            assert(s[i] == k);
        }
    }
}

/// Paths, each as its components.
pub open spec fn path_keys(paths: Seq<Seq<char>>) -> Seq<Seq<Seq<char>>> {
    paths.map_values(|p: Seq<char>| components(p))
}

/// A merge looks at every path of the three commits, and at each once.
pub proof fn merge_looks_at_every_path(
    base: Seq<FileView>,
    target: Seq<FileView>,
    leaf: Seq<FileView>,
)
    ensures
        path_keys(all_paths(base, target, leaf)).no_duplicates(),
        forall|k: Seq<Seq<char>>| #[trigger]
            path_keys(all_paths(base, target, leaf)).contains(k)
                <==> file_keys(base).contains(k) || file_keys(target).contains(k) || file_keys(
                leaf,
            ).contains(k),
{
    let none = Seq::<FileView>::empty();
    let a = add_paths(none, base);
    let b = add_paths(a, target);
    let c = add_paths(b, leaf);
    assert(file_keys(none) =~= Seq::empty());
    lemma_add_paths(none, base);
    lemma_add_paths(a, target);
    lemma_add_paths(b, leaf);
    assert(path_keys(all_paths(base, target, leaf)) =~= file_keys(c));
}

/// The names of the entries of a tree, each as the components of a path.
pub open spec fn entry_keys(entries: Seq<TreeEntryView>) -> Seq<Seq<Seq<char>>> {
    entries.map_values(|e: TreeEntryView| components(e.name))
}

proof fn lemma_with_entry(entries: Seq<TreeEntryView>, path: Seq<char>, hash: Option<Seq<char>>)
    requires
        entry_keys(entries).no_duplicates(),
        !entry_keys(entries).contains(components(path)),
    ensures
        entry_keys(with_entry(entries, path, hash)).no_duplicates(),
        forall|k: Seq<Seq<char>>| #[trigger]
            entry_keys(with_entry(entries, path, hash)).contains(k) ==> entry_keys(
                entries,
            ).contains(k) || k == components(path),
{
    let ks = entry_keys(entries);
    let key = components(path);
    if hash is Some {
        assert(entry_keys(with_entry(entries, path, hash)) =~= ks.push(key));
        assert forall|i: int| 0 <= i < ks.len() implies ks[i] != key by {
            assert(ks.contains(ks[i]));
        }
        assert forall|k: Seq<Seq<char>>| #[trigger] ks.push(key).contains(k) implies ks.contains(
            k,
        ) || k == key by {
            lemma_push_contains(ks, key, k);
        }
    }
}

/// The merged tree has at most one entry for each path.
pub proof fn merged_tree_has_each_path_once(
    m: Map<Seq<char>, Option<ObjectView>>,
    input: MergeInput,
    plan: PlanView,
    paths: Seq<Seq<char>>,
)
    requires
        path_keys(paths).no_duplicates(),
        entry_keys(plan.entries).no_duplicates(),
        forall|i: int|
            0 <= i < paths.len() ==> !entry_keys(plan.entries).contains(
                components(#[trigger] paths[i]),
            ),
        merge_from(m, input, plan, paths) is Done,
    ensures
        entry_keys(merge_from(m, input, plan, paths)->Done_0.entries).no_duplicates(),
    decreases paths.len(),
{
    if paths.len() > 0 && plan.denied is None {
        if let Step::Done(next) = merge_path(m, input, plan, paths[0]) {
            let rest = paths.drop_first();
            let key = components(paths[0]);
            assert(!entry_keys(plan.entries).contains(components(paths[0])));
            let base = hash_at(input.base, paths[0]);
            let target = hash_at(input.target, paths[0]);
            let leaf = hash_at(input.leaf, paths[0]);
            lemma_with_entry(plan.entries, paths[0], target);
            lemma_with_entry(plan.entries, paths[0], leaf);
            if let (Step::Done(b), Step::Done(t), Step::Done(l)) = (
                text_under(m, base),
                text_under(m, target),
                text_under(m, leaf),
            ) {
                let text = chunks_text(merge(b, t, l), input.leaf_name);
                let blob = object_bytes(ObjectView::Blob(encode_utf8(text)));
                lemma_with_entry(plan.entries, paths[0], Some(object_name(blob)));
            }
            assert(path_keys(rest) =~= path_keys(paths).drop_first());
            assert forall|i: int| 0 <= i < rest.len() implies !entry_keys(next.entries).contains(
                components(#[trigger] rest[i]),
            ) by {
                assert(rest[i] == paths[i + 1]);
                assert(!entry_keys(plan.entries).contains(components(paths[i + 1])));
                assert(path_keys(paths)[0] == key);
                assert(path_keys(paths)[i + 1] == components(rest[i]));
            }
            merged_tree_has_each_path_once(m, input, next, rest);
        }
    }
}

proof fn lemma_add_all_paths(paths: Seq<FileView>, a: Seq<FileView>, b: Seq<FileView>)
    ensures
        add_paths(paths, a + b) == add_paths(add_paths(paths, a), b),
    decreases b.len(),
{
    if b.len() == 0 {
        assert(a + b =~= a);
    } else {
        lemma_add_all_paths(paths, a, b.drop_last());
        assert((a + b).drop_last() =~= a + b.drop_last());
    }
}

/// Whether a file is the first of its path among others.
pub open spec fn is_first_of_its_path(files: Seq<FileView>, i: int) -> bool {
    forall|j: int|
        0 <= j < i ==> components((#[trigger] files[j]).path) != components(files[i].path)
}

proof fn lemma_first_paths(files: Seq<FileView>) -> (at: Seq<int>)
    ensures
        at.len() == add_paths(Seq::empty(), files).len(),
        forall|k: int|
            0 <= k < at.len() ==> 0 <= #[trigger] at[k] < files.len() && add_paths(
                Seq::empty(),
                files,
            )[k] == files[at[k]],
        forall|k: int, l: int| 0 <= k < l < at.len() ==> #[trigger] at[k] < #[trigger] at[l],
        forall|i: int|
            0 <= i < files.len() ==> (at.contains(i) <==> #[trigger] is_first_of_its_path(
                files,
                i,
            )),
    decreases files.len(),
{
    let none = Seq::<FileView>::empty();
    if files.len() == 0 {
        Seq::empty()
    } else {
        let less = files.drop_last();
        let n = less.len() as int;
        let before = add_paths(none, less);
        let all = add_paths(none, files);
        let was = lemma_first_paths(less);
        let key = components(files.last().path);
        assert(file_keys(none) =~= Seq::empty());
        lemma_add_paths(none, less);
        lemma_position(file_keys(before), key);
        let found = file_place(before, files.last().path) < before.len();
        let at = if found {
            was
        } else {
            was.push(n)
        };
        assert forall|k: int| 0 <= k < at.len() implies 0 <= #[trigger] at[k] < files.len()
            && all[k] == files[at[k]] by {
            if k < was.len() {
                assert(at[k] == was[k]);
                assert(before[k] == less[was[k]]);
            }
        }
        assert(found <==> !is_first_of_its_path(files, n)) by {
            if found {
                assert(file_keys(less).contains(key));
                let j = choose|j: int| 0 <= j < less.len() && file_keys(less)[j] == key;
                assert(components(files[j].path) == key);
            }
            if !is_first_of_its_path(files, n) {
                let j = choose|j: int|
                    0 <= j < n && components((#[trigger] files[j]).path) == components(
                        files[n].path,
                    );
                assert(file_keys(less)[j] == key);
                assert(file_keys(before).contains(key));
            }
        }
        assert forall|i: int| 0 <= i < files.len() implies (at.contains(i)
            <==> #[trigger] is_first_of_its_path(files, i)) by {
            if i < n {
                assert(is_first_of_its_path(files, i) <==> is_first_of_its_path(less, i)) by {
                    assert forall|j: int| 0 <= j < i implies (#[trigger] files[j]) == less[j] by {}
                    assert(files[i] == less[i]);
                }
                lemma_push_contains(was, n, i);
            } else {
                lemma_push_contains(was, n, i);
                if was.contains(n) {
                    let k = choose|k: int| 0 <= k < was.len() && was[k] == n;
                    assert(was[k] < less.len());
                }
            }
        }
        at
    }
}

/// A merge takes the paths in order: those of the common ancestor, of the current
/// commit and of the leaf, each where it comes first.
pub proof fn paths_are_taken_in_order(
    base: Seq<FileView>,
    target: Seq<FileView>,
    leaf: Seq<FileView>,
) -> (at: Seq<int>)
    ensures
        ({
            let files = base + target + leaf;
            let paths = all_paths(base, target, leaf);
            &&& at.len() == paths.len()
            &&& forall|k: int|
                0 <= k < at.len() ==> 0 <= #[trigger] at[k] < files.len() && paths[k]
                    == files[at[k]].path
            &&& forall|k: int, l: int|
                0 <= k < l < at.len() ==> #[trigger] at[k] < #[trigger] at[l]
            &&& forall|i: int|
                0 <= i < files.len() ==> (at.contains(i) <==> #[trigger] is_first_of_its_path(
                    files,
                    i,
                ))
        }),
{
    let none = Seq::<FileView>::empty();
    lemma_add_all_paths(none, base, target);
    lemma_add_all_paths(none, base + target, leaf);
    lemma_first_paths(base + target + leaf)
}

/// Whether a path stops a merge: the leaf changes it, and the user may not write
/// it.
pub open spec fn is_stopped_by(input: MergeInput, path: Seq<char>) -> bool {
    hash_at(input.leaf, path) != hash_at(input.base, path) && !may_write(
        input.rules,
        input.user,
        path,
    )
}

/// A merge that is stopped is stopped by the first path that stops it; one that
/// is not has none.
pub proof fn merge_is_stopped_by_the_first(
    m: Map<Seq<char>, Option<ObjectView>>,
    input: MergeInput,
    plan: PlanView,
    paths: Seq<Seq<char>>,
) -> (k: int)
    requires
        plan.denied is None,
        merge_from(m, input, plan, paths) is Done,
    ensures
        0 <= k <= paths.len(),
        forall|j: int| 0 <= j < k ==> !is_stopped_by(input, #[trigger] paths[j]),
        k < paths.len() ==> is_stopped_by(input, paths[k]),
        merge_from(m, input, plan, paths)->Done_0.denied == (if k < paths.len() {
            Some(paths[k])
        } else {
            None
        }),
    decreases paths.len(),
{
    if paths.len() == 0 {
        0
    } else {
        let rest = paths.drop_first();
        let next = merge_path(m, input, plan, paths[0])->Done_0;
        if is_stopped_by(input, paths[0]) {
            assert(merge_from(m, input, next, rest) == Step::Done(next));
            0
        } else {
            let k = merge_is_stopped_by_the_first(m, input, next, rest);
            assert forall|j: int| 0 <= j < k + 1 implies !is_stopped_by(
                input,
                #[trigger] paths[j],
            ) by {
                if j > 0 {
                    assert(paths[j] == rest[j - 1]);
                }
            }
            if k + 1 < paths.len() {
                assert(paths[k + 1] == rest[k]);
            }
            k + 1
        }
    }
}

/// The message of a merge names the leaf, whatever its name is.
pub proof fn merge_message_names_the_leaf(leaf_name: Seq<char>)
    ensures
        after_prefix(merge_message(leaf_name), "Merge leaf '"@) == Some(
            leaf_name + "' into target"@,
        ),
{
    let text = merge_message(leaf_name);
    let rest = leaf_name + "' into target"@;
    assert(text =~= "Merge leaf '"@ + rest);
    prefix_and_rest_are_the_text(text, "Merge leaf '"@, rest);
}

} // verus!
