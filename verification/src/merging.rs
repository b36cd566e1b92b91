//! The merge of a leaf, from the two commits on.
use vstd::prelude::*;
use vstd::utf8::encode_utf8;
use crate::codec::object_bytes;
use crate::error::BrassError;
use crate::files::{
    commit_files, commit_files_are_stable, commit_files_need_the_unknown, entry_files, file_at,
    file_keys, file_place, flat_tree_has_its_entries, flatten_tree_from_commit, has_entries,
    hash_at, FileMap, FileView, Halt,
};
use crate::hash::object_name;
use crate::history::{closure, closure_is_closed, links, Step};
use crate::lca::{lca, lca_needs_the_unknown, lca_of_ancestor, LcaSearch, LcaStep};
use crate::leaf::{
    all_paths, blobs_in_place, empty_plan, entry_keys, leaf_commit, merge_from,
    merge_looks_at_every_path, merge_path, merge_plan, merged_tree_has_each_path_once, path_keys,
    unchanged_side_gives_way, with_entry, LeafMerge, MergeInput, MergePlan, MergedFile, MergedView,
    PlanView,
};
use crate::merge::{chunks_text, has_conflict, merge};
use crate::mode::FileMode;
use crate::object::{CommitView, ObjectView, TreeEntryView};
use crate::paths::{components, join};
use crate::refs::ref_target;
use crate::repository::Repository;
use crate::store::{extends, ObjectStore};
use crate::text::{lemma_position, lemma_position_is, position};
use crate::utf8::lossy_text;

verus! {

/// What a merge comes to: its plan, or why there is none.
pub open spec fn planned(step: Step<PlanView>) -> Step<Result<PlanView, BrassError>> {
    match step {
        Step::Need(h) => Step::Need(h),
        Step::Done(plan) => Step::Done(Ok(plan)),
    }
}

/// The merge of a leaf, given the files of the common ancestor and of the
/// current commit.
pub open spec fn merge_into(
    m: Map<Seq<char>, Option<ObjectView>>,
    repo: Repository,
    base: Seq<FileView>,
    target: Seq<FileView>,
    leaf: Seq<char>,
    leaf_name: Seq<char>,
) -> Step<Result<PlanView, BrassError>> {
    match commit_files(m, leaf) {
        Step::Need(h) => Step::Need(h),
        Step::Done(Err(e)) => Step::Done(Err(e)),
        Step::Done(Ok(files)) => planned(
            merge_plan(m, repo.merge_input(base, target, files, leaf_name)),
        ),
    }
}

/// The merge of a leaf into a commit, given the files of the common ancestor.
pub open spec fn merge_onto(
    m: Map<Seq<char>, Option<ObjectView>>,
    repo: Repository,
    base: Seq<FileView>,
    head: Seq<char>,
    leaf: Seq<char>,
    leaf_name: Seq<char>,
) -> Step<Result<PlanView, BrassError>> {
    match commit_files(m, head) {
        Step::Need(h) => Step::Need(h),
        Step::Done(Err(e)) => Step::Done(Err(e)),
        Step::Done(Ok(files)) => merge_into(m, repo, base, files, leaf, leaf_name),
    }
}

/// The merge of a leaf into a commit, given their common ancestor.
pub open spec fn merge_since(
    m: Map<Seq<char>, Option<ObjectView>>,
    repo: Repository,
    base: Seq<char>,
    head: Seq<char>,
    leaf: Seq<char>,
    leaf_name: Seq<char>,
) -> Step<Result<PlanView, BrassError>> {
    match commit_files(m, base) {
        Step::Need(h) => Step::Need(h),
        Step::Done(Err(e)) => Step::Done(Err(e)),
        Step::Done(Ok(files)) => merge_onto(m, repo, files, head, leaf, leaf_name),
    }
}

/// The merge of a leaf into a commit, given what the search for their common
/// ancestor comes to.
pub open spec fn merge_found(
    m: Map<Seq<char>, Option<ObjectView>>,
    repo: Repository,
    found: Step<Option<Seq<char>>>,
    head: Seq<char>,
    leaf: Seq<char>,
    leaf_name: Seq<char>,
) -> Step<Result<PlanView, BrassError>> {
    match found {
        Step::Need(h) => Step::Need(h),
        Step::Done(None) => Step::Done(Err(BrassError::NoCommonAncestor)),
        Step::Done(Some(base)) => merge_since(m, repo, base, head, leaf, leaf_name),
    }
}

/// The merge of a leaf into the current commit: the files of both are compared
/// with those of their common ancestor.
pub open spec fn merge_of(
    m: Map<Seq<char>, Option<ObjectView>>,
    repo: Repository,
    head: Seq<char>,
    leaf: Seq<char>,
    leaf_name: Seq<char>,
) -> Step<Result<PlanView, BrassError>> {
    merge_found(m, repo, lca(m, head, leaf), head, leaf, leaf_name)
}

/// How far a merge has come, as a step of the walk.
pub open spec fn merge_step(r: Result<MergePlan, Halt>) -> Step<Result<PlanView, BrassError>> {
    match r {
        Ok(plan) => Step::Done(Ok(plan@)),
        Err(Halt::Need(hash)) => Step::Need(hash@),
        Err(Halt::Failed(e)) => Step::Done(Err(e)),
    }
}

/// The merge of a leaf into the current commit, object by object.
pub struct MergeWalk {
    /// The current commit.
    pub head: String,
    /// The commit of the leaf.
    pub leaf: String,
    pub leaf_name: String,
    /// The search for their common ancestor.
    pub search: LcaSearch,
    /// The common ancestor, once it was found.
    pub base_commit: Option<String>,
    /// Its files, once they are known.
    pub base: Option<FileMap>,
    /// The files of the current commit, once they are known.
    pub target: Option<FileMap>,
    /// The merge of the files, once all of them are known.
    pub merge: Option<LeafMerge>,
}

impl MergeWalk {
    /// What the merge will come to from where it stands.
    pub open spec fn outcome(
        &self,
        repo: Repository,
        m: Map<Seq<char>, Option<ObjectView>>,
    ) -> Step<Result<PlanView, BrassError>> {
        match (self.merge, self.base_commit, self.base, self.target) {
            (Some(merge), _, _, _) => planned(merge.outcome(repo, m)),
            (None, None, _, _) => merge_found(
                m,
                repo,
                self.search.outcome(m),
                self.head@,
                self.leaf@,
                self.leaf_name@,
            ),
            (None, Some(base), None, _) => merge_since(
                m,
                repo,
                base@,
                self.head@,
                self.leaf@,
                self.leaf_name@,
            ),
            (None, Some(_), Some(base), None) => merge_onto(
                m,
                repo,
                base@,
                self.head@,
                self.leaf@,
                self.leaf_name@,
            ),
            (None, Some(_), Some(base), Some(target)) => merge_into(
                m,
                repo,
                base@,
                target@,
                self.leaf@,
                self.leaf_name@,
            ),
        }
    }

    /// The files that have been merged so far.
    pub open spec fn merged(&self) -> Seq<MergedFile> {
        match self.merge {
            Some(merge) => merge.plan.files@,
            None => Seq::empty(),
        }
    }

    /// Whether the walks that the merge is made of stand where they can.
    pub open spec fn is_valid(&self) -> bool {
        self.search.is_valid() && (self.merge matches Some(merge) ==> merge.is_valid())
    }

    /// The merge of the commit of a leaf into the current commit.
    pub fn new(head: &str, leaf: &str, leaf_name: &str) -> (r: MergeWalk)
        ensures
            r.is_valid(),
            r.head@ == head@,
            r.leaf@ == leaf@,
            r.merged().len() == 0,
            forall|repo: Repository, m: Map<Seq<char>, Option<ObjectView>>| #[trigger]
                r.outcome(repo, m) == merge_of(m, repo, head@, leaf@, leaf_name@),
    {
        MergeWalk {
            head: head.to_owned(),
            leaf: leaf.to_owned(),
            leaf_name: leaf_name.to_owned(),
            search: LcaSearch::new(head, leaf),
            base_commit: None,
            base: None,
            target: None,
            merge: None,
        }
    }

    /// Goes on to the merge of the files, as far as the known objects allow.
    fn gather(&mut self, store: &ObjectStore) -> (r: Result<LeafMerge, Halt>)
        requires
            old(self).is_valid(),
        ensures
            final(self).is_valid(),
            final(self).head == old(self).head,
            final(self).leaf == old(self).leaf,
            final(self).leaf_name == old(self).leaf_name,
            match r {
                Ok(merge) => merge.is_valid() && merge.plan.files@ == old(self).merged(),
                Err(h) => final(self).merged() == old(self).merged() && forall|repo: Repository|
                    #[trigger]
                    old(self).outcome(repo, store@) == merge_step(Err(h)),
            },
            forall|repo: Repository, m: Map<Seq<char>, Option<ObjectView>>|
                extends(m, store@) ==> #[trigger] old(self).outcome(repo, m) == (match r {
                    Ok(merge) => planned(merge.outcome(repo, m)),
                    Err(Halt::Need(_)) => final(self).outcome(repo, m),
                    Err(h) => merge_step(Err(h)),
                }),
    {
        store.finite();
        if let Some(merge) = self.merge.take() {
            return Ok(merge);
        }
        let commit = match self.base_commit.take() {
            Some(commit) => commit,
            None => {
                self.base = None;
                match self.search.advance(store) {
                    LcaStep::Need(hash) => {
                        return Err(Halt::Need(hash));
                    },
                    LcaStep::NoneFound => {
                        return Err(Halt::Failed(BrassError::NoCommonAncestor));
                    },
                    LcaStep::Found(hash) => hash,
                }
            },
        };
        proof {
            lemma_stable(store@, commit@);
            lemma_stable(store@, self.head@);
            lemma_stable(store@, self.leaf@);
        }
        let base = match self.base.take() {
            Some(base) => base,
            None => {
                self.target = None;
                match flatten_tree_from_commit(store, commit.as_str()) {
                    Ok(base) => base,
                    Err(h) => {
                        self.base_commit = Some(commit);
                        return Err(h);
                    },
                }
            },
        };
        let target = match self.target.take() {
            Some(target) => target,
            None => match flatten_tree_from_commit(store, self.head.as_str()) {
                Ok(target) => target,
                Err(h) => {
                    self.base_commit = Some(commit);
                    self.base = Some(base);
                    return Err(h);
                },
            },
        };
        match flatten_tree_from_commit(store, self.leaf.as_str()) {
            Ok(leaf) => Ok(LeafMerge::new(base, target, leaf, self.leaf_name.as_str())),
            Err(h) => {
                self.base_commit = Some(commit);
                self.base = Some(base);
                self.target = Some(target);
                Err(h)
            },
        }
    }

    /// Goes on as far as the known objects allow: gives the plan of the merge,
    /// or why it stops. A walk that gave its plan is spent.
    pub fn advance(&mut self, repo: &Repository, store: &ObjectStore) -> (r: Result<
        MergePlan,
        Halt,
    >)
        requires
            old(self).is_valid(),
        ensures
            final(self).is_valid(),
            final(self).head == old(self).head,
            final(self).leaf == old(self).leaf,
            final(self).leaf_name == old(self).leaf_name,
            old(self).outcome(*repo, store@) == merge_step(r),
            blobs_in_place(old(self).merged(), repo.brass_dir@) ==> (match r {
                Ok(plan) => blobs_in_place(plan.files@, repo.brass_dir@),
                Err(_) => blobs_in_place(final(self).merged(), repo.brass_dir@),
            }),
            forall|m: Map<Seq<char>, Option<ObjectView>>| #[trigger]
                extends(m, store@) ==> old(self).outcome(*repo, m) == (match r {
                    Err(Halt::Need(_)) => final(self).outcome(*repo, m),
                    _ => merge_step(r),
                }),
    {
        store.finite();
        match self.gather(store) {
            Err(h) => Err(h),
            Ok(mut merge) => match merge.advance(repo, store) {
                Some(hash) => {
                    self.merge = Some(merge);
                    Err(Halt::Need(hash))
                },
                None => Ok(merge.plan),
            },
        }
    }
}

proof fn lemma_stable(m: Map<Seq<char>, Option<ObjectView>>, commit: Seq<char>)
    requires
        m.dom().finite(),
    ensures
        commit_files(m, commit) is Done ==> forall|more: Map<Seq<char>, Option<ObjectView>>|
            extends(more, m) ==> #[trigger] commit_files(more, commit) == commit_files(m, commit),
{
    if commit_files(m, commit) is Done {
        assert forall|more: Map<Seq<char>, Option<ObjectView>>| extends(
            more,
            m,
        ) implies #[trigger] commit_files(more, commit) == commit_files(m, commit) by {
            commit_files_are_stable(m, more, commit);
        }
    }
}

impl Repository {
    /// The merge of a leaf into the current commit, given the content of the
    /// ref of the leaf, if there is one.
    pub fn merge_leaf(
        &self,
        head: &str,
        leaf_ref: Option<&str>,
        leaf_name: &str,
    ) -> (r: Result<MergeWalk, BrassError>)
        ensures
            match leaf_ref {
                None => r matches Err(e) && e == BrassError::LeafMissing,
                Some(text) => r matches Ok(walk) && walk.is_valid() && walk.head@ == head@
                    && walk.leaf@ == ref_target(text@) && walk.merged().len() == 0 && (forall|
                    m: Map<Seq<char>, Option<ObjectView>>,
                | #[trigger]
                    walk.outcome(*self, m) == merge_of(
                        m,
                        *self,
                        head@,
                        ref_target(text@),
                        leaf_name@,
                    )),
            },
    {
        match leaf_commit(leaf_ref) {
            Err(e) => Err(e),
            Ok(leaf) => Ok(MergeWalk::new(head, leaf.as_str(), leaf_name)),
        }
    }
}

// ---------------------------------------------------------------------------
// Laws

/// Whether two lists of files have the same paths with the same hashes.
pub open spec fn same_files(a: Seq<FileView>, b: Seq<FileView>) -> bool {
    forall|path: Seq<char>| #[trigger] hash_at(a, path) == hash_at(b, path)
}

/// The entries of a tree that has some paths as `files` has them.
spec fn taken(files: Seq<FileView>, paths: Seq<Seq<char>>) -> Seq<TreeEntryView>
    decreases paths.len(),
{
    if paths.len() == 0 {
        Seq::empty()
    } else {
        with_entry(Seq::empty(), paths[0], hash_at(files, paths[0])) + taken(
            files,
            paths.drop_first(),
        )
    }
}

proof fn lemma_take_all(
    m: Map<Seq<char>, Option<ObjectView>>,
    input: MergeInput,
    plan: PlanView,
    paths: Seq<Seq<char>>,
)
    requires
        input.base == input.leaf,
        plan.denied is None,
    ensures
        merge_from(m, input, plan, paths) == Step::Done(
            PlanView { entries: plan.entries + taken(input.target, paths), ..plan },
        ),
    decreases paths.len(),
{
    let all = plan.entries + taken(input.target, paths);
    if paths.len() == 0 {
        assert(all =~= plan.entries);
    } else {
        let hash = hash_at(input.target, paths[0]);
        let next = PlanView { entries: with_entry(plan.entries, paths[0], hash), ..plan };
        unchanged_side_gives_way(m, input, plan, paths[0]);
        lemma_take_all(m, input, next, paths.drop_first());
        assert(all =~= next.entries + taken(input.target, paths.drop_first()));
    }
}

proof fn lemma_taken(files: Seq<FileView>, paths: Seq<Seq<char>>, path: Seq<char>)
    ensures
        hash_at(entry_files(taken(files, paths)), path) == (if path_keys(paths).contains(
            components(path),
        ) {
            hash_at(files, path)
        } else {
            None
        }),
        forall|i: int|
            0 <= i < taken(files, paths).len() ==> (#[trigger] taken(files, paths)[i]).mode
                == FileMode::Regular,
    decreases paths.len(),
{
    let key = components(path);
    let all = taken(files, paths);
    let keys = file_keys(entry_files(all));
    if paths.len() == 0 {
        lemma_position(keys, key);
    } else {
        let rest = paths.drop_first();
        let less = taken(files, rest);
        let less_keys = file_keys(entry_files(less));
        lemma_taken(files, rest, path);
        lemma_position(less_keys, key);
        let at = position(less_keys, key);
        assert(path_keys(paths) =~= seq![components(paths[0])] + path_keys(rest));
        assert(path_keys(paths).contains(key) <==> key == components(paths[0]) || path_keys(
            rest,
        ).contains(key)) by {
            if key == components(paths[0]) {
                assert(path_keys(paths)[0] == key);
            }
            if path_keys(rest).contains(key) {
                let i = choose|i: int| 0 <= i < rest.len() && path_keys(rest)[i] == key;
                assert(path_keys(paths)[i + 1] == key);
            }
            if path_keys(paths).contains(key) {
                let i = choose|i: int| 0 <= i < paths.len() && path_keys(paths)[i] == key;
                if i > 0 {
                    assert(path_keys(rest)[i - 1] == key);
                }
            }
        }
        match hash_at(files, paths[0]) {
            None => {
                assert(all =~= less);
            },
            Some(h) => {
                let e = TreeEntryView { mode: FileMode::Regular, name: paths[0], hash: h };
                assert(all =~= seq![e] + less);
                assert(keys =~= seq![components(paths[0])] + less_keys);
                if key == components(paths[0]) {
                    lemma_position_is(keys, key, 0);
                } else {
                    assert forall|i: int| 0 <= i < at + 1 implies keys[i] != key by {
                        if i > 0 {
                            assert(keys[i] == less_keys[i - 1]);
                        }
                    }
                    lemma_position_is(keys, key, at + 1);
                }
            },
        }
        assert forall|i: int| 0 <= i < all.len() implies (#[trigger] all[i]).mode
            == FileMode::Regular by {
            let n = all.len() - less.len();
            if i >= n {
                assert(all[i] == less[i - n]);
            }
        }
    }
}

proof fn lemma_merged_modes(
    m: Map<Seq<char>, Option<ObjectView>>,
    input: MergeInput,
    plan: PlanView,
    paths: Seq<Seq<char>>,
)
    requires
        forall|i: int|
            0 <= i < plan.entries.len() ==> (#[trigger] plan.entries[i]).mode
                == FileMode::Regular,
        merge_from(m, input, plan, paths) is Done,
    ensures
        ({
            let entries = merge_from(m, input, plan, paths)->Done_0.entries;
            forall|i: int|
                0 <= i < entries.len() ==> (#[trigger] entries[i]).mode == FileMode::Regular
        }),
    decreases paths.len(),
{
    if paths.len() > 0 && plan.denied is None {
        if let Step::Done(next) = merge_path(m, input, plan, paths[0]) {
            lemma_merged_modes(m, input, next, paths.drop_first());
        }
    }
}

/// Merging a leaf whose commit is an ancestor of the current one changes no
/// file: nothing is refused, no text is merged, and a commit of the merged tree
/// has the same paths with the same hashes as the current commit.
pub proof fn merging_an_ancestor_changes_no_file(
    m: Map<Seq<char>, Option<ObjectView>>,
    repo: Repository,
    head: Seq<char>,
    leaf: Seq<char>,
    leaf_name: Seq<char>,
    files: Seq<FileView>,
)
    requires
        m.dom().finite(),
        closure(m, false, seq![head], Set::empty()) matches Step::Done(all) && all.contains(leaf),
        commit_files(m, head) == Step::Done(Ok::<Seq<FileView>, BrassError>(files)),
        commit_files(m, leaf) matches Step::Done(Ok(_)),
    ensures
        merge_of(m, repo, head, leaf, leaf_name) matches Step::Done(Ok(plan)) && plan.denied is None
            && !plan.conflict && plan.files.len() == 0 && (forall|
            after: Map<Seq<char>, Option<ObjectView>>,
            commit: Seq<char>,
        | #[trigger]
            has_entries(after, commit, plan.entries) ==> (commit_files(
                after,
                commit,
            ) matches Step::Done(Ok(now)) && same_files(now, files))),
{
    lca_of_ancestor(m, head, leaf);
    let old_files = commit_files(m, leaf)->Done_0->Ok_0;
    let input = repo.merge_input(old_files, files, old_files, leaf_name);
    let paths = all_paths(old_files, files, old_files);
    let entries = taken(files, paths);
    lemma_take_all(m, input, empty_plan(), paths);
    assert(Seq::<TreeEntryView>::empty() + entries =~= entries);
    merge_looks_at_every_path(old_files, files, old_files);
    assert(entry_keys(Seq::<TreeEntryView>::empty()) =~= Seq::empty());
    merged_tree_has_each_path_once(m, input, empty_plan(), paths);
    lemma_taken(files, paths, Seq::empty());
    assert(file_keys(entry_files(entries)) =~= entry_keys(entries));
    assert(same_files(entry_files(entries), files)) by {
        assert forall|path: Seq<char>| #[trigger] hash_at(entry_files(entries), path) == hash_at(
            files,
            path,
        ) by {
            lemma_taken(files, paths, path);
            let key = components(path);
            lemma_position(file_keys(files), key);
            if file_at(files, path) is Some {
                assert(file_keys(files)[file_place(files, path)] == key);
                assert(file_keys(files).contains(key));
            }
        }
    }
    assert forall|after: Map<Seq<char>, Option<ObjectView>>, commit: Seq<char>| #[trigger]
        has_entries(after, commit, entries) implies (commit_files(
        after,
        commit,
    ) matches Step::Done(Ok(now)) && same_files(now, files)) by {
        flat_tree_has_its_entries(after, commit, entries);
    }
}

/// A leaf that was merged, merged again, changes no file. After a first merge
/// its commit, with the current commit and the leaf as parents, is the current
/// commit; a second merge of the same leaf that comes to its end is not
/// refused, merges no text, and its commit has the same paths with the same
/// hashes.
pub proof fn merging_again_changes_no_file(
    m: Map<Seq<char>, Option<ObjectView>>,
    repo: Repository,
    head: Seq<char>,
    leaf: Seq<char>,
    leaf_name: Seq<char>,
    later: Map<Seq<char>, Option<ObjectView>>,
    merged: Seq<char>,
    c: CommitView,
)
    requires
        m.dom().finite(),
        merge_of(m, repo, head, leaf, leaf_name) matches Step::Done(Ok(plan)) && plan.denied is None
            && !plan.conflict && has_entries(later, merged, plan.entries),
        extends(later, m),
        later[merged] == Some(ObjectView::Commit(c)),
        c.parent_hashes == seq![head, leaf],
        merge_of(later, repo, merged, leaf, leaf_name) is Done,
    ensures
        merge_of(later, repo, merged, leaf, leaf_name) matches Step::Done(Ok(again))
            && again.denied is None && !again.conflict && again.files.len() == 0 && (forall|
            after: Map<Seq<char>, Option<ObjectView>>,
            commit: Seq<char>,
        | #[trigger]
            has_entries(after, commit, again.entries) ==> (commit_files(
                after,
                commit,
            ) matches Step::Done(Ok(now)) && commit_files(later, merged) matches Step::Done(
                Ok(before),
            ) && same_files(now, before))),
{
    let plan = merge_of(m, repo, head, leaf, leaf_name)->Done_0->Ok_0;
    let base = lca(m, head, leaf)->Done_0->Some_0;
    let base_files = commit_files(m, base)->Done_0->Ok_0;
    let head_files = commit_files(m, head)->Done_0->Ok_0;
    let leaf_files = commit_files(m, leaf)->Done_0->Ok_0;
    let input = repo.merge_input(base_files, head_files, leaf_files, leaf_name);
    let paths = all_paths(base_files, head_files, leaf_files);
    assert(merge_from(m, input, empty_plan(), paths) == Step::Done(plan));
    merge_looks_at_every_path(base_files, head_files, leaf_files);
    assert(entry_keys(Seq::<TreeEntryView>::empty()) =~= Seq::empty());
    merged_tree_has_each_path_once(m, input, empty_plan(), paths);
    lemma_merged_modes(m, input, empty_plan(), paths);
    assert(file_keys(entry_files(plan.entries)) =~= entry_keys(plan.entries));
    flat_tree_has_its_entries(later, merged, plan.entries);
    commit_files_are_stable(m, later, leaf);
    let start = seq![merged];
    let all = closure(later, false, start, Set::empty())->Done_0;
    assert(closure(later, false, start, Set::empty()) is Done);
    closure_is_closed(later, false, start, Set::empty());
    assert(all.contains(start[0]));
    assert(links(false, later[merged])[1] == leaf);
    assert(all.contains(leaf));
    merging_an_ancestor_changes_no_file(
        later,
        repo,
        merged,
        leaf,
        leaf_name,
        entry_files(plan.entries),
    );
}

/// The text of the file under a hash that a merge read, or nothing where there
/// is no file or no text.
pub open spec fn merged_from(
    m: Map<Seq<char>, Option<ObjectView>>,
    hash: Option<Seq<char>>,
) -> Seq<char> {
    match hash {
        Some(h) => match m[h] {
            Some(ObjectView::Blob(data)) => lossy_text(data),
            _ => Seq::empty(),
        },
        None => Seq::empty(),
    }
}

/// What the merged tree has under a path, given the hashes of the path in the
/// common ancestor, the current commit and the leaf: where the leaf did not
/// change it, what the current commit has; where the current commit did not
/// change it or changed it to the same, what the leaf has; else the merged text,
/// unless it conflicts.
pub open spec fn merged_hash(
    m: Map<Seq<char>, Option<ObjectView>>,
    input: MergeInput,
    path: Seq<char>,
) -> Option<Seq<char>> {
    let base = hash_at(input.base, path);
    let target = hash_at(input.target, path);
    let leaf = hash_at(input.leaf, path);
    let chunks = merge(merged_from(m, base), merged_from(m, target), merged_from(m, leaf));
    if leaf == base {
        target
    } else if target == base || target == leaf {
        leaf
    } else if has_conflict(chunks) {
        None
    } else {
        Some(
            object_name(
                object_bytes(
                    ObjectView::Blob(encode_utf8(chunks_text(chunks, input.leaf_name))),
                ),
            ),
        )
    }
}

/// Whether both sides changed a path, in different ways.
pub open spec fn both_changed(input: MergeInput, path: Seq<char>) -> bool {
    let base = hash_at(input.base, path);
    let target = hash_at(input.target, path);
    let leaf = hash_at(input.leaf, path);
    base != target && base != leaf && target != leaf
}

/// The file that is written for a path that both sides changed: the merged text,
/// and its blob, unless the text conflicts.
pub open spec fn merged_file(
    m: Map<Seq<char>, Option<ObjectView>>,
    input: MergeInput,
    path: Seq<char>,
) -> MergedView {
    let chunks = merge(
        merged_from(m, hash_at(input.base, path)),
        merged_from(m, hash_at(input.target, path)),
        merged_from(m, hash_at(input.leaf, path)),
    );
    let text = chunks_text(chunks, input.leaf_name);
    MergedView {
        path: join(input.worktree, path),
        text,
        blob: if has_conflict(chunks) {
            None
        } else {
            Some(object_bytes(ObjectView::Blob(encode_utf8(text))))
        },
    }
}

proof fn lemma_merge_one(
    m: Map<Seq<char>, Option<ObjectView>>,
    input: MergeInput,
    plan: PlanView,
    path: Seq<char>,
)
    requires
        plan.denied is None,
        merge_path(m, input, plan, path) is Done,
        merge_path(m, input, plan, path)->Done_0.denied is None,
    ensures
        ({
            let next = merge_path(m, input, plan, path)->Done_0;
            &&& next.entries == with_entry(plan.entries, path, merged_hash(m, input, path))
            &&& next.files == (if both_changed(input, path) {
                plan.files.push(merged_file(m, input, path))
            } else {
                plan.files
            })
            &&& next.conflict == (plan.conflict || both_changed(input, path) && merged_file(
                m,
                input,
                path,
            ).blob is None)
        }),
{
}

proof fn lemma_entry_added(
    entries: Seq<TreeEntryView>,
    path: Seq<char>,
    hash: Option<Seq<char>>,
    p: Seq<char>,
)
    requires
        !entry_keys(entries).contains(components(path)),
    ensures
        hash_at(entry_files(with_entry(entries, path, hash)), p) == (if components(p)
            == components(path) {
            hash
        } else {
            hash_at(entry_files(entries), p)
        }),
{
    let key = components(path);
    let k = components(p);
    let ks = file_keys(entry_files(entries));
    assert(ks =~= entry_keys(entries));
    lemma_position(ks, k);
    lemma_position(ks, key);
    if hash is Some {
        let after = with_entry(entries, path, hash);
        let now = file_keys(entry_files(after));
        assert(now =~= ks.push(key));
        let at = position(ks, k);
        assert forall|i: int| 0 <= i < at implies now[i] != k by {
            assert(ks[i] != k);
        }
        if at < ks.len() {
            lemma_position_is(now, k, at);
            assert(entry_files(after)[at] == entry_files(entries)[at]);
        } else if k == key {
            lemma_position_is(now, k, at);
        } else {
            lemma_position_is(now, k, at + 1);
        }
    }
}

#[verifier::rlimit(40)]
proof fn lemma_merge_all(
    m: Map<Seq<char>, Option<ObjectView>>,
    input: MergeInput,
    plan: PlanView,
    paths: Seq<Seq<char>>,
    p: Seq<char>,
)
    requires
        plan.denied is None,
        path_keys(paths).no_duplicates(),
        forall|i: int|
            0 <= i < paths.len() ==> !entry_keys(plan.entries).contains(
                components(#[trigger] paths[i]),
            ),
        merge_from(m, input, plan, paths) is Done,
        merge_from(m, input, plan, paths)->Done_0.denied is None,
    ensures
        ({
            let all = merge_from(m, input, plan, paths)->Done_0;
            let changed = paths.filter(|q: Seq<char>| both_changed(input, q));
            &&& hash_at(entry_files(all.entries), p) == (if path_keys(paths).contains(
                components(p),
            ) {
                merged_hash(m, input, p)
            } else {
                hash_at(entry_files(plan.entries), p)
            })
            &&& all.files == plan.files + changed.map_values(
                |q: Seq<char>| merged_file(m, input, q),
            )
            &&& all.conflict == (plan.conflict || exists|i: int|
                0 <= i < changed.len() && merged_file(m, input, #[trigger] changed[i]).blob is None)
        }),
    decreases paths.len(),
{
    let both = |q: Seq<char>| both_changed(input, q);
    let file = |q: Seq<char>| merged_file(m, input, q);
    let changed = paths.filter(both);
    let all = merge_from(m, input, plan, paths)->Done_0;
    if paths.len() == 0 {
        reveal(Seq::filter);
        assert(changed =~= Seq::empty());
        assert(all.files =~= plan.files + changed.map_values(file));
    } else {
        let q = paths[0];
        let rest = paths.drop_first();
        let next = merge_path(m, input, plan, q)->Done_0;
        if next.denied is Some {
            assert(merge_from(m, input, next, rest) == Step::Done(next));
        }
        lemma_merge_one(m, input, plan, q);
        let ks = path_keys(paths);
        assert(path_keys(rest) =~= ks.drop_first());
        assert(ks[0] == components(q));
        assert forall|i: int| 0 <= i < rest.len() implies !entry_keys(next.entries).contains(
            components(#[trigger] rest[i]),
        ) by {
            assert(rest[i] == paths[i + 1]);
            assert(!entry_keys(plan.entries).contains(components(paths[i + 1])));
            assert(ks[i + 1] == components(rest[i]));
            lemma_entry_keys(plan.entries, q, merged_hash(m, input, q), components(rest[i]));
        }
        lemma_merge_all(m, input, next, rest, p);
        assert(!entry_keys(plan.entries).contains(components(paths[0])));
        lemma_entry_added(plan.entries, q, merged_hash(m, input, q), p);
        let k = components(p);
        if ks.contains(k) {
            let i = choose|i: int| 0 <= i < ks.len() && ks[i] == k;
            if i > 0 {
                assert(path_keys(rest)[i - 1] == k);
            }
        }
        if path_keys(rest).contains(k) {
            let i = choose|i: int| 0 <= i < rest.len() && path_keys(rest)[i] == k;
            assert(ks[i + 1] == k);
            assert(k != components(q));
        }
        if k == components(q) {
            assert(ks.contains(ks[0]));
            assert(merged_hash(m, input, p) == merged_hash(m, input, q));
        }
        let less = rest.filter(both);
        let one = seq![q];
        assert(paths =~= one + rest);
        Seq::filter_distributes_over_add(one, rest, both);
        reveal(Seq::filter);
        assert(one.drop_last() =~= Seq::empty());
        assert(one.drop_last().filter(both) =~= Seq::empty());
        if both_changed(input, q) {
            assert(one.filter(both) =~= one);
            assert(changed =~= one + less);
            assert(plan.files.push(file(q)) + less.map_values(file) =~= plan.files
                + changed.map_values(file));
            if all.conflict && !next.conflict {
                let i = choose|i: int|
                    0 <= i < less.len() && merged_file(m, input, #[trigger] less[i]).blob is None;
                assert(changed[i + 1] == less[i]);
            }
            if merged_file(m, input, q).blob is None {
                assert(changed[0] == q);
            }
            if exists|i: int|
                0 <= i < changed.len() && merged_file(
                    m,
                    input,
                    #[trigger] changed[i],
                ).blob is None {
                let i = choose|i: int|
                    0 <= i < changed.len() && merged_file(
                        m,
                        input,
                        #[trigger] changed[i],
                    ).blob is None;
                if i > 0 {
                    assert(less[i - 1] == changed[i]);
                }
            }
        } else {
            assert(one.filter(both) =~= Seq::empty());
            assert(changed =~= less);
        }
    }
}

proof fn lemma_entry_keys(
    entries: Seq<TreeEntryView>,
    path: Seq<char>,
    hash: Option<Seq<char>>,
    key: Seq<Seq<char>>,
)
    requires
        !entry_keys(entries).contains(key),
        key != components(path),
    ensures
        !entry_keys(with_entry(entries, path, hash)).contains(key),
{
    let ks = entry_keys(entries);
    if hash is Some {
        let now = entry_keys(with_entry(entries, path, hash));
        assert(now =~= ks.push(components(path)));
        if now.contains(key) {
            let i = choose|i: int| 0 <= i < now.len() && now[i] == key;
            assert(ks[i] == key);
        }
    }
}

/// What a merge comes to, path by path. For every path the merged tree has what
/// the side that changed it has, or the merged text where both changed it in
/// different ways; the files that are written are those texts, one for each such
/// path; and there is a conflict if and only if one of them conflicts.
pub proof fn merge_comes_to_each_path(
    m: Map<Seq<char>, Option<ObjectView>>,
    input: MergeInput,
    path: Seq<char>,
)
    requires
        merge_plan(m, input) is Done,
        merge_plan(m, input)->Done_0.denied is None,
    ensures
        ({
            let plan = merge_plan(m, input)->Done_0;
            let changed = all_paths(input.base, input.target, input.leaf).filter(
                |q: Seq<char>| both_changed(input, q),
            );
            &&& hash_at(entry_files(plan.entries), path) == merged_hash(m, input, path)
            &&& plan.files == changed.map_values(|q: Seq<char>| merged_file(m, input, q))
            &&& plan.conflict <==> exists|i: int|
                0 <= i < changed.len() && merged_file(m, input, #[trigger] changed[i]).blob is None
        }),
{
    let paths = all_paths(input.base, input.target, input.leaf);
    merge_looks_at_every_path(input.base, input.target, input.leaf);
    let none = empty_plan();
    assert(entry_keys(none.entries) =~= Seq::empty());
    lemma_merge_all(m, input, none, paths, path);
    let plan = merge_plan(m, input)->Done_0;
    let changed = paths.filter(|q: Seq<char>| both_changed(input, q));
    let files = changed.map_values(|q: Seq<char>| merged_file(m, input, q));
    assert(none.files + files =~= files);
    assert(plan.files =~= files);
    let key = components(path);
    lemma_position(file_keys(input.base), key);
    lemma_position(file_keys(input.target), key);
    lemma_position(file_keys(input.leaf), key);
    assert(entry_files(none.entries) =~= Seq::empty());
    lemma_position(file_keys(entry_files(none.entries)), key);
    if !path_keys(paths).contains(key) {
        assert(!file_keys(input.base).contains(key));
        assert(!file_keys(input.target).contains(key));
        assert(!file_keys(input.leaf).contains(key));
    }
}

/// A merge compares the files of the current commit and of the leaf with those of
/// their common ancestor, under the rules and the name of the user of the
/// repository; without a common ancestor it is refused.
pub proof fn merge_starts_from_the_common_ancestor(
    m: Map<Seq<char>, Option<ObjectView>>,
    repo: Repository,
    head: Seq<char>,
    leaf: Seq<char>,
    leaf_name: Seq<char>,
    base: Seq<char>,
    files: (Seq<FileView>, Seq<FileView>, Seq<FileView>),
)
    ensures
        lca(m, head, leaf) == Step::Done(None::<Seq<char>>) ==> merge_of(
            m,
            repo,
            head,
            leaf,
            leaf_name,
        ) == Step::Done(Err::<PlanView, BrassError>(BrassError::NoCommonAncestor)),
        lca(m, head, leaf) == Step::Done(Some(base)) && commit_files(m, base) == Step::Done(
            Ok::<Seq<FileView>, BrassError>(files.0),
        ) && commit_files(m, head) == Step::Done(Ok::<Seq<FileView>, BrassError>(files.1))
            && commit_files(m, leaf) == Step::Done(Ok::<Seq<FileView>, BrassError>(files.2)) ==> ({
            let input = MergeInput {
                base: files.0,
                target: files.1,
                leaf: files.2,
                leaf_name,
                rules: repo.acl.rules@,
                user: repo.config.user_name@,
                worktree: repo.worktree@,
            };
            match merge_plan(m, input) {
                Step::Need(h) => merge_of(m, repo, head, leaf, leaf_name) == Step::<
                    Result<PlanView, BrassError>,
                >::Need(h),
                Step::Done(plan) => merge_of(m, repo, head, leaf, leaf_name) == Step::Done(
                    Ok::<PlanView, BrassError>(plan),
                ),
            }
        }),
{
}

proof fn lemma_filter_front<A>(s: Seq<A>, p: spec_fn(A) -> bool)
    requires
        s.len() > 0,
    ensures
        s.filter(p) == (if p(s[0]) {
            seq![s[0]]
        } else {
            Seq::empty()
        }) + s.drop_first().filter(p),
{
    let one = seq![s[0]];
    let rest = s.drop_first();
    assert(s =~= one + rest);
    Seq::filter_distributes_over_add(one, rest, p);
    reveal(Seq::filter);
    assert(one.drop_last() =~= Seq::empty());
    assert(one.drop_last().filter(p) =~= Seq::empty());
    assert(one.filter(p) =~= if p(s[0]) {
        one
    } else {
        Seq::empty()
    });
}

#[verifier::rlimit(40)]
proof fn lemma_merge_entries(
    m: Map<Seq<char>, Option<ObjectView>>,
    input: MergeInput,
    plan: PlanView,
    paths: Seq<Seq<char>>,
)
    requires
        plan.denied is None,
        merge_from(m, input, plan, paths) is Done,
        merge_from(m, input, plan, paths)->Done_0.denied is None,
    ensures
        merge_from(m, input, plan, paths)->Done_0.entries == plan.entries + paths.filter(
            |q: Seq<char>| merged_hash(m, input, q) is Some,
        ).map_values(
            |q: Seq<char>|
                TreeEntryView {
                    mode: FileMode::Regular,
                    name: q,
                    hash: merged_hash(m, input, q)->0,
                },
        ),
    decreases paths.len(),
{
    let stays = |q: Seq<char>| merged_hash(m, input, q) is Some;
    let entry = |q: Seq<char>|
        TreeEntryView { mode: FileMode::Regular, name: q, hash: merged_hash(m, input, q)->0 };
    if paths.len() == 0 {
        assert(paths.filter(stays).len() == 0) by {
            reveal(Seq::filter);
        }
        assert(paths.filter(stays).map_values(entry) =~= Seq::empty());
    } else {
        let q = paths[0];
        let rest = paths.drop_first();
        let next = merge_path(m, input, plan, q)->Done_0;
        if next.denied is Some {
            assert(merge_from(m, input, next, rest) == Step::Done(next));
        }
        lemma_merge_one(m, input, plan, q);
        lemma_merge_entries(m, input, next, rest);
        let less = rest.filter(stays);
        let all = paths.filter(stays);
        lemma_filter_front(paths, stays);
        if stays(q) {
            assert(all =~= seq![q] + less);
            assert(all.map_values(entry) =~= seq![entry(q)] + less.map_values(entry));
            assert(next.entries == plan.entries.push(entry(q)));
            assert(next.entries + less.map_values(entry) =~= plan.entries + all.map_values(entry));
        } else {
            assert(all =~= less);
            assert(next.entries == plan.entries);
        }
    }
}

/// The merged tree has an entry for each path that is left, in the order in which
/// the merge looked at them, all of them as regular files.
pub proof fn merged_tree_tells_each_path(
    m: Map<Seq<char>, Option<ObjectView>>,
    input: MergeInput,
)
    requires
        merge_plan(m, input) is Done,
        merge_plan(m, input)->Done_0.denied is None,
    ensures
        merge_plan(m, input)->Done_0.entries == all_paths(
            input.base,
            input.target,
            input.leaf,
        ).filter(|q: Seq<char>| merged_hash(m, input, q) is Some).map_values(
            |q: Seq<char>|
                TreeEntryView {
                    mode: FileMode::Regular,
                    name: q,
                    hash: merged_hash(m, input, q)->0,
                },
        ),
{
    let paths = all_paths(input.base, input.target, input.leaf);
    lemma_merge_entries(m, input, empty_plan(), paths);
    let entries = merge_plan(m, input)->Done_0.entries;
    assert(empty_plan().entries + entries =~= entries);
    assert(entries =~= empty_plan().entries + entries);
}

proof fn lemma_merge_needs(
    m: Map<Seq<char>, Option<ObjectView>>,
    input: MergeInput,
    plan: PlanView,
    paths: Seq<Seq<char>>,
)
    ensures
        merge_from(m, input, plan, paths) matches Step::Need(h) ==> !m.contains_key(h),
    decreases paths.len(),
{
    if paths.len() > 0 && plan.denied is None {
        if let Step::Done(next) = merge_path(m, input, plan, paths[0]) {
            lemma_merge_needs(m, input, next, paths.drop_first());
        }
    }
}

/// A merge only ever needs an object that has not been looked up yet.
pub proof fn merge_needs_the_unknown(
    m: Map<Seq<char>, Option<ObjectView>>,
    repo: Repository,
    head: Seq<char>,
    leaf: Seq<char>,
    leaf_name: Seq<char>,
)
    requires
        m.dom().finite(),
    ensures
        merge_of(m, repo, head, leaf, leaf_name) matches Step::Need(h) ==> !m.contains_key(h),
{
    lca_needs_the_unknown(m, head, leaf);
    commit_files_need_the_unknown(m, head);
    commit_files_need_the_unknown(m, leaf);
    if let Step::Done(Some(base)) = lca(m, head, leaf) {
        commit_files_need_the_unknown(m, base);
        if let Step::Done(Ok(b)) = commit_files(m, base) {
            if let Step::Done(Ok(t)) = commit_files(m, head) {
                if let Step::Done(Ok(l)) = commit_files(m, leaf) {
                    let input = repo.merge_input(b, t, l, leaf_name);
                    let paths = all_paths(b, t, l);
                    lemma_merge_needs(m, input, empty_plan(), paths);
                }
            }
        }
    }
}

/// A merge is refused only without a common ancestor, or where the trees of one of
/// the three commits go in a circle.
pub proof fn merge_fails_only_without_files(
    m: Map<Seq<char>, Option<ObjectView>>,
    repo: Repository,
    head: Seq<char>,
    leaf: Seq<char>,
    leaf_name: Seq<char>,
    e: BrassError,
)
    requires
        merge_of(m, repo, head, leaf, leaf_name) == Step::Done(Err::<PlanView, BrassError>(e)),
    ensures
        match lca(m, head, leaf) {
            Step::Done(Some(base)) => {
                let failed = Step::Done(Err::<Seq<FileView>, BrassError>(e));
                commit_files(m, base) == failed || commit_files(m, head) == failed || commit_files(
                    m,
                    leaf,
                ) == failed
            },
            Step::Done(None) => e == BrassError::NoCommonAncestor,
            Step::Need(_) => false,
        },
{
}

} // verus!
