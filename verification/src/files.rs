//! The files of a commit: its tree with all directories opened.
use vstd::prelude::*;
use vstd::hash_map::StringHashMap;
use vstd::hash_set::StringHashSet;
use crate::error::BrassError;
use crate::history::Step;
use crate::mode::FileMode;
use crate::object::{BrassObject, ObjectView, TreeEntry, TreeEntryView};
use crate::paths::{
    components, join, join_paths, normal_form, normal_form_tells_paths_apart, normal_path,
};
use crate::store::{extends, ObjectStore};
use crate::text::{lemma_position, lemma_position_is, position};

verus! {

/// A file of a commit.
#[derive(Debug, Clone, PartialEq, Eq)]
pub struct FileEntry {
    pub path: String,
    pub hash: String,
    pub mode: FileMode,
}

/// The files of a commit, at most one for each path, in the order in which
/// they were put there.
pub struct FileMap {
    entries: Vec<FileEntry>,
    /// The place of each file, by the normal form of its path.
    places: StringHashMap<usize>,
}

/// A `FileEntry` as a mathematical value.
#[verifier::ext_equal]
pub struct FileView {
    pub path: Seq<char>,
    pub hash: Seq<char>,
    pub mode: FileMode,
}

impl View for FileEntry {
    type V = FileView;

    open spec fn view(&self) -> FileView {
        FileView { path: self.path@, hash: self.hash@, mode: self.mode }
    }
}

impl View for FileMap {
    type V = Seq<FileView>;

    closed spec fn view(&self) -> Seq<FileView> {
        file_views(self.entries@)
    }
}

/// Files as mathematical values.
pub open spec fn file_views(entries: Seq<FileEntry>) -> Seq<FileView> {
    entries.map_values(|e: FileEntry| e@)
}

/// The paths of files, each as its components.
pub open spec fn file_keys(files: Seq<FileView>) -> Seq<Seq<Seq<char>>> {
    files.map_values(|f: FileView| components(f.path))
}

/// The place of the first file with a path, or the number of files.
pub open spec fn file_place(files: Seq<FileView>, path: Seq<char>) -> int {
    position(file_keys(files), components(path))
}

/// The file with a path.
pub open spec fn file_at(files: Seq<FileView>, path: Seq<char>) -> Option<FileView> {
    if file_place(files, path) < files.len() {
        Some(files[file_place(files, path)])
    } else {
        None
    }
}

/// The hash of the file with a path.
pub open spec fn hash_at(files: Seq<FileView>, path: Seq<char>) -> Option<Seq<char>> {
    match file_at(files, path) {
        Some(f) => Some(f.hash),
        None => None,
    }
}

/// The files once another has been put among them: it takes over the content
/// of the file with the same path, or comes last.
pub open spec fn file_put(files: Seq<FileView>, f: FileView) -> Seq<FileView> {
    let at = file_place(files, f.path);
    if at < files.len() {
        files.update(at, FileView { path: files[at].path, ..f })
    } else {
        files.push(f)
    }
}

/// Whether places lead to files: each file is found at its place under the
/// normal form of its path, and nothing else is found.
spec fn are_places(entries: Seq<FileEntry>, places: Map<Seq<char>, usize>) -> bool {
    &&& forall|i: int|
        0 <= i < entries.len() ==> places.contains_key(
            normal_form((#[trigger] entries[i]).path@),
        ) && places[normal_form(entries[i].path@)] == i
    &&& forall|k: Seq<char>| #[trigger]
        places.contains_key(k) ==> places[k] < entries.len() && normal_form(
            entries[places[k] as int].path@,
        ) == k
}

proof fn lemma_place(entries: Seq<FileEntry>, places: Map<Seq<char>, usize>, path: Seq<char>)
    requires
        are_places(entries, places),
    ensures
        file_place(file_views(entries), path) == (if places.contains_key(normal_form(path)) {
            places[normal_form(path)] as int
        } else {
            entries.len() as int
        }),
{
    let ks = file_keys(file_views(entries));
    let k = components(path);
    let at = if places.contains_key(normal_form(path)) {
        places[normal_form(path)] as int
    } else {
        entries.len() as int
    };
    assert forall|i: int| 0 <= i < entries.len() implies (ks[i] == k <==> i == at) by {
        normal_form_tells_paths_apart(entries[i].path@, path);
        assert(ks[i] == components(entries[i].path@));
        assert(places.contains_key(normal_form(entries[i].path@)));
    }
    lemma_position_is(ks, k, at);
}

impl FileMap {
    #[verifier::type_invariant]
    spec fn is_indexed(&self) -> bool {
        are_places(self.entries@, self.places@)
    }

    /// No files.
    pub fn new() -> (r: FileMap)
        ensures
            r@ == Seq::<FileView>::empty(),
    {
        let r = FileMap { entries: Vec::new(), places: StringHashMap::new() };
        assert(r@ =~= Seq::<FileView>::empty());
        r
    }

    /// The files.
    pub fn entries(&self) -> (r: &Vec<FileEntry>)
        ensures
            file_views(r@) == self@,
    {
        &self.entries
    }

    /// The place of the file with a path, or the number of files.
    pub fn find(&self, path: &str) -> (r: usize)
        ensures
            r == file_place(self@, path@),
            r <= self@.len(),
    {
        proof {
            use_type_invariant(self);
            lemma_place(self.entries@, self.places@, path@);
        }
        let key = normal_path(path);
        match self.places.get(key.as_str()) {
            Some(at) => *at,
            None => self.entries.len(),
        }
    }

    /// The file with a path.
    pub fn get(&self, path: &str) -> (r: Option<&FileEntry>)
        ensures
            match r {
                Some(f) => file_at(self@, path@) == Some(f@),
                None => file_at(self@, path@) is None,
            },
    {
        let at = self.find(path);
        if at < self.entries.len() {
            Some(&self.entries[at])
        } else {
            None
        }
    }

    /// Puts a file among the others.
    pub fn put(&mut self, path: String, hash: String, mode: FileMode)
        ensures
            final(self)@ == file_put(
                old(self)@,
                FileView { path: path@, hash: hash@, mode },
            ),
    {
        let ghost before = self@;
        let at = self.find(path.as_str());
        let mut taken = FileMap::new();
        std::mem::swap(self, &mut taken);
        proof {
            use_type_invariant(&taken);
            lemma_place(taken.entries@, taken.places@, path@);
        }
        let FileMap { mut entries, mut places } = taken;
        let ghost known = entries@;
        let ghost found = places@;
        if at < entries.len() {
            let path = entries[at].path.clone();
            entries.set(at, FileEntry { path, hash, mode });
            proof {
                assert(file_views(entries@) =~= before.update(at as int, entries@[at as int]@));
                assert forall|i: int| 0 <= i < entries@.len() implies places@.contains_key(
                    normal_form((#[trigger] entries@[i]).path@),
                ) && places@[normal_form(entries@[i].path@)] == i by {
                    assert(entries@[i].path@ == known[i].path@);
                }
                assert forall|k: Seq<char>| #[trigger] places@.contains_key(k) implies places@[k]
                    < entries@.len() && normal_form(entries@[places@[k] as int].path@) == k by {
                    assert(entries@[places@[k] as int].path@ == known[places@[k] as int].path@);
                }
            }
        } else {
            let key = normal_path(path.as_str());
            places.insert(key, at);
            entries.push(FileEntry { path, hash, mode });
            proof {
                assert(file_views(entries@) =~= before.push(entries@.last()@));
                assert forall|i: int| 0 <= i < entries@.len() implies places@.contains_key(
                    normal_form((#[trigger] entries@[i]).path@),
                ) && places@[normal_form(entries@[i].path@)] == i by {
                    if i < known.len() {
                        assert(entries@[i] == known[i]);
                        assert(found.contains_key(normal_form(known[i].path@)));
                    }
                }
                assert forall|k: Seq<char>| #[trigger] places@.contains_key(k) implies places@[k]
                    < entries@.len() && normal_form(entries@[places@[k] as int].path@) == k by {
                    if k != key@ {
                        assert(found.contains_key(k));
                        assert(entries@[places@[k] as int] == known[places@[k] as int]);
                    }
                }
            }
        }
        *self = FileMap { entries, places };
    }
}

/// The files of a tree, put among `files` under the directory `prefix`.
/// `above` holds the trees that the tree stands in.
pub open spec fn tree_files(
    m: Map<Seq<char>, Option<ObjectView>>,
    tree: Seq<char>,
    prefix: Seq<char>,
    files: Seq<FileView>,
    above: Set<Seq<char>>,
) -> Step<Result<Seq<FileView>, BrassError>>
    decreases m.dom().difference(above).len(), 0nat,
    when m.dom().finite()
{
    if above.contains(tree) {
        Step::Done(Err(BrassError::CyclicTree))
    } else if !m.contains_key(tree) {
        Step::Need(tree)
    } else {
        match m[tree] {
            Some(ObjectView::Tree(entries)) => {
                proof {
                    m.dom().lemma_set_insert_diff_decreases(above, tree);
                }
                entries_files(m, entries, prefix, files, above.insert(tree))
            },
            _ => Step::Done(Ok(files)),
        }
    }
}

/// The files of the entries of a tree, put among `files` one after the other.
pub open spec fn entries_files(
    m: Map<Seq<char>, Option<ObjectView>>,
    entries: Seq<TreeEntryView>,
    prefix: Seq<char>,
    files: Seq<FileView>,
    above: Set<Seq<char>>,
) -> Step<Result<Seq<FileView>, BrassError>>
    decreases m.dom().difference(above).len(), entries.len(),
    when m.dom().finite()
{
    if entries.len() == 0 {
        Step::Done(Ok(files))
    } else {
        let e = entries[0];
        let path = join(prefix, e.name);
        if e.mode == FileMode::Directory {
            match tree_files(m, e.hash, path, files, above) {
                Step::Done(Ok(more)) => entries_files(
                    m,
                    entries.drop_first(),
                    prefix,
                    more,
                    above,
                ),
                other => other,
            }
        } else {
            entries_files(
                m,
                entries.drop_first(),
                prefix,
                file_put(files, FileView { path, hash: e.hash, mode: e.mode }),
                above,
            )
        }
    }
}

/// The files of a commit. What is no commit has none.
pub open spec fn commit_files(m: Map<Seq<char>, Option<ObjectView>>, commit: Seq<char>) -> Step<
    Result<Seq<FileView>, BrassError>,
> {
    if !m.contains_key(commit) {
        Step::Need(commit)
    } else {
        match m[commit] {
            Some(ObjectView::Commit(c)) => tree_files(
                m,
                c.tree_hash,
                Seq::empty(),
                Seq::empty(),
                Set::empty(),
            ),
            _ => Step::Done(Ok(Seq::empty())),
        }
    }
}

/// Why a walk over trees stopped before its end.
#[derive(Debug, PartialEq, Eq)]
pub enum Halt {
    /// This object has to be looked up next.
    Need(String),
    /// The walk cannot go on.
    Failed(BrassError),
}

/// A stop as a step of the walk.
pub open spec fn halted(h: Halt) -> Step<Result<Seq<FileView>, BrassError>> {
    match h {
        Halt::Need(hash) => Step::Need(hash@),
        Halt::Failed(e) => Step::Done(Err(e)),
    }
}

fn collect_tree(
    store: &ObjectStore,
    tree: &str,
    prefix: &str,
    files: &mut FileMap,
    above: &mut StringHashSet,
) -> (r: Result<(), Halt>)
    requires
        store@.dom().finite(),
    ensures
        final(above)@ == old(above)@ || r is Err,
        tree_files(store@, tree@, prefix@, old(files)@, old(above)@) == (match r {
            Ok(_) => Step::Done(Ok(final(files)@)),
            Err(h) => halted(h),
        }),
    decreases store@.dom().difference(old(above)@).len(), 0nat,
{
    if above.contains(tree) {
        return Err(Halt::Failed(BrassError::CyclicTree));
    }
    match store.get(tree) {
        None => Err(Halt::Need(tree.to_owned())),
        Some(answer) => match answer {
            Some(BrassObject::Tree(t)) => {
                proof {
                    store@.dom().lemma_set_insert_diff_decreases(above@, tree@);
                }
                above.insert(tree.to_owned());
                match collect_entries(store, &t.entries, prefix, files, above) {
                    Err(h) => Err(h),
                    Ok(_) => {
                        above.remove(tree);
                        assert(above@ =~= old(above)@);
                        Ok(())
                    },
                }
            },
            _ => Ok(()),
        },
    }
}

fn collect_entries(
    store: &ObjectStore,
    entries: &Vec<TreeEntry>,
    prefix: &str,
    files: &mut FileMap,
    above: &mut StringHashSet,
) -> (r: Result<(), Halt>)
    requires
        store@.dom().finite(),
    ensures
        final(above)@ == old(above)@ || r is Err,
        entries_files(
            store@,
            entries@.map_values(|e: TreeEntry| e@),
            prefix@,
            old(files)@,
            old(above)@,
        ) == (match r {
            Ok(_) => Step::Done(Ok(final(files)@)),
            Err(h) => halted(h),
        }),
    decreases store@.dom().difference(old(above)@).len(), 1nat,
{
    let ghost es = entries@.map_values(|e: TreeEntry| e@);
    let ghost whole = entries_files(store@, es, prefix@, files@, above@);
    let mut from: usize = 0;
    assert(es.skip(0) =~= es);
    while from < entries.len()
        invariant
            from <= entries@.len(),
            store@.dom().finite(),
            es == entries@.map_values(|e: TreeEntry| e@),
            whole == entries_files(store@, es, prefix@, old(files)@, old(above)@),
            above@ == old(above)@,
            whole == entries_files(store@, es.skip(from as int), prefix@, files@, above@),
        decreases entries@.len() - from,
    {
        let e = &entries[from];
        assert(es.skip(from as int)[0] == e@);
        assert(es.skip(from as int).drop_first() =~= es.skip(from + 1));
        let path = join_paths(prefix, e.name.as_str());
        if e.mode == FileMode::Directory {
            if let Err(h) = collect_tree(store, e.hash.as_str(), path.as_str(), files, above) {
                return Err(h);
            }
        } else {
            files.put(path, e.hash.clone(), e.mode);
        }
        from = from + 1;
    }
    Ok(())
}

/// The files of a commit, as far as the known objects tell.
pub fn flatten_tree_from_commit(store: &ObjectStore, commit: &str) -> (r: Result<FileMap, Halt>)
    ensures
        commit_files(store@, commit@) == (match r {
            Ok(files) => Step::Done(Ok(files@)),
            Err(h) => halted(h),
        }),
{
    store.finite();
    match store.get(commit) {
        None => Err(Halt::Need(commit.to_owned())),
        Some(answer) => match answer {
            Some(BrassObject::Commit(c)) => {
                let mut files = FileMap::new();
                let mut above = StringHashSet::new();
                proof {
                    reveal_strlit("");
                    assert(""@ =~= Seq::<char>::empty());
                }
                match collect_tree(store, c.tree_hash.as_str(), "", &mut files, &mut above) {
                    Err(h) => Err(h),
                    Ok(_) => Ok(files),
                }
            },
            _ => Ok(FileMap::new()),
        },
    }
}

// ---------------------------------------------------------------------------
// Laws

/// Putting a file keeps one file for each path, and the file is found under
/// its path.
pub proof fn put_keeps_paths_apart(files: Seq<FileView>, f: FileView)
    requires
        file_keys(files).no_duplicates(),
    ensures
        file_keys(file_put(files, f)).no_duplicates(),
        hash_at(file_put(files, f), f.path) == Some(f.hash),
{
    let ks = file_keys(files);
    let k = components(f.path);
    let at = file_place(files, f.path);
    let after = file_put(files, f);
    lemma_position(ks, k);
    assert(file_keys(after).len() == after.len());
    if at < files.len() {
        assert(file_keys(after) =~= ks);
    } else {
        assert(file_keys(after) =~= ks.push(k));
        assert forall|i: int| 0 <= i < ks.len() implies ks[i] != k by {
            assert(ks.contains(ks[i]));
        }
    }
    assert(file_keys(after)[at] == k);
    lemma_position_is(file_keys(after), k, at);
}

proof fn lemma_tree_paths_apart(
    m: Map<Seq<char>, Option<ObjectView>>,
    tree: Seq<char>,
    prefix: Seq<char>,
    files: Seq<FileView>,
    above: Set<Seq<char>>,
)
    requires
        m.dom().finite(),
        file_keys(files).no_duplicates(),
    ensures
        tree_files(m, tree, prefix, files, above) matches Step::Done(Ok(all)) ==> file_keys(
            all,
        ).no_duplicates(),
    decreases m.dom().difference(above).len(), 0nat,
{
    if !above.contains(tree) && m.contains_key(tree) {
        if let Some(ObjectView::Tree(entries)) = m[tree] {
            m.dom().lemma_set_insert_diff_decreases(above, tree);
            lemma_entries_paths_apart(m, entries, prefix, files, above.insert(tree));
        }
    }
}

proof fn lemma_entries_paths_apart(
    m: Map<Seq<char>, Option<ObjectView>>,
    entries: Seq<TreeEntryView>,
    prefix: Seq<char>,
    files: Seq<FileView>,
    above: Set<Seq<char>>,
)
    requires
        m.dom().finite(),
        file_keys(files).no_duplicates(),
    ensures
        entries_files(m, entries, prefix, files, above) matches Step::Done(Ok(all)) ==> file_keys(
            all,
        ).no_duplicates(),
    decreases m.dom().difference(above).len(), entries.len(),
{
    if entries.len() > 0 {
        let e = entries[0];
        let path = join(prefix, e.name);
        if e.mode == FileMode::Directory {
            lemma_tree_paths_apart(m, e.hash, path, files, above);
            if let Step::Done(Ok(more)) = tree_files(m, e.hash, path, files, above) {
                lemma_entries_paths_apart(m, entries.drop_first(), prefix, more, above);
            }
        } else {
            let f = FileView { path, hash: e.hash, mode: e.mode };
            put_keeps_paths_apart(files, f);
            lemma_entries_paths_apart(
                m,
                entries.drop_first(),
                prefix,
                file_put(files, f),
                above,
            );
        }
    }
}

/// A commit has at most one file for each path.
pub proof fn commit_paths_are_apart(m: Map<Seq<char>, Option<ObjectView>>, commit: Seq<char>)
    requires
        m.dom().finite(),
    ensures
        commit_files(m, commit) matches Step::Done(Ok(files)) ==> file_keys(
            files,
        ).no_duplicates(),
{
    if m.contains_key(commit) {
        if let Some(ObjectView::Commit(c)) = m[commit] {
            lemma_tree_paths_apart(m, c.tree_hash, Seq::empty(), Seq::empty(), Set::empty());
        }
    }
}

proof fn lemma_tree_files_stable(
    m: Map<Seq<char>, Option<ObjectView>>,
    more: Map<Seq<char>, Option<ObjectView>>,
    tree: Seq<char>,
    prefix: Seq<char>,
    files: Seq<FileView>,
    above: Set<Seq<char>>,
)
    requires
        m.dom().finite(),
        extends(more, m),
        tree_files(m, tree, prefix, files, above) is Done,
    ensures
        tree_files(more, tree, prefix, files, above) == tree_files(m, tree, prefix, files, above),
    decreases m.dom().difference(above).len(), 0nat,
{
    if !above.contains(tree) {
        assert(m.dom().contains(tree));
        assert(more[tree] == m[tree]);
        if let Some(ObjectView::Tree(entries)) = m[tree] {
            m.dom().lemma_set_insert_diff_decreases(above, tree);
            lemma_entries_files_stable(m, more, entries, prefix, files, above.insert(tree));
        }
    }
}

proof fn lemma_entries_files_stable(
    m: Map<Seq<char>, Option<ObjectView>>,
    more: Map<Seq<char>, Option<ObjectView>>,
    entries: Seq<TreeEntryView>,
    prefix: Seq<char>,
    files: Seq<FileView>,
    above: Set<Seq<char>>,
)
    requires
        m.dom().finite(),
        extends(more, m),
        entries_files(m, entries, prefix, files, above) is Done,
    ensures
        entries_files(more, entries, prefix, files, above) == entries_files(
            m,
            entries,
            prefix,
            files,
            above,
        ),
    decreases m.dom().difference(above).len(), entries.len(),
{
    if entries.len() > 0 {
        let e = entries[0];
        let path = join(prefix, e.name);
        let rest = entries.drop_first();
        if e.mode == FileMode::Directory {
            lemma_tree_files_stable(m, more, e.hash, path, files, above);
            if let Step::Done(Ok(now)) = tree_files(m, e.hash, path, files, above) {
                lemma_entries_files_stable(m, more, rest, prefix, now, above);
            }
        } else {
            let now = file_put(files, FileView { path, hash: e.hash, mode: e.mode });
            lemma_entries_files_stable(m, more, rest, prefix, now, above);
        }
    }
}

/// The files of a commit do not depend on which further objects are known.
pub proof fn commit_files_are_stable(
    m: Map<Seq<char>, Option<ObjectView>>,
    more: Map<Seq<char>, Option<ObjectView>>,
    commit: Seq<char>,
)
    requires
        m.dom().finite(),
        extends(more, m),
        commit_files(m, commit) is Done,
    ensures
        commit_files(more, commit) == commit_files(m, commit),
{
    assert(m.dom().contains(commit));
    assert(more[commit] == m[commit]);
    if let Some(ObjectView::Commit(c)) = m[commit] {
        lemma_tree_files_stable(
            m,
            more,
            c.tree_hash,
            Seq::empty(),
            Seq::empty(),
            Set::empty(),
        );
    }
}

/// The files that the entries of a tree without directories stand for.
pub open spec fn entry_files(entries: Seq<TreeEntryView>) -> Seq<FileView> {
    entries.map_values(|e: TreeEntryView| FileView { path: e.name, hash: e.hash, mode: e.mode })
}

/// Whether a commit is known to have a tree with exactly these entries.
pub open spec fn has_entries(
    m: Map<Seq<char>, Option<ObjectView>>,
    commit: Seq<char>,
    entries: Seq<TreeEntryView>,
) -> bool {
    &&& m.dom().finite()
    &&& m.contains_key(commit)
    &&& m[commit] matches Some(ObjectView::Commit(c)) && m.contains_key(c.tree_hash)
        && m[c.tree_hash] == Some(ObjectView::Tree(entries))
}

proof fn lemma_flat_entries(
    m: Map<Seq<char>, Option<ObjectView>>,
    entries: Seq<TreeEntryView>,
    n: int,
    above: Set<Seq<char>>,
)
    requires
        m.dom().finite(),
        file_keys(entry_files(entries)).no_duplicates(),
        forall|i: int|
            0 <= i < entries.len() ==> (#[trigger] entries[i]).mode != FileMode::Directory,
        0 <= n <= entries.len(),
    ensures
        entries_files(
            m,
            entries.skip(n),
            Seq::empty(),
            entry_files(entries.take(n)),
            above,
        ) == Step::Done(Ok::<Seq<FileView>, BrassError>(entry_files(entries))),
    decreases entries.len() - n,
{
    let rest = entries.skip(n);
    if n == entries.len() {
        assert(entries.take(n) =~= entries);
    } else {
        let files = entry_files(entries.take(n));
        let f = entry_files(entries)[n];
        let all = file_keys(entry_files(entries));
        let ks = file_keys(files);
        assert(rest[0] == entries[n]);
        assert(entries[n].mode != FileMode::Directory);
        assert forall|i: int| 0 <= i < ks.len() implies ks[i] != components(f.path) by {
            assert(all[i] == ks[i]);
            assert(all[n] == components(f.path));
        }
        lemma_position_is(ks, components(f.path), ks.len() as int);
        assert(files.push(f) =~= entry_files(entries.take(n + 1)));
        assert(rest.drop_first() =~= entries.skip(n + 1));
        lemma_flat_entries(m, entries, n + 1, above);
    }
}

/// A commit whose tree holds no directory, and no path twice, has exactly the
/// files that the entries of the tree stand for.
pub proof fn flat_tree_has_its_entries(
    m: Map<Seq<char>, Option<ObjectView>>,
    commit: Seq<char>,
    entries: Seq<TreeEntryView>,
)
    requires
        has_entries(m, commit, entries),
        file_keys(entry_files(entries)).no_duplicates(),
        forall|i: int|
            0 <= i < entries.len() ==> (#[trigger] entries[i]).mode != FileMode::Directory,
    ensures
        commit_files(m, commit) == Step::Done(
            Ok::<Seq<FileView>, BrassError>(entry_files(entries)),
        ),
{
    if let Some(ObjectView::Commit(c)) = m[commit] {
        lemma_flat_entries(m, entries, 0, Set::empty().insert(c.tree_hash));
        assert(entries.skip(0) =~= entries);
        assert(entry_files(entries.take(0)) =~= Seq::empty());
    }
}

/// Putting a file among others takes over its path, with its hash and its mode,
/// and leaves the files of all other paths as they are.
pub proof fn put_changes_one_path(files: Seq<FileView>, f: FileView, path: Seq<char>)
    ensures
        components(path) == components(f.path) ==> (file_at(file_put(files, f), path) matches Some(
            g,
        ) && g.hash == f.hash && g.mode == f.mode),
        components(path) != components(f.path) ==> file_at(file_put(files, f), path) == file_at(
            files,
            path,
        ),
{
    let ks = file_keys(files);
    let k = components(f.path);
    let p = components(path);
    let at = file_place(files, f.path);
    let after = file_put(files, f);
    let now = file_keys(after);
    lemma_position(ks, k);
    lemma_position(ks, p);
    let before = position(ks, p);
    if at < files.len() {
        assert(now =~= ks);
    } else {
        assert(now =~= ks.push(k));
        if p == k {
            assert forall|i: int| 0 <= i < at implies now[i] != p by {
                assert(ks[i] != k);
            }
            lemma_position_is(now, p, at);
        } else {
            assert forall|i: int| 0 <= i < before implies now[i] != p by {
                assert(ks[i] != p);
            }
            if before == ks.len() {
                assert(now[before] == k);
                lemma_position_is(now, p, before + 1);
            } else {
                lemma_position_is(now, p, before);
            }
        }
    }
}

/// A file is found under every way to write its path, and nothing is found
/// under a path that no file has.
pub proof fn files_are_found_by_path(files: Seq<FileView>, path: Seq<char>)
    ensures
        match file_at(files, path) {
            Some(f) => files.contains(f) && components(f.path) == components(path),
            None => forall|i: int|
                0 <= i < files.len() ==> components((#[trigger] files[i]).path) != components(path),
        },
        hash_at(files, path) == (match file_at(files, path) {
            Some(f) => Some(f.hash),
            None => None,
        }),
{
    let ks = file_keys(files);
    lemma_position(ks, components(path));
    if file_place(files, path) < files.len() {
        assert(ks[file_place(files, path)] == components(files[file_place(files, path)].path));
    } else {
        assert forall|i: int| 0 <= i < files.len() implies components((#[trigger] files[i]).path)
            != components(path) by {
            assert(ks[i] == components(files[i].path));
        }
    }
}

/// Whether entries lead from a tree through directories to a file: each is an
/// entry of the tree that the one before it names, all but the last are
/// directories, and the last is none.
pub open spec fn lead_to_file(
    m: Map<Seq<char>, Option<ObjectView>>,
    tree: Seq<char>,
    steps: Seq<TreeEntryView>,
) -> bool
    decreases steps.len(),
{
    &&& steps.len() > 0
    &&& m.contains_key(tree)
    &&& m[tree] matches Some(ObjectView::Tree(entries)) && entries.contains(steps[0])
    &&& if steps.len() == 1 {
        steps[0].mode != FileMode::Directory
    } else {
        steps[0].mode == FileMode::Directory && lead_to_file(m, steps[0].hash, steps.drop_first())
    }
}

/// The path that entries lead to: their names from a directory on.
pub open spec fn steps_path(prefix: Seq<char>, steps: Seq<TreeEntryView>) -> Seq<char>
    decreases steps.len(),
{
    if steps.len() == 0 {
        prefix
    } else {
        steps_path(join(prefix, steps[0].name), steps.drop_first())
    }
}

proof fn lemma_put_keeps_keys(files: Seq<FileView>, f: FileView)
    ensures
        file_keys(file_put(files, f)).contains(components(f.path)),
        forall|k: Seq<Seq<char>>| #[trigger]
            file_keys(files).contains(k) ==> file_keys(file_put(files, f)).contains(k),
{
    let ks = file_keys(files);
    let at = file_place(files, f.path);
    let after = file_put(files, f);
    let now = file_keys(after);
    lemma_position(ks, components(f.path));
    if at < files.len() {
        assert(now =~= ks);
        assert(now[at] == components(f.path));
    } else {
        assert(now =~= ks.push(components(f.path)));
        assert(now[at] == components(f.path));
    }
    assert forall|k: Seq<Seq<char>>| #[trigger] ks.contains(k) implies now.contains(k) by {
        let i = choose|i: int| 0 <= i < ks.len() && ks[i] == k;
        assert(now[i] == k);
    }
}

proof fn lemma_tree_files_complete(
    m: Map<Seq<char>, Option<ObjectView>>,
    tree: Seq<char>,
    prefix: Seq<char>,
    files: Seq<FileView>,
    above: Set<Seq<char>>,
)
    requires
        m.dom().finite(),
        tree_files(m, tree, prefix, files, above) matches Step::Done(Ok(_)),
    ensures
        ({
            let all = tree_files(m, tree, prefix, files, above)->Done_0->Ok_0;
            &&& forall|k: Seq<Seq<char>>| #[trigger]
                file_keys(files).contains(k) ==> file_keys(all).contains(k)
            &&& forall|steps: Seq<TreeEntryView>| #[trigger]
                lead_to_file(m, tree, steps) ==> file_keys(all).contains(
                    components(steps_path(prefix, steps)),
                )
        }),
    decreases m.dom().difference(above).len(), 0nat,
{
    if let Some(ObjectView::Tree(entries)) = m[tree] {
        m.dom().lemma_set_insert_diff_decreases(above, tree);
        lemma_entries_files_complete(m, entries, prefix, files, above.insert(tree));
    }
}

proof fn lemma_entries_files_complete(
    m: Map<Seq<char>, Option<ObjectView>>,
    entries: Seq<TreeEntryView>,
    prefix: Seq<char>,
    files: Seq<FileView>,
    above: Set<Seq<char>>,
)
    requires
        m.dom().finite(),
        entries_files(m, entries, prefix, files, above) matches Step::Done(Ok(_)),
    ensures
        ({
            let all = entries_files(m, entries, prefix, files, above)->Done_0->Ok_0;
            &&& forall|k: Seq<Seq<char>>| #[trigger]
                file_keys(files).contains(k) ==> file_keys(all).contains(k)
            &&& forall|steps: Seq<TreeEntryView>|
                steps.len() > 0 && entries.contains(steps[0]) && (if steps.len() == 1 {
                    steps[0].mode != FileMode::Directory
                } else {
                    steps[0].mode == FileMode::Directory && lead_to_file(
                        m,
                        steps[0].hash,
                        steps.drop_first(),
                    )
                }) ==> file_keys(all).contains(components(#[trigger] steps_path(prefix, steps)))
        }),
    decreases m.dom().difference(above).len(), entries.len(),
{
    let all = entries_files(m, entries, prefix, files, above)->Done_0->Ok_0;
    if entries.len() > 0 {
        let e = entries[0];
        let path = join(prefix, e.name);
        let f = FileView { path, hash: e.hash, mode: e.mode };
        let next = if e.mode == FileMode::Directory {
            lemma_tree_files_complete(m, e.hash, path, files, above);
            tree_files(m, e.hash, path, files, above)->Done_0->Ok_0
        } else {
            lemma_put_keeps_keys(files, f);
            file_put(files, f)
        };
        lemma_entries_files_complete(m, entries.drop_first(), prefix, next, above);
        assert forall|steps: Seq<TreeEntryView>|
            steps.len() > 0 && entries.contains(steps[0]) && (if steps.len() == 1 {
                steps[0].mode != FileMode::Directory
            } else {
                steps[0].mode == FileMode::Directory && lead_to_file(
                    m,
                    steps[0].hash,
                    steps.drop_first(),
                )
            }) implies file_keys(all).contains(
            components(#[trigger] steps_path(prefix, steps)),
        ) by {
            let i = choose|i: int| 0 <= i < entries.len() && entries[i] == steps[0];
            if i > 0 {
                assert(entries.drop_first()[i - 1] == steps[0]);
                assert(entries.drop_first().contains(steps[0]));
            } else if steps.len() == 1 {
                assert(steps.drop_first() =~= Seq::empty());
                assert(steps_path(path, steps.drop_first()) == path);
                assert(steps_path(prefix, steps) == path);
            } else {
                assert(steps_path(prefix, steps) == steps_path(path, steps.drop_first()));
                assert(file_keys(next).contains(
                    components(steps_path(path, steps.drop_first())),
                ));
            }
        }
    }
}

/// Where a file comes from: entries that lead to its path, the last of which has
/// its hash and its mode.
pub open spec fn is_led_to(
    m: Map<Seq<char>, Option<ObjectView>>,
    tree: Seq<char>,
    prefix: Seq<char>,
    f: FileView,
) -> bool {
    exists|steps: Seq<TreeEntryView>|
        #![trigger lead_to_file(m, tree, steps)]
        lead_to_file(m, tree, steps) && components(steps_path(prefix, steps)) == components(f.path)
            && steps.last().hash == f.hash && steps.last().mode == f.mode
}

proof fn lemma_tree_files_sound(
    m: Map<Seq<char>, Option<ObjectView>>,
    tree: Seq<char>,
    prefix: Seq<char>,
    files: Seq<FileView>,
    above: Set<Seq<char>>,
)
    requires
        m.dom().finite(),
        tree_files(m, tree, prefix, files, above) matches Step::Done(Ok(_)),
    ensures
        ({
            let all = tree_files(m, tree, prefix, files, above)->Done_0->Ok_0;
            forall|i: int|
                0 <= i < all.len() ==> files.contains(#[trigger] all[i]) || is_led_to(
                    m,
                    tree,
                    prefix,
                    all[i],
                )
        }),
    decreases m.dom().difference(above).len(), 0nat,
{
    let all = tree_files(m, tree, prefix, files, above)->Done_0->Ok_0;
    if let Some(ObjectView::Tree(entries)) = m[tree] {
        m.dom().lemma_set_insert_diff_decreases(above, tree);
        lemma_entries_files_sound(m, tree, entries, entries, prefix, files, above.insert(tree));
    } else {
        assert forall|i: int| 0 <= i < all.len() implies files.contains(#[trigger] all[i]) by {}
    }
}

proof fn lemma_entries_files_sound(
    m: Map<Seq<char>, Option<ObjectView>>,
    tree: Seq<char>,
    whole: Seq<TreeEntryView>,
    entries: Seq<TreeEntryView>,
    prefix: Seq<char>,
    files: Seq<FileView>,
    above: Set<Seq<char>>,
)
    requires
        m.dom().finite(),
        m.contains_key(tree),
        m[tree] == Some(ObjectView::Tree(whole)),
        forall|i: int| 0 <= i < entries.len() ==> whole.contains(#[trigger] entries[i]),
        entries_files(m, entries, prefix, files, above) matches Step::Done(Ok(_)),
    ensures
        ({
            let all = entries_files(m, entries, prefix, files, above)->Done_0->Ok_0;
            forall|i: int|
                0 <= i < all.len() ==> files.contains(#[trigger] all[i]) || is_led_to(
                    m,
                    tree,
                    prefix,
                    all[i],
                )
        }),
    decreases m.dom().difference(above).len(), entries.len(),
{
    let all = entries_files(m, entries, prefix, files, above)->Done_0->Ok_0;
    if entries.len() == 0 {
        assert forall|i: int| 0 <= i < all.len() implies files.contains(#[trigger] all[i]) by {}
    } else {
        let e = entries[0];
        let rest = entries.drop_first();
        let path = join(prefix, e.name);
        assert(whole.contains(entries[0]));
        assert forall|i: int| 0 <= i < rest.len() implies whole.contains(#[trigger] rest[i]) by {
            assert(rest[i] == entries[i + 1]);
        }
        let f = FileView { path, hash: e.hash, mode: e.mode };
        let next = if e.mode == FileMode::Directory {
            tree_files(m, e.hash, path, files, above)->Done_0->Ok_0
        } else {
            file_put(files, f)
        };
        lemma_entries_files_sound(m, tree, whole, rest, prefix, next, above);
        if e.mode == FileMode::Directory {
            lemma_tree_files_sound(m, e.hash, path, files, above);
        }
        assert forall|g: FileView| #[trigger]
            next.contains(g) implies files.contains(g) || is_led_to(m, tree, prefix, g) by {
            let j = choose|j: int| 0 <= j < next.len() && next[j] == g;
            if e.mode == FileMode::Directory {
                if !files.contains(g) {
                    assert(is_led_to(m, e.hash, path, next[j]));
                    let less = choose|steps: Seq<TreeEntryView>|
                        #![trigger lead_to_file(m, e.hash, steps)]
                        lead_to_file(m, e.hash, steps) && components(steps_path(path, steps))
                            == components(g.path) && steps.last().hash == g.hash
                            && steps.last().mode == g.mode;
                    let steps = seq![e] + less;
                    assert(steps.drop_first() =~= less);
                    assert(steps.last() == less.last());
                    assert(lead_to_file(m, tree, steps));
                    assert(steps_path(prefix, steps) == steps_path(path, less));
                }
            } else {
                let at = file_place(files, path);
                lemma_position(file_keys(files), components(path));
                if j != at {
                    assert(files[j] == g);
                } else {
                    let steps = seq![e];
                    assert(steps.drop_first() =~= Seq::empty());
                    assert(lead_to_file(m, tree, steps));
                    assert(steps_path(path, steps.drop_first()) == path);
                    assert(steps_path(prefix, steps) == path);
                    if at < files.len() {
                        assert(file_keys(files)[at] == components(files[at].path));
                    }
                }
            }
        }
        assert forall|i: int| 0 <= i < all.len() implies files.contains(#[trigger] all[i])
            || is_led_to(m, tree, prefix, all[i]) by {
            if next.contains(all[i]) {
                assert(files.contains(all[i]) || is_led_to(m, tree, prefix, all[i]));
            }
        }
    }
}

/// The files of a commit are the files of its tree, in directories of any depth:
/// there is one for every path that entries lead to from the tree, and each has
/// the hash and the mode of an entry that leads to its path.
pub proof fn commit_files_are_those_of_its_tree(
    m: Map<Seq<char>, Option<ObjectView>>,
    commit: Seq<char>,
    tree: Seq<char>,
    files: Seq<FileView>,
)
    requires
        m.dom().finite(),
        m.contains_key(commit),
        m[commit] matches Some(ObjectView::Commit(c)) && c.tree_hash == tree,
        commit_files(m, commit) == Step::Done(Ok::<Seq<FileView>, BrassError>(files)),
    ensures
        forall|steps: Seq<TreeEntryView>| #[trigger]
            lead_to_file(m, tree, steps) ==> file_at(
                files,
                steps_path(Seq::empty(), steps),
            ) is Some,
        forall|i: int|
            0 <= i < files.len() ==> is_led_to(m, tree, Seq::empty(), #[trigger] files[i]),
{
    let none = Seq::<FileView>::empty();
    lemma_tree_files_complete(m, tree, Seq::empty(), none, Set::empty());
    lemma_tree_files_sound(m, tree, Seq::empty(), none, Set::empty());
    let all = tree_files(m, tree, Seq::empty(), none, Set::empty())->Done_0->Ok_0;
    assert(all == files);
    assert forall|steps: Seq<TreeEntryView>| #[trigger]
        lead_to_file(m, tree, steps) implies file_at(
        files,
        steps_path(Seq::empty(), steps),
    ) is Some by {
        let path = steps_path(Seq::empty(), steps);
        assert(file_keys(files).contains(components(path)));
        lemma_position(file_keys(files), components(path));
    }
    assert forall|i: int| 0 <= i < files.len() implies is_led_to(
        m,
        tree,
        Seq::empty(),
        #[trigger] files[i],
    ) by {
        assert(none.contains(all[i]) || is_led_to(m, tree, Seq::empty(), all[i]));
        assert(!none.contains(files[i]));
    }
}

/// Whether a tree has a directory that another tree holds.
pub open spec fn has_directory(
    m: Map<Seq<char>, Option<ObjectView>>,
    tree: Seq<char>,
    inner: Seq<char>,
) -> bool {
    &&& m.contains_key(tree)
    &&& m[tree] matches Some(ObjectView::Tree(entries)) && exists|k: int|
        0 <= k < entries.len() && (#[trigger] entries[k]).mode == FileMode::Directory
            && entries[k].hash == inner
}

/// Whether trees stand in each other in a row: each has the next as a directory.
pub open spec fn is_tree_row(
    m: Map<Seq<char>, Option<ObjectView>>,
    row: Seq<Seq<char>>,
) -> bool {
    forall|i: int, j: int|
        #![trigger row[i], row[j]]
        0 <= i && j == i + 1 && j < row.len() ==> has_directory(m, row[i], row[j])
}

proof fn lemma_tree_fails(
    m: Map<Seq<char>, Option<ObjectView>>,
    tree: Seq<char>,
    prefix: Seq<char>,
    files: Seq<FileView>,
    above: Set<Seq<char>>,
    row: Seq<Seq<char>>,
) -> (r: Seq<Seq<char>>)
    requires
        m.dom().finite(),
        row.len() > 0,
        row.last() == tree,
        is_tree_row(m, row),
        forall|x: Seq<char>| #[trigger] above.contains(x) ==> row.drop_last().contains(x),
        tree_files(m, tree, prefix, files, above) matches Step::Done(Err(_)),
    ensures
        tree_files(m, tree, prefix, files, above) == Step::Done(
            Err::<Seq<FileView>, BrassError>(BrassError::CyclicTree),
        ),
        r.len() > 0,
        r[0] == row[0],
        is_tree_row(m, r),
        !r.no_duplicates(),
    decreases m.dom().difference(above).len(), 0nat,
{
    if above.contains(tree) {
        let less = row.drop_last();
        let k = choose|k: int| 0 <= k < less.len() && less[k] == tree;
        assert(row[k] == row[row.len() - 1]);
        row
    } else {
        let entries = m[tree]->0->Tree_0;
        m.dom().lemma_set_insert_diff_decreases(above, tree);
        assert forall|x: Seq<char>| #[trigger]
            above.insert(tree).contains(x) implies row.contains(x) by {
            if x == tree {
                assert(row[row.len() - 1] == x);
            } else {
                let less = row.drop_last();
                assert(less.contains(x));
                let k = choose|k: int| 0 <= k < less.len() && less[k] == x;
                assert(row[k] == x);
            }
        }
        assert forall|k: int|
            0 <= k < entries.len() && (#[trigger] entries[k]).mode
                == FileMode::Directory implies has_directory(m, tree, entries[k].hash) by {}
        lemma_entries_fail(m, entries, prefix, files, above.insert(tree), row)
    }
}

proof fn lemma_entries_fail(
    m: Map<Seq<char>, Option<ObjectView>>,
    entries: Seq<TreeEntryView>,
    prefix: Seq<char>,
    files: Seq<FileView>,
    above: Set<Seq<char>>,
    row: Seq<Seq<char>>,
) -> (r: Seq<Seq<char>>)
    requires
        m.dom().finite(),
        row.len() > 0,
        is_tree_row(m, row),
        forall|x: Seq<char>| #[trigger] above.contains(x) ==> row.contains(x),
        forall|k: int|
            0 <= k < entries.len() && (#[trigger] entries[k]).mode == FileMode::Directory
                ==> has_directory(m, row.last(), entries[k].hash),
        entries_files(m, entries, prefix, files, above) matches Step::Done(Err(_)),
    ensures
        entries_files(m, entries, prefix, files, above) == Step::Done(
            Err::<Seq<FileView>, BrassError>(BrassError::CyclicTree),
        ),
        r.len() > 0,
        r[0] == row[0],
        is_tree_row(m, r),
        !r.no_duplicates(),
    decreases m.dom().difference(above).len(), entries.len(),
{
    let e = entries[0];
    let path = join(prefix, e.name);
    let rest = entries.drop_first();
    assert forall|k: int|
        0 <= k < rest.len() && (#[trigger] rest[k]).mode == FileMode::Directory implies
        has_directory(m, row.last(), rest[k].hash) by {
        assert(rest[k] == entries[k + 1]);
    }
    if e.mode == FileMode::Directory {
        let longer = row.push(e.hash);
        assert(longer.drop_last() =~= row);
        assert forall|i: int, j: int|
            #![trigger longer[i], longer[j]]
            0 <= i && j == i + 1 && j < longer.len() implies has_directory(
            m,
            longer[i],
            longer[j],
        ) by {
            if j < row.len() {
                assert(longer[i] == row[i] && longer[j] == row[j]);
            } else {
                assert(longer[i] == row.last());
            }
        }
        match tree_files(m, e.hash, path, files, above) {
            Step::Done(Ok(more)) => lemma_entries_fail(m, rest, prefix, more, above, row),
            _ => lemma_tree_fails(m, e.hash, path, files, above, longer),
        }
    } else {
        let now = file_put(files, FileView { path, hash: e.hash, mode: e.mode });
        lemma_entries_fail(m, rest, prefix, now, above, row)
    }
}

/// The files of a commit cannot be told only where its trees go in a circle: from
/// the tree of the commit through directories to a tree that came before.
pub proof fn only_cyclic_trees_fail(
    m: Map<Seq<char>, Option<ObjectView>>,
    commit: Seq<char>,
    e: BrassError,
) -> (row: Seq<Seq<char>>)
    requires
        m.dom().finite(),
        commit_files(m, commit) == Step::Done(Err::<Seq<FileView>, BrassError>(e)),
    ensures
        e == BrassError::CyclicTree,
        row.len() > 0,
        m[commit] matches Some(ObjectView::Commit(c)) && row[0] == c.tree_hash,
        is_tree_row(m, row),
        !row.no_duplicates(),
{
    let tree = m[commit]->0->Commit_0.tree_hash;
    lemma_tree_fails(m, tree, Seq::empty(), Seq::empty(), Set::empty(), seq![tree])
}

proof fn lemma_tree_needs(
    m: Map<Seq<char>, Option<ObjectView>>,
    tree: Seq<char>,
    prefix: Seq<char>,
    files: Seq<FileView>,
    above: Set<Seq<char>>,
)
    requires
        m.dom().finite(),
    ensures
        tree_files(m, tree, prefix, files, above) matches Step::Need(h) ==> !m.contains_key(h),
    decreases m.dom().difference(above).len(), 0nat,
{
    if !above.contains(tree) && m.contains_key(tree) {
        if let Some(ObjectView::Tree(entries)) = m[tree] {
            m.dom().lemma_set_insert_diff_decreases(above, tree);
            lemma_entries_need(m, entries, prefix, files, above.insert(tree));
        }
    }
}

proof fn lemma_entries_need(
    m: Map<Seq<char>, Option<ObjectView>>,
    entries: Seq<TreeEntryView>,
    prefix: Seq<char>,
    files: Seq<FileView>,
    above: Set<Seq<char>>,
)
    requires
        m.dom().finite(),
    ensures
        entries_files(m, entries, prefix, files, above) matches Step::Need(h)
            ==> !m.contains_key(h),
    decreases m.dom().difference(above).len(), entries.len(),
{
    if entries.len() > 0 {
        let e = entries[0];
        let path = join(prefix, e.name);
        let rest = entries.drop_first();
        if e.mode == FileMode::Directory {
            lemma_tree_needs(m, e.hash, path, files, above);
            if let Step::Done(Ok(more)) = tree_files(m, e.hash, path, files, above) {
                lemma_entries_need(m, rest, prefix, more, above);
            }
        } else {
            let now = file_put(files, FileView { path, hash: e.hash, mode: e.mode });
            lemma_entries_need(m, rest, prefix, now, above);
        }
    }
}

/// Telling the files of a commit only ever needs an object that has not been
/// looked up yet; what is known to be no commit has no files.
pub proof fn commit_files_need_the_unknown(
    m: Map<Seq<char>, Option<ObjectView>>,
    commit: Seq<char>,
)
    requires
        m.dom().finite(),
    ensures
        commit_files(m, commit) matches Step::Need(h) ==> !m.contains_key(h),
        m.contains_key(commit) && !(m[commit] matches Some(ObjectView::Commit(_))) ==> commit_files(
            m,
            commit,
        ) == Step::Done(Ok::<Seq<FileView>, BrassError>(Seq::empty())),
{
    if m.contains_key(commit) {
        if let Some(ObjectView::Commit(c)) = m[commit] {
            lemma_tree_needs(m, c.tree_hash, Seq::empty(), Seq::empty(), Set::empty());
        }
    }
}

} // verus!
