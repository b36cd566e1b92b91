//! What the commands promise together.
use vstd::prelude::*;
use vstd::utf8::{encode_utf8, encode_utf8_decode_utf8, encode_utf8_valid_utf8};
use crate::blame::{ends_here, is_first_parent_chain};
use crate::checkout::{
    checkout_content, checkout_entries, checkout_index_is_what_was_written, ContentView,
};
use crate::error::BrassError;
use crate::files::{
    commit_files, entry_files, file_at, file_keys, file_place, flat_tree_has_its_entries,
    FileView,
};
use crate::history::Step;
use crate::index::{
    keys, place, staged, staged_entry_is_found, staging_keeps_paths_apart, IndexEntryView,
};
use crate::log::{is_spent, log_entry, log_from, one_less};
use crate::mode::FileMode;
use crate::object::{CommitView, ObjectView, Timestamp};
use crate::paths::components;
use crate::repository::{index_tree, staged_entry, stored_data, WorkFile};
use crate::status::{deleted_paths, staged_paths};
use crate::text::{lemma_position, lemma_position_is};

verus! {

/// The files that an index stands for.
pub open spec fn index_files(index: Seq<IndexEntryView>) -> Seq<FileView> {
    index.map_values(|e: IndexEntryView| FileView { path: e.path, hash: e.hash, mode: e.mode })
}

/// Whether an index stands for files: one entry for each path, and none for a
/// directory.
pub open spec fn is_file_index(index: Seq<IndexEntryView>) -> bool {
    &&& keys(index).no_duplicates()
    &&& forall|i: int| 0 <= i < index.len() ==> (#[trigger] index[i]).mode != FileMode::Directory
}

/// What is committed is what is checked out: the files of a commit that was
/// made from an index are the files of the index, with their paths, hashes and
/// modes.
pub proof fn committed_files_are_the_staged_ones(
    m: Map<Seq<char>, Option<ObjectView>>,
    index: Seq<IndexEntryView>,
    commit: Seq<char>,
    c: CommitView,
)
    requires
        m.dom().finite(),
        is_file_index(index),
        m.contains_key(commit),
        m[commit] == Some(ObjectView::Commit(c)),
        m.contains_key(c.tree_hash),
        m[c.tree_hash] == Some(ObjectView::Tree(index_tree(index))),
    ensures
        commit_files(m, commit) == Step::Done(
            Ok::<Seq<FileView>, BrassError>(index_files(index)),
        ),
{
    let entries = index_tree(index);
    assert(entry_files(entries) =~= index_files(index));
    assert(file_keys(index_files(index)) =~= keys(index));
    assert forall|i: int| 0 <= i < entries.len() implies (#[trigger] entries[i]).mode
        != FileMode::Directory by {
        assert(index[i].mode != FileMode::Directory);
    }
    flat_tree_has_its_entries(m, commit, entries);
}

proof fn lemma_found_at(index: Seq<IndexEntryView>, i: int)
    requires
        keys(index).no_duplicates(),
        0 <= i < index.len(),
    ensures
        file_place(index_files(index), index[i].path) == i,
        place(index, index[i].path) == i,
{
    let k = components(index[i].path);
    assert(file_keys(index_files(index)) =~= keys(index));
    assert forall|j: int| 0 <= j < i implies keys(index)[j] != k by {
        assert(keys(index)[i] == k);
    }
    assert(keys(index)[i] == k);
    lemma_position_is(keys(index), k, i);
}

proof fn lemma_nothing_staged(index: Seq<IndexEntryView>, n: int)
    requires
        keys(index).no_duplicates(),
        0 <= n <= index.len(),
    ensures
        staged_paths(index.take(n), index_files(index)) == Seq::<Seq<char>>::empty(),
        deleted_paths(index, index_files(index).take(n)) == Seq::<Seq<char>>::empty(),
    decreases n,
{
    if n > 0 {
        lemma_nothing_staged(index, n - 1);
        lemma_found_at(index, n - 1);
        assert(index.take(n).drop_last() =~= index.take(n - 1));
        assert(index_files(index).take(n).drop_last() =~= index_files(index).take(n - 1));
        assert(index_files(index).take(n).last().path == index[n - 1].path);
    }
}

/// Right after a commit nothing is staged: the status report names no path that
/// differs between the index and the commit.
pub proof fn status_is_clean_after_commit(index: Seq<IndexEntryView>)
    requires
        keys(index).no_duplicates(),
    ensures
        staged_paths(index, index_files(index)) == Seq::<Seq<char>>::empty(),
        deleted_paths(index, index_files(index)) == Seq::<Seq<char>>::empty(),
{
    lemma_nothing_staged(index, index.len() as int);
    assert(index.take(index.len() as int) =~= index);
    assert(index_files(index).take(index.len() as int) =~= index_files(index));
}

proof fn lemma_all_written(files: Seq<FileView>, written: Seq<Option<(Timestamp, u64)>>)
    requires
        written.len() == files.len(),
        forall|i: int| 0 <= i < written.len() ==> #[trigger] written[i] is Some,
    ensures
        index_files(checkout_entries(files, written)) == files,
    decreases files.len(),
{
    let index = checkout_entries(files, written);
    if files.len() == 0 {
        assert(index_files(index) =~= files);
    } else {
        let rest = written.drop_first();
        assert forall|i: int| 0 <= i < rest.len() implies #[trigger] rest[i] is Some by {
            assert(rest[i] == written[i + 1]);
        }
        lemma_all_written(files.drop_first(), rest);
        assert(written[0] is Some);
        assert(index_files(index) =~= seq![files[0]] + index_files(
            checkout_entries(files.drop_first(), rest),
        ));
        assert(index_files(index) =~= files);
    }
}

/// Right after a commit was checked out, with all its files written, nothing is
/// staged: the index stands for the files of the commit.
pub proof fn status_is_clean_after_checkout(
    m: Map<Seq<char>, Option<ObjectView>>,
    commit: Seq<char>,
    files: Seq<FileView>,
    written: Seq<Option<(Timestamp, u64)>>,
)
    requires
        m.dom().finite(),
        commit_files(m, commit) == Step::Done(Ok::<Seq<FileView>, BrassError>(files)),
        written.len() == files.len(),
        forall|i: int| 0 <= i < written.len() ==> #[trigger] written[i] is Some,
    ensures
        index_files(checkout_entries(files, written)) == files,
        staged_paths(checkout_entries(files, written), files) == Seq::<Seq<char>>::empty(),
        deleted_paths(checkout_entries(files, written), files) == Seq::<Seq<char>>::empty(),
{
    checkout_index_is_what_was_written(m, commit, files, written);
    lemma_all_written(files, written);
    status_is_clean_after_commit(checkout_entries(files, written));
}

/// The commits that the log shows.
pub open spec fn log_commits(
    m: Map<Seq<char>, Option<ObjectView>>,
    current: Seq<char>,
    left: Option<usize>,
    seen: Set<Seq<char>>,
) -> Seq<Seq<char>>
    decreases m.dom().difference(seen).len(),
    when m.dom().finite()
{
    if current.len() == 0 || is_spent(left) || seen.contains(current) || !m.contains_key(current) {
        Seq::empty()
    } else {
        match m[current] {
            Some(ObjectView::Commit(c)) => if c.parent_hashes.len() == 0 {
                seq![current]
            } else {
                proof {
                    m.dom().lemma_set_insert_diff_decreases(seen, current);
                }
                seq![current] + log_commits(
                    m,
                    c.parent_hashes[0],
                    one_less(left),
                    seen.insert(current),
                )
            },
            _ => Seq::empty(),
        }
    }
}

/// What the log says of some commits.
pub open spec fn log_entries(
    m: Map<Seq<char>, Option<ObjectView>>,
    commits: Seq<Seq<char>>,
) -> Seq<char>
    decreases commits.len(),
{
    if commits.len() == 0 {
        Seq::empty()
    } else {
        (match m[commits[0]] {
            Some(ObjectView::Commit(c)) => log_entry(commits[0], c),
            _ => Seq::empty(),
        }) + log_entries(m, commits.drop_first())
    }
}

/// Whether a hash of a list names a commit, and the next one, if there is a
/// next one, its first parent.
pub open spec fn leads_on(
    m: Map<Seq<char>, Option<ObjectView>>,
    commits: Seq<Seq<char>>,
    i: int,
) -> bool {
    m.contains_key(commits[i]) && match m[commits[i]] {
        Some(ObjectView::Commit(c)) => i + 1 < commits.len() ==> c.parent_hashes.len() > 0
            && commits[i + 1] == c.parent_hashes[0],
        _ => false,
    }
}

/// The log shows each commit once, at most as many as the limit allows, and
/// each but the first is the first parent of the one before it.
pub proof fn log_follows_first_parents(
    m: Map<Seq<char>, Option<ObjectView>>,
    current: Seq<char>,
    left: Option<usize>,
    seen: Set<Seq<char>>,
)
    requires
        m.dom().finite(),
    ensures
        ({
            let commits = log_commits(m, current, left, seen);
            &&& left matches Some(n) ==> commits.len() <= n
            &&& commits.len() > 0 ==> commits[0] == current
            &&& commits.no_duplicates()
            &&& forall|i: int|
                0 <= i < commits.len() ==> !seen.contains(#[trigger] commits[i])
            &&& forall|i: int|
                0 <= i < commits.len() ==> #[trigger] leads_on(m, commits, i)
            &&& log_from(m, current, left, seen) matches Step::Done(text) ==> text == log_entries(
                m,
                commits,
            )
        }),
    decreases m.dom().difference(seen).len(),
{
    let commits = log_commits(m, current, left, seen);
    if current.len() == 0 || is_spent(left) || seen.contains(current) || !m.contains_key(current) {
    } else if let Some(ObjectView::Commit(c)) = m[current] {
        if c.parent_hashes.len() == 0 {
            assert(commits.drop_first() =~= Seq::empty());
            assert(log_entries(m, commits.drop_first()) =~= Seq::<char>::empty());
            assert(log_entries(m, commits) =~= log_entry(current, c));
        } else {
            let next = c.parent_hashes[0];
            let now = seen.insert(current);
            m.dom().lemma_set_insert_diff_decreases(seen, current);
            log_follows_first_parents(m, next, one_less(left), now);
            let rest = log_commits(m, next, one_less(left), now);
            assert(commits.drop_first() =~= rest);
            assert forall|i: int| 0 <= i < commits.len() implies !seen.contains(
                #[trigger] commits[i],
            ) by {
                if i > 0 {
                    assert(commits[i] == rest[i - 1]);
                    assert(!now.contains(rest[i - 1]));
                }
            }
            assert forall|i: int, j: int|
                0 <= i < j < commits.len() implies commits[i] != commits[j] by {
                assert(commits[j] == rest[j - 1]);
                assert(!now.contains(rest[j - 1]));
                if i > 0 {
                    assert(commits[i] == rest[i - 1]);
                }
            }
            assert forall|i: int| 0 <= i < commits.len() implies #[trigger] leads_on(
                m,
                commits,
                i,
            ) by {
                if i > 0 {
                    assert(leads_on(m, rest, i - 1));
                    assert(commits[i] == rest[i - 1]);
                    assert(i + 1 < commits.len() ==> commits[i + 1] == rest[i]);
                } else {
                    assert(commits.len() > 1 ==> commits[1] == rest[0]);
                }
            }
        }
    }
}

/// The commit under a hash.
pub open spec fn commit_at(m: Map<Seq<char>, Option<ObjectView>>, hash: Seq<char>) -> CommitView {
    m[hash]->Some_0->Commit_0
}

/// How many of `k` commits the log shows under a limit.
pub open spec fn shown_count(limit: Option<usize>, k: nat) -> nat {
    match limit {
        Some(n) => if n < k {
            n as nat
        } else {
            k
        },
        None => k,
    }
}

/// What the log says of the first `n` of some commits.
pub open spec fn first_entries(
    m: Map<Seq<char>, Option<ObjectView>>,
    chain: Seq<Seq<char>>,
    n: nat,
) -> Seq<Seq<char>> {
    Seq::new(n, |j: int| log_entry(chain[j], commit_at(m, chain[j])))
}

proof fn lemma_log_from_here(
    m: Map<Seq<char>, Option<ObjectView>>,
    chain: Seq<Seq<char>>,
    limit: Option<usize>,
    seen: Set<Seq<char>>,
)
    requires
        m.dom().finite(),
        chain.len() > 0,
        chain.no_duplicates(),
        forall|j: int|
            0 <= j < chain.len() ==> (#[trigger] chain[j]).len() > 0 && !seen.contains(chain[j]),
        is_first_parent_chain(m, chain),
        ends_here(m, chain[0], chain) || (limit matches Some(n) && n <= chain.len()),
    ensures
        log_from(m, chain[0], limit, seen) == Step::Done(
            first_entries(m, chain, shown_count(limit, chain.len())).flatten(),
        ),
    decreases chain.len(),
{
    let shown = first_entries(m, chain, shown_count(limit, chain.len()));
    let current = chain[0];
    if limit == Some(0usize) {
        assert(shown =~= Seq::empty());
    } else {
        let c = commit_at(m, current);
        assert(m.contains_key(current));
        let left = match limit {
            Some(n) => Some((n - 1) as usize),
            None => None,
        };
        let rest = chain.drop_first();
        let more = first_entries(m, rest, shown_count(left, rest.len()));
        assert(shown.drop_first() =~= more) by {
            assert forall|j: int| 0 <= j < more.len() implies shown.drop_first()[j] == more[j] by {
                assert(rest[j] == chain[j + 1]);
            }
        }
        assert(shown[0] == log_entry(current, c));
        assert(shown.flatten() == log_entry(current, c) + more.flatten());
        m.dom().lemma_set_insert_diff_decreases(seen, current);
        if rest.len() > 0 {
            assert forall|j: int| 0 <= j < rest.len() implies (#[trigger] rest[j]).len() > 0
                && !seen.insert(current).contains(rest[j]) by {
                assert(rest[j] == chain[j + 1]);
                assert(chain[j + 1] != chain[0]);
            }
            assert forall|j: int| 0 <= j < rest.len() implies m.contains_key(
                #[trigger] rest[j],
            ) && match m[rest[j]] {
                Some(ObjectView::Commit(x)) => j + 1 < rest.len() ==> x.parent_hashes.len() > 0
                    && rest[j + 1] == x.parent_hashes[0],
                _ => false,
            } by {
                assert(rest[j] == chain[j + 1]);
                assert(j + 1 < rest.len() ==> rest[j + 1] == chain[j + 2]);
            }
            assert(rest.last() == chain.last());
            assert(chain[1] == c.parent_hashes[0]);
            lemma_log_from_here(m, rest, left, seen.insert(current));
        } else {
            assert(more =~= Seq::empty());
            if c.parent_hashes.len() > 0 {
                assert(log_from(m, c.parent_hashes[0], left, seen.insert(current)) == Step::Done(
                    Seq::<char>::empty(),
                ));
            }
            assert(log_entry(current, c) + Seq::<char>::empty() =~= log_entry(current, c));
        }
    }
}

/// The log is complete. Along a row of different commits, each the first parent
/// of the one before it, the log shows every commit, newest first, up to the
/// limit: as many as the limit says, or all where there are no more.
pub proof fn log_is_complete(
    m: Map<Seq<char>, Option<ObjectView>>,
    chain: Seq<Seq<char>>,
    limit: Option<usize>,
)
    requires
        m.dom().finite(),
        chain.len() > 0,
        chain.no_duplicates(),
        forall|j: int| 0 <= j < chain.len() ==> (#[trigger] chain[j]).len() > 0,
        is_first_parent_chain(m, chain),
        ends_here(m, chain[0], chain) || (limit matches Some(n) && n <= chain.len()),
    ensures
        log_from(m, chain[0], limit, Set::empty()) == Step::Done(
            first_entries(m, chain, shown_count(limit, chain.len())).flatten(),
        ),
{
    lemma_log_from_here(m, chain, limit, Set::empty());
}

/// What is added and committed is what a checkout writes: an added file comes
/// back with its bytes, an added link as a link to its target.
pub proof fn added_file_comes_back(
    path: Seq<char>,
    hash: Seq<char>,
    file: WorkFile,
    modified_at: Timestamp,
)
    ensures
        ({
            let e = staged_entry(path, hash, file, modified_at);
            &&& e.path == path
            &&& e.hash == hash
            &&& e.modified_at == modified_at
            &&& e.mode != FileMode::Directory
            &&& match file {
                WorkFile::File { content, readonly } => {
                    &&& checkout_content(e.mode, stored_data(file)) == ContentView::Bytes(content@)
                    &&& e.mode == (if readonly {
                        FileMode::Regular
                    } else {
                        FileMode::Executable
                    })
                    &&& content@.len() <= u64::MAX ==> e.file_size == content@.len()
                },
                WorkFile::Link { target } => {
                    &&& checkout_content(e.mode, stored_data(file)) == ContentView::Link(target@)
                    &&& e.mode == FileMode::Symlink
                    &&& encode_utf8(target@).len() <= u64::MAX ==> e.file_size == encode_utf8(
                        target@,
                    ).len()
                },
            }
        }),
{
    if let WorkFile::Link { target } = file {
        encode_utf8_valid_utf8(target@);
        encode_utf8_decode_utf8(target@);
    }
}

/// A file that was staged is part of the commit: once it is staged, the files of
/// a commit that is made from the index have its path with its hash and its
/// mode, and those of all other paths that were staged before.
pub proof fn staged_file_is_committed(
    m: Map<Seq<char>, Option<ObjectView>>,
    index: Seq<IndexEntryView>,
    e: IndexEntryView,
    commit: Seq<char>,
    c: CommitView,
    i: int,
)
    requires
        m.dom().finite(),
        is_file_index(index),
        e.mode != FileMode::Directory,
        m.contains_key(commit),
        m[commit] == Some(ObjectView::Commit(c)),
        m.contains_key(c.tree_hash),
        m[c.tree_hash] == Some(ObjectView::Tree(index_tree(staged(index, e)))),
    ensures
        commit_files(m, commit) matches Step::Done(Ok(files)) && (file_at(
            files,
            e.path,
        ) matches Some(f) && f.hash == e.hash && f.mode == e.mode) && (0 <= i < index.len()
            && components(index[i].path) != components(e.path) ==> (file_at(
            files,
            index[i].path,
        ) matches Some(g) && g.path == index[i].path && g.hash == index[i].hash && g.mode
            == index[i].mode)),
{
    let after = staged(index, e);
    let ks = keys(index);
    let at = place(index, e.path);
    lemma_position(ks, components(e.path));
    staging_keeps_paths_apart(index, e);
    staged_entry_is_found(index, e);
    assert forall|j: int| 0 <= j < after.len() implies (#[trigger] after[j]).mode
        != FileMode::Directory by {
        if j < index.len() {
            assert(index[j].mode != FileMode::Directory);
        }
    }
    committed_files_are_the_staged_ones(m, after, commit, c);
    let k = place(after, e.path);
    lemma_position(keys(after), components(e.path));
    assert(file_keys(index_files(after)) =~= keys(after));
    if 0 <= i < index.len() && components(index[i].path) != components(e.path) {
        assert(after[i] == index[i]);
        lemma_found_at(after, i);
    }
}

} // verus!
