//! Garbage collection, packing, and what comes from a server.
use vstd::prelude::*;
use crate::error::BrassError;
use crate::history::{
    closure, closure_is_closed, is_closed, links, walk_collects_trees_and_parents, Reach, Step,
};
use crate::index::{Index, IndexEntryView};
use crate::object::ObjectView;
use crate::objects::{is_in_place, LooseObject};
use crate::pack::{
    build_pack, contents, pack_data, pack_index, pack_name, stored_views, unpack, unpack_objects,
    Pack, StoredObject,
};
use crate::paths::{join, join_all, join_paths};
use crate::refs::{read_ref, ref_target, ref_text, write_ref};
use crate::repository::{RefUpdate, Repository};
use crate::store::{extends, ObjectStore};
use crate::text::{is_blank, same_text, views};

verus! {

/// What a pull comes to.
#[derive(Debug, Clone, PartialEq, Eq)]
pub enum PullResult {
    /// The local commit is the remote one.
    AlreadyUpToDate,
    /// The current commit moves forward to the remote one.
    FastForwarded(String),
    /// The two histories have to be merged first; nothing changes.
    DivergedNeedsMerge { local: String, remote: String },
}

/// A `PullResult` as a mathematical value.
#[verifier::ext_equal]
pub enum PullView {
    AlreadyUpToDate,
    FastForwarded(Seq<char>),
    DivergedNeedsMerge { local: Seq<char>, remote: Seq<char> },
}

impl View for PullResult {
    type V = PullView;

    open spec fn view(&self) -> PullView {
        match self {
            PullResult::AlreadyUpToDate => PullView::AlreadyUpToDate,
            PullResult::FastForwarded(hash) => PullView::FastForwarded(hash@),
            PullResult::DivergedNeedsMerge { local, remote } => PullView::DivergedNeedsMerge {
                local: local@,
                remote: remote@,
            },
        }
    }
}

/// What a pull comes to, given what the walk over the ancestors of the remote
/// commit comes to. The walk does not matter where there is no local commit or
/// where it is the remote one.
pub open spec fn pull_found(
    walk: Step<Set<Seq<char>>>,
    local: Seq<char>,
    remote: Seq<char>,
) -> Step<PullView> {
    if local.len() == 0 {
        Step::Done(PullView::FastForwarded(remote))
    } else if local == remote {
        Step::Done(PullView::AlreadyUpToDate)
    } else {
        match walk {
            Step::Need(h) => Step::Need(h),
            Step::Done(ancestors) => Step::Done(
                if ancestors.contains(local) {
                    PullView::FastForwarded(remote)
                } else {
                    PullView::DivergedNeedsMerge { local, remote }
                },
            ),
        }
    }
}

/// What a pull comes to: a local commit, which may be missing, and a remote
/// one. The current commit only ever moves forward, to a descendant.
pub open spec fn pull_of(
    m: Map<Seq<char>, Option<ObjectView>>,
    local: Seq<char>,
    remote: Seq<char>,
) -> Step<PullView> {
    pull_found(closure(m, false, seq![remote], Set::empty()), local, remote)
}

/// The places of the names that were not seen, in their order.
pub open spec fn unseen(names: Seq<Seq<char>>, seen: Set<Seq<char>>) -> Seq<int>
    decreases names.len(),
{
    if names.len() == 0 {
        Seq::empty()
    } else if seen.contains(names.last()) {
        unseen(names.drop_last(), seen)
    } else {
        unseen(names.drop_last(), seen).push(names.len() - 1)
    }
}

/// The hashes of the staged files.
pub open spec fn index_hashes(index: Seq<IndexEntryView>) -> Seq<Seq<char>> {
    index.map_values(|e: IndexEntryView| e.hash)
}

/// The walk over all that has to be kept: what the roots hold and come from,
/// and what is staged.
pub fn collect_all_reachable_hashes(roots: Vec<String>, index: &Index) -> (r: Reach)
    ensures
        r.whole,
        views(r.queue@) == views(roots@),
        r.seen@ == index_hashes(index@).to_set(),
{
    let mut hashes: Vec<String> = Vec::new();
    let ghost want = index_hashes(index@);
    let mut i: usize = 0;
    assert(views(hashes@) =~= want.take(0));
    while i < index.entries.len()
        invariant
            i <= index.entries@.len(),
            want == index_hashes(index@),
            views(hashes@) == want.take(i as int),
        decreases index.entries@.len() - i,
    {
        let ghost before = views(hashes@);
        let hash = index.entries[i].hash.clone();
        hashes.push(hash);
        i = i + 1;
        assert(views(hashes@) =~= before.push(hash@));
        assert(views(hashes@) =~= want.take(i as int));
    }
    assert(want.take(i as int) =~= want);
    Reach::objects(roots, &hashes)
}

/// What is fetched: loose objects that are written, and then what is wrong with
/// the rest of the pack, or the ref that remembers where the remote stands.
#[derive(Debug, Clone, PartialEq, Eq)]
pub struct FetchPlan {
    pub objects: Vec<LooseObject>,
    pub error: Option<BrassError>,
    pub tracking: Option<RefUpdate>,
}

impl Repository {
    /// The loose objects that are removed, as places in the list of the names
    /// of all loose objects: those that a finished walk has not come by.
    pub fn gc(&self, reach: &Reach, loose: &Vec<String>) -> (r: Vec<usize>)
        ensures
            r@.map_values(|i: usize| i as int) == unseen(views(loose@), reach.seen@),
    {
        let ghost names = views(loose@);
        let ghost num = |i: usize| i as int;
        let mut out: Vec<usize> = Vec::new();
        let mut i: usize = 0;
        assert(out@.map_values(num) =~= unseen(names.take(0), reach.seen@));
        while i < loose.len()
            invariant
                i <= loose@.len(),
                names == views(loose@),
                num == (|i: usize| i as int),
                out@.map_values(num) == unseen(names.take(i as int), reach.seen@),
            decreases loose@.len() - i,
        {
            assert(names.take(i + 1).drop_last() =~= names.take(i as int));
            assert(names.take(i + 1).last() == loose@[i as int]@);
            if !reach.has_seen(loose[i].as_str()) {
                let ghost before = out@;
                out.push(i);
                assert(out@.map_values(num) =~= before.map_values(num).push(i as int));
            }
            i = i + 1;
        }
        assert(names.take(i as int) =~= names);
        out
    }

    /// The pack that the loose objects are put into; it is named after the
    /// time.
    pub fn pack(&self, objects: &Vec<StoredObject>, secs: u64) -> (r: Result<Pack, BrassError>)
        ensures
            match r {
                Ok(p) => {
                    let all = stored_views(objects@);
                    let packs = join(self.brass_dir@, "packs"@);
                    &&& objects@.len() > 0
                    &&& p.count == objects@.len()
                    &&& p.data@ == pack_data(all)
                    &&& p.index@ == pack_index(all)
                    &&& p.pack_path@ == join(packs, pack_name(secs) + ".pack"@)
                    &&& p.idx_path@ == join(packs, pack_name(secs) + ".idx"@)
                },
                Err(e) => objects@.len() == 0 && e == BrassError::NothingToPack,
            },
    {
        build_pack(self.brass_dir.as_str(), objects, secs)
    }

    /// The objects of a pack as loose objects, up to the first that is not
    /// sound, and what is wrong with that one.
    pub fn unpack_objects(&self, pack: &[u8]) -> (r: (Vec<LooseObject>, Option<BrassError>))
        ensures
            contents(r.0@) == unpack(pack@).0,
            r.1 == unpack(pack@).1,
            forall|i: int|
                0 <= i < r.0@.len() ==> is_in_place(#[trigger] r.0@[i], self.brass_dir@),
    {
        unpack_objects(self.brass_dir.as_str(), pack)
    }

    /// The file that remembers where a remote ref stands.
    pub fn tracking_file(&self, ref_name: &str) -> (r: String)
        ensures
            r@ == join(join(join(self.brass_dir@, "refs"@), "remotes/origin"@), ref_name@),
    {
        join_paths(join_all(self.brass_dir.as_str(), "refs", "remotes/origin").as_str(), ref_name)
    }

    /// What is done with a pack from a server: its objects are written, and
    /// where all of them are sound and the server told where its ref stands,
    /// that is remembered.
    pub fn fetch(&self, remote_hash: Option<&str>, ref_name: &str, pack: &[u8]) -> (r: FetchPlan)
        ensures
            contents(r.objects@) == unpack(pack@).0,
            r.error == unpack(pack@).1,
            forall|i: int|
                0 <= i < r.objects@.len() ==> is_in_place(
                    #[trigger] r.objects@[i],
                    self.brass_dir@,
                ),
            match (unpack(pack@).1, remote_hash) {
                (None, Some(hash)) => r.tracking matches Some(update) && update.path@ == join(
                    join(join(self.brass_dir@, "refs"@), "remotes/origin"@),
                    ref_name@,
                ) && update.text@ == ref_text(hash@) && update.make_parent,
                _ => r.tracking is None,
            },
    {
        let (objects, error) = self.unpack_objects(pack);
        let tracking = match (error, remote_hash) {
            (None, Some(hash)) => Some(
                RefUpdate {
                    path: self.tracking_file(ref_name),
                    text: write_ref(hash),
                    make_parent: true,
                },
            ),
            _ => None,
        };
        FetchPlan { objects, error, tracking }
    }

    /// The walk that tells what a pull comes to. `tracking` is what is
    /// remembered of the remote ref, `local` the current commit, empty where
    /// there is none.
    pub fn pull_fast_forward(&self, tracking: Option<&str>, local: &str) -> (r: Result<
        PullWalk,
        BrassError,
    >)
        ensures
            match tracking {
                None => r matches Err(e) && e == BrassError::TrackingRefMissing,
                Some(text) => r matches Ok(walk) && walk.is_valid() && (forall|
                    m: Map<Seq<char>, Option<ObjectView>>,
                | #[trigger]
                    walk.outcome(m) == pull_of(m, local@, ref_target(text@))),
            },
    {
        match tracking {
            None => Err(BrassError::TrackingRefMissing),
            Some(text) => Ok(PullWalk::new(local, read_ref(text).as_str())),
        }
    }
}

/// The walk that tells what a pull comes to.
pub struct PullWalk {
    /// The current commit, empty where there is none.
    pub local: String,
    /// The remote commit.
    pub remote: String,
    /// The walk over the ancestors of the remote commit.
    pub reach: Reach,
}

impl PullWalk {
    /// What the pull will come to from where the walk stands.
    pub open spec fn outcome(&self, m: Map<Seq<char>, Option<ObjectView>>) -> Step<PullView> {
        pull_found(
            closure(m, false, views(self.reach.queue@), self.reach.seen@),
            self.local@,
            self.remote@,
        )
    }

    /// Whether the walk is one over ancestors.
    pub open spec fn is_valid(&self) -> bool {
        !self.reach.whole
    }

    /// The walk for a local and a remote commit.
    pub fn new(local: &str, remote: &str) -> (r: PullWalk)
        ensures
            r.is_valid(),
            forall|m: Map<Seq<char>, Option<ObjectView>>| #[trigger]
                r.outcome(m) == pull_of(m, local@, remote@),
    {
        PullWalk {
            local: local.to_owned(),
            remote: remote.to_owned(),
            reach: Reach::ancestors(remote),
        }
    }

    /// Goes on as far as the known objects allow: gives what the pull comes to,
    /// or the hash that has to be looked up next.
    pub fn advance(&mut self, store: &ObjectStore) -> (r: Result<PullResult, String>)
        requires
            old(self).is_valid(),
        ensures
            final(self).is_valid(),
            old(self).outcome(store@) == (match r {
                Ok(result) => Step::Done(result@),
                Err(hash) => Step::Need(hash@),
            }),
            forall|m: Map<Seq<char>, Option<ObjectView>>| #[trigger]
                extends(m, store@) ==> old(self).outcome(m) == (match r {
                    Ok(result) => Step::Done(result@),
                    Err(_) => final(self).outcome(m),
                }),
    {
        store.finite();
        if is_blank(self.local.as_str()) {
            return Ok(PullResult::FastForwarded(self.remote.clone()));
        }
        if same_text(self.local.as_str(), self.remote.as_str()) {
            return Ok(PullResult::AlreadyUpToDate);
        }
        if let Some(hash) = self.reach.advance(store) {
            return Err(hash);
        }
        if self.reach.has_seen(self.local.as_str()) {
            Ok(PullResult::FastForwarded(self.remote.clone()))
        } else {
            Ok(
                PullResult::DivergedNeedsMerge {
                    local: self.local.clone(),
                    remote: self.remote.clone(),
                },
            )
        }
    }
}

// ---------------------------------------------------------------------------
// Laws

/// Whether an object is needed: every set of hashes that holds the roots, and
/// with each object all that the object leads to, holds it.
pub open spec fn is_needed(
    m: Map<Seq<char>, Option<ObjectView>>,
    roots: Seq<Seq<char>>,
    hash: Seq<char>,
) -> bool {
    forall|p: Set<Seq<char>>| #[trigger]
        is_closed(m, true, p) && (forall|i: int|
            0 <= i < roots.len() ==> p.contains(#[trigger] roots[i])) ==> p.contains(hash)
}

/// Garbage collection keeps what is needed: an object that a root leads to, and
/// an object that is staged, is never among those that are removed. What is
/// staged has to be files, which lead nowhere.
pub proof fn gc_keeps_what_is_needed(
    m: Map<Seq<char>, Option<ObjectView>>,
    roots: Seq<Seq<char>>,
    kept: Set<Seq<char>>,
    hash: Seq<char>,
)
    requires
        m.dom().finite(),
        closure(m, true, roots, kept) is Done,
        forall|h: Seq<char>| #[trigger]
            kept.contains(h) && m.contains_key(h) ==> links(true, m[h]).len() == 0,
        is_needed(m, roots, hash) || kept.contains(hash),
    ensures
        closure(m, true, roots, kept)->Done_0.contains(hash),
{
    let all = closure(m, true, roots, kept)->Done_0;
    closure_is_closed(m, true, roots, kept);
    assert(is_closed(m, true, all)) by {
        assert forall|h: Seq<char>, i: int|
            all.contains(h) && m.contains_key(h) && 0 <= i < links(
                true,
                m[h],
            ).len() implies all.contains(#[trigger] links(true, m[h])[i]) by {
            if kept.contains(h) {
                assert(links(true, m[h]).len() == 0);
            }
        }
    }
}

/// Exactly the objects that the walk has not come by are removed.
pub proof fn gc_removes_the_unseen(names: Seq<Seq<char>>, seen: Set<Seq<char>>)
    ensures
        forall|i: int|
            0 <= i < names.len() ==> (unseen(names, seen).contains(i) <==> !seen.contains(
                #[trigger] names[i],
            )),
        forall|i: int| #[trigger] unseen(names, seen).contains(i) ==> 0 <= i < names.len(),
    decreases names.len(),
{
    if names.len() > 0 {
        let before = names.drop_last();
        gc_removes_the_unseen(before, seen);
        let s = unseen(before, seen);
        let all = unseen(names, seen);
        let n = names.len() - 1;
        assert forall|i: int| #[trigger] all.contains(i) <==> (s.contains(i) || (i == n
            && !seen.contains(names.last()))) by {
            if s.contains(i) {
                let k = choose|k: int| 0 <= k < s.len() && s[k] == i;
                assert(all[k] == i);
            }
            if i == n && !seen.contains(names.last()) {
                assert(all[s.len() as int] == i);
            }
            if all.contains(i) {
                let k = choose|k: int| 0 <= k < all.len() && all[k] == i;
                if k < s.len() {
                    assert(s[k] == i);
                }
            }
        }
        assert forall|i: int| 0 <= i < names.len() implies (all.contains(i) <==> !seen.contains(
            #[trigger] names[i],
        )) by {
            if i < n {
                assert(before[i] == names[i]);
            } else {
                if s.contains(i) {
                    assert(0 <= i < before.len());
                }
            }
        }
    }
}

/// A pull never loses a local commit: it moves the current commit only where
/// there was none, or to a commit that the local one is an ancestor of; and
/// where the local commit is such an ancestor, it always does.
pub proof fn pull_only_moves_forward(
    m: Map<Seq<char>, Option<ObjectView>>,
    local: Seq<char>,
    remote: Seq<char>,
)
    requires
        m.dom().finite(),
        closure(m, false, seq![remote], Set::empty()) is Done,
    ensures
        ({
            let ancestors = closure(m, false, seq![remote], Set::empty())->Done_0;
            pull_of(m, local, remote) == Step::Done(
                if local.len() > 0 && local == remote {
                    PullView::AlreadyUpToDate
                } else if local.len() == 0 || ancestors.contains(local) {
                    PullView::FastForwarded(remote)
                } else {
                    PullView::DivergedNeedsMerge { local, remote }
                },
            )
        }),
{
}

/// Garbage collection never removes what history holds: where the walk looked up
/// a tree, no loose object under the hash of one of its entries is among those
/// that are removed; where it looked up a commit, neither its tree nor a parent
/// is; and no root and nothing that is staged is.
pub proof fn gc_keeps_the_content_of_history(
    m: Map<Seq<char>, Option<ObjectView>>,
    roots: Seq<Seq<char>>,
    index: Seq<IndexEntryView>,
    names: Seq<Seq<char>>,
    at: int,
)
    requires
        m.dom().finite(),
        closure(m, true, roots, index_hashes(index).to_set()) is Done,
        0 <= at < names.len(),
        unseen(
            names,
            closure(m, true, roots, index_hashes(index).to_set())->Done_0,
        ).contains(at),
    ensures
        ({
            let kept = index_hashes(index).to_set();
            let all = closure(m, true, roots, kept)->Done_0;
            &&& forall|i: int| 0 <= i < roots.len() ==> #[trigger] roots[i] != names[at]
            &&& forall|i: int| 0 <= i < index.len() ==> (#[trigger] index[i]).hash != names[at]
            &&& forall|h: Seq<char>| #[trigger]
                all.contains(h) && !kept.contains(h) ==> match m[h] {
                    Some(ObjectView::Commit(c)) => c.tree_hash != names[at] && forall|i: int|
                        0 <= i < c.parent_hashes.len() ==> #[trigger] c.parent_hashes[i]
                            != names[at],
                    Some(ObjectView::Tree(entries)) => forall|i: int|
                        0 <= i < entries.len() ==> (#[trigger] entries[i]).hash != names[at],
                    _ => true,
                }
        }),
{
    let kept = index_hashes(index).to_set();
    let all = closure(m, true, roots, kept)->Done_0;
    gc_removes_the_unseen(names, all);
    assert(!all.contains(names[at]));
    walk_collects_trees_and_parents(m, roots, kept, names[at]);
    assert forall|i: int| 0 <= i < index.len() implies (#[trigger] index[i]).hash
        != names[at] by {
        assert(index_hashes(index)[i] == index[i].hash);
        assert(kept.contains(index[i].hash));
    }
    assert forall|h: Seq<char>| #[trigger]
        all.contains(h) && !kept.contains(h) implies match m[h] {
        Some(ObjectView::Commit(c)) => c.tree_hash != names[at] && forall|i: int|
            0 <= i < c.parent_hashes.len() ==> #[trigger] c.parent_hashes[i] != names[at],
        Some(ObjectView::Tree(entries)) => forall|i: int|
            0 <= i < entries.len() ==> (#[trigger] entries[i]).hash != names[at],
        _ => true,
    } by {
        walk_collects_trees_and_parents(m, roots, kept, h);
    }
}

/// What is kept beside history is what is staged: the hash of every entry of the
/// index, and nothing else.
pub proof fn kept_hashes_are_the_staged_ones(index: Seq<IndexEntryView>, hash: Seq<char>)
    ensures
        index_hashes(index).to_set().contains(hash) <==> exists|i: int|
            0 <= i < index.len() && (#[trigger] index[i]).hash == hash,
{
    let all = index_hashes(index);
    if all.contains(hash) {
        let i = choose|i: int| 0 <= i < all.len() && all[i] == hash;
        assert(index[i].hash == hash);
    }
    if exists|i: int| 0 <= i < index.len() && (#[trigger] index[i]).hash == hash {
        let i = choose|i: int| 0 <= i < index.len() && (#[trigger] index[i]).hash == hash;
        assert(all[i] == hash);
    }
}

} // verus!
