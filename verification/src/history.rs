//! Walks over the objects of a repository.
//!
//! A walk names the next object that it needs and goes on once the object has
//! been looked up. Its outcome depends only on what the objects are, not on
//! when they are looked up.
use vstd::prelude::*;
use std::collections::VecDeque;
use vstd::hash_set::StringHashSet;
use crate::object::{BrassObject, Commit, ObjectView, Tree, TreeEntryView};
use crate::store::{answer_view, extends, ObjectStore};
use crate::text::{views, views_empty, views_push};

verus! {

/// How far a walk has come: it needs an object, or it is done.
#[verifier::ext_equal]
pub enum Step<T> {
    Need(Seq<char>),
    Done(T),
}

/// The hashes that an object leads to: from a commit to its parents, and where
/// `whole` is set also from a commit to its tree and from a tree to its entries.
pub open spec fn links(whole: bool, answer: Option<ObjectView>) -> Seq<Seq<char>> {
    match answer {
        Some(ObjectView::Commit(c)) => if whole {
            seq![c.tree_hash] + c.parent_hashes
        } else {
            c.parent_hashes
        },
        Some(ObjectView::Tree(entries)) => if whole {
            entries.map_values(|e: TreeEntryView| e.hash)
        } else {
            Seq::empty()
        },
        _ => Seq::empty(),
    }
}

/// Everything in `seen`, and everything that the queue leads to without
/// passing what was seen: first come, first served.
pub open spec fn closure(
    m: Map<Seq<char>, Option<ObjectView>>,
    whole: bool,
    queue: Seq<Seq<char>>,
    seen: Set<Seq<char>>,
) -> Step<Set<Seq<char>>>
    decreases m.dom().difference(seen).len(), queue.len(),
    when m.dom().finite()
{
    if queue.len() == 0 {
        Step::Done(seen)
    } else if seen.contains(queue[0]) {
        closure(m, whole, queue.drop_first(), seen)
    } else if !m.contains_key(queue[0]) {
        Step::Need(queue[0])
    } else {
        proof {
            m.dom().lemma_set_insert_diff_decreases(seen, queue[0]);
        }
        closure(
            m,
            whole,
            queue.drop_first() + links(whole, m[queue[0]]),
            seen.insert(queue[0]),
        )
    }
}

/// A walk that collects all that some hashes lead to.
pub struct Reach {
    pub whole: bool,
    pub queue: VecDeque<String>,
    pub seen: StringHashSet,
}

pub(crate) fn push_links(queue: &mut VecDeque<String>, whole: bool, answer: &Option<BrassObject>)
    ensures
        views(final(queue)@) == views(old(queue)@) + links(whole, answer_view(*answer)),
{
    broadcast use {views_empty, views_push};

    let ghost before = views(queue@);
    match answer {
        Some(BrassObject::Commit(c)) => {
            if whole {
                queue.push_back(c.tree_hash.clone());
            }
            let ghost first = views(queue@);
            let ghost ps = views(c.parent_hashes@);
            let mut i: usize = 0;
            assert(first + ps.take(0) =~= first);
            while i < c.parent_hashes.len()
                invariant
                    i <= c.parent_hashes@.len(),
                    ps == views(c.parent_hashes@),
                    views(queue@) == first + ps.take(i as int),
                decreases c.parent_hashes@.len() - i,
            {
                let ghost q = views(queue@);
                let parent = c.parent_hashes[i].clone();
                queue.push_back(parent);
                i = i + 1;
                assert(views(queue@) =~= q.push(parent@));
                assert(views(queue@) =~= first + ps.take(i as int));
            }
            assert(ps.take(i as int) =~= ps);
            assert(views(queue@) =~= before + links(whole, answer_view(*answer)));
        },
        Some(BrassObject::Tree(t)) => {
            if whole {
                let ghost hs = t@.map_values(|e: TreeEntryView| e.hash);
                let mut i: usize = 0;
                assert(before + hs.take(0) =~= before);
                while i < t.entries.len()
                    invariant
                        i <= t.entries@.len(),
                        hs == t@.map_values(|e: TreeEntryView| e.hash),
                        views(queue@) == before + hs.take(i as int),
                    decreases t.entries@.len() - i,
                {
                    let ghost q = views(queue@);
                    let hash = t.entries[i].hash.clone();
                    queue.push_back(hash);
                    i = i + 1;
                    assert(views(queue@) =~= q.push(hash@));
                    assert(views(queue@) =~= before + hs.take(i as int));
                }
                assert(hs.take(i as int) =~= hs);
            } else {
                assert(views(queue@) + Seq::empty() =~= views(queue@));
            }
        },
        _ => {
            assert(views(queue@) + Seq::empty() =~= views(queue@));
        },
    }
}

impl Reach {
    /// The walk from some objects to all that they hold and come from; `kept`
    /// is seen from the start and leads nowhere.
    pub fn objects(roots: Vec<String>, kept: &Vec<String>) -> (r: Reach)
        ensures
            r.whole,
            views(r.queue@) == views(roots@),
            r.seen@ == views(kept@).to_set(),
    {
        let mut queue: VecDeque<String> = VecDeque::new();
        let ghost rs = views(roots@);
        let mut i: usize = 0;
        assert(views(queue@) =~= rs.take(0));
        while i < roots.len()
            invariant
                i <= roots@.len(),
                rs == views(roots@),
                views(queue@) == rs.take(i as int),
            decreases roots@.len() - i,
        {
            let ghost q = views(queue@);
            let root = roots[i].clone();
            queue.push_back(root);
            i = i + 1;
            assert(views(queue@) =~= q.push(root@));
            assert(views(queue@) =~= rs.take(i as int));
        }
        assert(rs.take(i as int) =~= rs);
        let mut seen = StringHashSet::new();
        let ghost ks = views(kept@);
        let mut k: usize = 0;
        assert(seen@ =~= ks.take(0).to_set());
        while k < kept.len()
            invariant
                k <= kept@.len(),
                ks == views(kept@),
                seen@ == ks.take(k as int).to_set(),
            decreases kept@.len() - k,
        {
            let ghost s = seen@;
            let ghost before = ks.take(k as int);
            seen.insert(kept[k].clone());
            k = k + 1;
            proof {
                let after = ks.take(k as int);
                assert(after =~= before.push(ks[k - 1]));
                assert forall|h: Seq<char>| after.to_set().contains(h) == s.insert(
                    ks[k - 1],
                ).contains(h) by {
                    if s.contains(h) {
                        let j = choose|j: int| 0 <= j < before.len() && before[j] == h;
                        assert(after[j] == h);
                    }
                    if h == ks[k - 1] {
                        assert(after[k - 1] == h);
                    }
                }
                assert(after.to_set() =~= seen@);
            }
        }
        assert(ks.take(k as int) =~= ks);
        Reach { whole: true, queue, seen }
    }

    /// Whether the walk has come by a hash.
    pub fn has_seen(&self, hash: &str) -> (r: bool)
        ensures
            r == self.seen@.contains(hash@),
    {
        self.seen.contains(hash)
    }

    /// The walk from a commit to all its ancestors.
    pub fn ancestors(hash: &str) -> (r: Reach)
        ensures
            !r.whole,
            views(r.queue@) == seq![hash@],
            r.seen@ == Set::<Seq<char>>::empty(),
    {
        let mut queue: VecDeque<String> = VecDeque::new();
        queue.push_back(hash.to_owned());
        assert(views(queue@) =~= seq![hash@]);
        Reach { whole: false, queue, seen: StringHashSet::new() }
    }

    /// Goes on as far as the known objects allow: gives the hash that has to be
    /// looked up next, or nothing when all has been seen.
    pub fn advance(&mut self, store: &ObjectStore) -> (r: Option<String>)
        ensures
            final(self).whole == old(self).whole,
            closure(store@, old(self).whole, views(old(self).queue@), old(self).seen@) == (match r {
                Some(hash) => Step::Need(hash@),
                None => Step::Done(final(self).seen@),
            }),
            r is None ==> final(self).queue@.len() == 0,
            forall|m: Map<Seq<char>, Option<ObjectView>>| #[trigger]
                extends(m, store@) ==> closure(
                    m,
                    old(self).whole,
                    views(old(self).queue@),
                    old(self).seen@,
                ) == closure(m, old(self).whole, views(final(self).queue@), final(self).seen@),
    {
        store.finite();
        let ghost known = store@;
        let ghost q0 = views(self.queue@);
        let ghost s0 = self.seen@;
        while self.queue.len() > 0
            invariant
                known == store@,
                extends(known, known),
                self.whole == old(self).whole,
                q0 == views(old(self).queue@),
                s0 == old(self).seen@,
                forall|m: Map<Seq<char>, Option<ObjectView>>| #[trigger]
                    extends(m, known) ==> closure(m, old(self).whole, q0, s0) == closure(
                        m,
                        old(self).whole,
                        views(self.queue@),
                        self.seen@,
                    ),
            decreases known.dom().difference(self.seen@).len(), self.queue@.len(),
        {
            let ghost q = views(self.queue@);
            let ghost s = self.seen@;
            if let Some(hash) = self.queue.pop_front() {
                assert(q[0] == hash@);
                assert(views(self.queue@) =~= q.drop_first());
                if !self.seen.contains(hash.as_str()) {
                    match store.get(hash.as_str()) {
                        None => {
                            self.queue.push_front(hash.clone());
                            assert(views(self.queue@) =~= q);
                            return Some(hash);
                        },
                        Some(answer) => {
                            push_links(&mut self.queue, self.whole, answer);
                            self.seen.insert(hash);
                            proof {
                                known.dom().lemma_set_insert_diff_decreases(s, q[0]);
                                assert forall|m: Map<Seq<char>, Option<ObjectView>>| #[trigger]
                                    extends(m, known) implies closure(m, self.whole, q, s)
                                    == closure(
                                    m,
                                    self.whole,
                                    views(self.queue@),
                                    self.seen@,
                                ) by {
                                    assert(known.dom().contains(q[0]));
                                    assert(m[q[0]] == known[q[0]]);
                                }
                            }
                        },
                    }
                }
            }
        }
        None
    }
}

// ---------------------------------------------------------------------------
// What a walk collects

/// A walk only ever needs an object that has not been looked up yet.
pub proof fn walk_needs_the_unknown(
    m: Map<Seq<char>, Option<ObjectView>>,
    whole: bool,
    queue: Seq<Seq<char>>,
    seen: Set<Seq<char>>,
)
    requires
        m.dom().finite(),
    ensures
        closure(m, whole, queue, seen) matches Step::Need(h) ==> !m.contains_key(h)
            && !seen.contains(h),
    decreases m.dom().difference(seen).len(), queue.len(),
{
    if queue.len() > 0 {
        let rest = queue.drop_first();
        if seen.contains(queue[0]) {
            walk_needs_the_unknown(m, whole, rest, seen);
        } else if m.contains_key(queue[0]) {
            m.dom().lemma_set_insert_diff_decreases(seen, queue[0]);
            walk_needs_the_unknown(
                m,
                whole,
                rest + links(whole, m[queue[0]]),
                seen.insert(queue[0]),
            );
        }
    }
}

/// What a finished walk has collected holds all it started from, and with each
/// object that it looked up all that the object leads to.
pub proof fn closure_is_closed(
    m: Map<Seq<char>, Option<ObjectView>>,
    whole: bool,
    queue: Seq<Seq<char>>,
    seen: Set<Seq<char>>,
)
    requires
        m.dom().finite(),
        closure(m, whole, queue, seen) is Done,
    ensures
        ({
            let all = closure(m, whole, queue, seen)->Done_0;
            &&& seen.subset_of(all)
            &&& forall|i: int| 0 <= i < queue.len() ==> all.contains(#[trigger] queue[i])
            &&& forall|h: Seq<char>| #[trigger]
                all.contains(h) && !seen.contains(h) ==> m.contains_key(h)
            &&& forall|h: Seq<char>, i: int|
                all.contains(h) && !seen.contains(h) && 0 <= i < links(whole, m[h]).len()
                    ==> all.contains(#[trigger] links(whole, m[h])[i])
        }),
    decreases m.dom().difference(seen).len(), queue.len(),
{
    if queue.len() > 0 {
        let rest = queue.drop_first();
        let all = closure(m, whole, queue, seen)->Done_0;
        if seen.contains(queue[0]) {
            closure_is_closed(m, whole, rest, seen);
            assert forall|i: int| 0 <= i < queue.len() implies all.contains(
                #[trigger] queue[i],
            ) by {
                if i > 0 {
                    assert(queue[i] == rest[i - 1]);
                }
            }
        } else {
            let more = links(whole, m[queue[0]]);
            let next = rest + more;
            m.dom().lemma_set_insert_diff_decreases(seen, queue[0]);
            closure_is_closed(m, whole, next, seen.insert(queue[0]));
            assert(all.contains(queue[0]));
            assert forall|i: int| 0 <= i < queue.len() implies all.contains(
                #[trigger] queue[i],
            ) by {
                if i > 0 {
                    assert(queue[i] == next[i - 1]);
                }
            }
            assert forall|h: Seq<char>, i: int|
                all.contains(h) && !seen.contains(h) && 0 <= i < links(
                    whole,
                    m[h],
                ).len() implies all.contains(#[trigger] links(whole, m[h])[i]) by {
                if h == queue[0] {
                    assert(more[i] == next[rest.len() + i]);
                }
            }
        }
    }
}

/// Whether a set holds, with each known object, all that the object leads to.
pub open spec fn is_closed(
    m: Map<Seq<char>, Option<ObjectView>>,
    whole: bool,
    p: Set<Seq<char>>,
) -> bool {
    forall|h: Seq<char>, i: int|
        p.contains(h) && m.contains_key(h) && 0 <= i < links(whole, m[h]).len() ==> p.contains(
            #[trigger] links(whole, m[h])[i],
        )
}

/// A finished walk has collected nothing that it need not: every closed set
/// that holds what the walk started from holds all that it collected.
pub proof fn closure_is_least(
    m: Map<Seq<char>, Option<ObjectView>>,
    whole: bool,
    queue: Seq<Seq<char>>,
    seen: Set<Seq<char>>,
    p: Set<Seq<char>>,
)
    requires
        m.dom().finite(),
        closure(m, whole, queue, seen) is Done,
        is_closed(m, whole, p),
        seen.subset_of(p),
        forall|i: int| 0 <= i < queue.len() ==> p.contains(#[trigger] queue[i]),
    ensures
        closure(m, whole, queue, seen)->Done_0.subset_of(p),
    decreases m.dom().difference(seen).len(), queue.len(),
{
    if queue.len() > 0 {
        let rest = queue.drop_first();
        assert(p.contains(queue[0]));
        assert forall|i: int| 0 <= i < rest.len() implies p.contains(#[trigger] rest[i]) by {
            assert(rest[i] == queue[i + 1]);
        }
        if seen.contains(queue[0]) {
            closure_is_least(m, whole, rest, seen, p);
        } else {
            let more = links(whole, m[queue[0]]);
            let next = rest + more;
            m.dom().lemma_set_insert_diff_decreases(seen, queue[0]);
            assert forall|i: int| 0 <= i < next.len() implies p.contains(#[trigger] next[i]) by {
                if i < rest.len() {
                    assert(next[i] == rest[i]);
                } else {
                    assert(next[i] == more[i - rest.len()]);
                }
            }
            closure_is_least(m, whole, next, seen.insert(queue[0]), p);
        }
    }
}

/// What a finished walk over whole objects has collected holds, for every commit
/// that it looked up, the tree and all parents of the commit, and for every tree
/// that it looked up, the hash of each entry, whatever its mode.
pub proof fn walk_collects_trees_and_parents(
    m: Map<Seq<char>, Option<ObjectView>>,
    roots: Seq<Seq<char>>,
    kept: Set<Seq<char>>,
    hash: Seq<char>,
)
    requires
        m.dom().finite(),
        closure(m, true, roots, kept) is Done,
    ensures
        ({
            let all = closure(m, true, roots, kept)->Done_0;
            &&& forall|i: int| 0 <= i < roots.len() ==> all.contains(#[trigger] roots[i])
            &&& kept.subset_of(all)
            &&& all.contains(hash) && !kept.contains(hash) ==> m.contains_key(hash) && match
                m[hash] {
                Some(ObjectView::Commit(c)) => all.contains(c.tree_hash) && forall|i: int|
                    0 <= i < c.parent_hashes.len() ==> all.contains(#[trigger] c.parent_hashes[i]),
                Some(ObjectView::Tree(entries)) => forall|i: int|
                    0 <= i < entries.len() ==> all.contains((#[trigger] entries[i]).hash),
                _ => true,
            }
        }),
{
    let all = closure(m, true, roots, kept)->Done_0;
    closure_is_closed(m, true, roots, kept);
    if all.contains(hash) && !kept.contains(hash) {
        let ls = links(true, m[hash]);
        match m[hash] {
            Some(ObjectView::Commit(c)) => {
                assert(ls[0] == c.tree_hash);
                assert forall|i: int| 0 <= i < c.parent_hashes.len() implies all.contains(
                    #[trigger] c.parent_hashes[i],
                ) by {
                    assert(ls[i + 1] == c.parent_hashes[i]);
                }
            },
            Some(ObjectView::Tree(entries)) => {
                assert forall|i: int| 0 <= i < entries.len() implies all.contains(
                    (#[trigger] entries[i]).hash,
                ) by {
                    assert(ls[i] == entries[i].hash);
                }
            },
            _ => {},
        }
    }
}

/// A finished walk over whole objects has collected nothing else: every set that
/// holds the roots and what was kept, and with each known commit its tree and
/// its parents and with each known tree the hashes of its entries, holds all of
/// it.
pub proof fn walk_collects_nothing_else(
    m: Map<Seq<char>, Option<ObjectView>>,
    roots: Seq<Seq<char>>,
    kept: Set<Seq<char>>,
    p: Set<Seq<char>>,
)
    requires
        m.dom().finite(),
        closure(m, true, roots, kept) is Done,
        forall|i: int| 0 <= i < roots.len() ==> p.contains(#[trigger] roots[i]),
        kept.subset_of(p),
        forall|h: Seq<char>| #[trigger]
            p.contains(h) && m.contains_key(h) ==> match m[h] {
                Some(ObjectView::Commit(c)) => p.contains(c.tree_hash) && forall|i: int|
                    0 <= i < c.parent_hashes.len() ==> p.contains(#[trigger] c.parent_hashes[i]),
                Some(ObjectView::Tree(entries)) => forall|i: int|
                    0 <= i < entries.len() ==> p.contains((#[trigger] entries[i]).hash),
                _ => true,
            },
    ensures
        closure(m, true, roots, kept)->Done_0.subset_of(p),
{
    assert(is_closed(m, true, p)) by {
        assert forall|h: Seq<char>, i: int|
            p.contains(h) && m.contains_key(h) && 0 <= i < links(
                true,
                m[h],
            ).len() implies p.contains(#[trigger] links(true, m[h])[i]) by {
            match m[h] {
                Some(ObjectView::Commit(c)) => {
                    if i > 0 {
                        assert(links(true, m[h])[i] == c.parent_hashes[i - 1]);
                    }
                },
                Some(ObjectView::Tree(entries)) => {
                    assert(links(true, m[h])[i] == entries[i].hash);
                },
                _ => {},
            }
        }
    }
    closure_is_least(m, true, roots, kept, p);
}

/// The ancestors that a finished walk has collected are the commit that it
/// started from and, with every commit among them, all its parents.
pub proof fn ancestors_hold_all_parents(
    m: Map<Seq<char>, Option<ObjectView>>,
    start: Seq<char>,
    hash: Seq<char>,
)
    requires
        m.dom().finite(),
        closure(m, false, seq![start], Set::empty()) is Done,
    ensures
        ({
            let all = closure(m, false, seq![start], Set::empty())->Done_0;
            &&& all.contains(start)
            &&& all.contains(hash) ==> m.contains_key(hash) && match m[hash] {
                Some(ObjectView::Commit(c)) => forall|i: int|
                    0 <= i < c.parent_hashes.len() ==> all.contains(#[trigger] c.parent_hashes[i]),
                _ => true,
            }
        }),
{
    let q = seq![start];
    let all = closure(m, false, q, Set::empty())->Done_0;
    closure_is_closed(m, false, q, Set::empty());
    assert(all.contains(q[0]));
    if all.contains(hash) {
        if let Some(ObjectView::Commit(c)) = m[hash] {
            assert forall|i: int| 0 <= i < c.parent_hashes.len() implies all.contains(
                #[trigger] c.parent_hashes[i],
            ) by {
                assert(links(false, m[hash])[i] == c.parent_hashes[i]);
            }
        }
    }
}

/// Nothing else is among the ancestors: every set that holds the commit and,
/// with each known commit, its parents, holds all of them.
pub proof fn ancestors_are_nothing_else(
    m: Map<Seq<char>, Option<ObjectView>>,
    start: Seq<char>,
    p: Set<Seq<char>>,
)
    requires
        m.dom().finite(),
        closure(m, false, seq![start], Set::empty()) is Done,
        p.contains(start),
        forall|h: Seq<char>| #[trigger]
            p.contains(h) && m.contains_key(h) ==> match m[h] {
                Some(ObjectView::Commit(c)) => forall|i: int|
                    0 <= i < c.parent_hashes.len() ==> p.contains(#[trigger] c.parent_hashes[i]),
                _ => true,
            },
    ensures
        closure(m, false, seq![start], Set::empty())->Done_0.subset_of(p),
{
    assert(is_closed(m, false, p)) by {
        assert forall|h: Seq<char>, i: int|
            p.contains(h) && m.contains_key(h) && 0 <= i < links(
                false,
                m[h],
            ).len() implies p.contains(#[trigger] links(false, m[h])[i]) by {
            if let Some(ObjectView::Commit(c)) = m[h] {
                assert(links(false, m[h])[i] == c.parent_hashes[i]);
            }
        }
    }
    closure_is_least(m, false, seq![start], Set::empty(), p);
}

} // verus!
