//! Common ancestors of commits.
use vstd::prelude::*;
use std::collections::VecDeque;
use vstd::hash_set::StringHashSet;
use crate::history::{
    closure, closure_is_closed, is_closed, links, push_links, walk_needs_the_unknown, Reach, Step,
};
use crate::object::ObjectView;
use crate::store::{extends, ObjectStore};
use crate::text::views;

verus! {

/// The first hash with a mark that a walk from the queue to parents comes by,
/// nearest first.
pub open spec fn first_marked(
    m: Map<Seq<char>, Option<ObjectView>>,
    marked: Set<Seq<char>>,
    queue: Seq<Seq<char>>,
    seen: Set<Seq<char>>,
) -> Step<Option<Seq<char>>>
    decreases m.dom().difference(seen).len(), queue.len(),
    when m.dom().finite()
{
    if queue.len() == 0 {
        Step::Done(None)
    } else if marked.contains(queue[0]) {
        Step::Done(Some(queue[0]))
    } else if seen.contains(queue[0]) {
        first_marked(m, marked, queue.drop_first(), seen)
    } else if !m.contains_key(queue[0]) {
        Step::Need(queue[0])
    } else {
        proof {
            m.dom().lemma_set_insert_diff_decreases(seen, queue[0]);
        }
        first_marked(
            m,
            marked,
            queue.drop_first() + links(false, m[queue[0]]),
            seen.insert(queue[0]),
        )
    }
}

/// The common ancestor of two commits: the ancestor of `a` that is nearest to
/// `b`. A commit is an ancestor of itself.
pub open spec fn lca(m: Map<Seq<char>, Option<ObjectView>>, a: Seq<char>, b: Seq<char>) -> Step<
    Option<Seq<char>>,
> {
    match closure(m, false, seq![a], Set::empty()) {
        Step::Need(h) => Step::Need(h),
        Step::Done(marked) => first_marked(m, marked, seq![b], Set::empty()),
    }
}

/// How far the search for a common ancestor has come.
#[derive(Debug, PartialEq, Eq)]
pub enum LcaStep {
    /// This object has to be looked up next.
    Need(String),
    /// There is no common ancestor.
    NoneFound,
    /// This is the common ancestor.
    Found(String),
}

impl View for LcaStep {
    type V = Step<Option<Seq<char>>>;

    open spec fn view(&self) -> Step<Option<Seq<char>>> {
        match self {
            LcaStep::Need(h) => Step::Need(h@),
            LcaStep::NoneFound => Step::Done(None),
            LcaStep::Found(h) => Step::Done(Some(h@)),
        }
    }
}

/// The search for the common ancestor of two commits.
pub struct LcaSearch {
    /// The walk over the ancestors of the first commit.
    pub marks: Reach,
    /// The second commit.
    pub other: String,
    /// Whether the first walk is over and the second has begun.
    pub started: bool,
    pub queue: VecDeque<String>,
    pub seen: StringHashSet,
}

impl LcaSearch {
    /// What the search will find from where it stands.
    pub open spec fn outcome(&self, m: Map<Seq<char>, Option<ObjectView>>) -> Step<
        Option<Seq<char>>,
    > {
        if self.started {
            first_marked(m, self.marks.seen@, views(self.queue@), self.seen@)
        } else {
            match closure(m, false, views(self.marks.queue@), self.marks.seen@) {
                Step::Need(h) => Step::Need(h),
                Step::Done(marked) => first_marked(m, marked, seq![self.other@], Set::empty()),
            }
        }
    }

    /// Whether the first walk is one over ancestors.
    pub open spec fn is_valid(&self) -> bool {
        !self.marks.whole
    }

    /// The search for the common ancestor of `a` and `b`.
    pub fn new(a: &str, b: &str) -> (r: LcaSearch)
        ensures
            r.is_valid(),
            forall|m: Map<Seq<char>, Option<ObjectView>>| #[trigger] r.outcome(m) == lca(m, a@, b@),
    {
        LcaSearch {
            marks: Reach::ancestors(a),
            other: b.to_owned(),
            started: false,
            queue: VecDeque::new(),
            seen: StringHashSet::new(),
        }
    }

    /// Goes on as far as the known objects allow.
    pub fn advance(&mut self, store: &ObjectStore) -> (r: LcaStep)
        requires
            old(self).is_valid(),
        ensures
            final(self).is_valid(),
            r@ == old(self).outcome(store@),
            forall|m: Map<Seq<char>, Option<ObjectView>>| #[trigger]
                extends(m, store@) ==> old(self).outcome(m) == (match r {
                    LcaStep::Need(_) => final(self).outcome(m),
                    _ => r@,
                }),
    {
        store.finite();
        let ghost known = store@;
        if !self.started {
            match self.marks.advance(store) {
                Some(hash) => {
                    return LcaStep::Need(hash);
                },
                None => {
                    self.started = true;
                    self.queue = VecDeque::new();
                    self.queue.push_back(self.other.clone());
                    self.seen = StringHashSet::new();
                    assert(views(self.queue@) =~= seq![self.other@]);
                },
            }
        }
        while self.queue.len() > 0
            invariant
                known == store@,
                extends(known, known),
                self.started,
                self.is_valid(),
                forall|m: Map<Seq<char>, Option<ObjectView>>| #[trigger]
                    extends(m, known) ==> old(self).outcome(m) == self.outcome(m),
            decreases known.dom().difference(self.seen@).len(), self.queue@.len(),
        {
            let ghost before = *self;
            let ghost q = views(self.queue@);
            let ghost s = self.seen@;
            if let Some(hash) = self.queue.pop_front() {
                assert(q[0] == hash@);
                assert(views(self.queue@) =~= q.drop_first());
                if self.marks.has_seen(hash.as_str()) {
                    return LcaStep::Found(hash);
                }
                if !self.seen.contains(hash.as_str()) {
                    match store.get(hash.as_str()) {
                        None => {
                            self.queue.push_front(hash.clone());
                            assert(views(self.queue@) =~= q);
                            return LcaStep::Need(hash);
                        },
                        Some(answer) => {
                            push_links(&mut self.queue, false, answer);
                            self.seen.insert(hash);
                            proof {
                                known.dom().lemma_set_insert_diff_decreases(s, q[0]);
                                assert forall|m: Map<Seq<char>, Option<ObjectView>>| #[trigger]
                                    extends(m, known) implies before.outcome(m) == self.outcome(
                                    m,
                                ) by {
                                    assert(known.dom().contains(q[0]));
                                    assert(m[q[0]] == known[q[0]]);
                                }
                            }
                        },
                    }
                }
            }
        }
        LcaStep::NoneFound
    }
}

/// The common ancestor of two commits, as far as the known objects tell.
pub fn find_lca(store: &ObjectStore, a: &str, b: &str) -> (r: LcaStep)
    ensures
        r@ == lca(store@, a@, b@),
{
    let mut search = LcaSearch::new(a, b);
    search.advance(store)
}

// ---------------------------------------------------------------------------
// Laws

proof fn lemma_found(
    m: Map<Seq<char>, Option<ObjectView>>,
    marked: Set<Seq<char>>,
    queue: Seq<Seq<char>>,
    seen: Set<Seq<char>>,
    p: Set<Seq<char>>,
)
    requires
        m.dom().finite(),
        first_marked(m, marked, queue, seen) matches Step::Done(Some(_)),
        is_closed(m, false, p),
        forall|i: int| 0 <= i < queue.len() ==> p.contains(#[trigger] queue[i]),
    ensures
        first_marked(m, marked, queue, seen) matches Step::Done(Some(h)) && marked.contains(h)
            && p.contains(h),
    decreases m.dom().difference(seen).len(), queue.len(),
{
    if queue.len() > 0 && !marked.contains(queue[0]) {
        let rest = queue.drop_first();
        assert forall|i: int| 0 <= i < rest.len() implies p.contains(#[trigger] rest[i]) by {
            assert(rest[i] == queue[i + 1]);
        }
        if seen.contains(queue[0]) {
            lemma_found(m, marked, rest, seen, p);
        } else {
            let more = links(false, m[queue[0]]);
            let next = rest + more;
            assert(p.contains(queue[0]));
            m.dom().lemma_set_insert_diff_decreases(seen, queue[0]);
            assert forall|i: int| 0 <= i < next.len() implies p.contains(#[trigger] next[i]) by {
                if i < rest.len() {
                    assert(next[i] == rest[i]);
                } else {
                    assert(next[i] == more[i - rest.len()]);
                }
            }
            lemma_found(m, marked, next, seen.insert(queue[0]), p);
        }
    }
}

proof fn lemma_not_found(
    m: Map<Seq<char>, Option<ObjectView>>,
    marked: Set<Seq<char>>,
    queue: Seq<Seq<char>>,
    seen: Set<Seq<char>>,
)
    requires
        m.dom().finite(),
        first_marked(m, marked, queue, seen) == Step::<Option<Seq<char>>>::Done(None),
    ensures
        closure(m, false, queue, seen) matches Step::Done(all) && forall|h: Seq<char>| #[trigger]
            all.contains(h) && !seen.contains(h) ==> !marked.contains(h),
    decreases m.dom().difference(seen).len(), queue.len(),
{
    if queue.len() > 0 {
        if seen.contains(queue[0]) {
            lemma_not_found(m, marked, queue.drop_first(), seen);
        } else {
            m.dom().lemma_set_insert_diff_decreases(seen, queue[0]);
            lemma_not_found(
                m,
                marked,
                queue.drop_first() + links(false, m[queue[0]]),
                seen.insert(queue[0]),
            );
        }
    }
}

/// A common ancestor that is found is an ancestor of both commits; where none
/// is found, the two have no ancestor in common.
pub proof fn lca_is_common(m: Map<Seq<char>, Option<ObjectView>>, a: Seq<char>, b: Seq<char>)
    requires
        m.dom().finite(),
        lca(m, a, b) is Done,
        closure(m, false, seq![b], Set::empty()) is Done,
    ensures
        ({
            let of_a = closure(m, false, seq![a], Set::empty())->Done_0;
            let of_b = closure(m, false, seq![b], Set::empty())->Done_0;
            match lca(m, a, b)->Done_0 {
                Some(h) => of_a.contains(h) && of_b.contains(h),
                None => of_a.disjoint(of_b),
            }
        }),
{
    let of_a = closure(m, false, seq![a], Set::empty())->Done_0;
    let of_b = closure(m, false, seq![b], Set::empty())->Done_0;
    closure_is_closed(m, false, seq![b], Set::empty());
    match lca(m, a, b)->Done_0 {
        Some(h) => {
            assert(of_b.contains(seq![b][0]));
            lemma_found(m, of_a, seq![b], Set::empty(), of_b);
        },
        None => {
            lemma_not_found(m, of_a, seq![b], Set::empty());
        },
    }
}

/// Where the second commit is an ancestor of the first, it is the common
/// ancestor.
pub proof fn lca_of_ancestor(m: Map<Seq<char>, Option<ObjectView>>, a: Seq<char>, b: Seq<char>)
    requires
        m.dom().finite(),
        closure(m, false, seq![a], Set::empty()) matches Step::Done(of_a) && of_a.contains(b),
    ensures
        lca(m, a, b) == Step::Done(Some(b)),
{
}

/// Whether each hash of a list names a commit that has the next one as a parent.
pub open spec fn is_descent(m: Map<Seq<char>, Option<ObjectView>>, p: Seq<Seq<char>>) -> bool {
    &&& p.len() > 0
    &&& forall|i: int|
        0 <= i < p.len() - 1 ==> m.contains_key(#[trigger] p[i]) && match m[p[i]] {
            Some(ObjectView::Commit(c)) => c.parent_hashes.contains(p[i + 1]),
            _ => false,
        }
}

/// How far a search has come, for the proof that it finds what is nearest: the
/// steps that each queued hash is away from the start, and each seen one.
struct Progress {
    steps: Seq<nat>,
    away: Map<Seq<char>, nat>,
}

spec fn is_queued(queue: Seq<Seq<char>>, steps: Seq<nat>, h: Seq<char>, n: nat) -> bool {
    exists|i: int| 0 <= i < queue.len() && queue[i] == h && #[trigger] steps[i] <= n
}

/// What holds between the steps of a search from `b`.
spec fn in_order(
    m: Map<Seq<char>, Option<ObjectView>>,
    b: Seq<char>,
    queue: Seq<Seq<char>>,
    seen: Set<Seq<char>>,
    g: Progress,
) -> bool {
    &&& g.steps.len() == queue.len()
    &&& forall|i: int, j: int| 0 <= i <= j < queue.len() ==> g.steps[i] <= g.steps[j]
    &&& forall|i: int| 0 <= i < queue.len() ==> #[trigger] g.steps[i] <= g.steps[0] + 1
    &&& forall|h: Seq<char>| #[trigger]
        seen.contains(h) ==> m.contains_key(h) && (queue.len() > 0 ==> g.away[h] <= g.steps[0])
    &&& (seen.contains(b) && g.away[b] == 0) || is_queued(queue, g.steps, b, 0)
    &&& forall|h: Seq<char>, y: Seq<char>|
        seen.contains(h) && #[trigger] links(false, m[h]).contains(y) ==> (seen.contains(y)
            && g.away[y] <= g.away[h] + 1) || is_queued(queue, g.steps, y, g.away[h] + 1)
}

proof fn lemma_way_is_covered(
    m: Map<Seq<char>, Option<ObjectView>>,
    queue: Seq<Seq<char>>,
    seen: Set<Seq<char>>,
    g: Progress,
    p: Seq<Seq<char>>,
    j: int,
)
    requires
        is_descent(m, p),
        in_order(m, p[0], queue, seen, g),
        0 <= j < p.len(),
    ensures
        (seen.contains(p[j]) && g.away[p[j]] <= j) || exists|k: int|
            0 <= k <= j && #[trigger] is_queued(queue, g.steps, p[k], k as nat),
    decreases j,
{
    if j == 0 {
        if !(seen.contains(p[0]) && g.away[p[0]] == 0) {
            let k: int = 0;
            assert(is_queued(queue, g.steps, p[k], k as nat));
        }
    } else {
        lemma_way_is_covered(m, queue, seen, g, p, j - 1);
        if seen.contains(p[j - 1]) && g.away[p[j - 1]] <= j - 1 {
            assert(links(false, m[p[j - 1]]).contains(p[j - 1 + 1]));
            if !(seen.contains(p[j]) && g.away[p[j]] <= j) {
                assert(is_queued(queue, g.steps, p[j], g.away[p[j - 1]] + 1));
                let i = choose|i: int|
                    0 <= i < queue.len() && queue[i] == p[j] && #[trigger] g.steps[i]
                        <= g.away[p[j - 1]] + 1;
                assert(g.steps[i] <= j);
                assert(is_queued(queue, g.steps, p[j], j as nat));
            }
        } else {
            let k = choose|k: int|
                0 <= k <= j - 1 && #[trigger] is_queued(queue, g.steps, p[k], k as nat);
            assert(is_queued(queue, g.steps, p[k], k as nat));
        }
    }
}

proof fn lemma_pop_seen(
    m: Map<Seq<char>, Option<ObjectView>>,
    b: Seq<char>,
    queue: Seq<Seq<char>>,
    seen: Set<Seq<char>>,
    g: Progress,
)
    requires
        in_order(m, b, queue, seen, g),
        queue.len() > 0,
        seen.contains(queue[0]),
    ensures
        in_order(
            m,
            b,
            queue.drop_first(),
            seen,
            Progress { steps: g.steps.drop_first(), away: g.away },
        ),
{
    let rest = queue.drop_first();
    let steps = g.steps.drop_first();
    assert forall|h: Seq<char>, n: nat|
        is_queued(queue, g.steps, h, n) && h != queue[0] implies #[trigger] is_queued(
        rest,
        steps,
        h,
        n,
    ) by {
        let i = choose|i: int| 0 <= i < queue.len() && queue[i] == h && #[trigger] g.steps[i] <= n;
        assert(rest[i - 1] == h && steps[i - 1] <= n);
    }
    assert forall|h: Seq<char>, n: nat|
        is_queued(queue, g.steps, h, n) && h == queue[0] implies g.away[h] <= n by {
        let i = choose|i: int| 0 <= i < queue.len() && queue[i] == h && #[trigger] g.steps[i] <= n;
        assert(g.steps[0] <= g.steps[i]);
    }
    if is_queued(queue, g.steps, b, 0) && b != queue[0] {
        assert(is_queued(rest, steps, b, 0));
    }
    assert forall|h: Seq<char>, y: Seq<char>|
        seen.contains(h) && #[trigger] links(false, m[h]).contains(y) implies (seen.contains(y)
        && g.away[y] <= g.away[h] + 1) || is_queued(rest, steps, y, g.away[h] + 1) by {
        if !(seen.contains(y) && g.away[y] <= g.away[h] + 1) {
            assert(is_queued(queue, g.steps, y, g.away[h] + 1));
        }
    }
}

proof fn lemma_pop_new(
    m: Map<Seq<char>, Option<ObjectView>>,
    b: Seq<char>,
    queue: Seq<Seq<char>>,
    seen: Set<Seq<char>>,
    g: Progress,
)
    requires
        in_order(m, b, queue, seen, g),
        queue.len() > 0,
        !seen.contains(queue[0]),
        m.contains_key(queue[0]),
    ensures
        in_order(
            m,
            b,
            queue.drop_first() + links(false, m[queue[0]]),
            seen.insert(queue[0]),
            Progress {
                steps: g.steps.drop_first() + Seq::new(
                    links(false, m[queue[0]]).len(),
                    |i: int| g.steps[0] + 1,
                ),
                away: g.away.insert(queue[0], g.steps[0]),
            },
        ),
{
    let q = queue[0];
    let d = g.steps[0];
    let rest = queue.drop_first();
    let more = links(false, m[q]);
    let next = rest + more;
    let tail = Seq::new(more.len(), |i: int| d + 1);
    let steps = g.steps.drop_first() + tail;
    let now = seen.insert(q);
    let away = g.away.insert(q, d);
    assert forall|i: int| 0 <= i < next.len() implies d <= #[trigger] steps[i] <= d + 1 by {
        if i < rest.len() {
            assert(steps[i] == g.steps[i + 1]);
            assert(g.steps[0] <= g.steps[i + 1]);
        }
    }
    assert forall|i: int, j: int| 0 <= i <= j < next.len() implies steps[i] <= steps[j] by {
        if j < rest.len() {
            assert(g.steps[i + 1] <= g.steps[j + 1]);
        }
    }
    assert forall|h: Seq<char>, n: nat|
        is_queued(queue, g.steps, h, n) && h != q implies #[trigger] is_queued(
        next,
        steps,
        h,
        n,
    ) by {
        let i = choose|i: int| 0 <= i < queue.len() && queue[i] == h && #[trigger] g.steps[i] <= n;
        assert(next[i - 1] == h && steps[i - 1] <= n);
    }
    assert forall|h: Seq<char>, n: nat|
        is_queued(queue, g.steps, h, n) && h == q implies away[h] <= n by {
        let i = choose|i: int| 0 <= i < queue.len() && queue[i] == h && #[trigger] g.steps[i] <= n;
        assert(g.steps[0] <= g.steps[i]);
    }
    if is_queued(queue, g.steps, b, 0) && b != q {
        assert(is_queued(next, steps, b, 0));
    }
    assert forall|h: Seq<char>, y: Seq<char>|
        now.contains(h) && #[trigger] links(false, m[h]).contains(y) implies (now.contains(y)
        && away[y] <= away[h] + 1) || is_queued(next, steps, y, away[h] + 1) by {
        if h == q {
            let i = choose|i: int| 0 <= i < more.len() && more[i] == y;
            assert(next[rest.len() + i] == y);
            assert(steps[rest.len() + i] == d + 1);
            assert(is_queued(next, steps, y, d + 1));
        } else {
            assert(seen.contains(h));
            if !(seen.contains(y) && g.away[y] <= g.away[h] + 1) {
                assert(is_queued(queue, g.steps, y, g.away[h] + 1));
            }
        }
    }
}

proof fn lemma_nearest(
    m: Map<Seq<char>, Option<ObjectView>>,
    marked: Set<Seq<char>>,
    b: Seq<char>,
    queue: Seq<Seq<char>>,
    seen: Set<Seq<char>>,
    g: Progress,
    ways: Seq<Seq<Seq<char>>>,
) -> (way: Seq<Seq<char>>)
    requires
        m.dom().finite(),
        first_marked(m, marked, queue, seen) matches Step::Done(Some(_)),
        in_order(m, b, queue, seen, g),
        seen.disjoint(marked),
        ways.len() == queue.len(),
        forall|i: int|
            0 <= i < queue.len() ==> is_descent(m, #[trigger] ways[i]) && ways[i][0] == b
                && ways[i].last() == queue[i] && ways[i].len() == g.steps[i] + 1,
    ensures
        is_descent(m, way),
        way[0] == b,
        first_marked(m, marked, queue, seen) == Step::Done(Some(way.last())),
        forall|p: Seq<Seq<char>>|
            #[trigger] is_descent(m, p) && p[0] == b && marked.contains(p.last()) ==> way.len()
                <= p.len(),
    decreases m.dom().difference(seen).len(), queue.len(),
{
    let q = queue[0];
    if marked.contains(q) {
        assert forall|p: Seq<Seq<char>>|
            #[trigger] is_descent(m, p) && p[0] == b && marked.contains(
                p.last(),
            ) implies ways[0].len() <= p.len() by {
            let n = p.len() - 1;
            lemma_way_is_covered(m, queue, seen, g, p, n);
            assert(!seen.contains(p[n]));
            let k = choose|k: int|
                0 <= k <= n && #[trigger] is_queued(queue, g.steps, p[k], k as nat);
            let i = choose|i: int|
                0 <= i < queue.len() && queue[i] == p[k] && #[trigger] g.steps[i] <= k;
            assert(g.steps[0] <= g.steps[i]);
        }
        ways[0]
    } else if seen.contains(q) {
        let less = ways.drop_first();
        let g2 = Progress { steps: g.steps.drop_first(), away: g.away };
        lemma_pop_seen(m, b, queue, seen, g);
        assert forall|i: int| 0 <= i < less.len() implies is_descent(m, #[trigger] less[i])
            && less[i][0] == b && less[i].last() == queue.drop_first()[i] && less[i].len()
            == g2.steps[i] + 1 by {
            assert(less[i] == ways[i + 1]);
        }
        lemma_nearest(m, marked, b, queue.drop_first(), seen, g2, less)
    } else {
        let more = links(false, m[q]);
        let first = ways[0];
        let new_ways = ways.drop_first() + Seq::new(more.len(), |i: int| first.push(more[i]));
        let g2 = Progress {
            steps: g.steps.drop_first() + Seq::new(more.len(), |i: int| g.steps[0] + 1),
            away: g.away.insert(q, g.steps[0]),
        };
        let next = queue.drop_first() + more;
        lemma_pop_new(m, b, queue, seen, g);
        assert forall|i: int| 0 <= i < next.len() implies is_descent(m, #[trigger] new_ways[i])
            && new_ways[i][0] == b && new_ways[i].last() == next[i] && new_ways[i].len()
            == g2.steps[i] + 1 by {
            if i < ways.len() - 1 {
                assert(new_ways[i] == ways[i + 1]);
            } else {
                let x = i - (ways.len() - 1);
                let p = first.push(more[x]);
                assert(new_ways[i] == p);
                assert(is_descent(m, ways[0]));
                assert(first.last() == q);
                assert forall|j: int| 0 <= j < p.len() - 1 implies m.contains_key(
                    #[trigger] p[j],
                ) && links(false, m[p[j]]).contains(p[j + 1]) by {
                    if j < first.len() - 1 {
                        assert(p[j] == first[j] && p[j + 1] == first[j + 1]);
                    } else {
                        assert(p[j] == q && p[j + 1] == more[x]);
                    }
                }
            }
        }
        m.dom().lemma_set_insert_diff_decreases(seen, q);
        lemma_nearest(m, marked, b, next, seen.insert(q), g2, new_ways)
    }
}

/// The common ancestor that is found is the nearest to the second commit: there
/// is a descent to it from the second commit, and no descent from there to any
/// ancestor of the first commit is shorter.
pub proof fn lca_is_nearest(
    m: Map<Seq<char>, Option<ObjectView>>,
    a: Seq<char>,
    b: Seq<char>,
) -> (way: Seq<Seq<char>>)
    requires
        m.dom().finite(),
        lca(m, a, b) matches Step::Done(Some(_)),
    ensures
        is_descent(m, way),
        way[0] == b,
        lca(m, a, b) == Step::Done(Some(way.last())),
        forall|p: Seq<Seq<char>>|
            #[trigger] is_descent(m, p) && p[0] == b && closure(
                m,
                false,
                seq![a],
                Set::empty(),
            )->Done_0.contains(p.last()) ==> way.len() <= p.len(),
{
    let marked = closure(m, false, seq![a], Set::empty())->Done_0;
    let g = Progress { steps: seq![0nat], away: Map::empty() };
    let queue = seq![b];
    assert(queue[0] == b && g.steps[0] <= 0);
    assert(is_queued(queue, g.steps, b, 0));
    let way = seq![b];
    assert(is_descent(m, way));
    lemma_nearest(m, marked, b, queue, Set::empty(), g, seq![way])
}

proof fn lemma_first_in_queue(
    m: Map<Seq<char>, Option<ObjectView>>,
    marked: Set<Seq<char>>,
    queue: Seq<Seq<char>>,
    seen: Set<Seq<char>>,
    i: int,
)
    requires
        m.dom().finite(),
        0 <= i < queue.len(),
        marked.contains(queue[i]),
        forall|j: int|
            0 <= j < i ==> m.contains_key(#[trigger] queue[j]) && !marked.contains(queue[j]),
    ensures
        first_marked(m, marked, queue, seen) == Step::Done(Some(queue[i])),
    decreases i,
{
    if i > 0 {
        assert(m.contains_key(queue[0]) && !marked.contains(queue[0]));
        let rest = queue.drop_first();
        if seen.contains(queue[0]) {
            lemma_first_in_queue(m, marked, rest, seen, i - 1);
        } else {
            let more = rest + links(false, m[queue[0]]);
            assert(more[i - 1] == queue[i]);
            assert forall|j: int| 0 <= j < i - 1 implies m.contains_key(#[trigger] more[j])
                && !marked.contains(more[j]) by {
                assert(more[j] == queue[j + 1]);
            }
            lemma_first_in_queue(m, marked, more, seen.insert(queue[0]), i - 1);
        }
    }
}

/// Parents are looked at in their order: where the second commit is no ancestor of
/// the first but some of its parents are, the first of those is the common
/// ancestor.
pub proof fn first_parent_in_common_is_found(
    m: Map<Seq<char>, Option<ObjectView>>,
    a: Seq<char>,
    b: Seq<char>,
    ancestors: Set<Seq<char>>,
    i: int,
)
    requires
        m.dom().finite(),
        closure(m, false, seq![a], Set::empty()) == Step::Done(ancestors),
        !ancestors.contains(b),
        m.contains_key(b),
        m[b] matches Some(ObjectView::Commit(c)) && 0 <= i < c.parent_hashes.len()
            && ancestors.contains(c.parent_hashes[i]) && forall|j: int|
            0 <= j < i ==> m.contains_key(#[trigger] c.parent_hashes[j]) && !ancestors.contains(
                c.parent_hashes[j],
            ),
    ensures
        lca(m, a, b) == Step::Done(Some(m[b]->0->Commit_0.parent_hashes[i])),
{
    let parents = m[b]->0->Commit_0.parent_hashes;
    let queue = seq![b].drop_first() + links(false, m[b]);
    assert(queue =~= parents);
    lemma_first_in_queue(m, ancestors, parents, Set::empty().insert(b), i);
}

proof fn lemma_marked_needs(
    m: Map<Seq<char>, Option<ObjectView>>,
    marked: Set<Seq<char>>,
    queue: Seq<Seq<char>>,
    seen: Set<Seq<char>>,
)
    requires
        m.dom().finite(),
    ensures
        first_marked(m, marked, queue, seen) matches Step::Need(h) ==> !m.contains_key(h),
    decreases m.dom().difference(seen).len(), queue.len(),
{
    if queue.len() > 0 && !marked.contains(queue[0]) {
        let rest = queue.drop_first();
        if seen.contains(queue[0]) {
            lemma_marked_needs(m, marked, rest, seen);
        } else if m.contains_key(queue[0]) {
            m.dom().lemma_set_insert_diff_decreases(seen, queue[0]);
            lemma_marked_needs(
                m,
                marked,
                rest + links(false, m[queue[0]]),
                seen.insert(queue[0]),
            );
        }
    }
}

/// The search for a common ancestor only ever needs an object that has not been
/// looked up yet.
pub proof fn lca_needs_the_unknown(
    m: Map<Seq<char>, Option<ObjectView>>,
    a: Seq<char>,
    b: Seq<char>,
)
    requires
        m.dom().finite(),
    ensures
        lca(m, a, b) matches Step::Need(h) ==> !m.contains_key(h),
{
    walk_needs_the_unknown(m, false, seq![a], Set::empty());
    if let Step::Done(marked) = closure(m, false, seq![a], Set::empty()) {
        lemma_marked_needs(m, marked, seq![b], Set::empty());
    }
}

} // verus!
