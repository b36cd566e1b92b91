//! Three-way merging of texts, line by line.
use vstd::prelude::*;
use vstd::seq_lib::lemma_flatten_concat;
use crate::diff::{compute_diff, diff, diff_leads_from_old_to_new, ops_view, DiffOp};
use crate::text::{
    join_lines, joined_lines_are_all_lines, lemma_position, lemma_position_is, lines, position,
    same_text, split_lines, views,
};

verus! {

/// A piece of a merged text.
#[derive(Debug, Clone, PartialEq, Eq)]
pub enum MergeChunk {
    Clean(Vec<String>),
    Conflict { target: Vec<String>, leaf: Vec<String> },
}

/// A `MergeChunk` as a mathematical value, over lines of any type.
#[verifier::ext_equal]
pub enum Chunk<T> {
    Clean(Seq<T>),
    Conflict { target: Seq<T>, leaf: Seq<T> },
}

impl View for MergeChunk {
    type V = Chunk<Seq<char>>;

    open spec fn view(&self) -> Chunk<Seq<char>> {
        match self {
            MergeChunk::Clean(ls) => Chunk::Clean(views(ls@)),
            MergeChunk::Conflict { target, leaf } => Chunk::Conflict {
                target: views(target@),
                leaf: views(leaf@),
            },
        }
    }
}

/// Pieces of a merged text as mathematical values.
pub open spec fn chunks_view(chunks: Seq<MergeChunk>) -> Seq<Chunk<Seq<char>>> {
    chunks.map_values(|c: MergeChunk| c@)
}

/// How many lines of `a` come before the line that `b` begins with: all of
/// them where there is no such line.
pub open spec fn run<T>(a: Seq<T>, b: Seq<T>) -> int {
    if b.len() == 0 {
        a.len() as int
    } else {
        position(a, b[0])
    }
}

/// Two texts walked in step. Lines that are equal are clean, one by one. At a
/// difference, the lines of the target up to the next line of the leaf and
/// then the lines of the leaf up to the next line of the target conflict.
pub open spec fn walk<T>(target: Seq<T>, leaf: Seq<T>) -> Seq<Chunk<T>>
    decreases target.len() + leaf.len(),
{
    if target.len() == 0 && leaf.len() == 0 {
        Seq::empty()
    } else if target.len() > 0 && leaf.len() > 0 && target[0] == leaf[0] {
        seq![Chunk::Clean(seq![target[0]])] + walk(target.drop_first(), leaf.drop_first())
    } else {
        let k = run(target, leaf);
        let rest = target.skip(k);
        let n = run(leaf, rest);
        proof {
            if leaf.len() > 0 {
                lemma_position(target, leaf[0]);
            }
            if rest.len() > 0 {
                lemma_position(leaf, rest[0]);
            }
        }
        seq![Chunk::Conflict { target: target.take(k), leaf: leaf.take(n) }] + walk(
            rest,
            leaf.skip(n),
        )
    }
}

/// The merge of two texts that come from the same base.
pub open spec fn merge(base: Seq<char>, target: Seq<char>, leaf: Seq<char>) -> Seq<
    Chunk<Seq<char>>,
> {
    if target == base {
        seq![Chunk::Clean(lines(leaf))]
    } else if leaf == base || target == leaf {
        seq![Chunk::Clean(lines(target))]
    } else if diff(lines(base), lines(target)) == diff(lines(base), lines(leaf)) {
        seq![Chunk::Clean(lines(target))]
    } else {
        walk(lines(target), lines(leaf))
    }
}

/// One piece as it is written down.
pub open spec fn chunk_text(chunk: Chunk<Seq<char>>, leaf_name: Seq<char>) -> Seq<char> {
    match chunk {
        Chunk::Clean(ls) => join_lines(ls),
        Chunk::Conflict { target, leaf } => "<<<<<<< TARGET\n"@ + join_lines(target) + "=======\n"@
            + join_lines(leaf) + ">>>>>>> LEAF ("@ + leaf_name + ")\n"@,
    }
}

/// The pieces as they are written down.
pub open spec fn chunks_text(chunks: Seq<Chunk<Seq<char>>>, leaf_name: Seq<char>) -> Seq<char>
    decreases chunks.len(),
{
    if chunks.len() == 0 {
        Seq::empty()
    } else {
        chunks_text(chunks.drop_last(), leaf_name) + chunk_text(chunks.last(), leaf_name)
    }
}

/// Whether a piece is a conflict.
pub open spec fn has_conflict<T>(chunks: Seq<Chunk<T>>) -> bool {
    exists|i: int| 0 <= i < chunks.len() && #[trigger] chunks[i] is Conflict
}

// ---------------------------------------------------------------------------

fn same_op(a: &DiffOp, b: &DiffOp) -> (r: bool)
    ensures
        r == (a@ == b@),
{
    match (a, b) {
        (DiffOp::Keep(x), DiffOp::Keep(y)) => same_text(x.as_str(), y.as_str()),
        (DiffOp::Insert(x), DiffOp::Insert(y)) => same_text(x.as_str(), y.as_str()),
        (DiffOp::Delete(x), DiffOp::Delete(y)) => same_text(x.as_str(), y.as_str()),
        _ => false,
    }
}

fn same_ops(a: &Vec<DiffOp>, b: &Vec<DiffOp>) -> (r: bool)
    ensures
        r == (ops_view(a@) == ops_view(b@)),
{
    if a.len() != b.len() {
        assert(ops_view(a@).len() != ops_view(b@).len());
        return false;
    }
    let mut i: usize = 0;
    while i < a.len()
        invariant
            i <= a@.len(),
            a@.len() == b@.len(),
            forall|k: int| 0 <= k < i ==> a@[k]@ == b@[k]@,
        decreases a@.len() - i,
    {
        if !same_op(&a[i], &b[i]) {
            assert(ops_view(a@)[i as int] != ops_view(b@)[i as int]);
            return false;
        }
        i = i + 1;
    }
    assert(ops_view(a@) =~= ops_view(b@));
    true
}

fn copy_lines(ls: &Vec<String>, from: usize, to: usize) -> (r: Vec<String>)
    requires
        from <= to <= ls@.len(),
    ensures
        views(r@) == views(ls@).subrange(from as int, to as int),
{
    let mut out: Vec<String> = Vec::new();
    let mut i: usize = from;
    while i < to
        invariant
            from <= i <= to <= ls@.len(),
            views(out@) == views(ls@).subrange(from as int, i as int),
        decreases to - i,
    {
        let ghost before = views(out@);
        let line = ls[i].clone();
        out.push(line);
        assert(views(out@) =~= before.push(line@));
        i = i + 1;
        assert(views(out@) =~= views(ls@).subrange(from as int, i as int));
    }
    out
}

fn clean(ls: &Vec<String>) -> (r: Vec<MergeChunk>)
    ensures
        chunks_view(r@) == seq![Chunk::Clean(views(ls@))],
{
    let copy = copy_lines(ls, 0, ls.len());
    assert(views(copy@) =~= views(ls@));
    let mut out: Vec<MergeChunk> = Vec::new();
    out.push(MergeChunk::Clean(copy));
    assert(chunks_view(out@) =~= seq![Chunk::Clean(views(ls@))]);
    out
}

/// Where the run of `a` from `i` ends that the line at `j` of `b` ends.
fn run_end(a: &Vec<String>, i: usize, b: &Vec<String>, j: usize) -> (r: usize)
    requires
        i <= a@.len(),
        j <= b@.len(),
    ensures
        i <= r <= a@.len(),
        r == i + run(views(a@).skip(i as int), views(b@).skip(j as int)),
{
    let ghost s = views(a@).skip(i as int);
    let ghost t = views(b@).skip(j as int);
    let mut k: usize = i;
    while k < a.len() && (j >= b.len() || a[k] != b[j])
        invariant
            i <= k <= a@.len(),
            j <= b@.len(),
            s == views(a@).skip(i as int),
            t == views(b@).skip(j as int),
            j < b@.len() ==> forall|x: int| 0 <= x < k - i ==> s[x] != t[0],
        decreases a@.len() - k,
    {
        k = k + 1;
    }
    proof {
        if j < b@.len() {
            lemma_position_is(s, t[0], k - i);
        }
    }
    k
}

proof fn lemma_walk_equal<T>(s: Seq<T>, t: Seq<T>)
    requires
        s.len() > 0,
        t.len() > 0,
        s[0] == t[0],
    ensures
        walk(s, t) == seq![Chunk::Clean(seq![s[0]])] + walk(s.skip(1), t.skip(1)),
{
    assert(s.skip(1) =~= s.drop_first());
    assert(t.skip(1) =~= t.drop_first());
}

proof fn lemma_walk_conflict<T>(s: Seq<T>, t: Seq<T>, k: int, n: int)
    requires
        s.len() > 0 || t.len() > 0,
        !(s.len() > 0 && t.len() > 0 && s[0] == t[0]),
        k == run(s, t),
        n == run(t, s.skip(k)),
    ensures
        walk(s, t) == seq![Chunk::Conflict { target: s.take(k), leaf: t.take(n) }] + walk(
            s.skip(k),
            t.skip(n),
        ),
        0 <= k <= s.len(),
        0 <= n <= t.len(),
        k + n > 0,
{
    if t.len() > 0 {
        lemma_position(s, t[0]);
    }
    if s.skip(k).len() > 0 {
        lemma_position(t, s.skip(k)[0]);
    }
}

proof fn lemma_regroup<T>(before: Seq<T>, c: T, rest: Seq<T>)
    ensures
        before + (seq![c] + rest) == before.push(c) + rest,
{
    assert(before + (seq![c] + rest) =~= before.push(c) + rest);
}

/// The chunk at `i` of the target and `j` of the leaf, and where the next one
/// begins.
fn next_chunk(target: &Vec<String>, i: usize, leaf: &Vec<String>, j: usize) -> (r: (
    MergeChunk,
    usize,
    usize,
))
    requires
        i <= target@.len(),
        j <= leaf@.len(),
        i < target@.len() || j < leaf@.len(),
    ensures
        i <= r.1 <= target@.len(),
        j <= r.2 <= leaf@.len(),
        r.1 > i || r.2 > j,
        walk(views(target@).skip(i as int), views(leaf@).skip(j as int)) == seq![r.0@] + walk(
            views(target@).skip(r.1 as int),
            views(leaf@).skip(r.2 as int),
        ),
{
    let ghost a = views(target@);
    let ghost b = views(leaf@);
    let ghost s = a.skip(i as int);
    let ghost t = b.skip(j as int);
    if i < target.len() && j < leaf.len() && target[i] == leaf[j] {
        let chunk = MergeChunk::Clean(copy_lines(target, i, i + 1));
        proof {
            assert(a.subrange(i as int, i + 1) =~= seq![s[0]]);
            lemma_walk_equal(s, t);
            assert(s.skip(1) =~= a.skip(i + 1));
            assert(t.skip(1) =~= b.skip(j + 1));
        }
        (chunk, i + 1, j + 1)
    } else {
        let k = run_end(target, i, leaf, j);
        assert(s.skip(k - i) =~= a.skip(k as int));
        let n = run_end(leaf, j, target, k);
        let chunk = MergeChunk::Conflict {
            target: copy_lines(target, i, k),
            leaf: copy_lines(leaf, j, n),
        };
        proof {
            assert(s.take(k - i) =~= a.subrange(i as int, k as int));
            assert(t.take(n - j) =~= b.subrange(j as int, n as int));
            assert(t.skip(n - j) =~= b.skip(n as int));
            lemma_walk_conflict(s, t, k - i, n - j);
        }
        (chunk, k, n)
    }
}

fn walk_lines(target: &Vec<String>, leaf: &Vec<String>) -> (r: Vec<MergeChunk>)
    ensures
        chunks_view(r@) == walk(views(target@), views(leaf@)),
{
    let ghost a = views(target@);
    let ghost b = views(leaf@);
    let mut chunks: Vec<MergeChunk> = Vec::new();
    let mut i: usize = 0;
    let mut j: usize = 0;
    assert(a.skip(0) =~= a);
    assert(b.skip(0) =~= b);
    assert(chunks_view(chunks@) + walk(a, b) =~= walk(a, b));
    while i < target.len() || j < leaf.len()
        invariant
            i <= target@.len(),
            j <= leaf@.len(),
            a == views(target@),
            b == views(leaf@),
            walk(a, b) == chunks_view(chunks@) + walk(a.skip(i as int), b.skip(j as int)),
        decreases target@.len() - i + leaf@.len() - j,
    {
        let ghost before = chunks_view(chunks@);
        let (chunk, k, n) = next_chunk(target, i, leaf, j);
        chunks.push(chunk);
        i = k;
        j = n;
        proof {
            assert(chunks_view(chunks@) =~= before.push(chunk@));
            lemma_regroup(before, chunk@, walk(a.skip(i as int), b.skip(j as int)));
        }
    }
    assert(walk(a.skip(i as int), b.skip(j as int)) =~= Seq::empty());
    assert(chunks_view(chunks@) + Seq::empty() =~= chunks_view(chunks@));
    chunks
}

/// Merges the two texts that were made from `base`. A side that did not change
/// gives way to the other; equal changes are taken once; else the two texts
/// are walked in step, and where they differ they conflict.
pub fn three_way_line_merge(base: &str, target: &str, leaf: &str) -> (r: Vec<MergeChunk>)
    ensures
        chunks_view(r@) == merge(base@, target@, leaf@),
{
    let target_lines = split_lines(target);
    let leaf_lines = split_lines(leaf);
    if same_text(target, base) {
        return clean(&leaf_lines);
    }
    if same_text(leaf, base) || same_text(target, leaf) {
        return clean(&target_lines);
    }
    let diff_target = compute_diff(base, target);
    let diff_leaf = compute_diff(base, leaf);
    if same_ops(&diff_target, &diff_leaf) {
        return clean(&target_lines);
    }
    walk_lines(&target_lines, &leaf_lines)
}

fn push_lines(out: &mut String, ls: &Vec<String>)
    ensures
        final(out)@ == old(out)@ + join_lines(views(ls@)),
{
    let ghost all = views(ls@);
    let ghost before = out@;
    let mut i: usize = 0;
    assert(all.take(0) =~= Seq::empty());
    assert(before + join_lines(all.take(0)) =~= before);
    while i < ls.len()
        invariant
            i <= ls@.len(),
            all == views(ls@),
            out@ == before + join_lines(all.take(i as int)),
        decreases ls@.len() - i,
    {
        out.append(ls[i].as_str());
        out.push('\n');
        assert(all.take(i + 1).drop_last() =~= all.take(i as int));
        i = i + 1;
        assert(out@ =~= before + join_lines(all.take(i as int)));
    }
    assert(all.take(i as int) =~= all);
}

/// The merged text, and whether it holds a conflict. Conflicting lines stand
/// between markers, those of the target first.
pub fn format_merged_chunks(chunks: &Vec<MergeChunk>, leaf_name: &str) -> (r: (bool, String))
    ensures
        r.0 == has_conflict(chunks_view(chunks@)),
        r.1@ == chunks_text(chunks_view(chunks@), leaf_name@),
{
    let ghost all = chunks_view(chunks@);
    let mut out = String::new();
    let mut conflict = false;
    let mut i: usize = 0;
    assert(all.take(0) =~= Seq::empty());
    while i < chunks.len()
        invariant
            i <= chunks@.len(),
            all == chunks_view(chunks@),
            out@ == chunks_text(all.take(i as int), leaf_name@),
            conflict == has_conflict(all.take(i as int)),
        decreases chunks@.len() - i,
    {
        let ghost before = out@;
        let ghost seen = all.take(i as int);
        let ghost now = all.take(i + 1);
        assert(now.drop_last() =~= seen);
        assert(now.last() == chunks@[i as int]@);
        match &chunks[i] {
            MergeChunk::Clean(ls) => {
                push_lines(&mut out, ls);
                proof {
                    if conflict {
                        let k = choose|k: int|
                            0 <= k < seen.len() && #[trigger] seen[k] is Conflict;
                        assert(now[k] is Conflict);
                    }
                    if has_conflict(now) {
                        let k = choose|k: int| 0 <= k < now.len() && #[trigger] now[k] is Conflict;
                        assert(seen[k] is Conflict);
                    }
                }
            },
            MergeChunk::Conflict { target, leaf } => {
                conflict = true;
                out.append("<<<<<<< TARGET\n");
                push_lines(&mut out, target);
                out.append("=======\n");
                push_lines(&mut out, leaf);
                out.append(">>>>>>> LEAF (");
                out.append(leaf_name);
                out.append(")\n");
                assert(now[i as int] is Conflict);
            },
        }
        assert(out@ =~= before + chunk_text(now.last(), leaf_name@));
        i = i + 1;
    }
    assert(all.take(i as int) =~= all);
    (conflict, out)
}

// ---------------------------------------------------------------------------
// Laws

/// The lines of the target that pieces were made from.
pub open spec fn target_side<T>(chunks: Seq<Chunk<T>>) -> Seq<T>
    decreases chunks.len(),
{
    if chunks.len() == 0 {
        Seq::empty()
    } else {
        (match chunks[0] {
            Chunk::Clean(ls) => ls,
            Chunk::Conflict { target, leaf: _ } => target,
        }) + target_side(chunks.drop_first())
    }
}

/// The lines of the leaf that pieces were made from.
pub open spec fn leaf_side<T>(chunks: Seq<Chunk<T>>) -> Seq<T>
    decreases chunks.len(),
{
    if chunks.len() == 0 {
        Seq::empty()
    } else {
        (match chunks[0] {
            Chunk::Clean(ls) => ls,
            Chunk::Conflict { target: _, leaf } => leaf,
        }) + leaf_side(chunks.drop_first())
    }
}

/// No line of either side is lost or made up when two texts are walked in
/// step: the pieces hold exactly the lines of the one and of the other.
pub proof fn walk_loses_no_line<T>(target: Seq<T>, leaf: Seq<T>)
    ensures
        target_side(walk(target, leaf)) == target,
        leaf_side(walk(target, leaf)) == leaf,
    decreases target.len() + leaf.len(),
{
    let w = walk(target, leaf);
    if target.len() == 0 && leaf.len() == 0 {
        assert(target =~= Seq::empty());
        assert(leaf =~= Seq::empty());
    } else if target.len() > 0 && leaf.len() > 0 && target[0] == leaf[0] {
        walk_loses_no_line(target.skip(1), leaf.skip(1));
        lemma_walk_equal(target, leaf);
        assert(w.drop_first() =~= walk(target.skip(1), leaf.skip(1)));
        assert(seq![target[0]] + target.skip(1) =~= target);
        assert(seq![leaf[0]] + leaf.skip(1) =~= leaf);
    } else {
        let k = run(target, leaf);
        let n = run(leaf, target.skip(k));
        lemma_walk_conflict(target, leaf, k, n);
        walk_loses_no_line(target.skip(k), leaf.skip(n));
        assert(w.drop_first() =~= walk(target.skip(k), leaf.skip(n)));
        assert(target.take(k) + target.skip(k) =~= target);
        assert(leaf.take(n) + leaf.skip(n) =~= leaf);
    }
}

/// Two texts walked in step conflict somewhere unless they are the same.
pub proof fn walk_conflicts_iff_different<T>(target: Seq<T>, leaf: Seq<T>)
    ensures
        has_conflict(walk(target, leaf)) <==> target != leaf,
    decreases target.len() + leaf.len(),
{
    let w = walk(target, leaf);
    if target.len() == 0 && leaf.len() == 0 {
        assert(target =~= leaf);
    } else if target.len() > 0 && leaf.len() > 0 && target[0] == leaf[0] {
        let rest = walk(target.skip(1), leaf.skip(1));
        walk_conflicts_iff_different(target.skip(1), leaf.skip(1));
        lemma_walk_equal(target, leaf);
        if has_conflict(rest) {
            let i = choose|i: int| 0 <= i < rest.len() && #[trigger] rest[i] is Conflict;
            assert(w[i + 1] is Conflict);
        }
        if has_conflict(w) {
            let i = choose|i: int| 0 <= i < w.len() && #[trigger] w[i] is Conflict;
            assert(rest[i - 1] is Conflict);
        }
        assert(seq![target[0]] + target.skip(1) =~= target);
        assert(seq![leaf[0]] + leaf.skip(1) =~= leaf);
    } else {
        let k = run(target, leaf);
        lemma_walk_conflict(target, leaf, k, run(leaf, target.skip(k)));
        assert(w[0] is Conflict);
    }
}

/// A merge conflicts if and only if both sides changed the text and left
/// different lines.
pub proof fn merge_conflicts_iff_both_changed(
    base: Seq<char>,
    target: Seq<char>,
    leaf: Seq<char>,
)
    ensures
        has_conflict(merge(base, target, leaf)) <==> target != base && leaf != base && lines(
            target,
        ) != lines(leaf),
{
    walk_conflicts_iff_different(lines(target), lines(leaf));
    diff_leads_from_old_to_new(lines(base), lines(target));
    diff_leads_from_old_to_new(lines(base), lines(leaf));
}

/// A merge without a conflict takes over the side that changed: its text has
/// the lines of the leaf where the target did not change, else those of the
/// target.
pub proof fn clean_merge_takes_the_changed_side(
    base: Seq<char>,
    target: Seq<char>,
    leaf: Seq<char>,
    leaf_name: Seq<char>,
)
    requires
        !has_conflict(merge(base, target, leaf)),
    ensures
        chunks_text(merge(base, target, leaf), leaf_name) == join_lines(
            if target == base {
                lines(leaf)
            } else {
                lines(target)
            },
        ),
{
    merge_conflicts_iff_both_changed(base, target, leaf);
    let m = merge(base, target, leaf);
    let side = if target == base {
        lines(leaf)
    } else {
        lines(target)
    };
    assert(m =~= seq![Chunk::Clean(side)]);
    assert(m.drop_last() =~= Seq::empty());
    assert(chunks_text(m.drop_last(), leaf_name) =~= Seq::<char>::empty());
    assert(chunks_text(m, leaf_name) =~= join_lines(side));
}

/// What a line of a merged text is: a line of both sides, of one of them, or a
/// marker that opens, parts or closes a conflict.
pub enum Side {
    Both,
    Target,
    Leaf,
    Open,
    Middle,
    Close,
}

/// A line of a merged text.
#[verifier::ext_equal]
pub struct Row {
    pub text: Seq<char>,
    pub side: Side,
}

/// Whether one line of a merged text may follow another: the lines of one side
/// stand between the markers of a conflict and nowhere else.
pub open spec fn may_follow(a: Side, b: Side) -> bool {
    match a {
        Side::Both | Side::Close => b is Both || b is Open,
        Side::Open | Side::Target => b is Target || b is Middle,
        Side::Middle | Side::Leaf => b is Leaf || b is Close,
    }
}

/// Whether the lines of a merged text are in order: every conflict is opened,
/// parted and closed.
pub open spec fn is_laid_out(rows: Seq<Row>, leaf_name: Seq<char>) -> bool {
    &&& rows.len() > 0 ==> (rows[0].side is Both || rows[0].side is Open)
    &&& rows.len() > 0 ==> (rows.last().side is Both || rows.last().side is Close)
    &&& forall|i: int, j: int|
        0 <= i && j == i + 1 && j < rows.len() ==> may_follow(
            (#[trigger] rows[i]).side,
            (#[trigger] rows[j]).side,
        )
    &&& forall|i: int|
        0 <= i < rows.len() ==> match (#[trigger] rows[i]).side {
            Side::Open => rows[i].text == "<<<<<<< TARGET"@,
            Side::Middle => rows[i].text == "======="@,
            Side::Close => rows[i].text == ">>>>>>> LEAF ("@ + leaf_name + ")"@,
            _ => true,
        }
}

/// Lines as they are written down, each with a line end.
pub open spec fn rows_text(rows: Seq<Row>) -> Seq<char> {
    rows.map_values(|r: Row| r.text.push('\n')).flatten()
}

/// The lines that are left when the markers and the lines of the leaf alone are
/// taken out.
pub open spec fn target_rows(rows: Seq<Row>) -> Seq<Seq<char>> {
    rows.filter(|r: Row| r.side is Both || r.side is Target).map_values(|r: Row| r.text)
}

/// The lines that are left when the markers and the lines of the target alone
/// are taken out.
pub open spec fn leaf_rows(rows: Seq<Row>) -> Seq<Seq<char>> {
    rows.filter(|r: Row| r.side is Both || r.side is Leaf).map_values(|r: Row| r.text)
}

proof fn lemma_rows_concat(a: Seq<Row>, b: Seq<Row>)
    ensures
        rows_text(a + b) == rows_text(a) + rows_text(b),
        target_rows(a + b) == target_rows(a) + target_rows(b),
        leaf_rows(a + b) == leaf_rows(a) + leaf_rows(b),
{
    let line = |r: Row| r.text.push('\n');
    let text = |r: Row| r.text;
    let of_target = |r: Row| r.side is Both || r.side is Target;
    let of_leaf = |r: Row| r.side is Both || r.side is Leaf;
    assert((a + b).map_values(line) =~= a.map_values(line) + b.map_values(line));
    lemma_flatten_concat(a.map_values(line), b.map_values(line));
    Seq::filter_distributes_over_add(a, b, of_target);
    Seq::filter_distributes_over_add(a, b, of_leaf);
    assert(target_rows(a + b) =~= target_rows(a) + target_rows(b));
    assert(leaf_rows(a + b) =~= leaf_rows(a) + leaf_rows(b));
}

/// Lines of one kind.
spec fn same_rows(ls: Seq<Seq<char>>, side: Side) -> Seq<Row> {
    ls.map_values(|l: Seq<char>| Row { text: l, side })
}

proof fn lemma_same_rows(ls: Seq<Seq<char>>, side: Side)
    ensures
        rows_text(same_rows(ls, side)) == join_lines(ls),
        target_rows(same_rows(ls, side)) == (if side is Both || side is Target {
            ls
        } else {
            Seq::empty()
        }),
        leaf_rows(same_rows(ls, side)) == (if side is Both || side is Leaf {
            ls
        } else {
            Seq::empty()
        }),
    decreases ls.len(),
{
    reveal(Seq::filter);
    let rows = same_rows(ls, side);
    if ls.len() == 0 {
        assert(rows =~= Seq::empty());
        assert(rows_text(rows) =~= join_lines(ls));
        assert(target_rows(rows) =~= Seq::empty());
        assert(leaf_rows(rows) =~= Seq::empty());
        assert(ls =~= Seq::empty());
    } else {
        let less = ls.drop_last();
        lemma_same_rows(less, side);
        lemma_one_row(ls.last(), side);
        let one = seq![Row { text: ls.last(), side }];
        assert(rows =~= same_rows(less, side) + one);
        lemma_rows_concat(same_rows(less, side), one);
        assert(rows_text(rows) =~= join_lines(ls));
        assert(less + seq![ls.last()] =~= ls);
        assert(target_rows(rows) =~= if side is Both || side is Target {
            ls
        } else {
            Seq::empty()
        });
        assert(leaf_rows(rows) =~= if side is Both || side is Leaf {
            ls
        } else {
            Seq::empty()
        });
    }
}

proof fn lemma_one_row(text: Seq<char>, side: Side)
    ensures
        rows_text(seq![Row { text, side }]) == text.push('\n'),
        target_rows(seq![Row { text, side }]) == (if side is Both || side is Target {
            seq![text]
        } else {
            Seq::empty()
        }),
        leaf_rows(seq![Row { text, side }]) == (if side is Both || side is Leaf {
            seq![text]
        } else {
            Seq::empty()
        }),
{
    reveal(Seq::filter);
    let one = seq![Row { text, side }];
    let lines = one.map_values(|r: Row| r.text.push('\n'));
    assert(lines =~= seq![text.push('\n')]);
    lines.lemma_flatten_one_element();
    assert(one.drop_last() =~= Seq::empty());
    let of_target = |r: Row| r.side is Both || r.side is Target;
    let of_leaf = |r: Row| r.side is Both || r.side is Leaf;
    assert(one.drop_last().filter(of_target) =~= Seq::empty());
    assert(one.drop_last().filter(of_leaf) =~= Seq::empty());
    assert(target_rows(one) =~= if side is Both || side is Target {
        seq![text]
    } else {
        Seq::empty()
    });
    assert(leaf_rows(one) =~= if side is Both || side is Leaf {
        seq![text]
    } else {
        Seq::empty()
    });
}

proof fn lemma_laid_out_concat(a: Seq<Row>, b: Seq<Row>, leaf_name: Seq<char>)
    requires
        is_laid_out(a, leaf_name),
        is_laid_out(b, leaf_name),
    ensures
        is_laid_out(a + b, leaf_name),
{
    let rows = a + b;
    assert forall|i: int, j: int| 0 <= i && j == i + 1 && j < rows.len() implies may_follow(
        (#[trigger] rows[i]).side,
        (#[trigger] rows[j]).side,
    ) by {
        if j < a.len() {
            assert(rows[i] == a[i] && rows[j] == a[j]);
        } else if i >= a.len() {
            assert(rows[i] == b[i - a.len()] && rows[j] == b[j - a.len()]);
        } else {
            assert(rows[i] == a.last() && rows[j] == b[0]);
        }
    }
    assert forall|i: int| 0 <= i < rows.len() implies match (#[trigger] rows[i]).side {
        Side::Open => rows[i].text == "<<<<<<< TARGET"@,
        Side::Middle => rows[i].text == "======="@,
        Side::Close => rows[i].text == ">>>>>>> LEAF ("@ + leaf_name + ")"@,
        _ => true,
    } by {
        if i < a.len() {
            assert(rows[i] == a[i]);
        } else {
            assert(rows[i] == b[i - a.len()]);
        }
    }
    if rows.len() > 0 {
        if b.len() > 0 {
            assert(rows.last() == b.last());
        } else {
            assert(rows.last() == a.last());
        }
        if a.len() > 0 {
            assert(rows[0] == a[0]);
        } else {
            assert(rows[0] == b[0]);
        }
    }
}

/// The lines of one piece.
proof fn lemma_chunk_rows(chunk: Chunk<Seq<char>>, leaf_name: Seq<char>) -> (rows: Seq<Row>)
    ensures
        rows_text(rows) == chunk_text(chunk, leaf_name),
        is_laid_out(rows, leaf_name),
        target_rows(rows) == (match chunk {
            Chunk::Clean(ls) => ls,
            Chunk::Conflict { target, leaf: _ } => target,
        }),
        leaf_rows(rows) == (match chunk {
            Chunk::Clean(ls) => ls,
            Chunk::Conflict { target: _, leaf } => leaf,
        }),
{
    match chunk {
        Chunk::Clean(ls) => {
            lemma_same_rows(ls, Side::Both);
            same_rows(ls, Side::Both)
        },
        Chunk::Conflict { target, leaf } => {
            reveal_strlit("<<<<<<< TARGET");
            reveal_strlit("<<<<<<< TARGET\n");
            reveal_strlit("=======");
            reveal_strlit("=======\n");
            reveal_strlit(")");
            reveal_strlit(")\n");
            let close = ">>>>>>> LEAF ("@ + leaf_name + ")"@;
            let a = seq![Row { text: "<<<<<<< TARGET"@, side: Side::Open }];
            let b = same_rows(target, Side::Target);
            let c = seq![Row { text: "======="@, side: Side::Middle }];
            let d = same_rows(leaf, Side::Leaf);
            let e = seq![Row { text: close, side: Side::Close }];
            lemma_one_row("<<<<<<< TARGET"@, Side::Open);
            lemma_same_rows(target, Side::Target);
            lemma_one_row("======="@, Side::Middle);
            lemma_same_rows(leaf, Side::Leaf);
            lemma_one_row(close, Side::Close);
            lemma_rows_concat(a, b);
            lemma_rows_concat(a + b, c);
            lemma_rows_concat(a + b + c, d);
            lemma_rows_concat(a + b + c + d, e);
            let rows = a + b + c + d + e;
            assert("<<<<<<< TARGET"@.push('\n') =~= "<<<<<<< TARGET\n"@);
            assert("======="@.push('\n') =~= "=======\n"@);
            assert(rows_text(rows) =~= chunk_text(chunk, leaf_name));
            assert(target_rows(rows) =~= target);
            assert(leaf_rows(rows) =~= leaf);
            let n = target.len();
            assert forall|i: int| 0 <= i < rows.len() implies (#[trigger] rows[i]).side == (if i
                == 0 {
                Side::Open
            } else if i <= n {
                Side::Target
            } else if i == n + 1 {
                Side::Middle
            } else if i <= n + 1 + leaf.len() {
                Side::Leaf
            } else {
                Side::Close
            }) by {}
            rows
        },
    }
}

proof fn lemma_target_side_push<T>(chunks: Seq<Chunk<T>>, c: Chunk<T>)
    ensures
        target_side(chunks.push(c)) == target_side(chunks) + (match c {
            Chunk::Clean(ls) => ls,
            Chunk::Conflict { target, leaf: _ } => target,
        }),
        leaf_side(chunks.push(c)) == leaf_side(chunks) + (match c {
            Chunk::Clean(ls) => ls,
            Chunk::Conflict { target: _, leaf } => leaf,
        }),
    decreases chunks.len(),
{
    let all = chunks.push(c);
    if chunks.len() == 0 {
        assert(all.drop_first() =~= chunks);
        assert(target_side(all) =~= target_side(chunks) + (match c {
            Chunk::Clean(ls) => ls,
            Chunk::Conflict { target, leaf: _ } => target,
        }));
        assert(leaf_side(all) =~= leaf_side(chunks) + (match c {
            Chunk::Clean(ls) => ls,
            Chunk::Conflict { target: _, leaf } => leaf,
        }));
    } else {
        assert(all.drop_first() =~= chunks.drop_first().push(c));
        lemma_target_side_push(chunks.drop_first(), c);
        assert(target_side(all) =~= target_side(chunks) + (match c {
            Chunk::Clean(ls) => ls,
            Chunk::Conflict { target, leaf: _ } => target,
        }));
        assert(leaf_side(all) =~= leaf_side(chunks) + (match c {
            Chunk::Clean(ls) => ls,
            Chunk::Conflict { target: _, leaf } => leaf,
        }));
    }
}

proof fn lemma_chunks_rows(chunks: Seq<Chunk<Seq<char>>>, leaf_name: Seq<char>) -> (rows: Seq<Row>)
    ensures
        rows_text(rows) == chunks_text(chunks, leaf_name),
        is_laid_out(rows, leaf_name),
        target_rows(rows) == target_side(chunks),
        leaf_rows(rows) == leaf_side(chunks),
    decreases chunks.len(),
{
    if chunks.len() == 0 {
        let none = Seq::<Seq<char>>::empty();
        lemma_same_rows(none, Side::Both);
        same_rows(none, Side::Both)
    } else {
        let a = lemma_chunks_rows(chunks.drop_last(), leaf_name);
        let b = lemma_chunk_rows(chunks.last(), leaf_name);
        lemma_rows_concat(a, b);
        lemma_laid_out_concat(a, b, leaf_name);
        lemma_target_side_push(chunks.drop_last(), chunks.last());
        assert(chunks.drop_last().push(chunks.last()) =~= chunks);
        a + b
    }
}

/// The text that is written for a merge with a conflict loses no line of either
/// side. Its lines are lines of both sides, or stand, with the markers, in
/// conflicts, one half of which may be empty. Without the markers and the halves
/// of the leaf the lines of the target are left, all of them in order; without
/// the markers and the halves of the target, those of the leaf.
pub proof fn merged_text_tells_both_sides(
    base: Seq<char>,
    target: Seq<char>,
    leaf: Seq<char>,
    leaf_name: Seq<char>,
) -> (rows: Seq<Row>)
    requires
        target != base,
        leaf != base,
        lines(target) != lines(leaf),
    ensures
        chunks_text(merge(base, target, leaf), leaf_name) == rows_text(rows),
        is_laid_out(rows, leaf_name),
        target_rows(rows) == lines(target),
        leaf_rows(rows) == lines(leaf),
{
    merge_conflicts_iff_both_changed(base, target, leaf);
    diff_leads_from_old_to_new(lines(base), lines(target));
    diff_leads_from_old_to_new(lines(base), lines(leaf));
    walk_loses_no_line(lines(target), lines(leaf));
    lemma_chunks_rows(merge(base, target, leaf), leaf_name)
}

/// Two texts that are walked in step conflict no longer than they have to: the
/// target's half of a conflict ends at the first line that the leaf goes on
/// with, and the leaf's half at the first line that the target then goes on
/// with; and equal lines never conflict, each is a piece of its own.
pub proof fn conflicts_end_as_soon_as_they_can<T>(target: Seq<T>, leaf: Seq<T>, i: int)
    requires
        0 <= i < walk(target, leaf).len(),
    ensures
        ({
            let w = walk(target, leaf);
            let t = target_side(w.skip(i + 1));
            let l = leaf_side(w.skip(i + 1));
            match w[i] {
                Chunk::Clean(ls) => ls.len() == 1,
                Chunk::Conflict { target: a, leaf: b } => {
                    &&& a.len() + b.len() > 0
                    &&& (b + l).len() > 0 ==> !a.contains((b + l)[0])
                    &&& t.len() > 0 ==> (b + l).len() > 0 && t[0] == (b + l)[0]
                    &&& t.len() > 0 ==> b.len() == 0
                    &&& l.len() > 0 ==> t.len() > 0
                },
            }
        }),
    decreases target.len() + leaf.len(),
{
    let w = walk(target, leaf);
    if target.len() > 0 && leaf.len() > 0 && target[0] == leaf[0] {
        lemma_walk_equal(target, leaf);
        let rest = walk(target.skip(1), leaf.skip(1));
        if i > 0 {
            conflicts_end_as_soon_as_they_can(target.skip(1), leaf.skip(1), i - 1);
            assert(w.skip(i + 1) =~= rest.skip(i));
        }
    } else {
        let k = run(target, leaf);
        let n = run(leaf, target.skip(k));
        lemma_walk_conflict(target, leaf, k, n);
        let rest = walk(target.skip(k), leaf.skip(n));
        if i > 0 {
            conflicts_end_as_soon_as_they_can(target.skip(k), leaf.skip(n), i - 1);
            assert(w.skip(i + 1) =~= rest.skip(i));
        } else {
            walk_loses_no_line(target.skip(k), leaf.skip(n));
            assert(w.skip(1) =~= rest);
            assert(leaf.take(n) + leaf.skip(n) =~= leaf);
            if leaf.len() > 0 {
                lemma_position(target, leaf[0]);
                assert(!target.take(k).contains(leaf[0])) by {
                    if target.take(k).contains(leaf[0]) {
                        let j = choose|j: int|
                            0 <= j < k && target.take(k)[j] == leaf[0];
                        assert(target[j] == leaf[0]);
                    }
                }
            }
            if target.skip(k).len() > 0 {
                assert(target.skip(k)[0] == target[k]);
                lemma_position(leaf, target.skip(k)[0]);
            }
        }
    }
}

/// Merged pieces are written down all and in order: a clean one as its lines, a
/// conflict as the lines of the target and then those of the leaf, between the
/// markers.
pub proof fn pieces_are_written_in_order(chunks: Seq<Chunk<Seq<char>>>, leaf_name: Seq<char>)
    ensures
        chunks_text(chunks, leaf_name) == chunks.map_values(
            |c: Chunk<Seq<char>>|
                match c {
                    Chunk::Clean(ls) => ls.map_values(|l: Seq<char>| l.push('\n')).flatten(),
                    Chunk::Conflict { target, leaf } => "<<<<<<< TARGET\n"@ + target.map_values(
                        |l: Seq<char>| l.push('\n'),
                    ).flatten() + "=======\n"@ + leaf.map_values(
                        |l: Seq<char>| l.push('\n'),
                    ).flatten() + ">>>>>>> LEAF ("@ + leaf_name + ")\n"@,
                },
        ).flatten(),
    decreases chunks.len(),
{
    let row = |c: Chunk<Seq<char>>|
        match c {
            Chunk::Clean(ls) => ls.map_values(|l: Seq<char>| l.push('\n')).flatten(),
            Chunk::Conflict { target, leaf } => "<<<<<<< TARGET\n"@ + target.map_values(
                |l: Seq<char>| l.push('\n'),
            ).flatten() + "=======\n"@ + leaf.map_values(
                |l: Seq<char>| l.push('\n'),
            ).flatten() + ">>>>>>> LEAF ("@ + leaf_name + ")\n"@,
        };
    if chunks.len() == 0 {
        assert(chunks.map_values(row) =~= Seq::empty());
    } else {
        let less = chunks.drop_last();
        pieces_are_written_in_order(less, leaf_name);
        match chunks.last() {
            Chunk::Clean(ls) => {
                joined_lines_are_all_lines(ls);
            },
            Chunk::Conflict { target, leaf } => {
                joined_lines_are_all_lines(target);
                joined_lines_are_all_lines(leaf);
            },
        }
        assert(chunks.map_values(row) =~= less.map_values(row).push(row(chunks.last())));
        less.map_values(row).lemma_flatten_push(row(chunks.last()));
    }
}

} // verus!
