//! Line differences by a longest common subsequence.
use vstd::prelude::*;
use crate::text::{lines, split_lines, views};

verus! {

/// One step of a difference between two texts.
#[derive(Debug, Clone, PartialEq, Eq)]
pub enum DiffOp {
    Keep(String),
    Insert(String),
    Delete(String),
}

/// A `DiffOp` as a mathematical value, over lines of any type.
#[verifier::ext_equal]
pub enum Op<T> {
    Keep(T),
    Insert(T),
    Delete(T),
}

impl View for DiffOp {
    type V = Op<Seq<char>>;

    open spec fn view(&self) -> Op<Seq<char>> {
        match self {
            DiffOp::Keep(line) => Op::Keep(line@),
            DiffOp::Insert(line) => Op::Insert(line@),
            DiffOp::Delete(line) => Op::Delete(line@),
        }
    }
}

/// The steps of a difference as mathematical values.
pub open spec fn ops_view(ops: Seq<DiffOp>) -> Seq<Op<Seq<char>>> {
    ops.map_values(|op: DiffOp| op@)
}

/// The length of a longest common subsequence.
pub open spec fn lcs<T>(a: Seq<T>, b: Seq<T>) -> nat
    decreases a.len() + b.len(),
{
    if a.len() == 0 || b.len() == 0 {
        0
    } else if a.last() == b.last() {
        lcs(a.drop_last(), b.drop_last()) + 1
    } else {
        let without_b = lcs(a, b.drop_last());
        let without_a = lcs(a.drop_last(), b);
        if without_b >= without_a {
            without_b
        } else {
            without_a
        }
    }
}

/// The difference from `a` to `b`, told from the end: equal last lines are
/// kept; else a line is inserted where leaving it out costs no common line
/// more than leaving out the line of `a`; else a line is deleted.
pub open spec fn diff<T>(a: Seq<T>, b: Seq<T>) -> Seq<Op<T>>
    decreases a.len() + b.len(),
{
    if a.len() == 0 && b.len() == 0 {
        Seq::empty()
    } else if a.len() > 0 && b.len() > 0 && a.last() == b.last() {
        diff(a.drop_last(), b.drop_last()).push(Op::Keep(a.last()))
    } else if b.len() > 0 && (a.len() == 0 || lcs(a, b.drop_last()) >= lcs(a.drop_last(), b)) {
        diff(a, b.drop_last()).push(Op::Insert(b.last()))
    } else {
        diff(a.drop_last(), b).push(Op::Delete(a.last()))
    }
}

/// The lines that a difference starts from.
pub open spec fn old_side<T>(ops: Seq<Op<T>>) -> Seq<T>
    decreases ops.len(),
{
    if ops.len() == 0 {
        Seq::empty()
    } else {
        match ops.last() {
            Op::Keep(x) => old_side(ops.drop_last()).push(x),
            Op::Delete(x) => old_side(ops.drop_last()).push(x),
            Op::Insert(_) => old_side(ops.drop_last()),
        }
    }
}

/// The lines that a difference leads to.
pub open spec fn new_side<T>(ops: Seq<Op<T>>) -> Seq<T>
    decreases ops.len(),
{
    if ops.len() == 0 {
        Seq::empty()
    } else {
        match ops.last() {
            Op::Keep(x) => new_side(ops.drop_last()).push(x),
            Op::Insert(x) => new_side(ops.drop_last()).push(x),
            Op::Delete(_) => new_side(ops.drop_last()),
        }
    }
}

/// How many lines a difference keeps.
pub open spec fn kept<T>(ops: Seq<Op<T>>) -> nat
    decreases ops.len(),
{
    if ops.len() == 0 {
        0
    } else {
        kept(ops.drop_last()) + (if ops.last() is Keep {
            1nat
        } else {
            0nat
        })
    }
}

proof fn lemma_lcs_bound<T>(a: Seq<T>, b: Seq<T>)
    ensures
        lcs(a, b) <= a.len(),
        lcs(a, b) <= b.len(),
    decreases a.len() + b.len(),
{
    if a.len() > 0 && b.len() > 0 {
        lemma_lcs_bound(a.drop_last(), b.drop_last());
        lemma_lcs_bound(a, b.drop_last());
        lemma_lcs_bound(a.drop_last(), b);
    }
}

/// One line more on either side adds at most one common line, and takes none.
proof fn lemma_lcs_step<T>(a: Seq<T>, b: Seq<T>)
    ensures
        a.len() > 0 ==> lcs(a.drop_last(), b) <= lcs(a, b) <= lcs(a.drop_last(), b) + 1,
        b.len() > 0 ==> lcs(a, b.drop_last()) <= lcs(a, b) <= lcs(a, b.drop_last()) + 1,
    decreases a.len() + b.len(),
{
    if a.len() > 0 && b.len() > 0 {
        lemma_lcs_step(a.drop_last(), b);
        lemma_lcs_step(a, b.drop_last());
    }
}

/// A difference leads from the old lines to the new ones: its kept and deleted
/// lines are the old text, its kept and inserted lines the new.
pub proof fn diff_leads_from_old_to_new<T>(a: Seq<T>, b: Seq<T>)
    ensures
        old_side(diff(a, b)) == a,
        new_side(diff(a, b)) == b,
    decreases a.len() + b.len(),
{
    let d = diff(a, b);
    if a.len() == 0 && b.len() == 0 {
        assert(a =~= Seq::empty());
        assert(b =~= Seq::empty());
    } else if a.len() > 0 && b.len() > 0 && a.last() == b.last() {
        diff_leads_from_old_to_new(a.drop_last(), b.drop_last());
        assert(d.drop_last() =~= diff(a.drop_last(), b.drop_last()));
        assert(a.drop_last().push(a.last()) =~= a);
        assert(b.drop_last().push(b.last()) =~= b);
    } else if b.len() > 0 && (a.len() == 0 || lcs(a, b.drop_last()) >= lcs(a.drop_last(), b)) {
        diff_leads_from_old_to_new(a, b.drop_last());
        assert(d.drop_last() =~= diff(a, b.drop_last()));
        assert(b.drop_last().push(b.last()) =~= b);
    } else {
        diff_leads_from_old_to_new(a.drop_last(), b);
        assert(d.drop_last() =~= diff(a.drop_last(), b));
        assert(a.drop_last().push(a.last()) =~= a);
    }
}

proof fn lemma_diff_keeps<T>(a: Seq<T>, b: Seq<T>)
    ensures
        kept(diff(a, b)) == lcs(a, b),
    decreases a.len() + b.len(),
{
    let d = diff(a, b);
    if a.len() == 0 && b.len() == 0 {
    } else if a.len() > 0 && b.len() > 0 && a.last() == b.last() {
        lemma_diff_keeps(a.drop_last(), b.drop_last());
        assert(d.drop_last() =~= diff(a.drop_last(), b.drop_last()));
    } else if b.len() > 0 && (a.len() == 0 || lcs(a, b.drop_last()) >= lcs(a.drop_last(), b)) {
        lemma_diff_keeps(a, b.drop_last());
        assert(d.drop_last() =~= diff(a, b.drop_last()));
    } else {
        lemma_diff_keeps(a.drop_last(), b);
        assert(d.drop_last() =~= diff(a.drop_last(), b));
    }
}

proof fn lemma_kept_bound<T>(ops: Seq<Op<T>>)
    ensures
        kept(ops) <= lcs(old_side(ops), new_side(ops)),
    decreases ops.len(),
{
    if ops.len() > 0 {
        let rest = ops.drop_last();
        lemma_kept_bound(rest);
        let a = old_side(ops);
        let b = new_side(ops);
        lemma_lcs_step(a, b);
        match ops.last() {
            Op::Keep(x) => {
                assert(a.drop_last() =~= old_side(rest));
                assert(b.drop_last() =~= new_side(rest));
            },
            Op::Insert(x) => {
                assert(b.drop_last() =~= new_side(rest));
            },
            Op::Delete(x) => {
                assert(a.drop_last() =~= old_side(rest));
            },
        }
    }
}

/// No other way from the old lines to the new ones keeps more lines.
pub proof fn diff_keeps_the_most<T>(ops: Seq<Op<T>>)
    ensures
        kept(ops) <= kept(diff(old_side(ops), new_side(ops))),
{
    lemma_kept_bound(ops);
    lemma_diff_keeps(old_side(ops), new_side(ops));
}

/// Equal texts differ in nothing: every line is kept.
pub proof fn diff_of_equal_texts<T>(a: Seq<T>)
    ensures
        diff(a, a) == a.map_values(|x: T| Op::Keep(x)),
    decreases a.len(),
{
    let keep = |x: T| Op::Keep(x);
    if a.len() == 0 {
        assert(diff(a, a) =~= a.map_values(keep));
    } else {
        diff_of_equal_texts(a.drop_last());
        assert(a.map_values(keep) =~= a.drop_last().map_values(keep).push(Op::Keep(a.last())));
    }
}

proof fn lemma_lcs_grows<T>(a: Seq<T>, b: Seq<T>)
    ensures
        b.len() > 0 ==> lcs(a, b.drop_last()) <= lcs(a, b) <= lcs(a, b.drop_last()) + 1,
        a.len() > 0 ==> lcs(a.drop_last(), b) <= lcs(a, b) <= lcs(a.drop_last(), b) + 1,
    decreases a.len() + b.len(),
{
    if a.len() > 0 && b.len() > 0 {
        lemma_lcs_grows(a.drop_last(), b);
        lemma_lcs_grows(a, b.drop_last());
        lemma_lcs_grows(a.drop_last(), b.drop_last());
    }
}

/// Where lines are replaced, the lines that go come first: an insertion is never
/// directly followed by a deletion.
pub proof fn deletions_come_first<T>(a: Seq<T>, b: Seq<T>, i: int)
    requires
        0 <= i,
        i + 1 < diff(a, b).len(),
    ensures
        !(diff(a, b)[i] is Insert && diff(a, b)[i + 1] is Delete),
    decreases a.len() + b.len(),
{
    let d = diff(a, b);
    let (x, y) = if a.len() > 0 && b.len() > 0 && a.last() == b.last() {
        (a.drop_last(), b.drop_last())
    } else if b.len() > 0 && (a.len() == 0 || lcs(a, b.drop_last()) >= lcs(a.drop_last(), b)) {
        (a, b.drop_last())
    } else {
        (a.drop_last(), b)
    };
    assert(d.drop_last() =~= diff(x, y));
    if i + 1 < d.len() - 1 {
        deletions_come_first(x, y, i);
        assert(d[i] == diff(x, y)[i] && d[i + 1] == diff(x, y)[i + 1]);
    } else if d.last() is Delete {
        let e = diff(x, y);
        assert(d[i] == e.last());
        if e.last() is Insert {
            lemma_lcs_grows(a, b.drop_last());
            lemma_lcs_grows(x, y);
            lemma_lcs_grows(a, b);
        }
    }
}

/// Equal last lines are kept, whatever stands before them.
pub proof fn common_end_is_kept<T>(a: Seq<T>, b: Seq<T>, x: T)
    ensures
        diff(a.push(x), b.push(x)) == diff(a, b).push(Op::Keep(x)),
{
    assert(a.push(x).drop_last() =~= a);
    assert(b.push(x).drop_last() =~= b);
}

/// Where the last lines differ, the last line of the new text is inserted if that
/// costs no kept line, and else the last line of the old text is deleted; either
/// way the rest is the difference of the rest.
pub proof fn insertions_are_preferred_at_the_end<T>(a: Seq<T>, b: Seq<T>, x: T, y: T)
    requires
        x != y,
    ensures
        ({
            let inserted = diff(a.push(x), b).push(Op::Insert(y));
            let deleted = diff(a, b.push(y)).push(Op::Delete(x));
            diff(a.push(x), b.push(y)) == (if kept(inserted) >= kept(deleted) {
                inserted
            } else {
                deleted
            })
        }),
{
    assert(a.push(x).drop_last() =~= a);
    assert(b.push(y).drop_last() =~= b);
    let inserted = diff(a.push(x), b).push(Op::Insert(y));
    let deleted = diff(a, b.push(y)).push(Op::Delete(x));
    assert(inserted.drop_last() =~= diff(a.push(x), b));
    assert(deleted.drop_last() =~= diff(a, b.push(y)));
    lemma_diff_keeps(a.push(x), b);
    lemma_diff_keeps(a, b.push(y));
}

/// From nothing every line is inserted, and to nothing every line is deleted.
pub proof fn diff_with_nothing<T>(a: Seq<T>)
    ensures
        diff(Seq::empty(), a) == a.map_values(|x: T| Op::Insert(x)),
        diff(a, Seq::empty()) == a.map_values(|x: T| Op::Delete(x)),
    decreases a.len(),
{
    let insert = |x: T| Op::Insert(x);
    let delete = |x: T| Op::Delete(x);
    if a.len() == 0 {
        assert(a =~= Seq::empty());
        assert(a.map_values(insert) =~= Seq::empty());
        assert(a.map_values(delete) =~= Seq::empty());
    } else {
        let less = a.drop_last();
        diff_with_nothing(less);
        assert(a.map_values(insert) =~= less.map_values(insert).push(Op::Insert(a.last())));
        assert(a.map_values(delete) =~= less.map_values(delete).push(Op::Delete(a.last())));
    }
}

// ---------------------------------------------------------------------------

/// The row of the table that belongs to a prefix of the old lines.
spec fn is_row(row: Seq<usize>, a: Seq<Seq<char>>, b: Seq<Seq<char>>, j: int) -> bool {
    &&& row.len() == j + 1
    &&& forall|k: int| 0 <= k <= j ==> #[trigger] row[k] == lcs(a, b.take(k))
}

fn first_row(m: usize, Ghost(b): Ghost<Seq<Seq<char>>>) -> (row: Vec<usize>)
    requires
        m == b.len(),
    ensures
        is_row(row@, Seq::empty(), b, m as int),
{
    let mut row: Vec<usize> = Vec::new();
    row.push(0);
    let mut j: usize = 0;
    while j < m
        invariant
            j <= m,
            m == b.len(),
            is_row(row@, Seq::empty(), b, j as int),
        decreases m - j,
    {
        row.push(0);
        j = j + 1;
    }
    row
}

fn next_row(
    prev: &Vec<usize>,
    line: &String,
    new_lines: &Vec<String>,
    Ghost(a): Ghost<Seq<Seq<char>>>,
) -> (row: Vec<usize>)
    requires
        a.len() > 0,
        a.last() == line@,
        a.len() <= usize::MAX,
        is_row(prev@, a.drop_last(), views(new_lines@), new_lines@.len() as int),
    ensures
        is_row(row@, a, views(new_lines@), new_lines@.len() as int),
{
    let ghost b = views(new_lines@);
    let mut row: Vec<usize> = Vec::new();
    row.push(0);
    let mut j: usize = 0;
    while j < new_lines.len()
        invariant
            j <= new_lines@.len(),
            b == views(new_lines@),
            a.len() > 0,
            a.last() == line@,
            a.len() <= usize::MAX,
            is_row(prev@, a.drop_last(), b, new_lines@.len() as int),
            is_row(row@, a, b, j as int),
        decreases new_lines@.len() - j,
    {
        let ghost before = row@;
        proof {
            assert(b.take(j + 1).drop_last() =~= b.take(j as int));
            assert(b.take(j + 1).last() == new_lines@[j as int]@);
            assert(prev@[j as int] == lcs(a.drop_last(), b.take(j as int)));
            assert(prev@[j + 1] == lcs(a.drop_last(), b.take(j + 1)));
            assert(row@[j as int] == lcs(a, b.take(j as int)));
            lemma_lcs_bound(a.drop_last(), b.take(j as int));
        }
        let value: usize = if *line == new_lines[j] {
            prev[j] + 1
        } else if row[j] >= prev[j + 1] {
            row[j]
        } else {
            prev[j + 1]
        };
        row.push(value);
        assert(forall|k: int| 0 <= k <= j ==> row@[k] == before[k]);
        j = j + 1;
    }
    row
}

/// The lengths of the longest common subsequences of all pairs of prefixes.
fn lcs_table(old_lines: &Vec<String>, new_lines: &Vec<String>) -> (table: Vec<Vec<usize>>)
    ensures
        table@.len() == old_lines@.len() + 1,
        forall|i: int|
            0 <= i <= old_lines@.len() ==> is_row(
                (#[trigger] table@[i])@,
                views(old_lines@).take(i),
                views(new_lines@),
                new_lines@.len() as int,
            ),
{
    let ghost a = views(old_lines@);
    let ghost b = views(new_lines@);
    let mut table: Vec<Vec<usize>> = Vec::new();
    table.push(first_row(new_lines.len(), Ghost(b)));
    assert(a.take(0) =~= Seq::empty());
    let mut i: usize = 0;
    while i < old_lines.len()
        invariant
            i <= old_lines@.len(),
            a == views(old_lines@),
            b == views(new_lines@),
            table@.len() == i + 1,
            forall|k: int|
                0 <= k <= i ==> is_row(
                    (#[trigger] table@[k])@,
                    a.take(k),
                    b,
                    new_lines@.len() as int,
                ),
        decreases old_lines@.len() - i,
    {
        proof {
            assert(a.take(i + 1).drop_last() =~= a.take(i as int));
            assert(a.take(i + 1).last() == old_lines@[i as int]@);
            assert(a.take(i + 1).len() <= old_lines.len());
        }
        let row = next_row(&table[i], &old_lines[i], new_lines, Ghost(a.take(i + 1)));
        let ghost before = table@;
        table.push(row);
        assert(forall|k: int| 0 <= k <= i ==> table@[k] == before[k]);
        i = i + 1;
    }
    table
}

/// The steps in the opposite order.
fn reversed(ops: Vec<DiffOp>) -> (r: Vec<DiffOp>)
    ensures
        r@ == ops@.reverse(),
{
    let mut rest = ops;
    let mut out: Vec<DiffOp> = Vec::new();
    while rest.len() > 0
        invariant
            rest@.len() + out@.len() == ops@.len(),
            rest@ == ops@.take(rest@.len() as int),
            out@ == ops@.reverse().take(out@.len() as int),
        decreases rest@.len(),
    {
        let ghost k = out@.len() as int;
        if let Some(op) = rest.pop() {
            out.push(op);
            assert(ops@.reverse()[k] == op);
            assert(ops@.reverse().take(k + 1) =~= ops@.reverse().take(k).push(op));
        }
    }
    assert(ops@.reverse().take(out@.len() as int) =~= ops@.reverse());
    out
}

proof fn lemma_ops_reverse_push(ops: Seq<DiffOp>, op: DiffOp)
    ensures
        ops_view(ops.push(op).reverse()) == seq![op@] + ops_view(ops.reverse()),
{
    assert(ops_view(ops.push(op).reverse()) =~= seq![op@] + ops_view(ops.reverse()));
}

/// The difference between two lists of lines.
pub fn diff_lines(old_lines: &Vec<String>, new_lines: &Vec<String>) -> (r: Vec<DiffOp>)
    ensures
        ops_view(r@) == diff(views(old_lines@), views(new_lines@)),
{
    let ghost a = views(old_lines@);
    let ghost b = views(new_lines@);
    let table = lcs_table(old_lines, new_lines);
    let mut i: usize = old_lines.len();
    let mut j: usize = new_lines.len();
    let mut ops: Vec<DiffOp> = Vec::new();
    assert(a.take(i as int) =~= a);
    assert(b.take(j as int) =~= b);
    assert(ops_view(ops@.reverse()) =~= Seq::empty());
    assert(diff(a, b) + Seq::empty() =~= diff(a, b));
    while i > 0 || j > 0
        invariant
            i <= old_lines@.len(),
            j <= new_lines@.len(),
            a == views(old_lines@),
            b == views(new_lines@),
            table@.len() == old_lines@.len() + 1,
            forall|k: int|
                0 <= k <= old_lines@.len() ==> is_row(
                    (#[trigger] table@[k])@,
                    a.take(k),
                    b,
                    new_lines@.len() as int,
                ),
            diff(a, b) == diff(a.take(i as int), b.take(j as int)) + ops_view(ops@.reverse()),
        decreases i + j,
    {
        let ghost before = ops@;
        let ghost tail = ops_view(ops@.reverse());
        let ghost ai = a.take(i as int);
        let ghost bj = b.take(j as int);
        proof {
            if i > 0 {
                assert(ai.drop_last() =~= a.take(i - 1));
                assert(ai.last() == old_lines@[i - 1]@);
                assert(is_row(table@[i - 1]@, a.take(i - 1), b, new_lines@.len() as int));
                assert(table@[i - 1]@[j as int] == lcs(a.take(i - 1), bj));
            }
            if j > 0 {
                assert(bj.drop_last() =~= b.take(j - 1));
                assert(bj.last() == new_lines@[j - 1]@);
                assert(is_row(table@[i as int]@, ai, b, new_lines@.len() as int));
                assert(table@[i as int]@[j - 1] == lcs(ai, b.take(j - 1)));
            }
        }
        if i > 0 && j > 0 && old_lines[i - 1] == new_lines[j - 1] {
            ops.push(DiffOp::Keep(old_lines[i - 1].clone()));
            i = i - 1;
            j = j - 1;
        } else if j > 0 && (i == 0 || table[i][j - 1] >= table[i - 1][j]) {
            ops.push(DiffOp::Insert(new_lines[j - 1].clone()));
            j = j - 1;
        } else {
            ops.push(DiffOp::Delete(old_lines[i - 1].clone()));
            i = i - 1;
        }
        proof {
            let op = ops@.last();
            assert(ops@ =~= before.push(op));
            lemma_ops_reverse_push(before, op);
            assert(diff(ai, bj) == diff(a.take(i as int), b.take(j as int)).push(op@));
            assert(diff(a.take(i as int), b.take(j as int)).push(op@) + tail =~= diff(
                a.take(i as int),
                b.take(j as int),
            ) + (seq![op@] + tail));
        }
    }
    assert(diff(a.take(0), b.take(0)) + ops_view(ops@.reverse()) =~= ops_view(ops@.reverse()));
    reversed(ops)
}

/// The difference between two texts, line by line.
pub fn compute_diff(old_text: &str, new_text: &str) -> (r: Vec<DiffOp>)
    ensures
        ops_view(r@) == diff(lines(old_text@), lines(new_text@)),
{
    let old_lines = split_lines(old_text);
    let new_lines = split_lines(new_text);
    diff_lines(&old_lines, &new_lines)
}

} // verus!
