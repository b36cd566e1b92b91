//! Differences and status, as text.
use vstd::prelude::*;
use crate::blame::{blob_text, read_blob_as_string};
use crate::codec::object_bytes;
use crate::diff::{
    compute_diff, deletions_come_first, diff, diff_leads_from_old_to_new, diff_of_equal_texts,
    new_side, old_side, ops_view, DiffOp, Op,
};
use crate::files::{file_keys, file_views, hash_at, FileMap, FileView};
use crate::globs::set_patterns;
use crate::hash::object_name;
use crate::ignore::any_matches;
use crate::index::{keys, place, Index, IndexEntryView};
use crate::object::{Blob, BrassObject, ObjectView};
use crate::paths::{components, same_path};
use crate::repository::{text_view, Repository};
use crate::text::{lemma_position, lines, position, same_text, views, views_empty, views_push};

verus! {

/// A file that is compared with the index, and the hash it is staged under.
#[derive(Debug, Clone, PartialEq, Eq)]
pub struct DiffTarget {
    pub path: String,
    pub hash: Option<String>,
}

/// A `DiffTarget` as a mathematical value.
#[verifier::ext_equal]
pub struct DiffTargetView {
    pub path: Seq<char>,
    pub hash: Option<Seq<char>>,
}

impl View for DiffTarget {
    type V = DiffTargetView;

    open spec fn view(&self) -> DiffTargetView {
        DiffTargetView {
            path: self.path@,
            hash: match self.hash {
                Some(h) => Some(h@),
                None => None,
            },
        }
    }
}

/// Files to be compared, as mathematical values.
pub open spec fn targets_view(ts: Seq<DiffTarget>) -> Seq<DiffTargetView> {
    ts.map_values(|t: DiffTarget| t@)
}

/// The hash that a path is staged under; the last entry for it counts.
pub open spec fn staged_hash(index: Seq<IndexEntryView>, path: Seq<char>) -> Option<Seq<char>>
    decreases index.len(),
{
    if index.len() == 0 {
        None
    } else if components(index.last().path) == components(path) {
        Some(index.last().hash)
    } else {
        staged_hash(index.drop_last(), path)
    }
}

/// The files that are compared: the given one, or all that are staged.
pub open spec fn diff_targets(index: Seq<IndexEntryView>, path: Option<Seq<char>>) -> Seq<
    DiffTargetView,
> {
    match path {
        Some(p) => seq![DiffTargetView { path: p, hash: staged_hash(index, p) }],
        None => index.map_values(
            |e: IndexEntryView| DiffTargetView { path: e.path, hash: Some(e.hash) },
        ),
    }
}

/// A step of a difference as a line.
pub open spec fn op_line(op: Op<Seq<char>>) -> Seq<char> {
    match op {
        Op::Keep(line) => " "@ + line + "\n"@,
        Op::Insert(line) => "+"@ + line + "\n"@,
        Op::Delete(line) => "-"@ + line + "\n"@,
    }
}

/// The steps of a difference as lines.
pub open spec fn op_lines(ops: Seq<Op<Seq<char>>>) -> Seq<char>
    decreases ops.len(),
{
    if ops.len() == 0 {
        Seq::empty()
    } else {
        op_lines(ops.drop_last()) + op_line(ops.last())
    }
}

/// Whether a difference changes anything.
pub open spec fn has_changes<T>(ops: Seq<Op<T>>) -> bool {
    exists|i: int| 0 <= i < ops.len() && !(#[trigger] ops[i] is Keep)
}

/// What is said of a file: that it was deleted, where it is not on disk, else
/// its differences from the staged text, if there are any.
pub open spec fn file_report(
    path: Seq<char>,
    disk: Option<Seq<char>>,
    staged: Seq<char>,
) -> Seq<char> {
    match disk {
        None => "Deleted: "@ + path + "\n"@,
        Some(text) => {
            let ops = diff(lines(staged), lines(text));
            if has_changes(ops) {
                "--- a/"@ + path + "\n+++ b/"@ + path + "\n"@ + op_lines(ops)
            } else {
                Seq::empty()
            }
        },
    }
}

fn push_op(out: &mut String, op: &DiffOp)
    ensures
        final(out)@ == old(out)@ + op_line(op@),
{
    match op {
        DiffOp::Keep(line) => {
            out.append(" ");
            out.append(line.as_str());
        },
        DiffOp::Insert(line) => {
            out.append("+");
            out.append(line.as_str());
        },
        DiffOp::Delete(line) => {
            out.append("-");
            out.append(line.as_str());
        },
    }
    out.append("\n");
    assert(out@ =~= old(out)@ + op_line(op@));
}

fn changes(ops: &Vec<DiffOp>) -> (r: bool)
    ensures
        r == has_changes(ops_view(ops@)),
{
    let ghost all = ops_view(ops@);
    let mut i: usize = 0;
    while i < ops.len()
        invariant
            i <= ops@.len(),
            all == ops_view(ops@),
            forall|k: int| 0 <= k < i ==> #[trigger] all[k] is Keep,
        decreases ops@.len() - i,
    {
        let kept = match &ops[i] {
            DiffOp::Keep(_) => true,
            _ => false,
        };
        if !kept {
            assert(!(all[i as int] is Keep));
            return true;
        }
        i = i + 1;
    }
    false
}

/// What is said of a file, given its text on disk, if it is there, and what was
/// found under its staged hash.
pub fn diff_single_file(path: &str, disk: Option<&str>, found: Option<&BrassObject>) -> (r: String)
    ensures
        r@ == file_report(
            path@,
            text_view(disk),
            blob_text(match found {
                Some(o) => Some(o@),
                None => None,
            }),
        ),
{
    diff_texts(path, disk, read_blob_as_string(found).as_str())
}

/// What is said of a file, given its text on disk, if it is there, and its
/// staged text.
pub fn diff_texts(path: &str, disk: Option<&str>, staged: &str) -> (r: String)
    ensures
        r@ == file_report(path@, text_view(disk), staged@),
{
    match disk {
        None => {
            let mut out = "Deleted: ".to_owned();
            out.append(path);
            out.append("\n");
            out
        },
        Some(text) => {
            let ops = compute_diff(staged, text);
            let ghost all = ops_view(ops@);
            let mut out = String::new();
            if changes(&ops) {
                out.append("--- a/");
                out.append(path);
                out.append("\n+++ b/");
                out.append(path);
                out.append("\n");
                let ghost head = out@;
                let mut i: usize = 0;
                assert(head + op_lines(all.take(0)) =~= head);
                while i < ops.len()
                    invariant
                        i <= ops@.len(),
                        all == ops_view(ops@),
                        out@ == head + op_lines(all.take(i as int)),
                    decreases ops@.len() - i,
                {
                    push_op(&mut out, &ops[i]);
                    assert(all.take(i + 1).drop_last() =~= all.take(i as int));
                    i = i + 1;
                    assert(out@ =~= head + op_lines(all.take(i as int)));
                }
                assert(all.take(i as int) =~= all);
                assert(head =~= "--- a/"@ + path@ + "\n+++ b/"@ + path@ + "\n"@);
            }
            out
        },
    }
}

/// The hash that a path is staged under.
pub fn find_staged_hash(index: &Index, path: &str) -> (r: Option<String>)
    ensures
        match r {
            Some(h) => staged_hash(index@, path@) == Some(h@),
            None => staged_hash(index@, path@) is None,
        },
{
    let mut i: usize = index.entries.len();
    assert(index@.take(i as int) =~= index@);
    while i > 0
        invariant
            i <= index.entries@.len(),
            staged_hash(index@, path@) == staged_hash(index@.take(i as int), path@),
        decreases i,
    {
        assert(index@.take(i as int).drop_last() =~= index@.take(i - 1));
        assert(index@.take(i as int).last() == index.entries@[i - 1]@);
        if same_path(index.entries[i - 1].path.as_str(), path) {
            return Some(index.entries[i - 1].hash.clone());
        }
        i = i - 1;
    }
    None
}

/// A directory entry of the working tree.
#[derive(Debug, Clone, Copy, PartialEq, Eq, Structural)]
pub enum EntryKind {
    Directory,
    File,
    Other,
}

/// What is done with a directory entry when the working tree is scanned.
#[derive(Debug, Clone, PartialEq, Eq)]
pub enum ScanAction {
    /// It is passed over.
    Skip,
    /// It is scanned in turn.
    Descend,
    /// It is compared with what is staged under this hash.
    Compare(String),
    /// It is not tracked.
    Untracked,
}

/// A `ScanAction` as a mathematical value.
#[verifier::ext_equal]
pub enum ScanView {
    Skip,
    Descend,
    Compare(Seq<char>),
    Untracked,
}

impl View for ScanAction {
    type V = ScanView;

    open spec fn view(&self) -> ScanView {
        match self {
            ScanAction::Skip => ScanView::Skip,
            ScanAction::Descend => ScanView::Descend,
            ScanAction::Compare(hash) => ScanView::Compare(hash@),
            ScanAction::Untracked => ScanView::Untracked,
        }
    }
}

/// What is done with a directory entry that is not ignored: a directory is
/// scanned, a file that is staged is compared with the first entry for it.
pub open spec fn scan_view(
    path: Seq<char>,
    kind: EntryKind,
    index: Seq<IndexEntryView>,
) -> ScanView {
    match kind {
        EntryKind::Directory => ScanView::Descend,
        EntryKind::Other => ScanView::Skip,
        EntryKind::File => if place(index, path) < index.len() {
            ScanView::Compare(index[place(index, path)].hash)
        } else {
            ScanView::Untracked
        },
    }
}

/// What is done with a directory entry that is not ignored.
pub fn scan_visible(path: &str, kind: EntryKind, index: &Index) -> (r: ScanAction)
    ensures
        r@ == scan_view(path@, kind, index@),
{
    match kind {
        EntryKind::Directory => ScanAction::Descend,
        EntryKind::Other => ScanAction::Skip,
        EntryKind::File => {
            let at = index.find(path);
            if at < index.entries.len() {
                assert(index@[at as int] == index.entries@[at as int]@);
                ScanAction::Compare(index.entries[at].hash.clone())
            } else {
                ScanAction::Untracked
            }
        },
    }
}

/// Whether the content of a file differs from what is staged under a hash.
pub open spec fn is_modified(data: Seq<u8>, hash: Seq<char>) -> bool {
    object_name(object_bytes(ObjectView::Blob(data))) != hash
}

/// Whether the content of a file differs from what is staged under a hash.
pub fn file_is_modified(data: Vec<u8>, hash: &str) -> (r: bool)
    ensures
        r == is_modified(data@, hash@),
{
    let (name, _) = BrassObject::Blob(Blob { data }).serialize();
    !same_text(name.as_str(), hash)
}

/// A line for each path, with a mark in front of it.
pub open spec fn marked_paths(mark: Seq<char>, ps: Seq<Seq<char>>) -> Seq<char>
    decreases ps.len(),
{
    if ps.len() == 0 {
        Seq::empty()
    } else {
        marked_paths(mark, ps.drop_last()) + mark + ps.last() + "\n"@
    }
}

/// The staged paths whose hash is not that of the current commit.
pub open spec fn staged_paths(index: Seq<IndexEntryView>, head: Seq<FileView>) -> Seq<Seq<char>>
    decreases index.len(),
{
    if index.len() == 0 {
        Seq::empty()
    } else {
        let before = staged_paths(index.drop_last(), head);
        if hash_at(head, index.last().path) != Some(index.last().hash) {
            before.push(index.last().path)
        } else {
            before
        }
    }
}

/// The paths of the current commit that are not staged any more.
pub open spec fn deleted_paths(index: Seq<IndexEntryView>, head: Seq<FileView>) -> Seq<Seq<char>>
    decreases head.len(),
{
    if head.len() == 0 {
        Seq::empty()
    } else {
        let before = deleted_paths(index, head.drop_last());
        if place(index, head.last().path) >= index.len() {
            before.push(head.last().path)
        } else {
            before
        }
    }
}

/// The status report.
pub open spec fn status_report(
    index: Seq<IndexEntryView>,
    head: Seq<FileView>,
    modified: Seq<Seq<char>>,
    untracked: Seq<Seq<char>>,
) -> Seq<char> {
    "--- Staged Changes ---\n"@ + marked_paths("  staged: "@, staged_paths(index, head))
        + marked_paths("  deleted (staged): "@, deleted_paths(index, head))
        + "\n--- Unstaged Changes ---\n"@ + marked_paths("  modified: "@, modified)
        + "\n--- Untracked Files ---\n"@ + marked_paths("  "@, untracked)
}

fn push_paths(out: &mut String, mark: &str, ps: &Vec<String>)
    ensures
        final(out)@ == old(out)@ + marked_paths(mark@, views(ps@)),
{
    let ghost all = views(ps@);
    let ghost before = out@;
    let mut i: usize = 0;
    assert(before + marked_paths(mark@, all.take(0)) =~= before);
    while i < ps.len()
        invariant
            i <= ps@.len(),
            all == views(ps@),
            out@ == before + marked_paths(mark@, all.take(i as int)),
        decreases ps@.len() - i,
    {
        out.append(mark);
        out.append(ps[i].as_str());
        out.append("\n");
        assert(all.take(i + 1).drop_last() =~= all.take(i as int));
        i = i + 1;
        assert(out@ =~= before + marked_paths(mark@, all.take(i as int)));
    }
    assert(all.take(i as int) =~= all);
}

fn collect_staged(index: &Index, head: &FileMap) -> (r: Vec<String>)
    ensures
        views(r@) == staged_paths(index@, head@),
{
    broadcast use {views_empty, views_push};

    let mut out: Vec<String> = Vec::new();
    let mut i: usize = 0;
    assert(index@.take(0) =~= Seq::empty());
    while i < index.entries.len()
        invariant
            i <= index.entries@.len(),
            views(out@) == staged_paths(index@.take(i as int), head@),
        decreases index.entries@.len() - i,
    {
        let e = &index.entries[i];
        assert(index@.take(i + 1).drop_last() =~= index@.take(i as int));
        assert(index@.take(i + 1).last() == e@);
        let same = match head.get(e.path.as_str()) {
            Some(f) => same_text(f.hash.as_str(), e.hash.as_str()),
            None => false,
        };
        if !same {
            let ghost before = out@;
            let path = e.path.clone();
            out.push(path);
            assert(views(out@) == views(before).push(path@));
        }
        i = i + 1;
    }
    assert(index@.take(i as int) =~= index@);
    out
}

fn collect_deleted(index: &Index, head: &FileMap) -> (r: Vec<String>)
    ensures
        views(r@) == deleted_paths(index@, head@),
{
    broadcast use {views_empty, views_push};

    let list = head.entries();
    let mut out: Vec<String> = Vec::new();
    let mut i: usize = 0;
    assert(head@.take(0) =~= Seq::empty());
    while i < list.len()
        invariant
            i <= list@.len(),
            file_views(list@) == head@,
            views(out@) == deleted_paths(index@, head@.take(i as int)),
        decreases list@.len() - i,
    {
        let f = &list[i];
        assert(head@.take(i + 1).drop_last() =~= head@.take(i as int));
        assert(head@.take(i + 1).last() == f@);
        if index.find(f.path.as_str()) >= index.entries.len() {
            let ghost before = out@;
            let path = f.path.clone();
            out.push(path);
            assert(views(out@) == views(before).push(path@));
        }
        i = i + 1;
    }
    assert(head@.take(i as int) =~= head@);
    out
}

impl Repository {
    /// The files that are compared with the index: the given one, or all that
    /// are staged.
    pub fn diff(&self, path: Option<&str>, index: &Index) -> (r: Vec<DiffTarget>)
        ensures
            targets_view(r@) == diff_targets(index@, text_view(path)),
    {
        let mut out: Vec<DiffTarget> = Vec::new();
        match path {
            Some(p) => {
                out.push(DiffTarget { path: p.to_owned(), hash: find_staged_hash(index, p) });
                assert(targets_view(out@) =~= diff_targets(index@, text_view(path)));
            },
            None => {
                let ghost want = diff_targets(index@, None);
                let mut i: usize = 0;
                assert(targets_view(out@) =~= want.take(0));
                while i < index.entries.len()
                    invariant
                        i <= index.entries@.len(),
                        want == diff_targets(index@, None),
                        targets_view(out@) == want.take(i as int),
                    decreases index.entries@.len() - i,
                {
                    let ghost before = targets_view(out@);
                    let e = &index.entries[i];
                    let t = DiffTarget { path: e.path.clone(), hash: Some(e.hash.clone()) };
                    out.push(t);
                    i = i + 1;
                    assert(targets_view(out@) =~= before.push(t@));
                    assert(targets_view(out@) =~= want.take(i as int));
                }
                assert(want.take(i as int) =~= want);
            },
        }
        out
    }

    /// What is done with a directory entry when the working tree is scanned:
    /// what is ignored is passed over.
    pub fn scan_entry(&self, path: &str, kind: EntryKind, index: &Index) -> (r: ScanAction)
        ensures
            r@ == (if any_matches(set_patterns(self.ignore.glob_set), path@) {
                ScanView::Skip
            } else {
                scan_view(path@, kind, index@)
            }),
    {
        if self.ignore.is_ignored(path) {
            ScanAction::Skip
        } else {
            scan_visible(path, kind, index)
        }
    }

    /// The status report, given the files of the current commit and what the
    /// scan of the working tree found.
    pub fn status(
        &self,
        index: &Index,
        head: &FileMap,
        modified: &Vec<String>,
        untracked: &Vec<String>,
    ) -> (r: String)
        ensures
            r@ == status_report(index@, head@, views(modified@), views(untracked@)),
    {
        let mut out = "--- Staged Changes ---\n".to_owned();
        push_paths(&mut out, "  staged: ", &collect_staged(index, head));
        push_paths(&mut out, "  deleted (staged): ", &collect_deleted(index, head));
        out.append("\n--- Unstaged Changes ---\n");
        push_paths(&mut out, "  modified: ", modified);
        out.append("\n--- Untracked Files ---\n");
        push_paths(&mut out, "  ", untracked);
        out
    }
}

// ---------------------------------------------------------------------------
// Laws

proof fn lemma_no_changes<T>(ops: Seq<Op<T>>)
    requires
        !has_changes(ops),
    ensures
        old_side(ops) == new_side(ops),
    decreases ops.len(),
{
    if ops.len() > 0 {
        let rest = ops.drop_last();
        if has_changes(rest) {
            let i = choose|i: int| 0 <= i < rest.len() && !(#[trigger] rest[i] is Keep);
            assert(!(ops[i] is Keep));
        }
        lemma_no_changes(rest);
        assert(ops[ops.len() - 1] is Keep);
    }
}

proof fn lemma_equal_sides_unchanged<T>(a: Seq<T>)
    ensures
        !has_changes(diff(a, a)),
{
    diff_of_equal_texts(a);
    let d = a.map_values(|x: T| Op::Keep(x));
    assert forall|i: int| 0 <= i < d.len() implies #[trigger] d[i] is Keep by {}
}

/// A difference changes something if and only if the lines differ.
pub proof fn changes_iff_lines_differ<T>(a: Seq<T>, b: Seq<T>)
    ensures
        has_changes(diff(a, b)) <==> a != b,
{
    if a == b {
        lemma_equal_sides_unchanged(a);
    } else if !has_changes(diff(a, b)) {
        lemma_no_changes(diff(a, b));
        diff_leads_from_old_to_new(a, b);
    }
}

/// Nothing is said of a file whose lines are the staged ones.
pub proof fn unchanged_file_is_passed_over(path: Seq<char>, text: Seq<char>, staged: Seq<char>)
    requires
        lines(text) == lines(staged),
    ensures
        file_report(path, Some(text), staged) == Seq::<char>::empty(),
{
    changes_iff_lines_differ(lines(staged), lines(text));
}

/// The lines of a report on a file that tell a line of the staged text, each
/// without the character in front.
pub open spec fn staged_lines(rows: Seq<Seq<char>>) -> Seq<Seq<char>> {
    rows.filter(|r: Seq<char>| r[0] == ' ' || r[0] == '-').map_values(|r: Seq<char>| r.skip(1))
}

/// The lines of a report on a file that tell a line of the text on disk, each
/// without the character in front.
pub open spec fn disk_lines(rows: Seq<Seq<char>>) -> Seq<Seq<char>> {
    rows.filter(|r: Seq<char>| r[0] == ' ' || r[0] == '+').map_values(|r: Seq<char>| r.skip(1))
}

/// Lines as they are written down, each with a line end.
pub open spec fn with_line_ends(rows: Seq<Seq<char>>) -> Seq<char> {
    rows.map_values(|r: Seq<char>| r.push('\n')).flatten()
}

proof fn lemma_with_line_ends_push(rows: Seq<Seq<char>>, row: Seq<char>)
    ensures
        with_line_ends(rows.push(row)) == with_line_ends(rows) + row.push('\n'),
{
    let end = |r: Seq<char>| r.push('\n');
    assert(rows.push(row).map_values(end) =~= rows.map_values(end).push(row.push('\n')));
    rows.map_values(end).lemma_flatten_push(row.push('\n'));
}

proof fn lemma_op_rows(ops: Seq<Op<Seq<char>>>) -> (rows: Seq<Seq<char>>)
    ensures
        op_lines(ops) == with_line_ends(rows),
        rows.len() == ops.len(),
        forall|i: int|
            0 <= i < rows.len() ==> (#[trigger] rows[i]).len() > 0 && rows[i][0] == (
            match ops[i] {
                Op::Keep(_) => ' ',
                Op::Insert(_) => '+',
                Op::Delete(_) => '-',
            }) && rows[i].skip(1) == (match ops[i] {
                Op::Keep(x) => x,
                Op::Insert(x) => x,
                Op::Delete(x) => x,
            }),
        staged_lines(rows) == old_side(ops),
        disk_lines(rows) == new_side(ops),
    decreases ops.len(),
{
    reveal(Seq::filter);
    if ops.len() == 0 {
        let rows = Seq::<Seq<char>>::empty();
        assert(with_line_ends(rows) =~= Seq::<char>::empty());
        assert(staged_lines(rows) =~= Seq::empty());
        assert(disk_lines(rows) =~= Seq::empty());
        rows
    } else {
        reveal_strlit(" ");
        reveal_strlit("+");
        reveal_strlit("-");
        reveal_strlit("\n");
        let less = lemma_op_rows(ops.drop_last());
        let (mark, line) = match ops.last() {
            Op::Keep(x) => (' ', x),
            Op::Insert(x) => ('+', x),
            Op::Delete(x) => ('-', x),
        };
        let row = seq![mark] + line;
        let rows = less.push(row);
        lemma_with_line_ends_push(less, row);
        assert(row.skip(1) =~= line);
        assert(op_line(ops.last()) =~= row.push('\n'));
        assert(rows.drop_last() =~= less);
        let of_staged = |r: Seq<char>| r[0] == ' ' || r[0] == '-';
        let of_disk = |r: Seq<char>| r[0] == ' ' || r[0] == '+';
        let tail = |r: Seq<char>| r.skip(1);
        assert(less.filter(of_staged).push(row).map_values(tail) =~= less.filter(
            of_staged,
        ).map_values(tail).push(line));
        assert(less.filter(of_disk).push(row).map_values(tail) =~= less.filter(
            of_disk,
        ).map_values(tail).push(line));
        assert forall|i: int| 0 <= i < rows.len() implies (#[trigger] rows[i]).len() > 0
            && rows[i][0] == (match ops[i] {
            Op::Keep(_) => ' ',
            Op::Insert(_) => '+',
            Op::Delete(_) => '-',
        }) && rows[i].skip(1) == (match ops[i] {
            Op::Keep(x) => x,
            Op::Insert(x) => x,
            Op::Delete(x) => x,
        }) by {
            if i < less.len() {
                assert(rows[i] == less[i]);
                assert(ops.drop_last()[i] == ops[i]);
            }
        }
        rows
    }
}

/// The report on a changed file tells both texts. Behind the two head lines
/// every line begins with a space, a minus or a plus sign. Those with a space or
/// a minus sign are, without it, the staged lines, all of them in order; those
/// with a space or a plus sign are the lines on disk. Lines that go come before
/// the lines that come in their place.
pub proof fn report_tells_both_texts(path: Seq<char>, text: Seq<char>, staged: Seq<char>) -> (rows:
    Seq<Seq<char>>)
    requires
        lines(text) != lines(staged),
    ensures
        file_report(path, Some(text), staged) == "--- a/"@ + path + "\n+++ b/"@ + path + "\n"@
            + with_line_ends(rows),
        forall|i: int|
            0 <= i < rows.len() ==> (#[trigger] rows[i]).len() > 0 && (rows[i][0] == ' '
                || rows[i][0] == '-' || rows[i][0] == '+'),
        staged_lines(rows) == lines(staged),
        disk_lines(rows) == lines(text),
        forall|i: int, j: int|
            0 <= i && j == i + 1 && j < rows.len() ==> !((#[trigger] rows[i])[0] == '+' && (
            #[trigger] rows[j])[0] == '-'),
{
    let ops = diff(lines(staged), lines(text));
    changes_iff_lines_differ(lines(staged), lines(text));
    diff_leads_from_old_to_new(lines(staged), lines(text));
    let rows = lemma_op_rows(ops);
    assert forall|i: int, j: int| 0 <= i && j == i + 1 && j < rows.len() implies !((
    #[trigger] rows[i])[0] == '+' && (#[trigger] rows[j])[0] == '-') by {
        deletions_come_first(lines(staged), lines(text), i);
    }
    rows
}

/// A file that is not on disk is reported as deleted, whatever was staged.
pub proof fn missing_file_is_reported(path: Seq<char>, staged: Seq<char>)
    ensures
        file_report(path, None, staged) == "Deleted: "@ + path + "\n"@,
{
}

/// Whether files have a path under a hash.
pub open spec fn has_file(files: Seq<FileView>, path: Seq<char>, hash: Seq<char>) -> bool {
    exists|k: int|
        0 <= k < files.len() && components((#[trigger] files[k]).path) == components(path)
            && files[k].hash == hash
}

/// Whether a path is staged.
pub open spec fn is_staged(index: Seq<IndexEntryView>, path: Seq<char>) -> bool {
    exists|k: int|
        0 <= k < index.len() && components((#[trigger] index[k]).path) == components(path)
}

proof fn lemma_has_file(files: Seq<FileView>, path: Seq<char>, hash: Seq<char>)
    requires
        file_keys(files).no_duplicates(),
    ensures
        hash_at(files, path) == Some(hash) <==> has_file(files, path, hash),
{
    let ks = file_keys(files);
    let key = components(path);
    lemma_position(ks, key);
    let at = position(ks, key);
    if at < files.len() {
        assert(ks[at] == components(files[at].path));
    }
    if has_file(files, path, hash) {
        let k = choose|k: int|
            0 <= k < files.len() && components((#[trigger] files[k]).path) == key && files[k].hash
                == hash;
        assert(ks[k] == key);
        assert(ks[at] == key);
    }
}

proof fn lemma_is_staged(index: Seq<IndexEntryView>, path: Seq<char>)
    ensures
        place(index, path) < index.len() <==> is_staged(index, path),
        place(index, path) < index.len() ==> components(index[place(index, path)].path)
            == components(path),
{
    let ks = keys(index);
    let key = components(path);
    lemma_position(ks, key);
    let at = place(index, path);
    if at < index.len() {
        assert(ks[at] == components(index[at].path));
    }
    if is_staged(index, path) {
        let k = choose|k: int|
            0 <= k < index.len() && components((#[trigger] index[k]).path) == key;
        assert(ks[k] == key);
    }
}

/// The staged changes that are reported are the entries, in order, that the
/// current commit does not have with the same hash.
pub proof fn staged_changes_are_the_new_entries(
    index: Seq<IndexEntryView>,
    head: Seq<FileView>,
)
    requires
        file_keys(head).no_duplicates(),
    ensures
        staged_paths(index, head) == index.filter(
            |e: IndexEntryView| !has_file(head, e.path, e.hash),
        ).map_values(|e: IndexEntryView| e.path),
    decreases index.len(),
{
    reveal(Seq::filter);
    let new = |e: IndexEntryView| !has_file(head, e.path, e.hash);
    let path = |e: IndexEntryView| e.path;
    if index.len() == 0 {
        assert(index.filter(new).map_values(path) =~= Seq::empty());
    } else {
        let less = index.drop_last();
        staged_changes_are_the_new_entries(less, head);
        lemma_has_file(head, index.last().path, index.last().hash);
        assert(less.filter(new).push(index.last()).map_values(path) =~= less.filter(
            new,
        ).map_values(path).push(index.last().path));
    }
}

/// The deletions that are reported are the files of the current commit, in
/// order, whose paths are not staged.
pub proof fn staged_deletions_are_the_missing_files(
    index: Seq<IndexEntryView>,
    head: Seq<FileView>,
)
    ensures
        deleted_paths(index, head) == head.filter(
            |f: FileView| !is_staged(index, f.path),
        ).map_values(|f: FileView| f.path),
    decreases head.len(),
{
    reveal(Seq::filter);
    let gone = |f: FileView| !is_staged(index, f.path);
    let path = |f: FileView| f.path;
    if head.len() == 0 {
        assert(head.filter(gone).map_values(path) =~= Seq::empty());
    } else {
        let less = head.drop_last();
        staged_deletions_are_the_missing_files(index, less);
        lemma_is_staged(index, head.last().path);
        lemma_position(keys(index), components(head.last().path));
        assert(less.filter(gone).push(head.last()).map_values(path) =~= less.filter(
            gone,
        ).map_values(path).push(head.last().path));
    }
}

/// Paths as they are reported: a line for each, with a mark in front.
pub open spec fn path_rows(mark: Seq<char>, paths: Seq<Seq<char>>) -> Seq<char> {
    paths.map_values(|p: Seq<char>| mark + p + seq!['\n']).flatten()
}

proof fn lemma_marked_paths(mark: Seq<char>, ps: Seq<Seq<char>>)
    ensures
        marked_paths(mark, ps) == path_rows(mark, ps),
    decreases ps.len(),
{
    reveal_strlit("\n");
    let row = |p: Seq<char>| mark + p + seq!['\n'];
    if ps.len() == 0 {
        assert(ps.map_values(row) =~= Seq::empty());
    } else {
        let less = ps.drop_last();
        lemma_marked_paths(mark, less);
        assert(ps.map_values(row) =~= less.map_values(row).push(row(ps.last())));
        less.map_values(row).lemma_flatten_push(row(ps.last()));
        assert(marked_paths(mark, ps) =~= marked_paths(mark, less) + row(ps.last()));
    }
}

/// The status report names, each under its heading and in order: the entries
/// that the current commit does not have as they are staged, the files of the
/// commit that are not staged, the files that were found modified, and those
/// that are not tracked. Nothing that it is given is left out.
pub proof fn status_tells_every_path(
    index: Seq<IndexEntryView>,
    head: Seq<FileView>,
    modified: Seq<Seq<char>>,
    untracked: Seq<Seq<char>>,
)
    requires
        file_keys(head).no_duplicates(),
    ensures
        status_report(index, head, modified, untracked) == "--- Staged Changes ---\n"@ + path_rows(
            "  staged: "@,
            index.filter(|e: IndexEntryView| !has_file(head, e.path, e.hash)).map_values(
                |e: IndexEntryView| e.path,
            ),
        ) + path_rows(
            "  deleted (staged): "@,
            head.filter(|f: FileView| !is_staged(index, f.path)).map_values(|f: FileView| f.path),
        ) + "\n--- Unstaged Changes ---\n"@ + path_rows("  modified: "@, modified)
            + "\n--- Untracked Files ---\n"@ + path_rows("  "@, untracked),
{
    staged_changes_are_the_new_entries(index, head);
    staged_deletions_are_the_missing_files(index, head);
    lemma_marked_paths("  staged: "@, staged_paths(index, head));
    lemma_marked_paths("  deleted (staged): "@, deleted_paths(index, head));
    lemma_marked_paths("  modified: "@, modified);
    lemma_marked_paths("  "@, untracked);
}

/// A scan goes into every directory, compares every file that is staged with the
/// hash of an entry for it, reports every other file as not tracked, and passes
/// over all else.
pub proof fn scan_misses_no_file(path: Seq<char>, kind: EntryKind, index: Seq<IndexEntryView>)
    ensures
        match scan_view(path, kind, index) {
            ScanView::Descend => kind == EntryKind::Directory,
            ScanView::Skip => kind == EntryKind::Other,
            ScanView::Untracked => kind == EntryKind::File && !is_staged(index, path),
            ScanView::Compare(hash) => kind == EntryKind::File && exists|k: int|
                0 <= k < index.len() && components((#[trigger] index[k]).path) == components(path)
                    && index[k].hash == hash && forall|j: int|
                    0 <= j < k ==> components((#[trigger] index[j]).path) != components(path),
        },
{
    lemma_is_staged(index, path);
    let ks = keys(index);
    lemma_position(ks, components(path));
    let at = place(index, path);
    if at < index.len() {
        assert forall|j: int| 0 <= j < at implies components((#[trigger] index[j]).path)
            != components(path) by {
            assert(ks[j] == components(index[j].path));
        }
    }
}

/// A file is modified unless the hash it is staged under is the name of a blob
/// with its content; staging the content makes it unmodified.
pub proof fn modified_unless_staged_as_it_is(data: Seq<u8>, hash: Seq<char>)
    ensures
        is_modified(data, hash) <==> hash != object_name(object_bytes(ObjectView::Blob(data))),
{
}

/// The hash that a path is staged under is that of the last entry for it; there
/// is none if and only if the path is not staged.
pub proof fn staged_hash_is_the_last(index: Seq<IndexEntryView>, path: Seq<char>)
    ensures
        match staged_hash(index, path) {
            Some(hash) => exists|k: int|
                0 <= k < index.len() && components((#[trigger] index[k]).path) == components(path)
                    && index[k].hash == hash && forall|j: int|
                    k < j < index.len() ==> components((#[trigger] index[j]).path) != components(
                        path,
                    ),
            None => !is_staged(index, path),
        },
    decreases index.len(),
{
    if index.len() > 0 {
        let less = index.drop_last();
        let n = index.len() - 1;
        if components(index.last().path) == components(path) {
            assert(components(index[n].path) == components(path));
        } else {
            staged_hash_is_the_last(less, path);
            match staged_hash(less, path) {
                Some(hash) => {
                    let k = choose|k: int|
                        0 <= k < less.len() && components((#[trigger] less[k]).path) == components(
                            path,
                        ) && less[k].hash == hash && forall|j: int|
                            k < j < less.len() ==> components((#[trigger] less[j]).path)
                                != components(path);
                    assert(components(index[k].path) == components(path));
                    assert forall|j: int| k < j < index.len() implies components(
                        (#[trigger] index[j]).path,
                    ) != components(path) by {
                        if j < n {
                            assert(less[j] == index[j]);
                        }
                    }
                },
                None => {
                    if is_staged(index, path) {
                        let k = choose|k: int|
                            0 <= k < index.len() && components((#[trigger] index[k]).path)
                                == components(path);
                        assert(components(less[k].path) == components(path));
                    }
                },
            }
        }
    }
}

/// A comparison of all files looks at every staged path once, with its hash; of
/// one file, at that file.
pub proof fn every_staged_file_is_compared(index: Seq<IndexEntryView>, path: Seq<char>)
    ensures
        diff_targets(index, None).len() == index.len(),
        forall|i: int|
            0 <= i < index.len() ==> (#[trigger] diff_targets(index, None)[i]).path
                == index[i].path && diff_targets(index, None)[i].hash == Some(index[i].hash),
        diff_targets(index, Some(path)).len() == 1,
        diff_targets(index, Some(path))[0].path == path,
        diff_targets(index, Some(path))[0].hash == staged_hash(index, path),
{
}

/// The report on a changed file has a line for each step from the staged lines to
/// those on disk, in order: a kept line behind a space, a deleted one behind a
/// minus sign, and an inserted one behind a plus sign. An unchanged file is not
/// reported.
pub proof fn report_has_a_line_for_each_step(
    path: Seq<char>,
    text: Seq<char>,
    staged: Seq<char>,
)
    ensures
        lines(text) == lines(staged) ==> file_report(path, Some(text), staged).len() == 0,
        lines(text) != lines(staged) ==> file_report(path, Some(text), staged) == "--- a/"@ + path
            + "\n+++ b/"@ + path + "\n"@ + diff(lines(staged), lines(text)).map_values(
            |op: Op<Seq<char>>|
                match op {
                    Op::Keep(l) => seq![' '] + l + seq!['\n'],
                    Op::Delete(l) => seq!['-'] + l + seq!['\n'],
                    Op::Insert(l) => seq!['+'] + l + seq!['\n'],
                },
        ).flatten(),
{
    changes_iff_lines_differ(lines(staged), lines(text));
    lemma_op_lines_are_rows(diff(lines(staged), lines(text)));
}

proof fn lemma_op_lines_are_rows(ops: Seq<Op<Seq<char>>>)
    ensures
        op_lines(ops) == ops.map_values(
            |op: Op<Seq<char>>|
                match op {
                    Op::Keep(l) => seq![' '] + l + seq!['\n'],
                    Op::Delete(l) => seq!['-'] + l + seq!['\n'],
                    Op::Insert(l) => seq!['+'] + l + seq!['\n'],
                },
        ).flatten(),
    decreases ops.len(),
{
    let row = |op: Op<Seq<char>>|
        match op {
            Op::Keep(l) => seq![' '] + l + seq!['\n'],
            Op::Delete(l) => seq!['-'] + l + seq!['\n'],
            Op::Insert(l) => seq!['+'] + l + seq!['\n'],
        };
    if ops.len() == 0 {
        assert(ops.map_values(row) =~= Seq::empty());
    } else {
        let less = ops.drop_last();
        lemma_op_lines_are_rows(less);
        reveal_strlit(" ");
        reveal_strlit("-");
        reveal_strlit("+");
        reveal_strlit("\n");
        assert(" "@ =~= seq![' ']);
        assert("-"@ =~= seq!['-']);
        assert("+"@ =~= seq!['+']);
        assert("\n"@ =~= seq!['\n']);
        assert(ops.map_values(row) =~= less.map_values(row).push(row(ops.last())));
        less.map_values(row).lemma_flatten_push(row(ops.last()));
        assert(op_line(ops.last()) == row(ops.last()));
    }
}

} // verus!
