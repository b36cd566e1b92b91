//! Which commit each line of a file comes from.
use vstd::prelude::*;
use vstd::utf8::*;
use vstd::hash_set::StringHashSet;
use crate::decimal::{digits, format_number};
use crate::error::BrassError;
use crate::files::{
    commit_files, commit_files_are_stable, commit_files_need_the_unknown, commit_paths_are_apart,
    file_at, file_keys, file_place, flatten_tree_from_commit, FileView, Halt,
};
use crate::history::Step;
use crate::object::{BrassObject, CommitView, ObjectView};
use crate::paths::components;
use crate::store::{extends, ObjectStore};
use crate::text::{chars_of, is_blank, lemma_position, lines, split_lines, views};
use crate::utf8::{bytes_of, lemma_encode_concat, lossy_text, read_lossy, text_of_bytes};

verus! {

/// The commit that a line is put down to, and its author.
#[derive(Debug, Clone, PartialEq, Eq)]
pub struct Mark {
    pub hash: String,
    pub author: String,
}

/// A `Mark` as a mathematical value.
#[verifier::ext_equal]
pub struct MarkView {
    pub hash: Seq<char>,
    pub author: Seq<char>,
}

impl View for Mark {
    type V = MarkView;

    open spec fn view(&self) -> MarkView {
        MarkView { hash: self.hash@, author: self.author@ }
    }
}

/// The text of a blob; what is no blob has none.
pub open spec fn blob_text(answer: Option<ObjectView>) -> Seq<char> {
    match answer {
        Some(ObjectView::Blob(data)) => lossy_text(data),
        _ => Seq::empty(),
    }
}

/// The text of what was found under a hash.
pub fn read_blob_as_string(answer: Option<&BrassObject>) -> (r: String)
    ensures
        r@ == blob_text(match answer {
            Some(o) => Some(o@),
            None => None,
        }),
{
    match answer {
        Some(BrassObject::Blob(b)) => read_lossy(b.data.as_slice()),
        _ => String::new(),
    }
}

/// One mark as a mathematical value.
pub open spec fn mark_view(mark: Option<Mark>) -> Option<MarkView> {
    match mark {
        Some(x) => Some(x@),
        None => None,
    }
}

/// The marks of lines as mathematical values.
pub open spec fn marks_view(marks: Seq<Option<Mark>>) -> Seq<Option<MarkView>> {
    marks.map_values(|x: Option<Mark>| mark_view(x))
}

/// The marks once a version of the file has been looked at: lines without a
/// mark that the version holds get the new one.
pub open spec fn marked(
    ls: Seq<Seq<char>>,
    marks: Seq<Option<MarkView>>,
    version: Seq<Seq<char>>,
    mark: MarkView,
) -> Seq<Option<MarkView>> {
    Seq::new(
        ls.len(),
        |i: int|
            if marks[i] is None && version.contains(ls[i]) {
                Some(mark)
            } else {
                marks[i]
            },
    )
}

/// The lines of the version of a file that a commit has.
pub open spec fn version_lines(
    m: Map<Seq<char>, Option<ObjectView>>,
    commit: Seq<char>,
    path: Seq<char>,
) -> Step<Result<Option<Seq<Seq<char>>>, BrassError>> {
    match commit_files(m, commit) {
        Step::Need(h) => Step::Need(h),
        Step::Done(Err(e)) => Step::Done(Err(e)),
        Step::Done(Ok(files)) => match file_at(files, path) {
            None => Step::Done(Ok(None)),
            Some(f) => if m.contains_key(f.hash) {
                Step::Done(Ok(Some(lines(blob_text(m[f.hash])))))
            } else {
                Step::Need(f.hash)
            },
        },
    }
}

/// The marks from a commit on: the commit, its first parent, and so on, until a
/// commit has no parent or what is named is no commit.
pub open spec fn blame_from(
    m: Map<Seq<char>, Option<ObjectView>>,
    path: Seq<char>,
    ls: Seq<Seq<char>>,
    marks: Seq<Option<MarkView>>,
    current: Seq<char>,
    seen: Set<Seq<char>>,
) -> Step<Result<Seq<Option<MarkView>>, BrassError>>
    decreases m.dom().difference(seen).len(),
    when m.dom().finite()
{
    if current.len() == 0 {
        Step::Done(Ok(marks))
    } else if seen.contains(current) {
        Step::Done(Err(BrassError::CyclicHistory))
    } else if !m.contains_key(current) {
        Step::Need(current)
    } else {
        match m[current] {
            Some(ObjectView::Commit(c)) => match version_lines(m, current, path) {
                Step::Need(h) => Step::Need(h),
                Step::Done(Err(e)) => Step::Done(Err(e)),
                Step::Done(Ok(version)) => {
                    let now = match version {
                        Some(v) => marked(
                            ls,
                            marks,
                            v,
                            MarkView { hash: current, author: c.author.name },
                        ),
                        None => marks,
                    };
                    if c.parent_hashes.len() == 0 {
                        Step::Done(Ok(now))
                    } else {
                        proof {
                            m.dom().lemma_set_insert_diff_decreases(seen, current);
                        }
                        blame_from(m, path, ls, now, c.parent_hashes[0], seen.insert(current))
                    }
                },
            },
            _ => Step::Done(Ok(marks)),
        }
    }
}

/// The search for the commits that the lines of a file come from.
pub struct BlameWalk {
    pub path: String,
    pub lines: Vec<String>,
    pub marks: Vec<Option<Mark>>,
    pub current: String,
    pub seen: StringHashSet,
}

/// Whether a line is among some lines.
fn has_line(ls: &Vec<String>, line: &String) -> (r: bool)
    ensures
        r == views(ls@).contains(line@),
{
    let mut i: usize = 0;
    while i < ls.len()
        invariant
            i <= ls@.len(),
            forall|k: int| 0 <= k < i ==> ls@[k]@ != line@,
        decreases ls@.len() - i,
    {
        if ls[i] == *line {
            assert(views(ls@)[i as int] == line@);
            return true;
        }
        i = i + 1;
    }
    proof {
        if views(ls@).contains(line@) {
            let k = choose|k: int| 0 <= k < views(ls@).len() && views(ls@)[k] == line@;
            assert(ls@[k]@ == line@);
        }
    }
    false
}

fn copy_mark(mark: &Option<Mark>) -> (r: Option<Mark>)
    ensures
        mark_view(r) == mark_view(*mark),
{
    match mark {
        Some(x) => Some(Mark { hash: x.hash.clone(), author: x.author.clone() }),
        None => None,
    }
}

/// The marks once a version of the file has been looked at.
pub fn mark_lines(
    ls: &Vec<String>,
    marks: &Vec<Option<Mark>>,
    version: &Vec<String>,
    hash: &str,
    author: &str,
) -> (r: Vec<Option<Mark>>)
    requires
        ls@.len() == marks@.len(),
    ensures
        r@.len() == ls@.len(),
        marks_view(r@) == marked(
            views(ls@),
            marks_view(marks@),
            views(version@),
            MarkView { hash: hash@, author: author@ },
        ),
{
    let ghost want = marked(
        views(ls@),
        marks_view(marks@),
        views(version@),
        MarkView { hash: hash@, author: author@ },
    );
    let mut out: Vec<Option<Mark>> = Vec::new();
    let mut i: usize = 0;
    while i < ls.len()
        invariant
            i <= ls@.len(),
            ls@.len() == marks@.len(),
            want == marked(
                views(ls@),
                marks_view(marks@),
                views(version@),
                MarkView { hash: hash@, author: author@ },
            ),
            out@.len() == i,
            marks_view(out@) == want.take(i as int),
        decreases ls@.len() - i,
    {
        let ghost before = marks_view(out@);
        let mark = if marks[i].is_none() && has_line(version, &ls[i]) {
            Some(Mark { hash: hash.to_owned(), author: author.to_owned() })
        } else {
            copy_mark(&marks[i])
        };
        out.push(mark);
        i = i + 1;
        assert(marks_view(out@) =~= before.push(mark_view(mark)));
        assert(marks_view(out@) =~= want.take(i as int));
    }
    assert(want.take(i as int) =~= want);
    out
}

/// The lines of a commit's version of a file, as far as the known objects tell.
fn read_version(store: &ObjectStore, commit: &str, path: &str) -> (r: Result<
    Option<Vec<String>>,
    Halt,
>)
    ensures
        version_lines(store@, commit@, path@) == (match r {
            Ok(Some(v)) => Step::Done(Ok(Some(views(v@)))),
            Ok(None) => Step::Done(Ok(None)),
            Err(Halt::Need(h)) => Step::Need(h@),
            Err(Halt::Failed(e)) => Step::Done(Err(e)),
        }),
{
    match flatten_tree_from_commit(store, commit) {
        Err(h) => Err(h),
        Ok(files) => match files.get(path) {
            None => Ok(None),
            Some(f) => match store.get(f.hash.as_str()) {
                None => Err(Halt::Need(f.hash.clone())),
                Some(answer) => {
                    let text = read_blob_as_string(answer.as_ref());
                    Ok(Some(split_lines(text.as_str())))
                },
            },
        },
    }
}

impl BlameWalk {
    /// What the search will find from where it stands.
    pub open spec fn outcome(&self, m: Map<Seq<char>, Option<ObjectView>>) -> Step<
        Result<Seq<Option<MarkView>>, BrassError>,
    > {
        blame_from(
            m,
            self.path@,
            views(self.lines@),
            marks_view(self.marks@),
            self.current@,
            self.seen@,
        )
    }

    /// Whether there is a mark, or room for one, for each line.
    pub open spec fn is_valid(&self) -> bool {
        self.lines@.len() == self.marks@.len()
    }

    /// The search for the lines of a file, from a commit on.
    pub fn new(path: &str, text: &str, head: &str) -> (r: BlameWalk)
        ensures
            r.is_valid(),
            views(r.lines@) == lines(text@),
            forall|m: Map<Seq<char>, Option<ObjectView>>| #[trigger]
                r.outcome(m) == blame_from(
                    m,
                    path@,
                    lines(text@),
                    Seq::new(lines(text@).len(), |i: int| None),
                    head@,
                    Set::empty(),
                ),
    {
        let ls = split_lines(text);
        let mut marks: Vec<Option<Mark>> = Vec::new();
        let mut i: usize = 0;
        while i < ls.len()
            invariant
                i <= ls@.len(),
                marks@.len() == i,
                forall|k: int| 0 <= k < i ==> #[trigger] marks@[k] is None,
            decreases ls@.len() - i,
        {
            marks.push(None);
            i = i + 1;
        }
        assert(views(ls@).len() == ls@.len());
        assert(marks_view(marks@) =~= Seq::new(lines(text@).len(), |i: int| None));
        BlameWalk {
            path: path.to_owned(),
            lines: ls,
            marks,
            current: head.to_owned(),
            seen: StringHashSet::new(),
        }
    }

    /// Goes on as far as the known objects allow: the marks are complete where
    /// nothing is needed and nothing failed.
    pub fn advance(&mut self, store: &ObjectStore) -> (r: Result<(), Halt>)
        requires
            old(self).is_valid(),
        ensures
            final(self).is_valid(),
            final(self).lines == old(self).lines,
            old(self).outcome(store@) == (match r {
                Ok(_) => Step::Done(Ok(marks_view(final(self).marks@))),
                Err(Halt::Need(h)) => Step::Need(h@),
                Err(Halt::Failed(e)) => Step::Done(Err(e)),
            }),
            forall|m: Map<Seq<char>, Option<ObjectView>>| #[trigger]
                extends(m, store@) ==> old(self).outcome(m) == (match r {
                    Ok(_) => Step::Done(Ok(marks_view(final(self).marks@))),
                    Err(Halt::Need(_)) => final(self).outcome(m),
                    Err(Halt::Failed(e)) => Step::Done(Err(e)),
                }),
    {
        store.finite();
        let ghost known = store@;
        while !is_blank(self.current.as_str())
            invariant
                known == store@,
                extends(known, known),
                self.is_valid(),
                self.lines == old(self).lines,
                forall|m: Map<Seq<char>, Option<ObjectView>>| #[trigger]
                    extends(m, known) ==> old(self).outcome(m) == self.outcome(m),
            decreases known.dom().difference(self.seen@).len(),
        {
            if self.seen.contains(self.current.as_str()) {
                return Err(Halt::Failed(BrassError::CyclicHistory));
            }
            let ghost before = *self;
            match store.get(self.current.as_str()) {
                None => {
                    return Err(Halt::Need(self.current.clone()));
                },
                Some(answer) => {
                    proof {
                        assert forall|m: Map<Seq<char>, Option<ObjectView>>| #[trigger]
                            extends(m, known) implies m.contains_key(before.current@)
                            && m[before.current@] == known[before.current@] by {
                            assert(known.dom().contains(before.current@));
                        }
                    }
                    match answer {
                        Some(BrassObject::Commit(c)) => {
                            let version = match read_version(
                                store,
                                self.current.as_str(),
                                self.path.as_str(),
                            ) {
                                Err(h) => {
                                    proof {
                                        if h is Failed {
                                            lemma_version_stable(
                                                known,
                                                self.current@,
                                                self.path@,
                                            );
                                        }
                                    }
                                    return Err(h);
                                },
                                Ok(version) => version,
                            };
                            proof {
                                lemma_version_stable(known, self.current@, self.path@);
                            }
                            if let Some(v) = &version {
                                self.marks = mark_lines(
                                    &self.lines,
                                    &self.marks,
                                    v,
                                    self.current.as_str(),
                                    c.author.name.as_str(),
                                );
                            }
                            let next = if c.parent_hashes.len() > 0 {
                                c.parent_hashes[0].clone()
                            } else {
                                String::new()
                            };
                            self.seen.insert(self.current.clone());
                            self.current = next;
                            proof {
                                known.dom().lemma_set_insert_diff_decreases(
                                    before.seen@,
                                    before.current@,
                                );
                                assert forall|m: Map<Seq<char>, Option<ObjectView>>| #[trigger]
                                    extends(m, known) implies before.outcome(m) == self.outcome(
                                    m,
                                ) by {
                                    assert(version_lines(m, before.current@, before.path@)
                                        == version_lines(known, before.current@, before.path@));
                                }
                            }
                        },
                        _ => {
                            return Ok(());
                        },
                    }
                },
            }
        }
        Ok(())
    }
}

proof fn lemma_version_stable(
    m: Map<Seq<char>, Option<ObjectView>>,
    commit: Seq<char>,
    path: Seq<char>,
)
    requires
        m.dom().finite(),
        version_lines(m, commit, path) is Done,
    ensures
        forall|more: Map<Seq<char>, Option<ObjectView>>| #[trigger]
            extends(more, m) ==> version_lines(more, commit, path) == version_lines(
                m,
                commit,
                path,
            ),
{
    assert forall|more: Map<Seq<char>, Option<ObjectView>>| #[trigger]
        extends(more, m) implies version_lines(more, commit, path) == version_lines(
        m,
        commit,
        path,
    ) by {
        commit_files_are_stable(m, more, commit);
        if let Step::Done(Ok(files)) = commit_files(m, commit) {
            if let Some(f) = file_at(files, path) {
                assert(m.dom().contains(f.hash));
                assert(more[f.hash] == m[f.hash]);
            }
        }
    }
}

// ---------------------------------------------------------------------------
// The report

/// The first seven bytes of a hash, as text; none where the hash is shorter or
/// a character of it is cut through.
pub open spec fn short_hash(hash: Seq<char>) -> Option<Seq<char>> {
    let bytes = encode_utf8(hash);
    if bytes.len() >= 7 && valid_utf8(bytes.take(7)) {
        Some(decode_utf8(bytes.take(7)))
    } else {
        None
    }
}

/// `n` spaces.
pub open spec fn spaces(n: int) -> Seq<char>
    decreases n,
{
    if n <= 0 {
        Seq::empty()
    } else {
        spaces(n - 1).push(' ')
    }
}

/// What the report says of where a line comes from.
pub open spec fn origin(mark: Option<MarkView>) -> Option<Seq<char>> {
    match mark {
        None => Some("Uncommitted change"@),
        Some(x) => match short_hash(x.hash) {
            Some(short) => Some(short + " ("@ + x.author + ")"@),
            None => None,
        },
    }
}

/// One line of the report: the number of the line in four columns, where it
/// comes from in twenty-five, and the line.
pub open spec fn report_line(number: nat, origin: Seq<char>, line: Seq<char>) -> Seq<char> {
    spaces(4 - digits(number).len()) + digits(number) + " | "@ + origin + spaces(
        25 - origin.len(),
    ) + " | "@ + line + "\n"@
}

/// The report on the first `n` lines; none where a hash cannot be shortened.
pub open spec fn report(
    ls: Seq<Seq<char>>,
    marks: Seq<Option<MarkView>>,
    n: nat,
) -> Option<Seq<char>>
    decreases n,
{
    if n == 0 {
        Some(Seq::empty())
    } else {
        match (report(ls, marks, (n - 1) as nat), origin(marks[n - 1])) {
            (Some(before), Some(from)) => Some(before + report_line(n, from, ls[n - 1])),
            _ => None,
        }
    }
}

fn shorten(hash: &str) -> (r: Option<String>)
    ensures
        match r {
            Some(s) => short_hash(hash@) == Some(s@),
            None => short_hash(hash@) is None,
        },
{
    let bytes = bytes_of(hash);
    if bytes.len() < 7 {
        return None;
    }
    let first = vstd::slice::slice_to_vec(vstd::slice::slice_subrange(bytes.as_slice(), 0, 7));
    assert(first@ =~= bytes@.take(7));
    text_of_bytes(first)
}

fn push_spaces(out: &mut String, width: usize, used: usize)
    ensures
        final(out)@ == old(out)@ + spaces(width - used),
{
    let ghost before = out@;
    assert(before + spaces(0) =~= before);
    let mut i: usize = used;
    while i < width
        invariant
            used <= i,
            used >= width ==> i == used,
            used < width ==> i <= width,
            out@ == before + spaces(i - used),
        decreases width - i,
    {
        out.push(' ');
        i = i + 1;
        assert(out@ =~= before + spaces(i - used));
    }
    assert(used >= width ==> spaces(width - used) =~= spaces(0));
}

fn origin_of(mark: &Option<Mark>) -> (r: Option<String>)
    ensures
        match r {
            Some(s) => origin(mark_view(*mark)) == Some(s@),
            None => origin(mark_view(*mark)) is None,
        },
{
    match mark {
        None => Some("Uncommitted change".to_owned()),
        Some(x) => match shorten(x.hash.as_str()) {
            None => None,
            Some(short) => {
                let mut out = short;
                out.append(" (");
                out.append(x.author.as_str());
                out.append(")");
                Some(out)
            },
        },
    }
}

fn push_report_line(out: &mut String, n: u64, from: &str, line: &str)
    ensures
        final(out)@ == old(out)@ + report_line(n as nat, from@, line@),
{
    let ghost before = out@;
    let number = format_number(n);
    push_spaces(out, 4, chars_of(number.as_str()).len());
    out.append(number.as_str());
    out.append(" | ");
    out.append(from);
    push_spaces(out, 25, chars_of(from).len());
    out.append(" | ");
    out.append(line);
    out.append("\n");
    assert(out@ =~= before + report_line(n as nat, from@, line@));
}

impl BlameWalk {
    /// The report on all lines, one line for each; none where the hash of a
    /// mark has no first seven bytes.
    pub fn report(&self) -> (r: Option<String>)
        requires
            self.is_valid(),
        ensures
            match r {
                Some(s) => report(
                    views(self.lines@),
                    marks_view(self.marks@),
                    self.lines@.len(),
                ) == Some(s@),
                None => report(views(self.lines@), marks_view(self.marks@), self.lines@.len())
                    is None,
            },
    {
        let ghost ls = views(self.lines@);
        let ghost ms = marks_view(self.marks@);
        let mut out = String::new();
        let mut i: usize = 0;
        while i < self.lines.len()
            invariant
                i <= self.lines@.len(),
                self.is_valid(),
                ls == views(self.lines@),
                ms == marks_view(self.marks@),
                report(ls, ms, i as nat) == Some(out@),
            decreases self.lines@.len() - i,
        {
            assert(ms[i as int] == mark_view(self.marks@[i as int]));
            assert(ls[i as int] == self.lines@[i as int]@);
            let from = match origin_of(&self.marks[i]) {
                Some(from) => from,
                None => {
                    proof {
                        lemma_report_fails(ls, ms, i as nat + 1, self.lines@.len());
                    }
                    return None;
                },
            };
            push_report_line(&mut out, i as u64 + 1, from.as_str(), self.lines[i].as_str());
            i = i + 1;
        }
        Some(out)
    }
}

proof fn lemma_report_fails(
    ls: Seq<Seq<char>>,
    marks: Seq<Option<MarkView>>,
    n: nat,
    all: nat,
)
    requires
        report(ls, marks, n) is None,
        n <= all,
    ensures
        report(ls, marks, all) is None,
    decreases all - n,
{
    if n < all {
        lemma_report_fails(ls, marks, n + 1, all);
    }
}

// ---------------------------------------------------------------------------
// Laws

/// A line that has a mark keeps it through the whole search.
pub proof fn first_mark_stays(
    m: Map<Seq<char>, Option<ObjectView>>,
    path: Seq<char>,
    ls: Seq<Seq<char>>,
    marks: Seq<Option<MarkView>>,
    current: Seq<char>,
    seen: Set<Seq<char>>,
    i: int,
)
    requires
        m.dom().finite(),
        ls.len() == marks.len(),
        0 <= i < ls.len(),
        marks[i] is Some,
        blame_from(m, path, ls, marks, current, seen) matches Step::Done(Ok(_)),
    ensures
        blame_from(m, path, ls, marks, current, seen) matches Step::Done(Ok(all)) && all[i]
            == marks[i],
    decreases m.dom().difference(seen).len(),
{
    if current.len() > 0 {
        if let Some(ObjectView::Commit(c)) = m[current] {
            if c.parent_hashes.len() > 0 {
                if let Step::Done(Ok(version)) = version_lines(m, current, path) {
                    let mark = MarkView { hash: current, author: c.author.name };
                    let now = match version {
                        Some(v) => marked(ls, marks, v, mark),
                        None => marks,
                    };
                    m.dom().lemma_set_insert_diff_decreases(seen, current);
                    first_mark_stays(
                        m,
                        path,
                        ls,
                        now,
                        c.parent_hashes[0],
                        seen.insert(current),
                        i,
                    );
                }
            }
        }
    }
}

/// A line without a mark that the version of the current commit holds is put
/// down to the current commit: the newest commit wins.
pub proof fn newest_holder_wins(
    m: Map<Seq<char>, Option<ObjectView>>,
    path: Seq<char>,
    ls: Seq<Seq<char>>,
    marks: Seq<Option<MarkView>>,
    current: Seq<char>,
    seen: Set<Seq<char>>,
    c: CommitView,
    version: Seq<Seq<char>>,
    i: int,
)
    requires
        m.dom().finite(),
        ls.len() == marks.len(),
        0 <= i < ls.len(),
        marks[i] is None,
        current.len() > 0,
        m.contains_key(current),
        m[current] == Some(ObjectView::Commit(c)),
        version_lines(m, current, path) == Step::<
            Result<Option<Seq<Seq<char>>>, BrassError>,
        >::Done(Ok(Some(version))),
        version.contains(ls[i]),
        blame_from(m, path, ls, marks, current, seen) matches Step::Done(Ok(_)),
    ensures
        blame_from(m, path, ls, marks, current, seen) matches Step::Done(Ok(all)) && all[i]
            == Some(MarkView { hash: current, author: c.author.name }),
{
    let mark = MarkView { hash: current, author: c.author.name };
    let now = marked(ls, marks, version, mark);
    if c.parent_hashes.len() > 0 {
        m.dom().lemma_set_insert_diff_decreases(seen, current);
        first_mark_stays(m, path, ls, now, c.parent_hashes[0], seen.insert(current), i);
    }
}

/// Whether a commit has a file under a path, of any mode, and the content of the
/// file holds a line.
pub open spec fn commit_holds(
    m: Map<Seq<char>, Option<ObjectView>>,
    commit: Seq<char>,
    path: Seq<char>,
    line: Seq<char>,
) -> bool {
    commit_files(m, commit) matches Step::Done(Ok(files)) && exists|k: int|
        0 <= k < files.len() && components((#[trigger] files[k]).path) == components(path)
            && m.contains_key(files[k].hash) && (m[files[k].hash] matches Some(
            ObjectView::Blob(data),
        ) && lines(lossy_text(data)).contains(line))
}

proof fn lemma_version_holds(
    m: Map<Seq<char>, Option<ObjectView>>,
    commit: Seq<char>,
    path: Seq<char>,
    line: Seq<char>,
)
    requires
        m.dom().finite(),
        version_lines(m, commit, path) matches Step::Done(Ok(_)),
    ensures
        version_lines(m, commit, path) matches Step::Done(Ok(version)) && (commit_holds(
            m,
            commit,
            path,
            line,
        ) <==> (version matches Some(v) && v.contains(line))),
{
    commit_paths_are_apart(m, commit);
    let files = commit_files(m, commit)->Done_0->Ok_0;
    let ks = file_keys(files);
    let key = components(path);
    lemma_position(ks, key);
    let at = file_place(files, path);
    assert forall|k: int|
        0 <= k < files.len() && components((#[trigger] files[k]).path) == key implies k == at by {
        assert(ks[k] == key);
        assert(ks[at] == key);
    }
    if at < files.len() {
        assert(ks[at] == key);
        assert(components(files[at].path) == key);
        assert(lines(Seq::<char>::empty()) =~= Seq::empty());
    }
}

/// Whether each hash of a list names a commit, the next one its first parent.
pub open spec fn is_first_parent_chain(
    m: Map<Seq<char>, Option<ObjectView>>,
    chain: Seq<Seq<char>>,
) -> bool {
    forall|j: int|
        0 <= j < chain.len() ==> m.contains_key(#[trigger] chain[j]) && match m[chain[j]] {
            Some(ObjectView::Commit(c)) => j + 1 < chain.len() ==> c.parent_hashes.len() > 0
                && chain[j + 1] == c.parent_hashes[0],
            _ => false,
        }
}

/// Whether a list of commits cannot go on: the last one has no parent, or its
/// first parent is not named or is no commit.
pub open spec fn ends_here(
    m: Map<Seq<char>, Option<ObjectView>>,
    current: Seq<char>,
    chain: Seq<Seq<char>>,
) -> bool {
    let next = if chain.len() == 0 {
        current
    } else {
        match m[chain.last()] {
            Some(ObjectView::Commit(c)) => if c.parent_hashes.len() > 0 {
                c.parent_hashes[0]
            } else {
                Seq::empty()
            },
            _ => Seq::empty(),
        }
    };
    next.len() == 0 || m.contains_key(next) && !(m[next] matches Some(ObjectView::Commit(_)))
}

/// A line without a mark is put down to the newest commit that holds it: going
/// from the current commit to first parents, the first commit whose version of
/// the file has the line, with the author of that commit. A line that none of
/// them has stays without a mark.
pub proof fn line_is_put_down_to_its_newest_holder(
    m: Map<Seq<char>, Option<ObjectView>>,
    path: Seq<char>,
    ls: Seq<Seq<char>>,
    marks: Seq<Option<MarkView>>,
    current: Seq<char>,
    seen: Set<Seq<char>>,
    i: int,
) -> (chain: Seq<Seq<char>>)
    requires
        m.dom().finite(),
        ls.len() == marks.len(),
        0 <= i < ls.len(),
        marks[i] is None,
        blame_from(m, path, ls, marks, current, seen) matches Step::Done(Ok(_)),
    ensures
        chain.len() > 0 ==> chain[0] == current,
        is_first_parent_chain(m, chain),
        blame_from(m, path, ls, marks, current, seen) matches Step::Done(Ok(all)) && match all[i] {
            Some(mark) => {
                &&& chain.len() > 0
                &&& mark.hash == chain.last()
                &&& m[chain.last()] matches Some(ObjectView::Commit(c)) && mark.author
                    == c.author.name
                &&& commit_holds(m, chain.last(), path, ls[i])
                &&& forall|j: int|
                    0 <= j < chain.len() - 1 ==> !commit_holds(m, #[trigger] chain[j], path, ls[i])
            },
            None => {
                &&& ends_here(m, current, chain)
                &&& forall|j: int|
                    0 <= j < chain.len() ==> !commit_holds(m, #[trigger] chain[j], path, ls[i])
            },
        },
    decreases m.dom().difference(seen).len(),
{
    if current.len() == 0 {
        Seq::empty()
    } else if let Some(ObjectView::Commit(c)) = m[current] {
        let version = version_lines(m, current, path)->Done_0->Ok_0;
        let mark = MarkView { hash: current, author: c.author.name };
        let now = match version {
            Some(v) => marked(ls, marks, v, mark),
            None => marks,
        };
        lemma_version_holds(m, current, path, ls[i]);
        m.dom().lemma_set_insert_diff_decreases(seen, current);
        if now[i] is Some {
            if c.parent_hashes.len() > 0 {
                first_mark_stays(m, path, ls, now, c.parent_hashes[0], seen.insert(current), i);
            }
            seq![current]
        } else if c.parent_hashes.len() == 0 {
            seq![current]
        } else {
            let next = c.parent_hashes[0];
            let rest = line_is_put_down_to_its_newest_holder(
                m,
                path,
                ls,
                now,
                next,
                seen.insert(current),
                i,
            );
            let chain = seq![current] + rest;
            assert forall|j: int| 0 <= j < chain.len() implies m.contains_key(
                #[trigger] chain[j],
            ) && match m[chain[j]] {
                Some(ObjectView::Commit(x)) => j + 1 < chain.len() ==> x.parent_hashes.len() > 0
                    && chain[j + 1] == x.parent_hashes[0],
                _ => false,
            } by {
                if j > 0 {
                    assert(chain[j] == rest[j - 1]);
                    assert(j + 1 < chain.len() ==> chain[j + 1] == rest[j]);
                }
            }
            if rest.len() > 0 {
                assert(chain.last() == rest.last());
            }
            let all = blame_from(m, path, ls, marks, current, seen)->Done_0->Ok_0;
            let upto = if all[i] is Some {
                chain.len() - 1
            } else {
                chain.len() as int
            };
            assert forall|j: int| 0 <= j < upto implies !commit_holds(
                m,
                #[trigger] chain[j],
                path,
                ls[i],
            ) by {
                if j > 0 {
                    assert(chain[j] == rest[j - 1]);
                }
            }
            chain
        }
    } else {
        Seq::empty()
    }
}

/// A line that the current commit has is put down to the current commit: where
/// its files hold the path under a hash, whatever the mode, and the hash names a
/// blob with the line, the mark names that commit and its author.
pub proof fn line_of_the_current_commit(
    m: Map<Seq<char>, Option<ObjectView>>,
    path: Seq<char>,
    ls: Seq<Seq<char>>,
    marks: Seq<Option<MarkView>>,
    current: Seq<char>,
    seen: Set<Seq<char>>,
    c: CommitView,
    files: Seq<FileView>,
    k: int,
    data: Seq<u8>,
    i: int,
)
    requires
        m.dom().finite(),
        ls.len() == marks.len(),
        0 <= i < ls.len(),
        marks[i] is None,
        current.len() > 0,
        m.contains_key(current),
        m[current] == Some(ObjectView::Commit(c)),
        commit_files(m, current) == Step::Done(Ok::<Seq<FileView>, BrassError>(files)),
        0 <= k < files.len(),
        components(files[k].path) == components(path),
        m.contains_key(files[k].hash),
        m[files[k].hash] == Some(ObjectView::Blob(data)),
        lines(lossy_text(data)).contains(ls[i]),
        blame_from(m, path, ls, marks, current, seen) matches Step::Done(Ok(_)),
    ensures
        blame_from(m, path, ls, marks, current, seen) matches Step::Done(Ok(all)) && all[i] == Some(
            MarkView { hash: current, author: c.author.name },
        ),
{
    assert(commit_holds(m, current, path, ls[i]));
    let chain = line_is_put_down_to_its_newest_holder(m, path, ls, marks, current, seen, i);
    if chain.len() > 0 {
        assert(chain[0] == current);
        if chain.len() > 1 {
            assert(!commit_holds(m, chain[0], path, ls[i]));
        }
    }
}

/// Whether a text is spaces only.
pub open spec fn is_space_only(s: Seq<char>) -> bool {
    forall|i: int| 0 <= i < s.len() ==> #[trigger] s[i] == ' '
}

/// What a line of the report says: `pad` and the number of the line, at least
/// four wide; the first seven bytes of the hash and the author, or that the
/// line was not committed, and `fill`, at least twenty-five wide; and the line
/// as it is.
pub open spec fn is_report_row(
    row: Seq<char>,
    number: nat,
    mark: Option<MarkView>,
    line: Seq<char>,
    pad: Seq<char>,
    short: Seq<char>,
    fill: Seq<char>,
) -> bool {
    let from = match mark {
        None => "Uncommitted change"@,
        Some(x) => short + " ("@ + x.author + ")"@,
    };
    &&& row == pad + digits(number) + " | "@ + from + fill + " | "@ + line
    &&& is_space_only(pad)
    &&& is_space_only(fill)
    &&& if digits(number).len() >= 4 {
        pad.len() == 0
    } else {
        pad.len() + digits(number).len() == 4
    }
    &&& if from.len() >= 25 {
        fill.len() == 0
    } else {
        fill.len() + from.len() == 25
    }
    &&& mark matches Some(x) ==> encode_utf8(x.hash).len() >= 7 && encode_utf8(short)
        == encode_utf8(x.hash).take(7)
}

/// Whether a row of the report tells a line.
pub open spec fn tells_line(
    row: Seq<char>,
    number: nat,
    mark: Option<MarkView>,
    line: Seq<char>,
) -> bool {
    exists|pad: Seq<char>, short: Seq<char>, fill: Seq<char>| #[trigger]
        is_report_row(row, number, mark, line, pad, short, fill)
}

proof fn lemma_spaces(n: int)
    ensures
        is_space_only(spaces(n)),
        spaces(n).len() == (if n > 0 {
            n
        } else {
            0
        }),
    decreases n,
{
    if n > 0 {
        lemma_spaces(n - 1);
    }
}

/// The report has one line for each line of the file, in order, and each tells
/// the number of the line, where it comes from, and the line as it is.
pub proof fn report_tells_every_line(
    ls: Seq<Seq<char>>,
    marks: Seq<Option<MarkView>>,
    n: nat,
) -> (rows: Seq<Seq<char>>)
    requires
        n <= ls.len(),
        n <= marks.len(),
        report(ls, marks, n) is Some,
    ensures
        rows.len() == n,
        report(ls, marks, n) == Some(
            rows.map_values(|r: Seq<char>| r.push('\n')).flatten(),
        ),
        forall|i: int|
            0 <= i < n ==> tells_line(#[trigger] rows[i], (i + 1) as nat, marks[i], ls[i]),
    decreases n,
{
    let end = |r: Seq<char>| r.push('\n');
    if n == 0 {
        let rows = Seq::<Seq<char>>::empty();
        assert(rows.map_values(end) =~= Seq::empty());
        rows
    } else {
        reveal_strlit("\n");
        let less = report_tells_every_line(ls, marks, (n - 1) as nat);
        let from = origin(marks[n - 1])->Some_0;
        let line = report_line(n, from, ls[n - 1]);
        let row = line.drop_last();
        let rows = less.push(row);
        assert(line =~= row.push('\n'));
        assert(rows.map_values(end) =~= less.map_values(end).push(line));
        less.map_values(end).lemma_flatten_push(line);
        let pad = spaces(4 - digits(n).len());
        let fill = spaces(25 - from.len());
        lemma_spaces(4 - digits(n).len());
        lemma_spaces(25 - from.len());
        let short = match marks[n - 1] {
            Some(x) => short_hash(x.hash)->Some_0,
            None => Seq::empty(),
        };
        if let Some(x) = marks[n - 1] {
            decode_utf8_encode_utf8(encode_utf8(x.hash).take(7));
        }
        assert(row =~= pad + digits(n) + " | "@ + from + fill + " | "@ + ls[n - 1]);
        assert(is_report_row(row, n, marks[n - 1], ls[n - 1], pad, short, fill));
        assert forall|i: int| 0 <= i < n implies tells_line(
            #[trigger] rows[i],
            (i + 1) as nat,
            marks[i],
            ls[i],
        ) by {
            if i < n - 1 {
                assert(rows[i] == less[i]);
            }
        }
        rows
    }
}

/// A report is made whenever the hashes of the marks can be shortened, as the names
/// of objects can.
pub proof fn report_is_made(ls: Seq<Seq<char>>, marks: Seq<Option<MarkView>>, n: nat)
    requires
        n <= marks.len(),
        forall|i: int|
            0 <= i < n ==> (#[trigger] marks[i] matches Some(x) ==> x.hash.len() >= 7
                && is_ascii_chars(x.hash)),
    ensures
        report(ls, marks, n) is Some,
    decreases n,
{
    if n > 0 {
        report_is_made(ls, marks, (n - 1) as nat);
        if let Some(x) = marks[n - 1] {
            assert(x.hash.len() >= 7);
            let a = x.hash.take(7);
            let b = x.hash.skip(7);
            assert(x.hash =~= a + b);
            lemma_encode_concat(a, b);
            assert(is_ascii_chars(a)) by {
                assert forall|i: int| 0 <= i < a.len() implies '\0' <= #[trigger] a[i]
                    <= '\u{7f}' by {
                    assert(a[i] == x.hash[i]);
                }
            }
            is_ascii_chars_encode_utf8(a);
            assert(encode_utf8(x.hash).take(7) =~= encode_utf8(a));
            encode_utf8_valid_utf8(a);
        }
    }
}

/// Whether a commit has another as its first parent.
pub open spec fn has_first_parent(
    m: Map<Seq<char>, Option<ObjectView>>,
    commit: Seq<char>,
    parent: Seq<char>,
) -> bool {
    &&& m.contains_key(commit)
    &&& m[commit] matches Some(ObjectView::Commit(c)) && c.parent_hashes.len() > 0
        && c.parent_hashes[0] == parent
}

/// Whether commits come from each other in a row: each has the next as its first
/// parent.
pub open spec fn is_parent_row(
    m: Map<Seq<char>, Option<ObjectView>>,
    row: Seq<Seq<char>>,
) -> bool {
    forall|i: int, j: int|
        #![trigger row[i], row[j]]
        0 <= i && j == i + 1 && j < row.len() ==> has_first_parent(m, row[i], row[j])
}

proof fn lemma_blame_fails(
    m: Map<Seq<char>, Option<ObjectView>>,
    path: Seq<char>,
    ls: Seq<Seq<char>>,
    marks: Seq<Option<MarkView>>,
    current: Seq<char>,
    seen: Set<Seq<char>>,
    e: BrassError,
    row: Seq<Seq<char>>,
) -> (r: Seq<Seq<char>>)
    requires
        m.dom().finite(),
        blame_from(m, path, ls, marks, current, seen) == Step::Done(
            Err::<Seq<Option<MarkView>>, BrassError>(e),
        ),
        row.len() > 0,
        row.last() == current,
        is_parent_row(m, row),
        forall|x: Seq<char>| #[trigger] seen.contains(x) ==> row.drop_last().contains(x),
    ensures
        r.len() > 0,
        r[0] == row[0],
        is_parent_row(m, r),
        !r.no_duplicates() && e == BrassError::CyclicHistory || commit_files(m, r.last())
            == Step::Done(Err::<Seq<FileView>, BrassError>(e)),
    decreases m.dom().difference(seen).len(),
{
    let less = row.drop_last();
    if seen.contains(current) {
        let k = choose|k: int| 0 <= k < less.len() && less[k] == current;
        assert(row[k] == row[row.len() - 1]);
        row
    } else {
        let c = m[current]->0->Commit_0;
        match version_lines(m, current, path) {
            Step::Done(Ok(version)) => {
                let now = match version {
                    Some(v) => marked(
                        ls,
                        marks,
                        v,
                        MarkView { hash: current, author: c.author.name },
                    ),
                    None => marks,
                };
                let next = c.parent_hashes[0];
                let longer = row.push(next);
                m.dom().lemma_set_insert_diff_decreases(seen, current);
                assert(longer.drop_last() =~= row);
                assert forall|x: Seq<char>| #[trigger]
                    seen.insert(current).contains(x) implies row.contains(x) by {
                    if x == current {
                        assert(row[row.len() - 1] == x);
                    } else {
                        assert(less.contains(x));
                        let k = choose|k: int| 0 <= k < less.len() && less[k] == x;
                        assert(row[k] == x);
                    }
                }
                assert forall|i: int, j: int|
                    #![trigger longer[i], longer[j]]
                    0 <= i && j == i + 1 && j < longer.len() implies has_first_parent(
                    m,
                    longer[i],
                    longer[j],
                ) by {
                    if j < row.len() {
                        assert(longer[i] == row[i] && longer[j] == row[j]);
                    } else {
                        assert(longer[i] == current);
                    }
                }
                lemma_blame_fails(m, path, ls, now, next, seen.insert(current), e, longer)
            },
            _ => row,
        }
    }
}

/// The origin of lines cannot be told only where something goes in a circle: the
/// commits, from the current one to first parents, or the trees of one of them.
pub proof fn only_circles_stop_the_search(
    m: Map<Seq<char>, Option<ObjectView>>,
    path: Seq<char>,
    ls: Seq<Seq<char>>,
    marks: Seq<Option<MarkView>>,
    head: Seq<char>,
    e: BrassError,
) -> (row: Seq<Seq<char>>)
    requires
        m.dom().finite(),
        blame_from(m, path, ls, marks, head, Set::empty()) == Step::Done(
            Err::<Seq<Option<MarkView>>, BrassError>(e),
        ),
    ensures
        row.len() > 0,
        row[0] == head,
        is_parent_row(m, row),
        !row.no_duplicates() && e == BrassError::CyclicHistory || commit_files(m, row.last())
            == Step::Done(Err::<Seq<FileView>, BrassError>(e)),
{
    lemma_blame_fails(m, path, ls, marks, head, Set::empty(), e, seq![head])
}

/// The search only ever needs an object that has not been looked up yet.
pub proof fn search_needs_the_unknown(
    m: Map<Seq<char>, Option<ObjectView>>,
    path: Seq<char>,
    ls: Seq<Seq<char>>,
    marks: Seq<Option<MarkView>>,
    current: Seq<char>,
    seen: Set<Seq<char>>,
)
    requires
        m.dom().finite(),
    ensures
        blame_from(m, path, ls, marks, current, seen) matches Step::Need(h) ==> !m.contains_key(h),
    decreases m.dom().difference(seen).len(),
{
    if current.len() > 0 && !seen.contains(current) && m.contains_key(current) {
        if let Some(ObjectView::Commit(c)) = m[current] {
            commit_files_need_the_unknown(m, current);
            if let Step::Done(Ok(version)) = version_lines(m, current, path) {
                let now = match version {
                    Some(v) => marked(
                        ls,
                        marks,
                        v,
                        MarkView { hash: current, author: c.author.name },
                    ),
                    None => marks,
                };
                if c.parent_hashes.len() > 0 {
                    m.dom().lemma_set_insert_diff_decreases(seen, current);
                    search_needs_the_unknown(
                        m,
                        path,
                        ls,
                        now,
                        c.parent_hashes[0],
                        seen.insert(current),
                    );
                }
            }
        }
    }
}

/// A blob is read as its text; what is missing or no blob is read as nothing.
pub proof fn blob_is_read_as_its_text(data: Seq<u8>, other: Option<ObjectView>)
    requires
        !(other matches Some(ObjectView::Blob(_))),
    ensures
        blob_text(Some(ObjectView::Blob(data))) == lossy_text(data),
        blob_text(other).len() == 0,
{
}

} // verus!
