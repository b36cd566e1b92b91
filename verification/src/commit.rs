//! Commits as text: a `tree` line, a `parent` line for each parent, an
//! `author` and a `committer` line, an empty line, and the message.
use vstd::prelude::*;
use crate::error::BrassError;
use crate::object::{Commit, CommitView, Signature, SignatureView, Timestamp};
use crate::text::{
    after_prefix, begins_with, ends_with, is_blank, join_lines, joined_lines_are_all_lines,
    lemma_join_split, lemma_pieces_first, lemma_trim_ends, lemma_trim_line_end, lines,
    prefix_and_rest_are_the_text, split_at_first, split_lines, split_once, strip_prefix,
    strip_suffixes, trim, trim_suffix, trimmed, views, views_empty, views_push,
};
use crate::utf8::{lossy_text, read_lossy};

verus! {

/// The `parent` lines of a commit.
pub open spec fn parent_lines(parents: Seq<Seq<char>>) -> Seq<char>
    decreases parents.len(),
{
    if parents.len() == 0 {
        Seq::empty()
    } else {
        parent_lines(parents.drop_last()) + ("parent "@ + parents.last()).push('\n')
    }
}

/// A name and an address as they stand in a line.
pub open spec fn person(s: SignatureView) -> Seq<char> {
    s.name + " <"@ + s.email + ">"@
}

/// The text of a commit.
pub open spec fn commit_text(c: CommitView) -> Seq<char> {
    ("tree "@ + c.tree_hash).push('\n') + parent_lines(c.parent_hashes) + ("author "@ + person(
        c.author,
    )).push('\n') + ("committer "@ + person(c.committer)).push('\n') + (seq!['\n']
        + c.message).push('\n')
}

/// A commit of which nothing is known but the time.
pub open spec fn blank_commit(now: Timestamp) -> CommitView {
    let nobody = SignatureView { name: Seq::empty(), email: Seq::empty(), timestamp: now };
    CommitView {
        tree_hash: Seq::empty(),
        parent_hashes: Seq::empty(),
        author: nobody,
        committer: nobody,
        message: Seq::empty(),
    }
}

/// What one header line says of a commit.
pub open spec fn apply_header(c: CommitView, line: Seq<char>) -> CommitView {
    if let Some(hash) = after_prefix(line, "tree "@) {
        CommitView { tree_hash: hash, ..c }
    } else if let Some(hash) = after_prefix(line, "parent "@) {
        CommitView { parent_hashes: c.parent_hashes.push(hash), ..c }
    } else if let Some(text) = after_prefix(line, "author "@) {
        match split_at_first(text, " <"@) {
            Some((name, email)) => CommitView {
                author: SignatureView { name, email: trim_suffix(email, ">"@), ..c.author },
                ..c
            },
            None => c,
        }
    } else if let Some(text) = after_prefix(line, "committer "@) {
        match split_at_first(text, " <"@) {
            Some((name, _)) => CommitView {
                committer: SignatureView { name, email: trim_suffix(text, ">"@), ..c.committer },
                ..c
            },
            None => c,
        }
    } else {
        c
    }
}

/// What the lines of a commit say: header lines up to the first empty line,
/// then the message.
pub open spec fn apply_lines(c: CommitView, ls: Seq<Seq<char>>) -> CommitView
    decreases ls.len(),
{
    if ls.len() == 0 {
        c
    } else if ls[0].len() == 0 {
        CommitView { message: trim(join_lines(ls.drop_first())), ..c }
    } else {
        apply_lines(apply_header(c, ls[0]), ls.drop_first())
    }
}

/// The commit that a text stands for, read at a given time.
pub open spec fn parse_commit(text: Seq<char>, now: Timestamp) -> CommitView {
    apply_lines(blank_commit(now), lines(text))
}

fn push_person(out: &mut String, s: &Signature)
    ensures
        final(out)@ == old(out)@ + person(s@),
{
    out.append(s.name.as_str());
    out.append(" <");
    out.append(s.email.as_str());
    out.append(">");
    assert(out@ =~= old(out)@ + person(s@));
}

/// Takes what one header line says into a commit.
fn read_header(c: &mut Commit, line: &str)
    ensures
        final(c)@ == apply_header(old(c)@, line@),
{
    broadcast use views_push;

    if let Some(hash) = strip_prefix(line, "tree ") {
        c.tree_hash = hash;
    } else if let Some(hash) = strip_prefix(line, "parent ") {
        c.parent_hashes.push(hash);
    } else if let Some(text) = strip_prefix(line, "author ") {
        if let Some((name, email)) = split_once(text.as_str(), " <") {
            c.author.name = name;
            c.author.email = strip_suffixes(email.as_str(), ">");
        }
    } else if let Some(text) = strip_prefix(line, "committer ") {
        if let Some((name, _)) = split_once(text.as_str(), " <") {
            c.committer.name = name;
            c.committer.email = strip_suffixes(text.as_str(), ">");
        }
    }
}

impl Commit {
    /// The text of the commit.
    pub fn serialize_payload(&self) -> (r: String)
        ensures
            r@ == commit_text(self@),
    {
        let mut out = String::new();
        out.append("tree ");
        out.append(self.tree_hash.as_str());
        out.push('\n');
        let ghost first = ("tree "@ + self.tree_hash@).push('\n');
        assert(out@ =~= first);
        let mut i: usize = 0;
        let ghost parents = views(self.parent_hashes@);
        assert(parents.take(0) =~= Seq::<Seq<char>>::empty());
        assert(first + parent_lines(parents.take(0)) =~= first);
        while i < self.parent_hashes.len()
            invariant
                i <= self.parent_hashes@.len(),
                parents == views(self.parent_hashes@),
                out@ == first + parent_lines(parents.take(i as int)),
            decreases self.parent_hashes@.len() - i,
        {
            let ghost before = out@;
            out.append("parent ");
            out.append(self.parent_hashes[i].as_str());
            out.push('\n');
            assert(parents.take(i + 1).drop_last() =~= parents.take(i as int));
            assert(out@ =~= first + parent_lines(parents.take(i + 1)));
            i = i + 1;
        }
        assert(parents.take(i as int) =~= parents);
        out.append("author ");
        push_person(&mut out, &self.author);
        out.push('\n');
        out.append("committer ");
        push_person(&mut out, &self.committer);
        out.push('\n');
        out.push('\n');
        out.append(self.message.as_str());
        out.push('\n');
        assert(out@ =~= commit_text(self@));
        out
    }

    /// Reads the bytes of a commit; the times of its two signatures are not
    /// stored and are taken to be `now`.
    pub fn deserialize_payload(payload: &[u8], now: Timestamp) -> (r: Result<Commit, BrassError>)
        ensures
            r matches Ok(c) && c@ == parse_commit(lossy_text(payload@), now),
    {
        let content = read_lossy(payload);
        Ok(Commit::from_text(content.as_str(), now))
    }

    /// Reads the text of a commit; the times of its two signatures are taken to
    /// be `now`.
    pub fn from_text(text: &str, now: Timestamp) -> (r: Commit)
        ensures
            r@ == parse_commit(text@, now),
    {
        broadcast use {views_push, views_empty};

        let all = split_lines(text);
        let ghost ls = views(all@);
        let author = Signature { name: String::new(), email: String::new(), timestamp: now };
        let committer = author.copy();
        let mut c = Commit {
            tree_hash: String::new(),
            parent_hashes: Vec::new(),
            author,
            committer,
            message: String::new(),
        };
        assert(c@ =~= blank_commit(now));
        assert(ls.skip(0) =~= ls);
        let mut i: usize = 0;
        while i < all.len() && !is_blank(all[i].as_str())
            invariant
                i <= all@.len(),
                ls == views(all@),
                apply_lines(blank_commit(now), ls) == apply_lines(c@, ls.skip(i as int)),
            decreases all@.len() - i,
        {
            assert(ls.skip(i as int)[0] == all@[i as int]@);
            assert(ls.skip(i as int).drop_first() =~= ls.skip(i + 1));
            read_header(&mut c, all[i].as_str());
            i = i + 1;
        }
        if i < all.len() {
            let ghost rest = ls.skip(i as int);
            assert(rest[0] == all@[i as int]@);
            let start: usize = i + 1;
            let mut message = String::new();
            let mut k: usize = start;
            assert(ls.subrange(start as int, start as int) =~= Seq::<Seq<char>>::empty());
            while k < all.len()
                invariant
                    start <= k <= all@.len(),
                    ls == views(all@),
                    message@ == join_lines(ls.subrange(start as int, k as int)),
                decreases all@.len() - k,
            {
                message.append(all[k].as_str());
                message.push('\n');
                assert(ls.subrange(start as int, k + 1).drop_last() =~= ls.subrange(
                    start as int,
                    k as int,
                ));
                k = k + 1;
                assert(message@ =~= join_lines(ls.subrange(start as int, k as int)));
            }
            assert(ls.subrange(start as int, k as int) =~= rest.drop_first());
            c.message = trimmed(message.as_str());
        } else {
            assert(ls.skip(i as int) =~= Seq::empty());
        }
        c
    }
}

// ---------------------------------------------------------------------------
// What is read back of what was written

/// Whether a text stays one line when a line end is put behind it.
pub open spec fn is_one_line(s: Seq<char>) -> bool {
    !s.contains('\n') && (s.len() > 0 ==> s.last() != '\r')
}

/// Whether a name and an address can be told apart in a line.
pub open spec fn is_plain_person(s: SignatureView) -> bool {
    &&& !s.name.contains('\n')
    &&& split_at_first(s.name, " <"@) is None
    &&& !s.email.contains('\n')
}

/// Whether the text of a commit keeps all that it holds: hashes and people
/// stand on one line each, and the message has no white space around it and
/// no line end that is more than a line feed.
pub open spec fn is_plain_commit(c: CommitView) -> bool {
    &&& is_one_line(c.tree_hash)
    &&& forall|i: int|
        0 <= i < c.parent_hashes.len() ==> is_one_line(#[trigger] c.parent_hashes[i])
    &&& is_plain_person(c.author)
    &&& is_plain_person(c.committer)
    &&& trim(c.message) == c.message
    &&& forall|i: int|
        0 <= i < c.message.len() - 1 ==> !(#[trigger] c.message[i] == '\r' && c.message[i + 1]
            == '\n')
}

/// A commit as it is read back at a given time: its times are not stored, the
/// addresses lose every `>` at their end, and the committer's address comes
/// back behind the name.
pub open spec fn commit_read_back(c: CommitView, now: Timestamp) -> CommitView {
    CommitView {
        author: SignatureView {
            email: trim_suffix(c.author.email, ">"@),
            timestamp: now,
            ..c.author
        },
        committer: SignatureView {
            email: trim_suffix(c.committer.name + " <"@ + c.committer.email, ">"@),
            timestamp: now,
            ..c.committer
        },
        ..c
    }
}

proof fn lemma_after_prefix(p: Seq<char>, x: Seq<char>)
    ensures
        after_prefix(p + x, p) == Some(x),
{
    assert((p + x).take(p.len() as int) =~= p);
    assert((p + x).skip(p.len() as int) =~= x);
}

proof fn lemma_other_prefix(s: Seq<char>, p: Seq<char>)
    requires
        p.len() > 0,
        s.len() > 0 ==> s[0] != p[0],
    ensures
        after_prefix(s, p) is None,
{
    if begins_with(s, p) {
        assert(s.take(p.len() as int)[0] == p[0]);
    }
}

proof fn lemma_first_line(c: CommitView, x: Seq<char>, rest: Seq<char>)
    requires
        is_one_line(x),
        x.len() > 0,
    ensures
        apply_lines(c, lines(x.push('\n') + rest)) == apply_lines(
            apply_header(c, x),
            lines(rest),
        ),
{
    assert(x.push('\n') + rest =~= x + seq!['\n'] + rest);
    lemma_pieces_first(x, rest, '\n', '\r');
    let ls = lines(x.push('\n') + rest);
    assert(ls[0] == x);
    assert(ls.drop_first() =~= lines(rest));
}

proof fn lemma_parent_lines_front(ps: Seq<Seq<char>>)
    requires
        ps.len() > 0,
    ensures
        parent_lines(ps) == ("parent "@ + ps[0]).push('\n') + parent_lines(ps.drop_first()),
    decreases ps.len(),
{
    if ps.len() == 1 {
        assert(ps.drop_last() =~= Seq::empty());
        assert(ps.drop_first() =~= Seq::empty());
        assert(parent_lines(ps.drop_last()) =~= Seq::<char>::empty());
        assert(parent_lines(ps) =~= ("parent "@ + ps[0]).push('\n'));
    } else {
        lemma_parent_lines_front(ps.drop_last());
        assert(ps.drop_last().drop_first() =~= ps.drop_first().drop_last());
        assert(parent_lines(ps) =~= ("parent "@ + ps[0]).push('\n') + parent_lines(
            ps.drop_first(),
        ));
    }
}

proof fn lemma_read_parents(c: CommitView, ps: Seq<Seq<char>>, rest: Seq<char>)
    requires
        forall|i: int| 0 <= i < ps.len() ==> is_one_line(#[trigger] ps[i]),
    ensures
        apply_lines(c, lines(parent_lines(ps) + rest)) == apply_lines(
            CommitView { parent_hashes: c.parent_hashes + ps, ..c },
            lines(rest),
        ),
    decreases ps.len(),
{
    if ps.len() == 0 {
        assert(parent_lines(ps) + rest =~= rest);
        assert(c.parent_hashes + ps =~= c.parent_hashes);
    } else {
        reveal_strlit("tree ");
        reveal_strlit("parent ");
        let x = "parent "@ + ps[0];
        let tail = ps.drop_first();
        lemma_parent_lines_front(ps);
        assert(parent_lines(ps) + rest =~= x.push('\n') + (parent_lines(tail) + rest));
        assert(is_one_line(ps[0]));
        assert(is_one_line(x)) by {
            if x.contains('\n') {
                let i = choose|i: int| 0 <= i < x.len() && x[i] == '\n';
                if i >= 7 {
                    assert(ps[0].contains(ps[0][i - 7]));
                }
            }
            if ps[0].len() == 0 {
                assert(x.last() == ' ');
            }
        }
        lemma_first_line(c, x, parent_lines(tail) + rest);
        lemma_other_prefix(x, "tree "@);
        lemma_after_prefix("parent "@, ps[0]);
        let c2 = CommitView { parent_hashes: c.parent_hashes.push(ps[0]), ..c };
        assert forall|i: int| 0 <= i < tail.len() implies is_one_line(#[trigger] tail[i]) by {
            assert(tail[i] == ps[i + 1]);
        }
        lemma_read_parents(c2, tail, rest);
        assert(c2.parent_hashes + tail =~= c.parent_hashes + ps);
    }
}

proof fn lemma_split_person(name: Seq<char>, rest: Seq<char>)
    requires
        split_at_first(name, " <"@) is None,
    ensures
        split_at_first(name + " <"@ + rest, " <"@) == Some((name, rest)),
    decreases name.len(),
{
    reveal_strlit(" <");
    let s = name + " <"@ + rest;
    if name.len() == 0 {
        assert(s =~= " <"@ + rest);
        lemma_after_prefix(" <"@, rest);
        assert(name =~= Seq::empty());
    } else {
        if begins_with(s, " <"@) {
            assert(s.take(2)[0] == ' ');
            assert(s.take(2)[1] == '<');
            assert(s[1] == '<');
            if name.len() == 1 {
                assert(s[1] == " <"@[0]);
            } else {
                assert(name.take(2) =~= " <"@);
            }
        }
        let t = name.drop_first();
        lemma_split_person(t, rest);
        assert(s.drop_first() =~= t + " <"@ + rest);
        assert(seq![name[0]] + t =~= name);
    }
}

proof fn lemma_strip_angle(y: Seq<char>)
    ensures
        trim_suffix(y + ">"@, ">"@) == trim_suffix(y, ">"@),
        (y.len() > 0 ==> y.last() != '>') ==> trim_suffix(y, ">"@) == y,
{
    reveal_strlit(">");
    let s = y + ">"@;
    assert(s.skip(s.len() - 1) =~= ">"@);
    assert(s.take(s.len() - 1) =~= y);
    if ends_with(y, ">"@) {
        assert(y.skip(y.len() - 1)[0] == '>');
    }
}

proof fn lemma_person_line(prefix: Seq<char>, s: SignatureView)
    requires
        is_plain_person(s),
        !prefix.contains('\n'),
    ensures
        is_one_line(prefix + person(s)),
        split_at_first(person(s), " <"@) == Some((s.name, s.email + ">"@)),
        trim_suffix(s.email + ">"@, ">"@) == trim_suffix(s.email, ">"@),
        trim_suffix(person(s), ">"@) == trim_suffix(s.name + " <"@ + s.email, ">"@),
{
    reveal_strlit(" <");
    reveal_strlit(">");
    let p = person(s);
    let x = prefix + p;
    assert(x.last() == '>');
    if x.contains('\n') {
        let i = choose|i: int| 0 <= i < x.len() && x[i] == '\n';
        let k = i - prefix.len();
        if k < 0 {
            assert(prefix.contains(prefix[i]));
        } else if k < s.name.len() {
            assert(s.name.contains(s.name[k]));
        } else if k < s.name.len() + 2 {
            assert(x[i] == " <"@[k - s.name.len()]);
        } else if k < s.name.len() + 2 + s.email.len() {
            assert(s.email.contains(s.email[k - s.name.len() - 2]));
        }
    }
    assert(p =~= s.name + " <"@ + (s.email + ">"@));
    lemma_split_person(s.name, s.email + ">"@);
    lemma_strip_angle(s.email);
    assert(p =~= (s.name + " <"@ + s.email) + ">"@);
    lemma_strip_angle(s.name + " <"@ + s.email);
}

proof fn lemma_read_tree(c: CommitView, hash: Seq<char>, rest: Seq<char>)
    requires
        is_one_line(hash),
    ensures
        apply_lines(c, lines(("tree "@ + hash).push('\n') + rest)) == apply_lines(
            CommitView { tree_hash: hash, ..c },
            lines(rest),
        ),
{
    reveal_strlit("tree ");
    let x = "tree "@ + hash;
    assert(is_one_line(x)) by {
        if x.contains('\n') {
            let i = choose|i: int| 0 <= i < x.len() && x[i] == '\n';
            if i >= 5 {
                assert(hash.contains(hash[i - 5]));
            }
        }
        if hash.len() == 0 {
            assert(x.last() == ' ');
        }
    }
    lemma_first_line(c, x, rest);
    lemma_after_prefix("tree "@, hash);
}

proof fn lemma_read_author(c: CommitView, s: SignatureView, rest: Seq<char>)
    requires
        is_plain_person(s),
    ensures
        apply_lines(c, lines(("author "@ + person(s)).push('\n') + rest)) == apply_lines(
            CommitView {
                author: SignatureView {
                    name: s.name,
                    email: trim_suffix(s.email, ">"@),
                    ..c.author
                },
                ..c
            },
            lines(rest),
        ),
{
    reveal_strlit("tree ");
    reveal_strlit("parent ");
    reveal_strlit("author ");
    let x = "author "@ + person(s);
    lemma_person_line("author "@, s);
    lemma_first_line(c, x, rest);
    lemma_other_prefix(x, "tree "@);
    lemma_other_prefix(x, "parent "@);
    lemma_after_prefix("author "@, person(s));
}

proof fn lemma_read_committer(c: CommitView, s: SignatureView, rest: Seq<char>)
    requires
        is_plain_person(s),
    ensures
        apply_lines(c, lines(("committer "@ + person(s)).push('\n') + rest)) == apply_lines(
            CommitView {
                committer: SignatureView {
                    name: s.name,
                    email: trim_suffix(s.name + " <"@ + s.email, ">"@),
                    ..c.committer
                },
                ..c
            },
            lines(rest),
        ),
{
    reveal_strlit("tree ");
    reveal_strlit("parent ");
    reveal_strlit("author ");
    reveal_strlit("committer ");
    let x = "committer "@ + person(s);
    lemma_person_line("committer "@, s);
    lemma_first_line(c, x, rest);
    lemma_other_prefix(x, "tree "@);
    lemma_other_prefix(x, "parent "@);
    lemma_other_prefix(x, "author "@);
    lemma_after_prefix("committer "@, person(s));
}

proof fn lemma_read_message(c: CommitView, m: Seq<char>)
    requires
        trim(m) == m,
        forall|i: int|
            0 <= i < m.len() - 1 ==> !(#[trigger] m[i] == '\r' && m[i + 1] == '\n'),
    ensures
        apply_lines(c, lines((seq!['\n'] + m).push('\n'))) == (CommitView { message: m, ..c }),
{
    let tail = (seq!['\n'] + m).push('\n');
    let body = m.push('\n');
    assert(tail =~= Seq::<char>::empty() + seq!['\n'] + body);
    lemma_pieces_first(Seq::<char>::empty(), body, '\n', '\r');
    let ls = lines(tail);
    assert(ls[0].len() == 0);
    assert(ls.drop_first() =~= lines(body));
    lemma_trim_ends(m);
    assert forall|i: int| 0 <= i < body.len() - 1 implies !(#[trigger] body[i] == '\r' && body[i
        + 1] == '\n') by {
        assert(body[i] == m[i]);
        if i + 1 < m.len() {
            assert(body[i + 1] == m[i + 1]);
        } else {
            assert(m.last() == m[i]);
        }
    }
    lemma_join_split(body);
    lemma_trim_line_end(m);
}

/// A commit is read back from its text: hashes, parents, names and message as
/// they were, the times as the time of reading. An address that does not end in
/// `>` comes back as it was, the committer's with the name in front of it.
pub proof fn commit_round_trip(c: CommitView, now: Timestamp)
    requires
        is_plain_commit(c),
    ensures
        parse_commit(commit_text(c), now) == commit_read_back(c, now),
        (c.author.email.len() > 0 ==> c.author.email.last() != '>') ==> commit_read_back(
            c,
            now,
        ).author.email == c.author.email,
        (c.committer.email.len() > 0 ==> c.committer.email.last() != '>') ==> commit_read_back(
            c,
            now,
        ).committer.email == c.committer.name + " <"@ + c.committer.email,
{
    let c0 = blank_commit(now);
    let x1 = ("tree "@ + c.tree_hash).push('\n');
    let x2 = parent_lines(c.parent_hashes);
    let x3 = ("author "@ + person(c.author)).push('\n');
    let x4 = ("committer "@ + person(c.committer)).push('\n');
    let x5 = (seq!['\n'] + c.message).push('\n');
    assert(commit_text(c) =~= x1 + (x2 + (x3 + (x4 + x5))));
    lemma_read_tree(c0, c.tree_hash, x2 + (x3 + (x4 + x5)));
    let c1 = CommitView { tree_hash: c.tree_hash, ..c0 };
    lemma_read_parents(c1, c.parent_hashes, x3 + (x4 + x5));
    assert(c1.parent_hashes + c.parent_hashes =~= c.parent_hashes);
    let c2 = CommitView { parent_hashes: c.parent_hashes, ..c1 };
    lemma_read_author(c2, c.author, x4 + x5);
    let c3 = CommitView {
        author: SignatureView {
            name: c.author.name,
            email: trim_suffix(c.author.email, ">"@),
            ..c2.author
        },
        ..c2
    };
    lemma_read_committer(c3, c.committer, x5);
    let c4 = CommitView {
        committer: SignatureView {
            name: c.committer.name,
            email: trim_suffix(c.committer.name + " <"@ + c.committer.email, ">"@),
            ..c3.committer
        },
        ..c3
    };
    lemma_read_message(c4, c.message);
    reveal_strlit(" <");
    lemma_strip_angle(c.author.email);
    let y = c.committer.name + " <"@ + c.committer.email;
    if c.committer.email.len() == 0 {
        assert(y.last() == " <"@[1]);
    }
    lemma_strip_angle(y);
}

proof fn lemma_parent_rows(ps: Seq<Seq<char>>)
    ensures
        parent_lines(ps) == ps.map_values(
            |p: Seq<char>| "parent "@ + p + seq!['\n'],
        ).flatten(),
    decreases ps.len(),
{
    let row = |p: Seq<char>| "parent "@ + p + seq!['\n'];
    if ps.len() == 0 {
        assert(ps.map_values(row) =~= Seq::empty());
    } else {
        let less = ps.drop_last();
        lemma_parent_rows(less);
        assert(ps.map_values(row) =~= less.map_values(row).push(row(ps.last())));
        less.map_values(row).lemma_flatten_push(row(ps.last()));
        assert(row(ps.last()) =~= ("parent "@ + ps.last()).push('\n'));
    }
}

/// The text of a commit tells its tree, every parent in order, who wrote it, who
/// committed it, and, behind an empty line, its message.
pub proof fn commit_text_tells_everything(c: CommitView)
    ensures
        commit_text(c) == "tree "@ + c.tree_hash + seq!['\n'] + c.parent_hashes.map_values(
            |p: Seq<char>| "parent "@ + p + seq!['\n'],
        ).flatten() + "author "@ + c.author.name + " <"@ + c.author.email + ">\ncommitter "@
            + c.committer.name + " <"@ + c.committer.email + ">\n\n"@ + c.message + seq!['\n'],
{
    lemma_parent_rows(c.parent_hashes);
    reveal_strlit(">");
    reveal_strlit("committer ");
    reveal_strlit(">\ncommitter ");
    reveal_strlit(">\n\n");
    let ps = parent_lines(c.parent_hashes);
    let front = "tree "@ + c.tree_hash + seq!['\n'] + ps;
    let author = "author "@ + c.author.name + " <"@ + c.author.email;
    let committer = c.committer.name + " <"@ + c.committer.email;
    assert(">\ncommitter "@ =~= ">"@ + seq!['\n'] + "committer "@);
    assert(">\n\n"@ =~= ">"@ + seq!['\n'] + seq!['\n']);
    assert(("tree "@ + c.tree_hash).push('\n') + ps =~= front);
    let first = front + author + ">"@ + seq!['\n'];
    let second = first + "committer "@ + committer + ">"@ + seq!['\n'];
    assert(front + ("author "@ + person(c.author)).push('\n') =~= first);
    assert(first + ("committer "@ + person(c.committer)).push('\n') =~= second);
    assert(commit_text(c) =~= second + seq!['\n'] + c.message + seq!['\n']);
    assert(front + author + ">\ncommitter "@ =~= first + "committer "@);
    assert(first + "committer "@ + committer + ">\n\n"@ =~= second + seq!['\n']);
    assert(front + "author "@ + c.author.name + " <"@ + c.author.email =~= front + author);
    assert(first + "committer "@ + c.committer.name + " <"@ + c.committer.email =~= first
        + "committer "@ + committer);
}

/// What each line in front of the message says: a `tree` line the tree, a
/// `parent` line one more parent, an `author` line the author, a `committer`
/// line the committer, whose address is taken to be the whole text behind the
/// word, and any other line nothing.
pub proof fn header_lines_say(
    c: CommitView,
    hash: Seq<char>,
    name: Seq<char>,
    email: Seq<char>,
    other: Seq<char>,
)
    requires
        split_at_first(name, " <"@) is None,
        email.len() > 0,
        email.last() != '>',
        forall|rest: Seq<char>| other != #[trigger] ("tree "@ + rest),
        forall|rest: Seq<char>| other != #[trigger] ("parent "@ + rest),
        forall|rest: Seq<char>| other != #[trigger] ("author "@ + rest),
        forall|rest: Seq<char>| other != #[trigger] ("committer "@ + rest),
    ensures
        apply_header(c, "tree "@ + hash) == (CommitView { tree_hash: hash, ..c }),
        apply_header(c, "parent "@ + hash) == (CommitView {
            parent_hashes: c.parent_hashes.push(hash),
            ..c
        }),
        apply_header(c, "author "@ + (name + " <"@ + (email + ">"@))) == (CommitView {
            author: SignatureView { name, email, timestamp: c.author.timestamp },
            ..c
        }),
        apply_header(c, "committer "@ + (name + " <"@ + (email + ">"@))) == (CommitView {
            committer: SignatureView {
                name,
                email: name + " <"@ + email,
                timestamp: c.committer.timestamp,
            },
            ..c
        }),
        apply_header(c, other) == c,
{
    reveal_strlit("tree ");
    reveal_strlit("parent ");
    reveal_strlit("author ");
    reveal_strlit("committer ");
    let text = name + " <"@ + (email + ">"@);
    let whole = name + " <"@ + email;
    assert(text =~= whole + ">"@);
    assert(whole.last() == email.last());
    lemma_after_prefix("tree "@, hash);
    lemma_after_prefix("parent "@, hash);
    lemma_after_prefix("author "@, text);
    lemma_after_prefix("committer "@, text);
    assert(("parent "@ + hash).take(5)[0] == 'p');
    assert(("author "@ + text).take(5)[0] == 'a');
    assert(("author "@ + text).take(7)[0] == 'a');
    assert(("committer "@ + text).take(5)[0] == 'c');
    assert(("committer "@ + text).take(7)[0] == 'c');
    lemma_split_person(name, email + ">"@);
    lemma_strip_angle(email);
    lemma_strip_angle(whole);
    if let Some(rest) = after_prefix(other, "tree "@) {
        prefix_and_rest_are_the_text(other, "tree "@, rest);
    }
    if let Some(rest) = after_prefix(other, "parent "@) {
        prefix_and_rest_are_the_text(other, "parent "@, rest);
    }
    if let Some(rest) = after_prefix(other, "author "@) {
        prefix_and_rest_are_the_text(other, "author "@, rest);
    }
    if let Some(rest) = after_prefix(other, "committer "@) {
        prefix_and_rest_are_the_text(other, "committer "@, rest);
    }
}

/// Every line in front of the first empty one is read, in order, and all lines
/// behind it are the message; without an empty line there is no message.
pub proof fn headers_come_before_the_message(
    c: CommitView,
    head: Seq<Seq<char>>,
    rest: Seq<Seq<char>>,
)
    requires
        forall|i: int| 0 <= i < head.len() ==> (#[trigger] head[i]).len() > 0,
    ensures
        apply_lines(c, head) == head.fold_left(c, |c: CommitView, l: Seq<char>| apply_header(c, l)),
        apply_lines(c, head + seq![Seq::<char>::empty()] + rest) == (CommitView {
            message: trim(rest.map_values(|l: Seq<char>| l.push('\n')).flatten()),
            ..head.fold_left(c, |c: CommitView, l: Seq<char>| apply_header(c, l))
        }),
    decreases head.len(),
{
    let say = |c: CommitView, l: Seq<char>| apply_header(c, l);
    let all = head + seq![Seq::<char>::empty()] + rest;
    head.lemma_fold_left_alt(c, say);
    if head.len() == 0 {
        assert(all[0] == Seq::<char>::empty());
        assert(all.drop_first() =~= rest);
        joined_lines_are_all_lines(rest);
    } else {
        let less = head.drop_first();
        assert(head[0].len() > 0);
        assert forall|i: int| 0 <= i < less.len() implies (#[trigger] less[i]).len() > 0 by {
            assert(less[i] == head[i + 1]);
        }
        let next = apply_header(c, head[0]);
        headers_come_before_the_message(next, less, rest);
        less.lemma_fold_left_alt(next, say);
        assert(head.subrange(1, head.len() as int) =~= less);
        assert(all[0] == head[0]);
        assert(all.drop_first() =~= less + seq![Seq::<char>::empty()] + rest);
    }
}

/// A commit is read from nothing but its lines: what no line says is empty, and
/// the times are the time of reading.
pub proof fn unsaid_parts_are_empty(text: Seq<char>, head: Seq<Seq<char>>, now: Timestamp)
    requires
        lines(text) == head,
        forall|i: int| 0 <= i < head.len() ==> (#[trigger] head[i]).len() > 0,
    ensures
        parse_commit(text, now) == head.fold_left(
            (CommitView {
                tree_hash: Seq::empty(),
                parent_hashes: Seq::empty(),
                author: SignatureView { name: Seq::empty(), email: Seq::empty(), timestamp: now },
                committer: SignatureView {
                    name: Seq::empty(),
                    email: Seq::empty(),
                    timestamp: now,
                },
                message: Seq::empty(),
            }),
            |c: CommitView, l: Seq<char>| apply_header(c, l),
        ),
{
    headers_come_before_the_message(blank_commit(now), head, Seq::empty());
}

/// An `author` line gives what stands before the first ` <` as the name and what
/// stands behind it, without the `>` at its end, as the address; a `committer`
/// line gives its whole text as the address. A line of either without ` <` says
/// nothing.
pub proof fn person_lines_say(c: CommitView, name: Seq<char>, rest: Seq<char>)
    requires
        split_at_first(name, " <"@) is None,
    ensures
        apply_header(c, "author "@ + (name + " <"@ + rest)) == (CommitView {
            author: SignatureView { name, email: trim_suffix(rest, ">"@), ..c.author },
            ..c
        }),
        apply_header(c, "committer "@ + (name + " <"@ + rest)) == (CommitView {
            committer: SignatureView {
                name,
                email: trim_suffix(name + " <"@ + rest, ">"@),
                ..c.committer
            },
            ..c
        }),
        apply_header(c, "author "@ + name) == c,
        apply_header(c, "committer "@ + name) == c,
{
    reveal_strlit("tree ");
    reveal_strlit("parent ");
    reveal_strlit("author ");
    reveal_strlit("committer ");
    let text = name + " <"@ + rest;
    lemma_after_prefix("author "@, text);
    lemma_after_prefix("committer "@, text);
    lemma_after_prefix("author "@, name);
    lemma_after_prefix("committer "@, name);
    assert(("author "@ + text).take(5)[0] == 'a');
    assert(("author "@ + text).take(7)[0] == 'a');
    assert(("author "@ + name).take(5)[0] == 'a');
    assert(("author "@ + name).take(7)[0] == 'a');
    assert(("committer "@ + text).take(5)[0] == 'c');
    assert(("committer "@ + text).take(7)[0] == 'c');
    assert(("committer "@ + name).take(5)[0] == 'c');
    assert(("committer "@ + name).take(7)[0] == 'c');
    lemma_split_person(name, rest);
}

} // verus!
