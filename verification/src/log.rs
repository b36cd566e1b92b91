//! The history of the current commit, as text.
use vstd::prelude::*;
use vstd::hash_set::StringHashSet;
use crate::history::Step;
use crate::object::{BrassObject, Commit, CommitView, ObjectView};
use crate::store::{extends, ObjectStore};
use crate::text::{is_blank, views};

verus! {

/// Texts with one space between each two.
pub open spec fn spaced(parts: Seq<Seq<char>>) -> Seq<char>
    decreases parts.len(),
{
    if parts.len() == 0 {
        Seq::empty()
    } else if parts.len() == 1 {
        parts[0]
    } else {
        spaced(parts.drop_last()).push(' ') + parts.last()
    }
}

/// What the log says of one commit.
pub open spec fn log_entry(hash: Seq<char>, c: CommitView) -> Seq<char> {
    "\x1b[33mcommit "@ + hash + "\x1b[0m\n"@ + (if c.parent_hashes.len() > 0 {
        "Parents: "@ + spaced(c.parent_hashes) + "\n"@
    } else {
        Seq::empty()
    }) + "Author: "@ + c.author.name + " <"@ + c.author.email + ">\n\n    "@ + c.message
        + "\n\n"@
}

/// Whether the log may show no more commits.
pub open spec fn is_spent(left: Option<usize>) -> bool {
    left == Some(0usize)
}

/// How many more commits the log may show once it has shown one.
pub open spec fn one_less(left: Option<usize>) -> Option<usize> {
    match left {
        Some(n) => Some((n - 1) as usize),
        None => None,
    }
}

/// The log from a commit on: the commit, its first parent, and so on, until
/// the limit is reached, a commit has no parent, or what is named is no commit.
pub open spec fn log_from(
    m: Map<Seq<char>, Option<ObjectView>>,
    current: Seq<char>,
    left: Option<usize>,
    seen: Set<Seq<char>>,
) -> Step<Seq<char>>
    decreases m.dom().difference(seen).len(),
    when m.dom().finite()
{
    if current.len() == 0 || is_spent(left) || seen.contains(current) {
        Step::Done(Seq::empty())
    } else if !m.contains_key(current) {
        Step::Need(current)
    } else {
        match m[current] {
            Some(ObjectView::Commit(c)) => {
                let entry = log_entry(current, c);
                if c.parent_hashes.len() == 0 {
                    Step::Done(entry)
                } else {
                    proof {
                        m.dom().lemma_set_insert_diff_decreases(seen, current);
                    }
                    match log_from(m, c.parent_hashes[0], one_less(left), seen.insert(current)) {
                        Step::Need(h) => Step::Need(h),
                        Step::Done(rest) => Step::Done(entry + rest),
                    }
                }
            },
            _ => Step::Done(Seq::empty()),
        }
    }
}

/// The writing of the log.
pub struct LogWalk {
    /// What has been written.
    pub text: String,
    /// The commit that comes next; empty when there is none.
    pub current: String,
    /// How many more commits may be shown.
    pub left: Option<usize>,
    pub seen: StringHashSet,
}

fn push_entry(text: &mut String, hash: &str, c: &Commit)
    ensures
        final(text)@ == old(text)@ + log_entry(hash@, c@),
{
    text.append("\x1b[33mcommit ");
    text.append(hash);
    text.append("\x1b[0m\n");
    let ghost first = text@;
    let ghost ps = views(c.parent_hashes@);
    if c.parent_hashes.len() > 0 {
        text.append("Parents: ");
        let ghost before = text@;
        let mut i: usize = 0;
        assert(before + spaced(ps.take(0)) =~= before);
        while i < c.parent_hashes.len()
            invariant
                i <= c.parent_hashes@.len(),
                ps == views(c.parent_hashes@),
                text@ == before + spaced(ps.take(i as int)),
            decreases c.parent_hashes@.len() - i,
        {
            assert(ps.take(i + 1).drop_last() =~= ps.take(i as int));
            if i > 0 {
                text.push(' ');
            }
            text.append(c.parent_hashes[i].as_str());
            i = i + 1;
            assert(text@ =~= before + spaced(ps.take(i as int)));
        }
        assert(ps.take(i as int) =~= ps);
        text.append("\n");
    } else {
        assert(first + Seq::<char>::empty() =~= first);
    }
    text.append("Author: ");
    text.append(c.author.name.as_str());
    text.append(" <");
    text.append(c.author.email.as_str());
    text.append(">\n\n    ");
    text.append(c.message.as_str());
    text.append("\n\n");
    assert(text@ =~= old(text)@ + log_entry(hash@, c@));
}

impl LogWalk {
    /// What the log will say from where it stands.
    pub open spec fn outcome(&self, m: Map<Seq<char>, Option<ObjectView>>) -> Step<Seq<char>> {
        match log_from(m, self.current@, self.left, self.seen@) {
            Step::Need(h) => Step::Need(h),
            Step::Done(rest) => Step::Done(self.text@ + rest),
        }
    }

    /// The log of a commit, cut off after `limit` commits where there is a
    /// limit. Without a commit the log is a remark that there is none.
    pub fn new(head: Option<&str>, limit: Option<usize>) -> (r: LogWalk)
        ensures
            forall|m: Map<Seq<char>, Option<ObjectView>>|
                m.dom().finite() ==> #[trigger] r.outcome(m) == (match head {
                    Some(hash) => log_from(m, hash@, limit, Set::empty()),
                    None => Step::Done("Brak commitów w historii.\n"@),
                }),
    {
        let (text, current) = match head {
            Some(hash) => (String::new(), hash.to_owned()),
            None => ("Brak commitów w historii.\n".to_owned(), String::new()),
        };
        let r = LogWalk { text, current, left: limit, seen: StringHashSet::new() };
        proof {
            assert forall|m: Map<Seq<char>, Option<ObjectView>>|
                m.dom().finite() implies #[trigger] r.outcome(m) == (match head {
                Some(hash) => log_from(m, hash@, limit, Set::empty()),
                None => Step::Done("Brak commitów w historii.\n"@),
            }) by {
                if let Step::Done(rest) = log_from(m, r.current@, limit, Set::empty()) {
                    if head is Some {
                        assert(r.text@ + rest =~= rest);
                    } else {
                        assert(r.text@ + rest =~= r.text@);
                    }
                }
            }
        }
        r
    }

    /// Goes on as far as the known objects allow: gives the hash that has to be
    /// looked up next, or nothing when the log is written.
    pub fn advance(&mut self, store: &ObjectStore) -> (r: Option<String>)
        ensures
            old(self).outcome(store@) == (match r {
                Some(hash) => Step::Need(hash@),
                None => Step::Done(final(self).text@),
            }),
            forall|m: Map<Seq<char>, Option<ObjectView>>| #[trigger]
                extends(m, store@) ==> old(self).outcome(m) == (match r {
                    Some(_) => final(self).outcome(m),
                    None => Step::Done(final(self).text@),
                }),
    {
        store.finite();
        let ghost known = store@;
        while !is_blank(self.current.as_str()) && self.left != Some(0usize) && !self.seen.contains(
            self.current.as_str(),
        )
            invariant
                known == store@,
                extends(known, known),
                forall|m: Map<Seq<char>, Option<ObjectView>>| #[trigger]
                    extends(m, known) ==> old(self).outcome(m) == self.outcome(m),
            decreases known.dom().difference(self.seen@).len(),
        {
            let ghost before = *self;
            match store.get(self.current.as_str()) {
                None => {
                    return Some(self.current.clone());
                },
                Some(answer) => match answer {
                    Some(BrassObject::Commit(c)) => {
                        push_entry(&mut self.text, self.current.as_str(), c);
                        let next = if c.parent_hashes.len() > 0 {
                            c.parent_hashes[0].clone()
                        } else {
                            String::new()
                        };
                        self.left = match self.left {
                            Some(n) => Some(n - 1),
                            None => None,
                        };
                        self.seen.insert(self.current.clone());
                        self.current = next;
                        proof {
                            known.dom().lemma_set_insert_diff_decreases(
                                before.seen@,
                                before.current@,
                            );
                            assert forall|m: Map<Seq<char>, Option<ObjectView>>| #[trigger]
                                extends(m, known) implies before.outcome(m) == self.outcome(m) by {
                                assert(known.dom().contains(before.current@));
                                assert(m[before.current@] == known[before.current@]);
                                let entry = log_entry(before.current@, c@);
                                if c@.parent_hashes.len() == 0 {
                                    assert(self.text@ + Seq::<char>::empty() =~= before.text@
                                        + entry);
                                } else {
                                    if let Step::Done(rest) = log_from(
                                        m,
                                        self.current@,
                                        self.left,
                                        self.seen@,
                                    ) {
                                        assert(before.text@ + (entry + rest) =~= self.text@
                                            + rest);
                                    }
                                }
                            }
                        }
                    },
                    _ => {
                        proof {
                            assert forall|m: Map<Seq<char>, Option<ObjectView>>| #[trigger]
                                extends(m, known) implies self.outcome(m) == Step::Done(
                                self.text@,
                            ) by {
                                assert(known.dom().contains(self.current@));
                                assert(m[self.current@] == known[self.current@]);
                                assert(self.text@ + Seq::<char>::empty() =~= self.text@);
                            }
                        }
                        return None;
                    },
                },
            }
        }
        assert(self.text@ + Seq::<char>::empty() =~= self.text@);
        None
    }
}

// ---------------------------------------------------------------------------
// Laws

proof fn lemma_spaced(parts: Seq<Seq<char>>)
    requires
        parts.len() > 0,
    ensures
        spaced(parts).push(' ') == parts.map_values(|p: Seq<char>| p.push(' ')).flatten(),
    decreases parts.len(),
{
    let end = |p: Seq<char>| p.push(' ');
    if parts.len() == 1 {
        assert(parts.map_values(end) =~= seq![parts[0].push(' ')]);
        parts.map_values(end).lemma_flatten_one_element();
    } else {
        let less = parts.drop_last();
        lemma_spaced(less);
        assert(parts.map_values(end) =~= less.map_values(end).push(parts.last().push(' ')));
        less.map_values(end).lemma_flatten_push(parts.last().push(' '));
        assert(spaced(parts).push(' ') =~= spaced(less).push(' ') + parts.last().push(' '));
    }
}

/// What the log says of a commit: its hash; all its parents in order, with
/// spaces between them, where it has any; the name and the address of its
/// author; and its message, all as they are.
pub proof fn log_tells_the_commit(hash: Seq<char>, c: CommitView) -> (parents: Seq<char>)
    ensures
        parents.push(' ') == c.parent_hashes.map_values(|p: Seq<char>| p.push(' ')).flatten()
            || c.parent_hashes.len() == 0,
        log_entry(hash, c) == (if c.parent_hashes.len() == 0 {
            "\x1b[33mcommit "@ + hash + "\x1b[0m\nAuthor: "@ + c.author.name + " <"@
                + c.author.email + ">\n\n    "@ + c.message + "\n\n"@
        } else {
            "\x1b[33mcommit "@ + hash + "\x1b[0m\nParents: "@ + parents + "\nAuthor: "@
                + c.author.name + " <"@ + c.author.email + ">\n\n    "@ + c.message + "\n\n"@
        }),
{
    reveal_strlit("\x1b[0m\n");
    reveal_strlit("\x1b[0m\nAuthor: ");
    reveal_strlit("\x1b[0m\nParents: ");
    reveal_strlit("Parents: ");
    reveal_strlit("Author: ");
    reveal_strlit("\nAuthor: ");
    reveal_strlit("\n");
    assert("\x1b[0m\nAuthor: "@ =~= "\x1b[0m\n"@ + "Author: "@);
    assert("\x1b[0m\nParents: "@ =~= "\x1b[0m\n"@ + "Parents: "@);
    assert("\nAuthor: "@ =~= "\n"@ + "Author: "@);
    let parents = spaced(c.parent_hashes);
    let tail = c.author.name + " <"@ + c.author.email + ">\n\n    "@ + c.message + "\n\n"@;
    if c.parent_hashes.len() == 0 {
        assert(log_entry(hash, c) =~= "\x1b[33mcommit "@ + hash + "\x1b[0m\nAuthor: "@
            + c.author.name + " <"@ + c.author.email + ">\n\n    "@ + c.message + "\n\n"@);
    } else {
        lemma_spaced(c.parent_hashes);
        assert(log_entry(hash, c) =~= "\x1b[33mcommit "@ + hash + "\x1b[0m\nParents: "@ + parents
            + "\nAuthor: "@ + c.author.name + " <"@ + c.author.email + ">\n\n    "@ + c.message
            + "\n\n"@);
    }
    parents
}

/// The log only ever needs a commit that has not been looked up yet.
pub proof fn log_needs_the_unknown(
    m: Map<Seq<char>, Option<ObjectView>>,
    current: Seq<char>,
    left: Option<usize>,
    seen: Set<Seq<char>>,
)
    requires
        m.dom().finite(),
    ensures
        log_from(m, current, left, seen) matches Step::Need(h) ==> !m.contains_key(h),
    decreases m.dom().difference(seen).len(),
{
    if current.len() > 0 && !is_spent(left) && !seen.contains(current) && m.contains_key(current) {
        if let Some(ObjectView::Commit(c)) = m[current] {
            if c.parent_hashes.len() > 0 {
                m.dom().lemma_set_insert_diff_decreases(seen, current);
                log_needs_the_unknown(
                    m,
                    c.parent_hashes[0],
                    one_less(left),
                    seen.insert(current),
                );
            }
        }
    }
}

} // verus!
