//! What is said to a server, and what is believed of it.
use vstd::prelude::*;
use crate::paths::{join, join_all};
use crate::text::{
    after_prefix, lemma_lines_concat, lemma_pieces_first, lemma_trim_ends, lines,
    prefix_and_rest_are_the_text, same_text, split_at_first, split_is_at_the_first_place,
    split_lines, split_once, strip_prefix, trim, trimmed, views,
};

verus! {

/// The fingerprint that a line of the list of known hosts gives for an
/// address: the line is the address, a space, and the fingerprint.
pub open spec fn line_fingerprint(line: Seq<char>, addr: Seq<char>) -> Option<Seq<char>> {
    match split_at_first(line, " "@) {
        Some((a, f)) => if trim(a) == addr {
            Some(trim(f))
        } else {
            None
        },
        None => None,
    }
}

/// The fingerprint that a list of known hosts gives for an address; the last
/// line for the address counts.
pub open spec fn known_fingerprint(ls: Seq<Seq<char>>, addr: Seq<char>) -> Option<Seq<char>>
    decreases ls.len(),
{
    if ls.len() == 0 {
        None
    } else {
        match line_fingerprint(ls.last(), addr) {
            Some(f) => Some(f),
            None => known_fingerprint(ls.drop_last(), addr),
        }
    }
}

/// The line that makes a host known.
pub open spec fn known_host_line(addr: Seq<char>, fingerprint: Seq<char>) -> Seq<char> {
    addr + " "@ + fingerprint + "\n"@
}

/// What the list of known hosts says of the key of a server.
#[derive(Debug, Clone, PartialEq, Eq)]
pub enum HostCheck {
    /// The key is the known one.
    Trusted,
    /// The host has no known key: its key is accepted and made known.
    Unknown,
    /// The host has another known key: its key is rejected.
    Changed { expected: String },
}

/// A `HostCheck` as a mathematical value.
#[verifier::ext_equal]
pub enum HostCheckView {
    Trusted,
    Unknown,
    Changed { expected: Seq<char> },
}

impl View for HostCheck {
    type V = HostCheckView;

    open spec fn view(&self) -> HostCheckView {
        match self {
            HostCheck::Trusted => HostCheckView::Trusted,
            HostCheck::Unknown => HostCheckView::Unknown,
            HostCheck::Changed { expected } => HostCheckView::Changed { expected: expected@ },
        }
    }
}

/// What the list of known hosts says of the key of a server. A list that does
/// not exist is empty.
pub open spec fn host_check(
    content: Option<Seq<char>>,
    addr: Seq<char>,
    fingerprint: Seq<char>,
) -> HostCheckView {
    let known = match content {
        Some(text) => known_fingerprint(lines(text), addr),
        None => None,
    };
    match known {
        Some(expected) => if expected == fingerprint {
            HostCheckView::Trusted
        } else {
            HostCheckView::Changed { expected }
        },
        None => HostCheckView::Unknown,
    }
}

/// Whether a connection goes on.
pub open spec fn is_accepted(check: HostCheckView) -> bool {
    !(check is Changed)
}

/// The fingerprint that the list of known hosts gives for an address.
pub fn load_known_host(content: &str, addr: &str) -> (r: Option<String>)
    ensures
        match r {
            Some(f) => known_fingerprint(lines(content@), addr@) == Some(f@),
            None => known_fingerprint(lines(content@), addr@) is None,
        },
{
    let ls = split_lines(content);
    let ghost lv = views(ls@);
    let mut i: usize = ls.len();
    assert(lv.take(i as int) =~= lv);
    while i > 0
        invariant
            i <= ls@.len(),
            lv == views(ls@),
            known_fingerprint(lv, addr@) == known_fingerprint(lv.take(i as int), addr@),
            lv == lines(content@),
        decreases i,
    {
        assert(lv.take(i as int).drop_last() =~= lv.take(i - 1));
        assert(lv.take(i as int).last() == ls@[i - 1]@);
        if let Some((a, f)) = split_once(ls[i - 1].as_str(), " ") {
            if same_text(trimmed(a.as_str()).as_str(), addr) {
                return Some(trimmed(f.as_str()));
            }
        }
        i = i - 1;
    }
    None
}

/// What the list of known hosts says of the key of a server.
pub fn check_server_key(content: Option<&str>, addr: &str, fingerprint: &str) -> (r: HostCheck)
    ensures
        r@ == host_check(
            match content {
                Some(text) => Some(text@),
                None => None,
            },
            addr@,
            fingerprint@,
        ),
{
    let known = match content {
        Some(text) => load_known_host(text, addr),
        None => None,
    };
    match known {
        Some(expected) => {
            if same_text(expected.as_str(), fingerprint) {
                HostCheck::Trusted
            } else {
                HostCheck::Changed { expected }
            }
        },
        None => HostCheck::Unknown,
    }
}

impl HostCheck {
    /// Whether the connection goes on.
    pub fn accepts(&self) -> (r: bool)
        ensures
            r == is_accepted(self@),
    {
        match self {
            HostCheck::Changed { .. } => false,
            _ => true,
        }
    }
}

/// The line that makes a host known.
pub fn format_known_host(addr: &str, fingerprint: &str) -> (r: String)
    ensures
        r@ == known_host_line(addr@, fingerprint@),
{
    let mut out = addr.to_owned();
    out.append(" ");
    out.append(fingerprint);
    out.append("\n");
    out
}

/// The command that hands a pack to a server.
pub fn push_command(remote_ref: &str) -> (r: String)
    ensures
        r@ == "brass-receive-pack "@ + remote_ref@,
{
    let mut out = "brass-receive-pack ".to_owned();
    out.append(remote_ref);
    out
}

/// The command that asks a server for a pack.
pub fn fetch_command(remote_ref: &str) -> (r: String)
    ensures
        r@ == "brass-upload-pack "@ + remote_ref@,
{
    let mut out = "brass-upload-pack ".to_owned();
    out.append(remote_ref);
    out
}

/// The hash that the first line with the mark `ref-hash:` gives.
pub open spec fn announced_hash(ls: Seq<Seq<char>>) -> Option<Seq<char>>
    decreases ls.len(),
{
    if ls.len() == 0 {
        None
    } else {
        match after_prefix(ls[0], "ref-hash:"@) {
            Some(hash) => Some(trim(hash)),
            None => announced_hash(ls.drop_first()),
        }
    }
}

/// The hash of the ref that a server announces beside a pack.
pub fn read_ref_hash(meta_text: &str) -> (r: Option<String>)
    ensures
        match r {
            Some(hash) => announced_hash(lines(meta_text@)) == Some(hash@),
            None => announced_hash(lines(meta_text@)) is None,
        },
{
    let ls = split_lines(meta_text);
    let ghost lv = views(ls@);
    let mut i: usize = 0;
    assert(lv.skip(0) =~= lv);
    while i < ls.len()
        invariant
            i <= ls@.len(),
            lv == views(ls@),
            lv == lines(meta_text@),
            announced_hash(lv) == announced_hash(lv.skip(i as int)),
        decreases ls@.len() - i,
    {
        assert(lv.skip(i as int)[0] == ls@[i as int]@);
        assert(lv.skip(i as int).drop_first() =~= lv.skip(i + 1));
        if let Some(hash) = strip_prefix(ls[i].as_str(), "ref-hash:") {
            return Some(trimmed(hash.as_str()));
        }
        i = i + 1;
    }
    None
}

/// The files in which the private key of the user is looked for, given the home
/// directory: an Ed25519 key, then an RSA key.
pub fn key_files(home: &str) -> (r: (String, String))
    ensures
        r.0@ == join(join(home@, ".ssh"@), "id_ed25519"@),
        r.1@ == join(join(home@, ".ssh"@), "id_rsa"@),
{
    (join_all(home, ".ssh", "id_ed25519"), join_all(home, ".ssh", "id_rsa"))
}

/// The file that the private key is read from, given which of the files in
/// which it is looked for are there: the first of them that is.
pub fn choose_key_file(files: (String, String), is_there: (bool, bool)) -> (r: Option<String>)
    ensures
        r == (if is_there.0 {
            Some(files.0)
        } else if is_there.1 {
            Some(files.1)
        } else {
            None
        }),
{
    if is_there.0 {
        Some(files.0)
    } else if is_there.1 {
        Some(files.1)
    } else {
        None
    }
}

// ---------------------------------------------------------------------------
// Laws

/// Whether a text stands in the list of known hosts as it is.
pub open spec fn is_plain_word(s: Seq<char>) -> bool {
    trim(s) == s && !s.contains('\n')
}

proof fn lemma_split_at_space(a: Seq<char>, rest: Seq<char>)
    requires
        !a.contains(' '),
    ensures
        split_at_first(a + " "@ + rest, " "@) == Some((a, rest)),
    decreases a.len(),
{
    reveal_strlit(" ");
    let s = a + " "@ + rest;
    if a.len() == 0 {
        assert(s.take(1) =~= " "@);
        assert(s.skip(1) =~= rest);
        assert(a =~= Seq::empty());
    } else {
        let t = a.drop_first();
        assert(a.contains(a[0]));
        assert(s.take(1)[0] == a[0]);
        assert(s.take(1) != " "@);
        assert(!t.contains(' ')) by {
            if t.contains(' ') {
                let i = choose|i: int| 0 <= i < t.len() && t[i] == ' ';
                assert(a[i + 1] == ' ');
            }
        }
        lemma_split_at_space(t, rest);
        assert(s.drop_first() =~= t + " "@ + rest);
        assert(seq![a[0]] + t =~= a);
    }
}

/// Trust on first use: the first key of an address is accepted, and once it has
/// been made known, that key is trusted and every other key is rejected.
pub proof fn first_key_is_trusted(
    content: Seq<char>,
    addr: Seq<char>,
    first: Seq<char>,
    later: Seq<char>,
)
    requires
        content.len() > 0 ==> content.last() == '\n',
        is_plain_word(addr),
        !addr.contains(' '),
        is_plain_word(first),
        host_check(Some(content), addr, first) is Unknown,
    ensures
        is_accepted(host_check(Some(content), addr, first)),
        host_check(Some(content + known_host_line(addr, first)), addr, later) == (if later
            == first {
            HostCheckView::Trusted
        } else {
            HostCheckView::Changed { expected: first }
        }),
{
    reveal_strlit(" ");
    reveal_strlit("\n");
    let line = addr + " "@ + first;
    let text = known_host_line(addr, first);
    assert(text =~= line + seq!['\n'] + Seq::<char>::empty());
    assert(!line.contains('\n')) by {
        if line.contains('\n') {
            let i = choose|i: int| 0 <= i < line.len() && line[i] == '\n';
            if i < addr.len() {
                assert(addr.contains(addr[i]));
            } else if i > addr.len() {
                assert(first.contains(first[i - addr.len() - 1]));
            }
        }
    }
    lemma_trim_ends(first);
    assert(line.last() != '\r') by {
        if first.len() > 0 {
            assert(line.last() == first.last());
        } else {
            assert(line.last() == ' ');
        }
    }
    lemma_pieces_first(line, Seq::<char>::empty(), '\n', '\r');
    assert(lines(Seq::<char>::empty()) =~= Seq::empty());
    assert(lines(text) =~= seq![line]);
    lemma_lines_concat(content, text);
    let all = lines(content + text);
    assert(all.last() == line);
    lemma_split_at_space(addr, first);
}

/// A line of the list of known hosts gives what stands behind its first space to
/// the address before it, and to no other; a line without a space gives nothing.
pub proof fn line_gives_its_fingerprint(
    a: Seq<char>,
    fingerprint: Seq<char>,
    addr: Seq<char>,
)
    requires
        !a.contains(' '),
    ensures
        line_fingerprint(a + " "@ + fingerprint, addr) == (if trim(a) == addr {
            Some(trim(fingerprint))
        } else {
            None
        }),
        line_fingerprint(a, addr) is None,
{
    reveal_strlit(" ");
    lemma_split_at_space(a, fingerprint);
    split_is_at_the_first_place(a, " "@);
    if let Some((x, y)) = split_at_first(a, " "@) {
        assert((x + " "@ + y)[x.len() as int] == ' ');
        assert(a.contains(a[x.len() as int]));
    }
}

/// The last line that gives a fingerprint for an address counts; an address is
/// unknown if and only if no line gives one.
pub proof fn last_known_line_counts(ls: Seq<Seq<char>>, addr: Seq<char>)
    ensures
        match known_fingerprint(ls, addr) {
            Some(f) => exists|k: int|
                0 <= k < ls.len() && #[trigger] line_fingerprint(ls[k], addr) == Some(f)
                    && forall|j: int|
                    k < j < ls.len() ==> #[trigger] line_fingerprint(ls[j], addr) is None,
            None => forall|j: int|
                0 <= j < ls.len() ==> #[trigger] line_fingerprint(ls[j], addr) is None,
        },
    decreases ls.len(),
{
    if ls.len() > 0 {
        let n = ls.len() - 1;
        let less = ls.drop_last();
        match line_fingerprint(ls.last(), addr) {
            Some(f) => {
                assert(line_fingerprint(ls[n], addr) == Some(f));
            },
            None => {
                last_known_line_counts(less, addr);
                assert forall|j: int|
                    0 <= j < n implies #[trigger] line_fingerprint(ls[j], addr)
                    == line_fingerprint(less[j], addr) by {}
                if let Some(f) = known_fingerprint(less, addr) {
                    let k = choose|k: int|
                        0 <= k < less.len() && #[trigger] line_fingerprint(less[k], addr) == Some(f)
                            && forall|j: int|
                            k < j < less.len() ==> #[trigger] line_fingerprint(less[j], addr)
                                is None;
                    assert(line_fingerprint(ls[k], addr) == Some(f));
                    assert forall|j: int| k < j < ls.len() implies #[trigger] line_fingerprint(
                        ls[j],
                        addr,
                    ) is None by {
                        if j < n {
                            assert(line_fingerprint(less[j], addr) is None);
                        }
                    }
                } else {
                    assert forall|j: int| 0 <= j < ls.len() implies #[trigger] line_fingerprint(
                        ls[j],
                        addr,
                    ) is None by {
                        if j < n {
                            assert(line_fingerprint(less[j], addr) is None);
                        }
                    }
                }
            },
        }
    }
}

/// A server is rejected if and only if another fingerprint is known for its
/// address.
pub proof fn only_another_known_key_is_rejected(
    content: Option<Seq<char>>,
    addr: Seq<char>,
    fingerprint: Seq<char>,
)
    ensures
        !is_accepted(host_check(content, addr, fingerprint)) <==> (content matches Some(text)
            && known_fingerprint(lines(text), addr) matches Some(known) && known != fingerprint),
        host_check(content, addr, fingerprint) is Trusted <==> (content matches Some(text)
            && known_fingerprint(lines(text), addr) == Some(fingerprint)),
{
}

/// The hash that a server announces stands, trimmed, behind the mark in the first
/// line that begins with it; none is announced if and only if no line does.
pub proof fn first_announcement_counts(ls: Seq<Seq<char>>)
    ensures
        match announced_hash(ls) {
            Some(hash) => exists|k: int, rest: Seq<char>|
                0 <= k < ls.len() && #[trigger] ls[k] == #[trigger] ("ref-hash:"@ + rest) && hash
                    == trim(rest) && forall|j: int, other: Seq<char>|
                    0 <= j < k ==> #[trigger] ls[j] != #[trigger] ("ref-hash:"@ + other),
            None => forall|j: int, other: Seq<char>|
                0 <= j < ls.len() ==> #[trigger] ls[j] != #[trigger] ("ref-hash:"@ + other),
        },
    decreases ls.len(),
{
    let mark = "ref-hash:"@;
    if ls.len() > 0 {
        match after_prefix(ls[0], mark) {
            Some(rest) => {
                prefix_and_rest_are_the_text(ls[0], mark, rest);
                assert(ls[0] == mark + rest);
            },
            None => {
                let less = ls.drop_first();
                first_announcement_counts(less);
                assert forall|other: Seq<char>| ls[0] != #[trigger] (mark + other) by {
                    prefix_and_rest_are_the_text(ls[0], mark, other);
                }
                if let Some(hash) = announced_hash(less) {
                    let (k, rest) = choose|k: int, rest: Seq<char>|
                        0 <= k < less.len() && #[trigger] less[k] == #[trigger] (mark + rest)
                            && hash == trim(rest) && forall|j: int, other: Seq<char>|
                            0 <= j < k ==> #[trigger] less[j] != #[trigger] (mark + other);
                    assert(ls[k + 1] == mark + rest);
                    assert forall|j: int, other: Seq<char>|
                        0 <= j < k + 1 implies #[trigger] ls[j] != #[trigger] (mark + other) by {
                        if j > 0 {
                            assert(ls[j] == less[j - 1]);
                        }
                    }
                } else {
                    assert forall|j: int, other: Seq<char>|
                        0 <= j < ls.len() implies #[trigger] ls[j] != #[trigger] (mark
                        + other) by {
                        if j > 0 {
                            assert(ls[j] == less[j - 1]);
                        }
                    }
                }
            },
        }
    }
}

} // verus!
