//! Text as sequences of characters: the operations on lines, words, prefixes
//! and fields that the file formats are built from.
use vstd::prelude::*;

verus! {

/// The texts of a sequence of strings.
pub open spec fn views(s: Seq<String>) -> Seq<Seq<char>> {
    s.map_values(|x: String| x@)
}

pub broadcast proof fn views_push(s: Seq<String>, x: String)
    ensures
        #[trigger] views(s.push(x)) == views(s).push(x@),
{
    assert(views(s.push(x)) =~= views(s).push(x@));
}

pub broadcast proof fn views_empty()
    ensures
        #[trigger] views(Seq::<String>::empty()) == Seq::<Seq<char>>::empty(),
{
    assert(views(Seq::<String>::empty()) =~= Seq::<Seq<char>>::empty());
}

/// `String::push` appends one character.
pub assume_specification[ String::push ](s: &mut String, c: char)
    ensures
        final(s)@ == old(s)@.push(c),
;

/// The characters that Unicode gives the White_Space property.
pub open spec fn is_white_space(c: char) -> bool {
    ||| '\u{9}' <= c <= '\u{d}'
    ||| c == ' '
    ||| c == '\u{85}'
    ||| c == '\u{a0}'
    ||| c == '\u{1680}'
    ||| '\u{2000}' <= c <= '\u{200a}'
    ||| c == '\u{2028}'
    ||| c == '\u{2029}'
    ||| c == '\u{202f}'
    ||| c == '\u{205f}'
    ||| c == '\u{3000}'
}

/// `char::is_whitespace` tells whether a character has the White_Space
/// property of Unicode.
pub assume_specification[ char::is_whitespace ](c: char) -> (r: bool)
    ensures
        r == is_white_space(c),
;

/// The characters of a text, as a vector.
pub fn chars_of(s: &str) -> (r: Vec<char>)
    ensures
        r@ == s@,
{
    let mut out: Vec<char> = Vec::new();
    for c in it: s.chars()
        invariant
            out@ == s@.take(it.index() as int),
            it.seq() == s@,
    {
        out.push(c);
    }
    out
}

/// The text made of the characters from `from` up to `to`.
pub fn string_of(cs: &Vec<char>, from: usize, to: usize) -> (r: String)
    requires
        from <= to <= cs@.len(),
    ensures
        r@ == cs@.subrange(from as int, to as int),
{
    let mut out = String::new();
    let mut i: usize = from;
    while i < to
        invariant
            from <= i <= to <= cs@.len(),
            out@ == cs@.subrange(from as int, i as int),
        decreases to - i,
    {
        out.push(cs[i]);
        i = i + 1;
        assert(cs@.subrange(from as int, i as int) =~= cs@.subrange(from as int, i - 1).push(
            cs@[i - 1],
        ));
    }
    out
}

/// Whether two texts are the same.
pub fn same_text(a: &str, b: &str) -> (r: bool)
    ensures
        r == (a@ == b@),
{
    a.to_owned() == b.to_owned()
}

/// Whether a text has no characters.
pub fn is_blank(s: &str) -> (r: bool)
    ensures
        r == (s@.len() == 0),
{
    chars_of(s).len() == 0
}

// ---------------------------------------------------------------------------
// First occurrence

/// The place of the first `c` in `s`, or the length of `s` where there is none.
pub open spec fn position<T>(s: Seq<T>, c: T) -> int
    decreases s.len(),
{
    if s.len() == 0 {
        0
    } else if s[0] == c {
        0
    } else {
        1 + position(s.drop_first(), c)
    }
}

pub proof fn lemma_position<T>(s: Seq<T>, c: T)
    ensures
        0 <= position(s, c) <= s.len(),
        forall|i: int| 0 <= i < position(s, c) ==> s[i] != c,
        position(s, c) < s.len() ==> s[position(s, c)] == c,
        s.contains(c) <==> position(s, c) < s.len(),
    decreases s.len(),
{
    if s.len() > 0 {
        if s[0] != c {
            let t = s.drop_first();
            lemma_position(t, c);
            assert forall|i: int| 0 <= i < position(s, c) implies s[i] != c by {
                if i > 0 {
                    assert(t[i - 1] == s[i]);
                }
            }
        }
    }
    if position(s, c) < s.len() {
        assert(s[position(s, c)] == c);
    }
}

pub proof fn lemma_position_is<T>(s: Seq<T>, c: T, p: int)
    requires
        0 <= p <= s.len(),
        forall|i: int| 0 <= i < p ==> s[i] != c,
        p < s.len() ==> s[p] == c,
    ensures
        position(s, c) == p,
{
    lemma_position(s, c);
    let q = position(s, c);
    if q < p {
        assert(s[q] == c);
    }
    if p < q {
        assert(s[p] == c);
    }
}

/// The place of the first `c` at or after `from`, or the length.
pub fn find_char(cs: &Vec<char>, c: char, from: usize) -> (r: usize)
    requires
        from <= cs@.len(),
    ensures
        from <= r <= cs@.len(),
        r == from + position(cs@.skip(from as int), c),
{
    let mut i: usize = from;
    while i < cs.len() && cs[i] != c
        invariant
            from <= i <= cs@.len(),
            forall|k: int| from <= k < i ==> cs@[k] != c,
        decreases cs@.len() - i,
    {
        i = i + 1;
    }
    proof {
        let t = cs@.skip(from as int);
        lemma_position_is(t, c, i - from);
    }
    i
}

/// The place of the first `c` at or after `from`, or the length.
pub fn find_byte(cs: &[u8], c: u8, from: usize) -> (r: usize)
    requires
        from <= cs@.len(),
    ensures
        from <= r <= cs@.len(),
        r == from + position(cs@.skip(from as int), c),
{
    let mut i: usize = from;
    while i < cs.len() && cs[i] != c
        invariant
            from <= i <= cs@.len(),
            forall|k: int| from <= k < i ==> cs@[k] != c,
        decreases cs@.len() - i,
    {
        i = i + 1;
    }
    proof {
        let t = cs@.skip(from as int);
        lemma_position_is(t, c, i - from);
    }
    i
}

// ---------------------------------------------------------------------------
// Lines

/// `s` without one final `cr`.
pub open spec fn without_final<T>(s: Seq<T>, cr: T) -> Seq<T> {
    if s.len() > 0 && s.last() == cr {
        s.drop_last()
    } else {
        s
    }
}

/// The pieces of `s` that `lf` ends, each without its `lf` and without a `cr`
/// just before it; what follows the last `lf` is a piece of its own, kept as
/// it is, unless it is empty.
pub open spec fn pieces<T>(s: Seq<T>, lf: T, cr: T) -> Seq<Seq<T>>
    decreases s.len(),
{
    let p = position(s, lf);
    if s.len() == 0 {
        Seq::empty()
    } else if p < 0 || p >= s.len() {
        seq![s]
    } else {
        seq![without_final(s.take(p), cr)] + pieces(s.skip(p + 1), lf, cr)
    }
}

/// The lines of a text.
pub open spec fn lines(s: Seq<char>) -> Seq<Seq<char>> {
    pieces(s, '\n', '\r')
}

/// Texts in a row, each with a line end.
pub open spec fn join_lines(ls: Seq<Seq<char>>) -> Seq<char>
    decreases ls.len(),
{
    if ls.len() == 0 {
        Seq::empty()
    } else {
        (join_lines(ls.drop_last()) + ls.last()).push('\n')
    }
}

/// Splits a text into its lines, each without its line end.
pub fn split_lines(s: &str) -> (r: Vec<String>)
    ensures
        views(r@) == lines(s@),
{
    broadcast use {views_push, views_empty};

    let cs = chars_of(s);
    let mut out: Vec<String> = Vec::new();
    let mut start: usize = 0;
    assert(cs@.skip(0) =~= cs@);
    assert(views(out@) + lines(cs@) =~= lines(cs@));
    while start < cs.len()
        invariant
            start <= cs@.len(),
            cs@ == s@,
            views(out@) + lines(cs@.skip(start as int)) == lines(s@),
        decreases cs@.len() - start,
    {
        let ghost rest = cs@.skip(start as int);
        let ghost before = views(out@);
        let end = find_char(&cs, '\n', start);
        if end == cs.len() {
            out.push(string_of(&cs, start, end));
            assert(cs@.subrange(start as int, end as int) =~= rest);
            assert(before + lines(rest) =~= before.push(rest));
            start = end;
            assert(cs@.skip(start as int) =~= Seq::empty());
            assert(views(out@) + lines(cs@.skip(start as int)) =~= views(out@));
        } else {
            let stop: usize = if end > start && cs[end - 1] == '\r' {
                end - 1
            } else {
                end
            };
            out.push(string_of(&cs, start, stop));
            proof {
                let p = end - start;
                assert(rest.take(p) =~= cs@.subrange(start as int, end as int));
                assert(cs@.subrange(start as int, stop as int) =~= without_final(
                    rest.take(p),
                    '\r',
                ));
                assert(rest.skip(p + 1) =~= cs@.skip(end + 1));
                let line = without_final(rest.take(p), '\r');
                assert(before + lines(rest) =~= before.push(line) + lines(rest.skip(p + 1)));
            }
            start = end + 1;
        }
    }
    assert(cs@.skip(start as int) =~= Seq::empty());
    assert(views(out@) + lines(cs@.skip(start as int)) =~= views(out@));
    out
}

/// Splits bytes at line feeds, each piece without its line end.
pub fn split_byte_lines(s: &[u8]) -> (r: Vec<Vec<u8>>)
    ensures
        r@.map_values(|x: Vec<u8>| x@) == pieces(s@, 10u8, 13u8),
{
    let mut out: Vec<Vec<u8>> = Vec::new();
    let mut start: usize = 0;
    let ghost v = |x: Vec<u8>| x@;
    assert(s@.skip(0) =~= s@);
    assert(out@.map_values(v) + pieces(s@, 10u8, 13u8) =~= pieces(s@, 10u8, 13u8));
    while start < s.len()
        invariant
            start <= s@.len(),
            v == (|x: Vec<u8>| x@),
            out@.map_values(v) + pieces(s@.skip(start as int), 10u8, 13u8) == pieces(
                s@,
                10u8,
                13u8,
            ),
        decreases s@.len() - start,
    {
        let ghost rest = s@.skip(start as int);
        let ghost before = out@.map_values(v);
        let end = find_byte(s, 10u8, start);
        if end == s.len() {
            let piece = vstd::slice::slice_to_vec(vstd::slice::slice_subrange(s, start, end));
            out.push(piece);
            assert(piece@ =~= rest);
            assert(out@.map_values(v) =~= before.push(rest));
            assert(before + pieces(rest, 10u8, 13u8) =~= before.push(rest));
            start = end;
            assert(s@.skip(start as int) =~= Seq::empty());
        } else {
            let stop: usize = if end > start && s[end - 1] == 13u8 {
                end - 1
            } else {
                end
            };
            let piece = vstd::slice::slice_to_vec(vstd::slice::slice_subrange(s, start, stop));
            out.push(piece);
            proof {
                let p = end - start;
                assert(rest.take(p) =~= s@.subrange(start as int, end as int));
                assert(piece@ =~= without_final(rest.take(p), 13u8));
                assert(rest.skip(p + 1) =~= s@.skip(end + 1));
                let line = without_final(rest.take(p), 13u8);
                assert(out@.map_values(v) =~= before.push(line));
                assert(before + pieces(rest, 10u8, 13u8) =~= before.push(line) + pieces(
                    rest.skip(p + 1),
                    10u8,
                    13u8,
                ));
            }
            start = end + 1;
        }
        assert(out@.map_values(v) + pieces(s@.skip(start as int), 10u8, 13u8) =~= pieces(
            s@,
            10u8,
            13u8,
        ));
    }
    assert(s@.skip(start as int) =~= Seq::empty());
    assert(out@.map_values(v) + pieces(s@.skip(start as int), 10u8, 13u8) =~= out@.map_values(v));
    out
}

// ---------------------------------------------------------------------------
// White space at the ends

/// `s` without the white space at its front.
pub open spec fn trim_start(s: Seq<char>) -> Seq<char>
    decreases s.len(),
{
    if s.len() > 0 && is_white_space(s[0]) {
        trim_start(s.drop_first())
    } else {
        s
    }
}

/// `s` without the white space at its end.
pub open spec fn trim_end(s: Seq<char>) -> Seq<char>
    decreases s.len(),
{
    if s.len() > 0 && is_white_space(s.last()) {
        trim_end(s.drop_last())
    } else {
        s
    }
}

/// `s` without the white space at its two ends.
pub open spec fn trim(s: Seq<char>) -> Seq<char> {
    trim_end(trim_start(s))
}

/// A text without the white space at its two ends.
pub fn trimmed(s: &str) -> (r: String)
    ensures
        r@ == trim(s@),
{
    let cs = chars_of(s);
    let mut from: usize = 0;
    assert(cs@.skip(0) =~= cs@);
    while from < cs.len() && cs[from].is_whitespace()
        invariant
            from <= cs@.len(),
            trim_start(cs@) == trim_start(cs@.skip(from as int)),
        decreases cs@.len() - from,
    {
        assert(cs@.skip(from as int).drop_first() =~= cs@.skip(from + 1));
        from = from + 1;
    }
    let ghost t = cs@.skip(from as int);
    assert(trim_start(cs@) == t);
    let mut to: usize = cs.len();
    assert(cs@.subrange(from as int, to as int) =~= t);
    while to > from && cs[to - 1].is_whitespace()
        invariant
            from <= to <= cs@.len(),
            trim_end(t) == trim_end(cs@.subrange(from as int, to as int)),
        decreases to,
    {
        assert(cs@.subrange(from as int, to as int).drop_last() =~= cs@.subrange(
            from as int,
            to - 1,
        ));
        to = to - 1;
    }
    string_of(&cs, from, to)
}

// ---------------------------------------------------------------------------
// Prefixes, suffixes, separators

/// Whether `s` begins with `p`.
pub open spec fn begins_with<T>(s: Seq<T>, p: Seq<T>) -> bool {
    p.len() <= s.len() && s.take(p.len() as int) == p
}

/// Whether `s` ends with `p`.
pub open spec fn ends_with<T>(s: Seq<T>, p: Seq<T>) -> bool {
    p.len() <= s.len() && s.skip(s.len() - p.len()) == p
}

/// What follows the prefix `p` in `s`, where `s` begins with it.
pub open spec fn after_prefix(s: Seq<char>, p: Seq<char>) -> Option<Seq<char>> {
    if begins_with(s, p) {
        Some(s.skip(p.len() as int))
    } else {
        None
    }
}

/// `s` without `suffix` at its end, as often as it stands there.
pub open spec fn trim_suffix(s: Seq<char>, suffix: Seq<char>) -> Seq<char>
    decreases s.len(),
{
    if suffix.len() > 0 && ends_with(s, suffix) {
        trim_suffix(s.take(s.len() - suffix.len()), suffix)
    } else {
        s
    }
}

/// The two parts of `s` before and after the first `sep`.
pub open spec fn split_at_first(s: Seq<char>, sep: Seq<char>) -> Option<(Seq<char>, Seq<char>)>
    decreases s.len(),
{
    if begins_with(s, sep) {
        Some((Seq::empty(), s.skip(sep.len() as int)))
    } else if s.len() == 0 {
        None
    } else {
        match split_at_first(s.drop_first(), sep) {
            Some((a, b)) => Some((seq![s[0]] + a, b)),
            None => None,
        }
    }
}

/// Whether the characters of `p` stand in `cs` at `at`.
fn stands_at(cs: &Vec<char>, p: &Vec<char>, at: usize) -> (r: bool)
    requires
        at <= cs@.len(),
    ensures
        r == begins_with(cs@.skip(at as int), p@),
{
    if p.len() > cs.len() - at {
        return false;
    }
    let ghost rest = cs@.skip(at as int);
    let mut i: usize = 0;
    while i < p.len()
        invariant
            i <= p@.len(),
            at <= cs@.len(),
            p@.len() <= cs.len() - at,
            rest == cs@.skip(at as int),
            forall|k: int| 0 <= k < i ==> rest[k] == p@[k],
        decreases p@.len() - i,
    {
        if cs[at + i] != p[i] {
            assert(rest.take(p@.len() as int)[i as int] == rest[i as int]);
            return false;
        }
        i = i + 1;
    }
    assert(rest.take(p@.len() as int) =~= p@);
    true
}

/// Whether a text begins with another.
pub fn has_prefix(s: &str, p: &str) -> (r: bool)
    ensures
        r == begins_with(s@, p@),
{
    let cs = chars_of(s);
    let ps = chars_of(p);
    assert(cs@.skip(0) =~= cs@);
    stands_at(&cs, &ps, 0)
}

/// What follows a prefix.
pub fn strip_prefix(s: &str, p: &str) -> (r: Option<String>)
    ensures
        match r {
            Some(t) => after_prefix(s@, p@) == Some(t@),
            None => after_prefix(s@, p@) is None,
        },
{
    let cs = chars_of(s);
    let ps = chars_of(p);
    assert(cs@.skip(0) =~= cs@);
    if stands_at(&cs, &ps, 0) {
        let t = string_of(&cs, ps.len(), cs.len());
        assert(t@ =~= s@.skip(p@.len() as int));
        Some(t)
    } else {
        None
    }
}

/// A text without a suffix, as often as it stands at the end.
pub fn strip_suffixes(s: &str, suffix: &str) -> (r: String)
    ensures
        r@ == trim_suffix(s@, suffix@),
{
    let cs = chars_of(s);
    let ps = chars_of(suffix);
    let mut end: usize = cs.len();
    assert(cs@.take(end as int) =~= cs@);
    loop
        invariant
            end <= cs@.len(),
            ps@ == suffix@,
            trim_suffix(s@, suffix@) == trim_suffix(cs@.take(end as int), suffix@),
        ensures
            trim_suffix(s@, suffix@) == cs@.take(end as int),
            end <= cs@.len(),
        decreases end,
    {
        let ghost t = cs@.take(end as int);
        if ps.len() == 0 || ps.len() > end {
            break;
        }
        let at: usize = end - ps.len();
        let found = stands_at(&cs, &ps, at);
        assert(t.skip(at as int) =~= cs@.skip(at as int).take(ps@.len() as int));
        if !found {
            break;
        }
        assert(t.take(at as int) =~= cs@.take(at as int));
        end = at;
    }
    let r = string_of(&cs, 0, end);
    assert(r@ =~= cs@.take(end as int));
    r
}

/// The two parts of a text before and after the first separator.
pub fn split_once(s: &str, sep: &str) -> (r: Option<(String, String)>)
    ensures
        match r {
            Some((a, b)) => split_at_first(s@, sep@) == Some((a@, b@)),
            None => split_at_first(s@, sep@) is None,
        },
{
    let cs = chars_of(s);
    let ps = chars_of(sep);
    let mut at: usize = 0;
    proof {
        assert(cs@.skip(0) =~= cs@);
        let t = cs@.skip(0);
        if let Some((a, b)) = split_at_first(t, sep@) {
            assert(cs@.take(0) + a =~= a);
        }
    }
    loop
        invariant
            at <= cs@.len(),
            ps@ == sep@,
            cs@ == s@,
            match split_at_first(cs@.skip(at as int), sep@) {
                Some((a, b)) => split_at_first(s@, sep@) == Some((cs@.take(at as int) + a, b)),
                None => split_at_first(s@, sep@) is None,
            },
        decreases cs@.len() - at,
    {
        let ghost t = cs@.skip(at as int);
        if stands_at(&cs, &ps, at) {
            let a = string_of(&cs, 0, at);
            assert(at + ps@.len() <= cs.len());
            let b = string_of(&cs, at + ps.len(), cs.len());
            proof {
                assert(a@ =~= cs@.take(at as int) + Seq::<char>::empty());
                assert(b@ =~= t.skip(sep@.len() as int));
            }
            return Some((a, b));
        }
        if at == cs.len() {
            return None;
        }
        proof {
            assert(t.drop_first() =~= cs@.skip(at + 1));
            if let Some((a, b)) = split_at_first(t.drop_first(), sep@) {
                assert(cs@.take(at + 1) + a =~= cs@.take(at as int) + (seq![t[0]] + a));
            }
        }
        at = at + 1;
    }
}

/// Whether a text holds a character.
pub fn has_char(s: &str, c: char) -> (r: bool)
    ensures
        r == s@.contains(c),
{
    let cs = chars_of(s);
    let at = find_char(&cs, c, 0);
    proof {
        assert(cs@.skip(0) =~= cs@);
        lemma_position(cs@, c);
    }
    at < cs.len()
}

// ---------------------------------------------------------------------------
// Fields and words

/// The parts of `s` between the separators.
pub open spec fn fields(s: Seq<char>, sep: char) -> Seq<Seq<char>>
    decreases s.len(),
{
    let p = position(s, sep);
    if p < 0 || p >= s.len() {
        seq![s]
    } else {
        seq![s.take(p)] + fields(s.skip(p + 1), sep)
    }
}

/// Splits a text at each separator.
pub fn split_fields(s: &str, sep: char) -> (r: Vec<String>)
    ensures
        views(r@) == fields(s@, sep),
{
    broadcast use {views_push, views_empty};

    let cs = chars_of(s);
    let mut out: Vec<String> = Vec::new();
    let mut start: usize = 0;
    assert(cs@.skip(0) =~= cs@);
    assert(views(out@) + fields(cs@, sep) =~= fields(cs@, sep));
    loop
        invariant
            start <= cs.len(),
            cs@ == s@,
            views(out@) + fields(cs@.skip(start as int), sep) == fields(s@, sep),
        decreases cs.len() - start,
    {
        let ghost rest = cs@.skip(start as int);
        let ghost before = views(out@);
        let end = find_char(&cs, sep, start);
        out.push(string_of(&cs, start, end));
        if end == cs.len() {
            assert(cs@.subrange(start as int, end as int) =~= rest);
            assert(before + fields(rest, sep) =~= before.push(rest));
            return out;
        }
        proof {
            let p = end - start;
            assert(cs@.subrange(start as int, end as int) =~= rest.take(p));
            assert(rest.skip(p + 1) =~= cs@.skip(end + 1));
            assert(before + fields(rest, sep) =~= before.push(rest.take(p)) + fields(
                rest.skip(p + 1),
                sep,
            ));
        }
        start = end + 1;
    }
}

/// How many characters of `s` come before its first white space.
pub open spec fn word_len(s: Seq<char>) -> int
    decreases s.len(),
{
    if s.len() == 0 || is_white_space(s[0]) {
        0
    } else {
        1 + word_len(s.drop_first())
    }
}

pub proof fn lemma_word_len(s: Seq<char>, n: int)
    requires
        0 <= n <= s.len(),
        forall|i: int| 0 <= i < n ==> !is_white_space(s[i]),
        n < s.len() ==> is_white_space(s[n]),
    ensures
        word_len(s) == n,
    decreases s.len(),
{
    if n > 0 {
        assert(!is_white_space(s[0]));
        lemma_word_len(s.drop_first(), n - 1);
    }
}

/// The first word of `s`: what stands between its first two runs of white
/// space, the first of which may be empty.
pub open spec fn first_word(s: Seq<char>) -> Option<Seq<char>> {
    let t = trim_start(s);
    if t.len() == 0 {
        None
    } else {
        Some(t.take(word_len(t)))
    }
}

/// The first word of a text.
pub fn leading_word(s: &str) -> (r: Option<String>)
    ensures
        match r {
            Some(w) => first_word(s@) == Some(w@),
            None => first_word(s@) is None,
        },
{
    let cs = chars_of(s);
    let mut from: usize = 0;
    assert(cs@.skip(0) =~= cs@);
    while from < cs.len() && cs[from].is_whitespace()
        invariant
            from <= cs@.len(),
            trim_start(cs@) == trim_start(cs@.skip(from as int)),
        decreases cs@.len() - from,
    {
        assert(cs@.skip(from as int).drop_first() =~= cs@.skip(from + 1));
        from = from + 1;
    }
    let ghost t = cs@.skip(from as int);
    assert(trim_start(cs@) == t);
    if from == cs.len() {
        return None;
    }
    let mut to: usize = from;
    while to < cs.len() && !cs[to].is_whitespace()
        invariant
            from <= to <= cs@.len(),
            forall|i: int| from <= i < to ==> !is_white_space(cs@[i]),
        decreases cs@.len() - to,
    {
        to = to + 1;
    }
    proof {
        lemma_word_len(t, to - from);
    }
    let w = string_of(&cs, from, to);
    assert(w@ =~= t.take(to - from));
    Some(w)
}

// ---------------------------------------------------------------------------
// Laws

/// A piece that is ended by `lf` comes first, the rest as it would alone.
pub proof fn lemma_pieces_first<T>(line: Seq<T>, rest: Seq<T>, lf: T, cr: T)
    requires
        !line.contains(lf),
    ensures
        pieces(line + seq![lf] + rest, lf, cr) == seq![without_final(line, cr)] + pieces(
            rest,
            lf,
            cr,
        ),
{
    let s = line + seq![lf] + rest;
    let p = line.len() as int;
    assert(s[p] == lf);
    assert forall|i: int| 0 <= i < p implies s[i] != lf by {
        assert(s[i] == line[i]);
        assert(line.contains(line[i]));
    }
    lemma_position_is(s, lf, p);
    assert(s.take(p) =~= line);
    assert(s.skip(p + 1) =~= rest);
}

/// Trimming leaves no white space at the two ends.
pub proof fn lemma_trim_ends(s: Seq<char>)
    ensures
        trim(s).len() > 0 ==> !is_white_space(trim(s)[0]) && !is_white_space(trim(s).last()),
        trim(trim(s)) == trim(s),
{
    lemma_trim_start_first(s);
    lemma_trim_end_last(trim_start(s));
}

proof fn lemma_trim_start_first(s: Seq<char>)
    ensures
        trim_start(s).len() > 0 ==> !is_white_space(trim_start(s)[0]),
    decreases s.len(),
{
    if s.len() > 0 && is_white_space(s[0]) {
        lemma_trim_start_first(s.drop_first());
    }
}

proof fn lemma_trim_end_last(s: Seq<char>)
    ensures
        trim_end(s).len() > 0 ==> !is_white_space(trim_end(s).last()),
        trim_end(s).len() > 0 ==> trim_end(s)[0] == s[0],
    decreases s.len(),
{
    if s.len() > 0 && is_white_space(s.last()) {
        lemma_trim_end_last(s.drop_last());
    }
}

proof fn lemma_join_lines_front(ls: Seq<Seq<char>>)
    requires
        ls.len() > 0,
    ensures
        join_lines(ls) == ls[0].push('\n') + join_lines(ls.drop_first()),
    decreases ls.len(),
{
    if ls.len() == 1 {
        assert(ls.drop_last() =~= Seq::empty());
        assert(ls.drop_first() =~= Seq::empty());
        assert(join_lines(ls.drop_last()) =~= Seq::<char>::empty());
        assert(join_lines(ls) =~= ls[0].push('\n'));
    } else {
        lemma_join_lines_front(ls.drop_last());
        assert(ls.drop_last().drop_first() =~= ls.drop_first().drop_last());
        assert(join_lines(ls) =~= ls[0].push('\n') + join_lines(ls.drop_first()));
    }
}

/// Lines put together again give the text they were taken from, where every
/// line of it ends in a plain line feed.
pub proof fn lemma_join_split(s: Seq<char>)
    requires
        s.len() > 0 ==> s.last() == '\n',
        forall|i: int|
            0 <= i < s.len() - 1 ==> !(#[trigger] s[i] == '\r' && s[i + 1] == '\n'),
    ensures
        join_lines(lines(s)) == s,
    decreases s.len(),
{
    if s.len() == 0 {
        assert(s =~= Seq::empty());
    } else {
        lemma_position(s, '\n');
        assert(s.contains(s.last()));
        let p = position(s, '\n');
        let line = s.take(p);
        let rest = s.skip(p + 1);
        if line.len() > 0 {
            assert(line.last() == s[p - 1]);
        }
        assert forall|i: int| 0 <= i < rest.len() - 1 implies !(#[trigger] rest[i] == '\r'
            && rest[i + 1] == '\n') by {
            assert(rest[i] == s[p + 1 + i]);
        }
        lemma_join_split(rest);
        let ls = lines(s);
        assert(ls[0] == line);
        assert(ls.drop_first() =~= lines(rest));
        lemma_join_lines_front(ls);
        assert(line.push('\n') + rest =~= s);
    }
}

/// A line end behind a trimmed text is trimmed off again.
pub proof fn lemma_trim_line_end(m: Seq<char>)
    requires
        trim(m) == m,
    ensures
        trim(m.push('\n')) == m,
{
    let s = m.push('\n');
    lemma_trim_ends(m);
    if m.len() == 0 {
        assert(s.drop_first() =~= m);
        assert(trim_start(s) =~= m);
    } else {
        assert(trim_start(s) == s);
        assert(s.drop_last() =~= m);
        assert(trim_end(m) == m);
    }
}

proof fn lemma_pieces_concat<T>(a: Seq<T>, b: Seq<T>, lf: T, cr: T)
    requires
        a.len() > 0 ==> a.last() == lf,
    ensures
        pieces(a + b, lf, cr) == pieces(a, lf, cr) + pieces(b, lf, cr),
    decreases a.len(),
{
    if a.len() == 0 {
        assert(a + b =~= b);
        assert(pieces(a, lf, cr) + pieces(b, lf, cr) =~= pieces(b, lf, cr));
    } else {
        lemma_position(a, lf);
        assert(a.contains(a.last()));
        let p = position(a, lf);
        let line = a.take(p);
        let rest = a.skip(p + 1);
        if line.contains(lf) {
            let i = choose|i: int| 0 <= i < line.len() && line[i] == lf;
            assert(a[i] == lf);
        }
        lemma_pieces_concat(rest, b, lf, cr);
        assert(a =~= line + seq![lf] + rest);
        assert(a + b =~= line + seq![lf] + (rest + b));
        lemma_pieces_first(line, rest, lf, cr);
        lemma_pieces_first(line, rest + b, lf, cr);
        assert(pieces(a + b, lf, cr) =~= pieces(a, lf, cr) + pieces(b, lf, cr));
    }
}

/// The lines of a text that ends in a line end come before the lines of what
/// is put behind it.
pub proof fn lemma_lines_concat(a: Seq<char>, b: Seq<char>)
    requires
        a.len() > 0 ==> a.last() == '\n',
    ensures
        lines(a + b) == lines(a) + lines(b),
{
    lemma_pieces_concat(a, b, '\n', '\r');
}

/// Whether `end` may stand behind a piece of a text: a line feed, with a
/// carriage return before it or not, or nothing behind the last piece.
pub open spec fn is_ended<T>(piece: Seq<T>, end: Seq<T>, is_last: bool, lf: T, cr: T) -> bool {
    &&& !piece.contains(lf)
    &&& {
        ||| end == seq![cr, lf]
        ||| end == seq![lf] && (piece.len() > 0 ==> piece.last() != cr)
        ||| is_last && piece.len() > 0 && end.len() == 0
    }
}

/// The pieces of a text are all of it: with a line end behind each of them they
/// are the text again, and no piece holds a line feed. Only the last may have no
/// line end.
pub proof fn pieces_are_the_whole_text<T>(s: Seq<T>, lf: T, cr: T) -> (ends: Seq<Seq<T>>)
    requires
        lf != cr,
    ensures
        ends.len() == pieces(s, lf, cr).len(),
        forall|i: int|
            0 <= i < ends.len() ==> is_ended(
                pieces(s, lf, cr)[i],
                #[trigger] ends[i],
                i == ends.len() - 1,
                lf,
                cr,
            ),
        s == Seq::new(ends.len(), |i: int| pieces(s, lf, cr)[i] + ends[i]).flatten(),
    decreases s.len(),
{
    let all = pieces(s, lf, cr);
    let p = position(s, lf);
    lemma_position(s, lf);
    if s.len() == 0 {
        let ends: Seq<Seq<T>> = Seq::empty();
        assert(Seq::new(ends.len(), |i: int| all[i] + ends[i]).flatten() =~= s);
        ends
    } else if p >= s.len() {
        let ends: Seq<Seq<T>> = seq![Seq::empty()];
        let rows = Seq::new(ends.len(), |i: int| all[i] + ends[i]);
        assert(all[0] == s);
        assert(rows =~= seq![s]);
        rows.lemma_flatten_one_element();
        assert(rows.flatten() =~= s);
        ends
    } else {
        let line = s.take(p);
        let rest = s.skip(p + 1);
        let less = pieces_are_the_whole_text(rest, lf, cr);
        let after = pieces(rest, lf, cr);
        let end = if line.len() > 0 && line.last() == cr {
            seq![cr, lf]
        } else {
            seq![lf]
        };
        let ends = seq![end] + less;
        let first = without_final(line, cr);
        assert(all == seq![first] + after);
        let rows = Seq::new(ends.len(), |i: int| all[i] + ends[i]);
        assert(rows.drop_first() =~= Seq::new(less.len(), |i: int| after[i] + less[i]));
        assert(rows[0] == first + end);
        assert(first + end =~= line.push(lf));
        assert(s =~= line.push(lf) + rest);
        assert(!first.contains(lf)) by {
            assert forall|k: int| 0 <= k < first.len() implies first[k] != lf by {
                assert(first[k] == s[k]);
            }
        }
        assert forall|i: int| 0 <= i < ends.len() implies is_ended(
            all[i],
            #[trigger] ends[i],
            i == ends.len() - 1,
            lf,
            cr,
        ) by {
            if i == 0 {
                assert(all[0] == first);
                if !(line.len() > 0 && line.last() == cr) {
                    assert(first == line);
                }
            } else {
                assert(ends[i] == less[i - 1]);
                assert(all[i] == after[i - 1]);
            }
        }
        ends
    }
}

/// Lines put together are each of them, in order, with a line feed behind it.
pub proof fn joined_lines_are_all_lines(ls: Seq<Seq<char>>)
    ensures
        join_lines(ls) == ls.map_values(|l: Seq<char>| l.push('\n')).flatten(),
    decreases ls.len(),
{
    let row = |l: Seq<char>| l.push('\n');
    if ls.len() == 0 {
        assert(ls.map_values(row) =~= Seq::empty());
    } else {
        let less = ls.drop_last();
        joined_lines_are_all_lines(less);
        assert(ls.map_values(row) =~= less.map_values(row).push(row(ls.last())));
        less.map_values(row).lemma_flatten_push(row(ls.last()));
        assert(join_lines(ls) =~= join_lines(less) + row(ls.last()));
    }
}

proof fn lemma_trim_start_skips(s: Seq<char>) -> (from: int)
    ensures
        0 <= from <= s.len(),
        trim_start(s) == s.skip(from),
        forall|i: int| 0 <= i < from ==> is_white_space(#[trigger] s[i]),
    decreases s.len(),
{
    if s.len() > 0 && is_white_space(s[0]) {
        let rest = s.drop_first();
        let less = lemma_trim_start_skips(rest);
        assert(rest.skip(less) =~= s.skip(less + 1));
        assert forall|i: int| 0 <= i < less + 1 implies is_white_space(#[trigger] s[i]) by {
            if i > 0 {
                assert(s[i] == rest[i - 1]);
            }
        }
        less + 1
    } else {
        assert(s.skip(0) =~= s);
        0
    }
}

proof fn lemma_trim_end_takes(s: Seq<char>) -> (to: int)
    ensures
        0 <= to <= s.len(),
        trim_end(s) == s.take(to),
        forall|i: int| to <= i < s.len() ==> is_white_space(#[trigger] s[i]),
    decreases s.len(),
{
    if s.len() > 0 && is_white_space(s.last()) {
        let rest = s.drop_last();
        let to = lemma_trim_end_takes(rest);
        assert(rest.take(to) =~= s.take(to));
        assert forall|i: int| to <= i < s.len() implies is_white_space(#[trigger] s[i]) by {
            if i < rest.len() {
                assert(s[i] == rest[i]);
            }
        }
        to
    } else {
        assert(s.take(s.len() as int) =~= s);
        s.len() as int
    }
}

/// Trimming takes away the white space at the two ends, all of it and nothing
/// else.
pub proof fn trim_takes_white_space_only(s: Seq<char>) -> (r: (int, int))
    ensures
        0 <= r.0 <= r.1 <= s.len(),
        trim(s) == s.subrange(r.0, r.1),
        forall|i: int|
            0 <= i < s.len() && !(r.0 <= i < r.1) ==> is_white_space(#[trigger] s[i]),
        r.0 < r.1 ==> !is_white_space(s[r.0]) && !is_white_space(s[r.1 - 1]),
{
    let from = lemma_trim_start_skips(s);
    let body = s.skip(from);
    let to = lemma_trim_end_takes(body);
    lemma_trim_ends(s);
    assert(body.take(to) =~= s.subrange(from, from + to));
    assert forall|i: int|
        0 <= i < s.len() && !(from <= i < from + to) implies is_white_space(#[trigger] s[i]) by {
        if i >= from {
            assert(s[i] == body[i - from]);
        }
    }
    (from, from + to)
}

/// The first word of a text stands behind white space only and goes on to the
/// next white space or to the end; a text has none if and only if it holds
/// nothing but white space.
pub proof fn first_word_is_whole(s: Seq<char>) -> (from: int)
    ensures
        0 <= from <= s.len(),
        forall|i: int| 0 <= i < from ==> is_white_space(#[trigger] s[i]),
        match first_word(s) {
            Some(w) => {
                &&& 0 < w.len() <= s.len() - from
                &&& w == s.subrange(from, from + w.len())
                &&& forall|i: int| 0 <= i < w.len() ==> !is_white_space(#[trigger] w[i])
                &&& from + w.len() < s.len() ==> is_white_space(s[from + w.len()])
            },
            None => from == s.len(),
        },
{
    let from = lemma_trim_start_skips(s);
    let t = trim_start(s);
    lemma_trim_start_first(s);
    if t.len() > 0 {
        let n = lemma_word_end(t);
        let w = t.take(n);
        assert(word_len(t) == n) by {
            lemma_word_len(t, n);
        }
        assert(w =~= s.subrange(from, from + n));
        assert(n > 0);
        if from + n < s.len() {
            assert(t[n] == s[from + n]);
        }
    }
    from
}

proof fn lemma_word_end(s: Seq<char>) -> (n: int)
    ensures
        0 <= n <= s.len(),
        forall|i: int| 0 <= i < n ==> !is_white_space(s[i]),
        n < s.len() ==> is_white_space(s[n]),
    decreases s.len(),
{
    if s.len() == 0 || is_white_space(s[0]) {
        0
    } else {
        let rest = s.drop_first();
        let n = lemma_word_end(rest);
        assert forall|i: int| 0 <= i < n + 1 implies !is_white_space(s[i]) by {
            if i > 0 {
                assert(s[i] == rest[i - 1]);
            }
        }
        if n + 1 < s.len() {
            assert(s[n + 1] == rest[n]);
        }
        n + 1
    }
}

/// What stands behind a prefix is the rest of the text, and there is one if and
/// only if the text is the prefix and a rest.
pub proof fn prefix_and_rest_are_the_text(s: Seq<char>, p: Seq<char>, rest: Seq<char>)
    ensures
        after_prefix(s, p) == Some(rest) <==> s == p + rest,
{
    if s == p + rest {
        assert(s.take(p.len() as int) =~= p);
        assert(s.skip(p.len() as int) =~= rest);
    }
    if after_prefix(s, p) == Some(rest) {
        assert(s =~= s.take(p.len() as int) + s.skip(p.len() as int));
    }
}

/// Taking a suffix away takes away every copy of it at the end and nothing else.
pub proof fn no_suffix_is_left(s: Seq<char>, suffix: Seq<char>) -> (copies: nat)
    requires
        suffix.len() > 0,
    ensures
        s == trim_suffix(s, suffix) + Seq::new(copies, |i: int| suffix).flatten(),
        forall|front: Seq<char>| trim_suffix(s, suffix) != #[trigger] (front + suffix),
    decreases s.len(),
{
    let n = s.len() - suffix.len();
    if ends_with(s, suffix) {
        let less = s.take(n);
        let k = no_suffix_is_left(less, suffix);
        let tail = Seq::new(k, |i: int| suffix);
        assert(Seq::new(k + 1, |i: int| suffix) =~= tail.push(suffix));
        tail.lemma_flatten_push(suffix);
        assert(s =~= less + suffix);
        assert(s =~= trim_suffix(less, suffix) + (tail.flatten() + suffix));
        k + 1
    } else {
        assert(Seq::new(0, |i: int| suffix) =~= Seq::<Seq<char>>::empty());
        assert(s =~= s + Seq::new(0, |i: int| suffix).flatten());
        assert forall|front: Seq<char>| s != #[trigger] (front + suffix) by {
            let t = front + suffix;
            if s == t {
                assert(s.skip(n) =~= suffix);
            }
        }
        0
    }
}

/// A text is split at the first place where the separator stands, and is not
/// split if and only if the separator stands nowhere in it.
pub proof fn split_is_at_the_first_place(s: Seq<char>, sep: Seq<char>)
    ensures
        match split_at_first(s, sep) {
            Some((a, b)) => s == a + sep + b && forall|i: int|
                0 <= i < a.len() && i + sep.len() <= s.len() ==> #[trigger] s.subrange(
                    i,
                    i + sep.len(),
                ) != sep,
            None => forall|i: int|
                0 <= i && i + sep.len() <= s.len() ==> #[trigger] s.subrange(i, i + sep.len())
                    != sep,
        },
    decreases s.len(),
{
    let n = sep.len();
    if begins_with(s, sep) {
        assert(s =~= Seq::<char>::empty() + sep + s.skip(n as int));
    } else if s.len() > 0 {
        let rest = s.drop_first();
        split_is_at_the_first_place(rest, sep);
        assert forall|i: int| i == 0 && i + n <= s.len() implies #[trigger] s.subrange(i, i + n)
            != sep by {
            assert(s.subrange(0, n as int) =~= s.take(n as int));
        }
        assert forall|i: int|
            0 < i && i + n <= s.len() implies #[trigger] s.subrange(i, i + n) == rest.subrange(
            i - 1,
            i - 1 + n,
        ) by {
            assert(s.subrange(i, i + n) =~= rest.subrange(i - 1, i - 1 + n));
        }
        match split_at_first(rest, sep) {
            Some((a, b)) => {
                let front = seq![s[0]] + a;
                assert(rest == a + sep + b);
                assert(s =~= seq![s[0]] + rest);
                assert(front + sep + b =~= seq![s[0]] + (a + sep + b));
                assert forall|i: int|
                    0 <= i < front.len() && i + n <= s.len() implies #[trigger] s.subrange(
                    i,
                    i + n,
                ) != sep by {
                    if i > 0 {
                        assert(rest.subrange(i - 1, i - 1 + n) != sep);
                    }
                }
            },
            None => {
                assert forall|i: int| 0 <= i && i + n <= s.len() implies #[trigger] s.subrange(
                    i,
                    i + n,
                ) != sep by {
                    if i > 0 {
                        assert(rest.subrange(i - 1, i - 1 + n) != sep);
                    }
                }
            },
        }
    } else {
        assert forall|i: int| 0 <= i && i + n <= s.len() implies #[trigger] s.subrange(i, i + n)
            != sep by {
            assert(s.take(n as int) =~= s.subrange(i, i + n));
        }
    }
}

/// The fields of a text are what stands between its separators: none holds one,
/// and with one behind each they are the text with one behind it.
pub proof fn fields_are_the_whole_text(s: Seq<char>, sep: char)
    ensures
        forall|i: int| 0 <= i < fields(s, sep).len() ==> !(#[trigger] fields(s, sep)[i]).contains(
            sep,
        ),
        fields(s, sep).map_values(|f: Seq<char>| f.push(sep)).flatten() == s.push(sep),
    decreases s.len(),
{
    let row = |f: Seq<char>| f.push(sep);
    let all = fields(s, sep);
    let p = position(s, sep);
    lemma_position(s, sep);
    if p >= s.len() {
        assert(all.map_values(row) =~= seq![s.push(sep)]);
        all.map_values(row).lemma_flatten_one_element();
        assert(all.map_values(row).flatten() =~= s.push(sep));
    } else {
        let rest = s.skip(p + 1);
        let line = s.take(p);
        fields_are_the_whole_text(rest, sep);
        let after = fields(rest, sep);
        assert(all == seq![line] + after);
        assert(all.map_values(row).drop_first() =~= after.map_values(row));
        assert(all.map_values(row)[0] == line.push(sep));
        assert(s.push(sep) =~= line.push(sep) + rest.push(sep));
        assert forall|i: int| 0 <= i < all.len() implies !(#[trigger] all[i]).contains(sep) by {
            if i == 0 {
                assert forall|k: int| 0 <= k < line.len() implies line[k] != sep by {
                    assert(line[k] == s[k]);
                }
            } else {
                assert(all[i] == after[i - 1]);
            }
        }
    }
}

/// Texts are viewed all, in order, each as its characters.
pub proof fn views_tell_every_text(s: Seq<String>)
    ensures
        views(s).len() == s.len(),
        forall|i: int| 0 <= i < s.len() ==> #[trigger] views(s)[i] == s[i]@,
{
}

/// The lines of a text are all of it: with a line feed behind each, and a carriage
/// return before it where there is one, they are the text again, and no line holds
/// a line feed. Only the last may have no line end.
pub proof fn lines_are_the_whole_text(s: Seq<char>) -> (ends: Seq<Seq<char>>)
    ensures
        ends.len() == lines(s).len(),
        forall|i: int|
            0 <= i < ends.len() ==> is_ended(
                lines(s)[i],
                #[trigger] ends[i],
                i == ends.len() - 1,
                '\n',
                '\r',
            ),
        s == Seq::new(ends.len(), |i: int| lines(s)[i] + ends[i]).flatten(),
{
    pieces_are_the_whole_text(s, '\n', '\r')
}

} // verus!
