//! Paths as text: components, joining, and what follows a base directory.
use vstd::prelude::*;
use crate::text::{
    chars_of, fields, is_blank, lemma_position, lemma_position_is, position, same_text,
    split_fields, views, views_empty, views_push,
};

verus! {

/// Whether a piece between slashes is a component of its own: empty pieces and
/// single dots are not.
pub open spec fn is_part(piece: Seq<char>) -> bool {
    piece.len() > 0 && piece != seq!['.']
}

/// The pieces that are components.
pub open spec fn parts(pieces: Seq<Seq<char>>) -> Seq<Seq<char>>
    decreases pieces.len(),
{
    if pieces.len() == 0 {
        Seq::empty()
    } else if is_part(pieces.last()) {
        parts(pieces.drop_last()).push(pieces.last())
    } else {
        parts(pieces.drop_last())
    }
}

/// Whether a path starts at the root.
pub open spec fn is_absolute(path: Seq<char>) -> bool {
    path.len() > 0 && path[0] == '/'
}

/// What a path starts with before its parts: the root, or the dot of a
/// relative path that begins with one.
pub open spec fn anchor(path: Seq<char>) -> Seq<Seq<char>> {
    if is_absolute(path) {
        seq![seq!['/']]
    } else if fields(path, '/')[0] == seq!['.'] {
        seq![seq!['.']]
    } else {
        Seq::empty()
    }
}

/// The components of a path. Two paths are the same path if and only if their
/// components are the same.
pub open spec fn components(path: Seq<char>) -> Seq<Seq<char>> {
    anchor(path) + parts(fields(path, '/'))
}

/// `b` as seen from the directory `a`.
pub open spec fn join(a: Seq<char>, b: Seq<char>) -> Seq<char> {
    if is_absolute(b) || a.len() == 0 {
        b
    } else if a.last() == '/' {
        a + b
    } else {
        a.push('/') + b
    }
}

/// Pieces with slashes between them.
pub open spec fn slashed(pieces: Seq<Seq<char>>) -> Seq<char>
    decreases pieces.len(),
{
    if pieces.len() == 0 {
        Seq::empty()
    } else if pieces.len() == 1 {
        pieces[0]
    } else {
        slashed(pieces.drop_last()).push('/') + pieces.last()
    }
}

/// How many pieces hold the first `n` parts, with the other pieces among them
/// and behind them up to the next part.
pub open spec fn pieces_holding(pieces: Seq<Seq<char>>, n: int) -> int
    decreases pieces.len(),
{
    if pieces.len() == 0 {
        0
    } else if !is_part(pieces[0]) {
        1 + pieces_holding(pieces.drop_first(), n)
    } else if n > 0 {
        1 + pieces_holding(pieces.drop_first(), n - 1)
    } else {
        0
    }
}

/// The pieces without those at the end that are no parts.
pub open spec fn without_tail(pieces: Seq<Seq<char>>) -> Seq<Seq<char>>
    decreases pieces.len(),
{
    if pieces.len() > 0 && !is_part(pieces.last()) {
        without_tail(pieces.drop_last())
    } else {
        pieces
    }
}

/// A path without what stands behind its last component.
pub open spec fn trimmed_path(path: Seq<char>) -> Seq<char> {
    let kept = without_tail(fields(path, '/'));
    if kept.len() == 0 && anchor(path).len() > 0 {
        anchor(path)[0]
    } else {
        slashed(kept)
    }
}

/// What of `path` follows the components of `base`, where it begins with them.
/// Behind a base without components the whole path follows, root or dot
/// included.
pub open spec fn below(path: Seq<char>, base: Seq<char>) -> Option<Seq<char>> {
    let p = components(path);
    let b = components(base);
    if b.len() == 0 {
        Some(trimmed_path(path))
    } else if b.len() <= p.len() && p.take(b.len() as int) == b {
        let pieces = fields(path, '/');
        let n = pieces_holding(pieces, b.len() - anchor(path).len());
        Some(slashed(without_tail(pieces.skip(n))))
    } else {
        None
    }
}

/// A path written in one way: two texts are the same path if and only if they
/// have the same normal form.
pub open spec fn normal_form(path: Seq<char>) -> Seq<char> {
    if is_absolute(path) {
        seq!['/'] + slashed(parts(fields(path, '/')))
    } else {
        slashed(components(path))
    }
}

fn is_dot(piece: &str) -> (r: bool)
    ensures
        r == (piece@ == seq!['.']),
{
    let cs = chars_of(piece);
    let r = cs.len() == 1 && cs[0] == '.';
    assert(r ==> piece@ =~= seq!['.']);
    r
}

fn is_component(piece: &str) -> (r: bool)
    ensures
        r == is_part(piece@),
{
    !is_blank(piece) && !is_dot(piece)
}

/// Whether a path starts at the root.
pub fn starts_at_root(path: &str) -> (r: bool)
    ensures
        r == is_absolute(path@),
{
    let cs = chars_of(path);
    cs.len() > 0 && cs[0] == '/'
}

fn anchor_of(path: &str, pieces: &Vec<String>) -> (r: Vec<String>)
    requires
        views(pieces@) == fields(path@, '/'),
    ensures
        views(r@) == anchor(path@),
{
    broadcast use {views_empty, views_push};

    let mut out: Vec<String> = Vec::new();
    assert(views(pieces@).len() > 0);
    if starts_at_root(path) {
        let mut root = String::new();
        root.push('/');
        out.push(root);
        assert(views(out@) =~= anchor(path@));
    } else {
        assert(views(pieces@)[0] == pieces@[0]@);
        if is_dot(pieces[0].as_str()) {
            out.push(pieces[0].clone());
            assert(views(out@) =~= anchor(path@));
        }
    }
    out
}

/// The components of a path.
pub fn components_of(path: &str) -> (r: Vec<String>)
    ensures
        views(r@) == components(path@),
{
    broadcast use {views_empty, views_push};

    let pieces = split_fields(path, '/');
    let mut out = anchor_of(path, &pieces);
    let ghost ps = views(pieces@);
    let ghost first = views(out@);
    let mut i: usize = 0;
    assert(ps.take(0) =~= Seq::empty());
    assert(first + parts(ps.take(0)) =~= first);
    while i < pieces.len()
        invariant
            i <= pieces@.len(),
            ps == views(pieces@),
            views(out@) == first + parts(ps.take(i as int)),
        decreases pieces@.len() - i,
    {
        assert(ps.take(i + 1).drop_last() =~= ps.take(i as int));
        assert(ps.take(i + 1).last() == pieces@[i as int]@);
        if is_component(pieces[i].as_str()) {
            let ghost before = out@;
            let piece = pieces[i].clone();
            out.push(piece);
            assert(views(out@) == views(before).push(piece@));
            assert(parts(ps.take(i + 1)) == parts(ps.take(i as int)).push(piece@));
            assert(views(out@) =~= first + parts(ps.take(i + 1)));
        }
        i = i + 1;
    }
    assert(ps.take(i as int) =~= ps);
    out
}

/// Whether two lists of texts are the same.
pub fn same_texts(a: &Vec<String>, b: &Vec<String>) -> (r: bool)
    ensures
        r == (views(a@) == views(b@)),
{
    if a.len() != b.len() {
        assert(views(a@).len() != views(b@).len());
        return false;
    }
    let mut i: usize = 0;
    while i < a.len()
        invariant
            i <= a@.len(),
            a@.len() == b@.len(),
            forall|k: int| 0 <= k < i ==> a@[k]@ == b@[k]@,
        decreases a@.len() - i,
    {
        if !same_text(a[i].as_str(), b[i].as_str()) {
            assert(views(a@)[i as int] != views(b@)[i as int]);
            return false;
        }
        i = i + 1;
    }
    assert(views(a@) =~= views(b@));
    true
}

/// Whether two texts are the same path.
pub fn same_path(a: &str, b: &str) -> (r: bool)
    ensures
        r == (components(a@) == components(b@)),
{
    same_texts(&components_of(a), &components_of(b))
}

/// `b` as seen from the directory `a`.
pub fn join_paths(a: &str, b: &str) -> (r: String)
    ensures
        r@ == join(a@, b@),
{
    let cs = chars_of(a);
    if starts_at_root(b) || cs.len() == 0 {
        return b.to_owned();
    }
    let mut out = a.to_owned();
    if cs[cs.len() - 1] != '/' {
        out.push('/');
    }
    out.append(b);
    out
}

/// A path with several steps.
pub fn join_all(a: &str, b: &str, c: &str) -> (r: String)
    ensures
        r@ == join(join(a@, b@), c@),
{
    join_paths(join_paths(a, b).as_str(), c)
}

fn slash(pieces: &Vec<String>, from: usize, to: usize) -> (r: String)
    requires
        from <= to <= pieces@.len(),
    ensures
        r@ == slashed(views(pieces@).subrange(from as int, to as int)),
{
    let ghost ps = views(pieces@).subrange(from as int, to as int);
    let mut out = String::new();
    let mut k: usize = from;
    assert(ps.take(0) =~= Seq::empty());
    while k < to
        invariant
            from <= k <= to <= pieces@.len(),
            ps == views(pieces@).subrange(from as int, to as int),
            out@ == slashed(ps.take(k - from)),
        decreases to - k,
    {
        assert(ps.take(k - from + 1).drop_last() =~= ps.take(k - from));
        if k > from {
            out.push('/');
        }
        out.append(pieces[k].as_str());
        assert(out@ =~= slashed(ps.take(k - from + 1)));
        k = k + 1;
    }
    assert(ps.take(k - from) =~= ps);
    out
}

/// The normal form of a path.
pub fn normal_path(path: &str) -> (r: String)
    ensures
        r@ == normal_form(path@),
{
    let cs = components_of(path);
    let ghost cv = views(cs@);
    if starts_at_root(path) {
        assert(cv.subrange(1, cv.len() as int) =~= parts(fields(path@, '/')));
        let mut out = String::new();
        out.push('/');
        out.append(slash(&cs, 1, cs.len()).as_str());
        assert(out@ =~= normal_form(path@));
        out
    } else {
        assert(cv.subrange(0, cv.len() as int) =~= cv);
        slash(&cs, 0, cs.len())
    }
}

fn skip_parts(pieces: &Vec<String>, n: usize) -> (r: usize)
    ensures
        r == pieces_holding(views(pieces@), n as int),
        r <= pieces@.len(),
{
    let ghost ps = views(pieces@);
    let mut i: usize = 0;
    let mut left: usize = n;
    assert(ps.skip(0) =~= ps);
    while i < pieces.len() && (left > 0 || !is_component(pieces[i].as_str()))
        invariant
            i <= pieces@.len(),
            ps == views(pieces@),
            pieces_holding(ps, n as int) == i + pieces_holding(ps.skip(i as int), left as int),
        decreases pieces@.len() - i,
    {
        assert(ps.skip(i as int)[0] == pieces@[i as int]@);
        assert(ps.skip(i as int).drop_first() =~= ps.skip(i + 1));
        if is_component(pieces[i].as_str()) {
            left = left - 1;
        }
        i = i + 1;
    }
    proof {
        if i < pieces@.len() {
            assert(ps.skip(i as int)[0] == pieces@[i as int]@);
        } else {
            assert(ps.skip(i as int).len() == 0);
        }
    }
    i
}

/// What of `path` follows the components of `base`.
pub fn strip_base(path: &str, base: &str) -> (r: Option<String>)
    ensures
        match r {
            Some(rest) => below(path@, base@) == Some(rest@),
            None => below(path@, base@) is None,
        },
{
    broadcast use {views_empty, views_push};

    let p = components_of(path);
    let b = components_of(base);
    let ghost pv = views(p@);
    let ghost bv = views(b@);
    if b.len() > p.len() {
        return None;
    }
    let mut i: usize = 0;
    while i < b.len()
        invariant
            i <= b@.len() <= p@.len(),
            pv == views(p@),
            bv == views(b@),
            pv == components(path@),
            bv == components(base@),
            forall|k: int| 0 <= k < i ==> pv[k] == bv[k],
        decreases b@.len() - i,
    {
        assert(pv[i as int] == p@[i as int]@ && bv[i as int] == b@[i as int]@);
        if !same_text(p[i].as_str(), b[i].as_str()) {
            assert(pv.take(bv.len() as int)[i as int] != bv[i as int]);
            return None;
        }
        i = i + 1;
    }
    assert(pv.take(bv.len() as int) =~= bv);
    let pieces = split_fields(path, '/');
    let ghost ps = views(pieces@);
    let lead = anchor_of(path, &pieces);
    assert(lead@.len() == views(lead@).len());
    let n: usize = if b.len() == 0 {
        0
    } else if b.len() > lead.len() {
        skip_parts(&pieces, b.len() - lead.len())
    } else {
        skip_parts(&pieces, 0)
    };
    proof {
        lemma_holding_none(ps, b@.len() - lead@.len());
        assert(ps.skip(0) =~= ps);
    }
    let mut end: usize = pieces.len();
    let ghost rest = ps.skip(n as int);
    assert(ps.subrange(n as int, end as int) =~= rest);
    while end > n && !is_component(pieces[end - 1].as_str())
        invariant
            n <= end <= pieces@.len(),
            ps == views(pieces@),
            without_tail(rest) == without_tail(ps.subrange(n as int, end as int)),
        decreases end,
    {
        assert(ps.subrange(n as int, end as int).drop_last() =~= ps.subrange(
            n as int,
            end - 1,
        ));
        end = end - 1;
    }
    let ghost kept = ps.subrange(n as int, end as int);
    assert(without_tail(kept) == kept);
    if b.len() == 0 && end == 0 && lead.len() > 0 {
        assert(views(lead@)[0] == lead@[0]@);
        return Some(lead[0].clone());
    }
    Some(slash(&pieces, n, end))
}

proof fn lemma_holding_none(pieces: Seq<Seq<char>>, n: int)
    ensures
        n <= 0 ==> pieces_holding(pieces, n) == pieces_holding(pieces, 0),
    decreases pieces.len(),
{
    if pieces.len() > 0 {
        lemma_holding_none(pieces.drop_first(), n);
    }
}

// ---------------------------------------------------------------------------
// Laws

proof fn lemma_parts_concat(a: Seq<Seq<char>>, b: Seq<Seq<char>>)
    ensures
        parts(a + b) == parts(a) + parts(b),
    decreases b.len(),
{
    if b.len() == 0 {
        assert(a + b =~= a);
        assert(parts(a) + parts(b) =~= parts(a));
    } else {
        lemma_parts_concat(a, b.drop_last());
        assert((a + b).drop_last() =~= a + b.drop_last());
        assert(parts(a + b) =~= parts(a) + parts(b));
    }
}

proof fn lemma_fields_concat(a: Seq<char>, b: Seq<char>)
    ensures
        fields(a.push('/') + b, '/') == fields(a, '/') + fields(b, '/'),
    decreases a.len(),
{
    let s = a.push('/') + b;
    lemma_position(a, '/');
    let p = position(a, '/');
    assert forall|i: int| 0 <= i < p implies s[i] != '/' by {
        assert(s[i] == a[i]);
    }
    lemma_position_is(s, '/', p);
    if p == a.len() {
        assert(s.take(p) =~= a);
        assert(s.skip(p + 1) =~= b);
        assert(fields(s, '/') =~= fields(a, '/') + fields(b, '/'));
    } else {
        let rest = a.skip(p + 1);
        assert(s.take(p) =~= a.take(p));
        assert(s.skip(p + 1) =~= rest.push('/') + b);
        lemma_fields_concat(rest, b);
        assert(fields(s, '/') =~= fields(a, '/') + fields(b, '/'));
    }
}

proof fn lemma_fields_first(s: Seq<char>)
    ensures
        fields(s, '/').len() > 0,
        s.len() > 0 && s[0] == '/' ==> fields(s, '/')[0] == Seq::<char>::empty(),
{
    lemma_position(s, '/');
    if s.len() > 0 && s[0] == '/' {
        lemma_position_is(s, '/', 0);
        assert(s.take(0) =~= Seq::<char>::empty());
    }
}

proof fn lemma_parts_are_pieces(ps: Seq<Seq<char>>)
    ensures
        forall|i: int|
            0 <= i < parts(ps).len() ==> is_part(#[trigger] parts(ps)[i]) && ps.contains(
                parts(ps)[i],
            ),
    decreases ps.len(),
{
    if ps.len() > 0 {
        let less = ps.drop_last();
        lemma_parts_are_pieces(less);
        assert forall|i: int| 0 <= i < parts(ps).len() implies is_part(#[trigger] parts(ps)[i])
            && ps.contains(parts(ps)[i]) by {
            if i < parts(less).len() {
                assert(parts(ps)[i] == parts(less)[i]);
                let k = choose|k: int| 0 <= k < less.len() && less[k] == parts(less)[i];
                assert(ps[k] == parts(ps)[i]);
            } else {
                assert(ps[ps.len() - 1] == parts(ps)[i]);
            }
        }
    }
}

/// Whether texts can be told apart behind slashes.
spec fn are_plain(cs: Seq<Seq<char>>) -> bool {
    forall|i: int| 0 <= i < cs.len() ==> (#[trigger] cs[i]).len() > 0 && !cs[i].contains('/')
}

proof fn lemma_parts_are_plain(path: Seq<char>)
    ensures
        are_plain(parts(fields(path, '/'))),
        !is_absolute(path) ==> are_plain(components(path)),
{
    let ps = fields(path, '/');
    lemma_parts_are_pieces(ps);
    lemma_fields_plain(path);
    assert forall|i: int| 0 <= i < parts(ps).len() implies (#[trigger] parts(ps)[i]).len() > 0
        && !parts(ps)[i].contains('/') by {
        let k = choose|k: int| 0 <= k < ps.len() && ps[k] == parts(ps)[i];
        assert(!ps[k].contains('/'));
    }
    if !is_absolute(path) {
        let cs = components(path);
        let n = anchor(path).len();
        assert forall|i: int| 0 <= i < cs.len() implies (#[trigger] cs[i]).len() > 0
            && !cs[i].contains('/') by {
            if i < n {
                assert(cs[i] == seq!['.']);
            } else {
                assert(cs[i] == parts(ps)[i - n]);
            }
        }
    }
}

proof fn lemma_slashed_plain(a: Seq<Seq<char>>, b: Seq<Seq<char>>)
    requires
        are_plain(a),
        are_plain(b),
        slashed(a) == slashed(b),
    ensures
        a == b,
        !is_absolute(slashed(a)),
{
    lemma_slashed_back(a);
    lemma_slashed_back(b);
    if a.len() == 0 || b.len() == 0 {
        assert(a =~= b);
    }
}

proof fn lemma_slashed_back(cs: Seq<Seq<char>>)
    requires
        are_plain(cs),
    ensures
        cs.len() > 0 ==> fields(slashed(cs), '/') == cs,
        cs.len() > 0 <==> slashed(cs).len() > 0,
        !is_absolute(slashed(cs)),
{
    if cs.len() > 0 {
        let s = slashed(cs);
        lemma_fields_of_slashed(cs);
        lemma_fields_first(s);
        assert(cs[0].len() > 0);
        if s.len() == 0 {
            lemma_no_fields();
            assert(s =~= Seq::<char>::empty());
        }
    }
}

/// Two texts have the same normal form if and only if they are the same path.
pub proof fn normal_form_tells_paths_apart(a: Seq<char>, b: Seq<char>)
    ensures
        normal_form(a) == normal_form(b) <==> components(a) == components(b),
{
    lemma_parts_are_plain(a);
    lemma_parts_are_plain(b);
    let x = parts(fields(a, '/'));
    let y = parts(fields(b, '/'));
    if !is_absolute(a) {
        lemma_slashed_back(components(a));
    }
    if !is_absolute(b) {
        lemma_slashed_back(components(b));
    }
    if is_absolute(a) && is_absolute(b) {
        assert(normal_form(a).skip(1) =~= slashed(x));
        assert(normal_form(b).skip(1) =~= slashed(y));
        if normal_form(a) == normal_form(b) {
            lemma_slashed_plain(x, y);
        }
        if components(a) == components(b) {
            assert(components(a).skip(1) =~= x);
            assert(components(b).skip(1) =~= y);
        }
    } else if !is_absolute(a) && !is_absolute(b) {
        if normal_form(a) == normal_form(b) {
            lemma_slashed_plain(components(a), components(b));
        }
    } else if is_absolute(a) {
        assert(is_absolute(normal_form(a)));
        assert(components(a)[0].contains(components(a)[0][0]));
        if components(a) == components(b) {
            assert(components(b)[0].contains('/'));
        }
    } else {
        assert(is_absolute(normal_form(b)));
        assert(components(b)[0].contains(components(b)[0][0]));
        if components(a) == components(b) {
            assert(components(a)[0].contains('/'));
        }
    }
}

/// The components of a joined path: those of the directory, then the parts of
/// what is seen from it.
pub proof fn joined_components(a: Seq<char>, b: Seq<char>)
    requires
        a.len() > 0,
        !is_absolute(b),
    ensures
        components(join(a, b)) == components(a) + parts(fields(b, '/')),
{
    let s = join(a, b);
    if a.last() == '/' {
        let c = a.drop_last();
        assert(a =~= c.push('/') + Seq::<char>::empty());
        assert(s =~= c.push('/') + b);
        lemma_fields_concat(c, Seq::empty());
        lemma_fields_concat(c, b);
        lemma_position_is(Seq::<char>::empty(), '/', 0);
        assert(fields(Seq::<char>::empty(), '/') == seq![Seq::<char>::empty()]);
        let one = seq![Seq::<char>::empty()];
        assert(one.drop_last() =~= Seq::empty());
        assert(parts(one.drop_last()) =~= Seq::empty());
        assert(parts(one) =~= Seq::empty());
        lemma_parts_concat(fields(c, '/'), one);
        lemma_parts_concat(fields(c, '/'), fields(b, '/'));
        lemma_fields_first(c);
        lemma_fields_first(b);
        assert(fields(s, '/')[0] == fields(c, '/')[0]);
        assert(fields(a, '/')[0] == fields(c, '/')[0]);
        assert(s[0] == a[0]);
    } else {
        assert(s =~= a.push('/') + b);
        lemma_fields_concat(a, b);
        lemma_parts_concat(fields(a, '/'), fields(b, '/'));
        lemma_fields_first(a);
        assert(fields(s, '/')[0] == fields(a, '/')[0]);
        assert(s[0] == a[0]);
    }
    assert(components(s) =~= components(a) + parts(fields(b, '/')));
}

proof fn lemma_fields_plain(s: Seq<char>)
    ensures
        forall|i: int| 0 <= i < fields(s, '/').len() ==> !(#[trigger] fields(s, '/')[i]).contains(
            '/',
        ),
    decreases s.len(),
{
    lemma_position(s, '/');
    let p = position(s, '/');
    if p < s.len() {
        lemma_fields_plain(s.skip(p + 1));
        let first = s.take(p);
        assert(!first.contains('/')) by {
            if first.contains('/') {
                let i = choose|i: int| 0 <= i < first.len() && first[i] == '/';
                assert(s[i] == '/');
            }
        }
        assert forall|i: int| 0 <= i < fields(s, '/').len() implies !(#[trigger] fields(
            s,
            '/',
        )[i]).contains('/') by {
            if i > 0 {
                assert(fields(s, '/')[i] == fields(s.skip(p + 1), '/')[i - 1]);
            }
        }
    }
}

proof fn lemma_fields_of_slashed(ps: Seq<Seq<char>>)
    requires
        ps.len() > 0,
        forall|i: int| 0 <= i < ps.len() ==> !(#[trigger] ps[i]).contains('/'),
    ensures
        fields(slashed(ps), '/') == ps,
    decreases ps.len(),
{
    if ps.len() == 1 {
        lemma_position(ps[0], '/');
        assert(fields(ps[0], '/') =~= ps);
    } else {
        let less = ps.drop_last();
        assert forall|i: int| 0 <= i < less.len() implies !(#[trigger] less[i]).contains('/') by {
            assert(less[i] == ps[i]);
        }
        lemma_fields_of_slashed(less);
        lemma_fields_concat(slashed(less), ps.last());
        lemma_position(ps.last(), '/');
        assert(!ps[ps.len() - 1].contains('/'));
        assert(fields(ps.last(), '/') =~= seq![ps.last()]);
        assert(less + seq![ps.last()] =~= ps);
    }
}

proof fn lemma_without_tail(ps: Seq<Seq<char>>)
    ensures
        parts(without_tail(ps)) == parts(ps),
        without_tail(ps).len() <= ps.len(),
        without_tail(ps) == ps.take(without_tail(ps).len() as int),
    decreases ps.len(),
{
    if ps.len() > 0 && !is_part(ps.last()) {
        lemma_without_tail(ps.drop_last());
        let w = without_tail(ps.drop_last());
        assert(ps.drop_last().take(w.len() as int) =~= ps.take(w.len() as int));
    } else {
        assert(ps.take(ps.len() as int) =~= ps);
    }
}

proof fn lemma_parts_front(ps: Seq<Seq<char>>)
    requires
        ps.len() > 0,
    ensures
        parts(ps) == (if is_part(ps[0]) {
            seq![ps[0]]
        } else {
            Seq::empty()
        }) + parts(ps.drop_first()),
{
    let one = seq![ps[0]];
    assert(ps =~= one + ps.drop_first());
    lemma_parts_concat(one, ps.drop_first());
    assert(one.drop_last() =~= Seq::empty());
    assert(parts(one.drop_last()) =~= Seq::empty());
    assert(parts(one) =~= (if is_part(ps[0]) {
        seq![ps[0]]
    } else {
        Seq::empty()
    }));
}

proof fn lemma_holding(ps: Seq<Seq<char>>, n: int)
    requires
        0 <= n <= parts(ps).len(),
    ensures
        0 <= pieces_holding(ps, n) <= ps.len(),
        parts(ps.skip(pieces_holding(ps, n))) == parts(ps).skip(n),
        pieces_holding(ps, n) < ps.len() ==> is_part(ps[pieces_holding(ps, n)]),
    decreases ps.len(),
{
    let k = pieces_holding(ps, n);
    if ps.len() == 0 {
        assert(ps.skip(0) =~= ps);
        assert(parts(ps).skip(n) =~= parts(ps));
    } else {
        let rest = ps.drop_first();
        lemma_parts_front(ps);
        if !is_part(ps[0]) {
            assert(parts(ps) =~= parts(rest));
            lemma_holding(rest, n);
            assert(ps.skip(k) =~= rest.skip(k - 1));
        } else if n > 0 {
            assert(parts(ps).len() == 1 + parts(rest).len());
            lemma_holding(rest, n - 1);
            assert(ps.skip(k) =~= rest.skip(k - 1));
            assert(parts(ps).skip(n) =~= parts(rest).skip(n - 1));
        } else {
            assert(ps.skip(0) =~= ps);
            assert(parts(ps).skip(0) =~= parts(ps));
        }
    }
}

proof fn lemma_no_fields()
    ensures
        fields(Seq::<char>::empty(), '/') == seq![Seq::<char>::empty()],
        parts(fields(Seq::<char>::empty(), '/')) == Seq::<Seq<char>>::empty(),
        components(Seq::<char>::empty()) == Seq::<Seq<char>>::empty(),
{
    let none = Seq::<char>::empty();
    lemma_position_is(none, '/', 0);
    let one = fields(none, '/');
    assert(one == seq![none]);
    assert(one.drop_last() =~= Seq::empty());
    assert(parts(one.drop_last()) =~= Seq::empty());
    assert(parts(one) =~= Seq::empty());
    assert(components(none) =~= Seq::empty());
}

/// Only the empty path has no components.
proof fn lemma_no_components(path: Seq<char>)
    requires
        components(path).len() == 0,
    ensures
        path.len() == 0,
{
    let pieces = fields(path, '/');
    lemma_fields_first(path);
    lemma_parts_front(pieces);
    lemma_position(path, '/');
    if path.len() > 0 {
        let p = position(path, '/');
        assert(pieces[0] == path.take(p));
        assert(pieces[0].len() == p);
    }
}

/// A path without what stands behind its last component is the same path.
proof fn lemma_trimmed_path(path: Seq<char>)
    ensures
        components(trimmed_path(path)) == components(path),
{
    let pieces = fields(path, '/');
    let kept = without_tail(pieces);
    lemma_without_tail(pieces);
    lemma_fields_plain(path);
    lemma_fields_first(path);
    lemma_no_fields();
    if kept.len() == 0 {
        assert(kept =~= Seq::empty());
        assert(parts(pieces) =~= Seq::empty());
        if is_absolute(path) {
            let root = seq!['/'];
            assert(root =~= Seq::<char>::empty().push('/') + Seq::<char>::empty());
            lemma_fields_concat(Seq::empty(), Seq::empty());
            lemma_parts_concat(seq![Seq::<char>::empty()], seq![Seq::<char>::empty()]);
            assert(parts(fields(root, '/')) =~= Seq::empty());
            assert(components(root) =~= components(path));
        } else if pieces[0] == seq!['.'] {
            let dot = seq!['.'];
            lemma_position_is(dot, '/', 1);
            assert(fields(dot, '/') =~= seq![dot]);
            lemma_parts_front(seq![dot]);
            assert(seq![dot].drop_first() =~= Seq::empty());
            assert(parts(seq![dot]) =~= Seq::empty());
            assert(components(dot) =~= components(path));
        } else {
            assert(slashed(kept) =~= Seq::<char>::empty());
        }
    } else {
        assert forall|i: int| 0 <= i < kept.len() implies !(#[trigger] kept[i]).contains('/') by {
            assert(kept[i] == pieces[i]);
        }
        let s = slashed(kept);
        lemma_fields_of_slashed(kept);
        lemma_fields_first(s);
        lemma_last_is_part(pieces);
        assert(kept[0] == pieces[0]);
        lemma_position(path, '/');
        lemma_position(s, '/');
        assert(pieces[0] == path.take(position(path, '/')));
        assert(kept[0] == s.take(position(s, '/')));
        assert(pieces[0].len() == position(path, '/'));
        assert(kept[0].len() == position(s, '/'));
        if s.len() == 0 {
            assert(s =~= Seq::<char>::empty());
            assert(kept[0] == kept.last());
        }
        assert(is_absolute(s) == is_absolute(path)) by {
            if is_absolute(path) {
                assert(position(s, '/') == 0);
                assert(s[0] == '/');
            }
            if is_absolute(s) {
                assert(position(path, '/') == 0);
                if path.len() == 0 {
                    assert(path =~= Seq::<char>::empty());
                    assert(kept.last() == pieces[0]);
                }
                assert(path[0] == '/');
            }
        }
        assert(components(s) =~= components(path));
    }
}

proof fn lemma_last_is_part(ps: Seq<Seq<char>>)
    ensures
        without_tail(ps).len() > 0 ==> is_part(without_tail(ps).last()),
    decreases ps.len(),
{
    if ps.len() > 0 && !is_part(ps.last()) {
        lemma_last_is_part(ps.drop_last());
    }
}

/// What follows a base, seen from the base, is the same path again.
pub proof fn below_and_back(path: Seq<char>, base: Seq<char>)
    ensures
        below(path, base) matches Some(rest) ==> components(join(base, rest)) == components(path),
{
    let p = components(path);
    let b = components(base);
    if b.len() == 0 {
        lemma_no_components(base);
        lemma_trimmed_path(path);
    } else if b.len() <= p.len() && p.take(b.len() as int) == b {
        let pieces = fields(path, '/');
        let lead = anchor(path);
        let n = b.len() - lead.len();
        assert(n >= 0);
        let k = pieces_holding(pieces, n);
        lemma_holding(pieces, n);
        let tail = pieces.skip(k);
        let kept = without_tail(tail);
        let rest = slashed(kept);
        lemma_without_tail(tail);
        lemma_fields_plain(path);
        lemma_no_fields();
        if base.len() == 0 {
            assert(base =~= Seq::<char>::empty());
        }
        if kept.len() == 0 {
            assert(rest =~= Seq::empty());
            joined_components(base, rest);
            assert(kept =~= Seq::empty());
            assert(parts(kept) =~= Seq::empty());
        } else {
            assert forall|i: int| 0 <= i < kept.len() implies !(#[trigger] kept[i]).contains(
                '/',
            ) by {
                assert(kept[i] == pieces[k + i]);
            }
            lemma_fields_of_slashed(kept);
            assert(kept[0] == pieces[k]);
            lemma_fields_first(rest);
            assert(!is_absolute(rest));
            joined_components(base, rest);
        }
        assert(parts(pieces).skip(n) =~= p.skip(b.len() as int));
        assert(components(join(base, rest)) =~= p);
    }
}

proof fn lemma_parts_are_filtered(ps: Seq<Seq<char>>)
    ensures
        parts(ps) == ps.filter(|f: Seq<char>| f.len() > 0 && f != seq!['.']),
    decreases ps.len(),
{
    reveal(Seq::filter);
    if ps.len() == 0 {
        assert(ps.filter(|f: Seq<char>| f.len() > 0 && f != seq!['.']) =~= Seq::empty());
    } else {
        lemma_parts_are_filtered(ps.drop_last());
    }
}

/// The components of a path are what stands between its slashes, but for the empty
/// and the `.` parts; an absolute path has a slash in front of them, and one that
/// begins with the directory it is in has a dot.
pub proof fn components_are_the_parts(path: Seq<char>)
    ensures
        components(path) == (if path.len() > 0 && path[0] == '/' {
            seq![seq!['/']]
        } else if path == seq!['.'] || (path.len() > 1 && path[0] == '.' && path[1] == '/') {
            seq![seq!['.']]
        } else {
            Seq::empty()
        }) + fields(path, '/').filter(|f: Seq<char>| f.len() > 0 && f != seq!['.']),
{
    lemma_parts_are_filtered(fields(path, '/'));
    lemma_fields_first(path);
    lemma_position(path, '/');
    let p = position(path, '/');
    let first = fields(path, '/')[0];
    assert(first == path.take(p));
    if !is_absolute(path) {
        if first == seq!['.'] {
            assert(path[0] == first[0]);
            if path.len() == 1 {
                assert(path =~= seq!['.']);
            }
        }
        if path == seq!['.'] {
            assert(path[0] == '.');
            assert(first =~= seq!['.']);
        }
        if path.len() > 1 && path[0] == '.' && path[1] == '/' {
            lemma_position_is(path, '/', 1);
            assert(first =~= seq!['.']);
        }
    }
}

/// Parts put together have one slash between each two of them.
pub proof fn slashed_has_every_part(ps: Seq<Seq<char>>)
    requires
        ps.len() > 0,
    ensures
        slashed(ps).push('/') == ps.map_values(|p: Seq<char>| p.push('/')).flatten(),
    decreases ps.len(),
{
    let row = |p: Seq<char>| p.push('/');
    let less = ps.drop_last();
    assert(ps.map_values(row) =~= less.map_values(row).push(row(ps.last())));
    less.map_values(row).lemma_flatten_push(row(ps.last()));
    if ps.len() == 1 {
        assert(less.map_values(row) =~= Seq::empty());
        assert(ps.map_values(row).flatten() =~= ps[0].push('/'));
    } else {
        slashed_has_every_part(less);
        assert(slashed(ps).push('/') =~= slashed(less).push('/') + ps.last().push('/'));
    }
}

/// A path is below a base if and only if its components begin with those of the
/// base; what is left of it then goes on from the base.
pub proof fn below_is_what_goes_on(path: Seq<char>, base: Seq<char>)
    ensures
        below(path, base) is Some <==> components(base).len() <= components(path).len()
            && components(path).take(components(base).len() as int) == components(base),
        below(path, base) matches Some(rest) ==> components(join(base, rest)) == components(path),
{
    below_and_back(path, base);
    let b = components(base);
    if b.len() == 0 {
        assert(components(path).take(0) =~= b);
    }
}

/// Joining puts a slash between two paths where there is none; an absolute path
/// stays as it is, and so does one that is joined to nothing.
pub proof fn joining_puts_a_slash_between(a: Seq<char>, b: Seq<char>)
    requires
        b.len() > 0,
    ensures
        b[0] == '/' ==> join(a, b) == b,
        join(Seq::empty(), b) == b,
        b[0] != '/' && a.len() > 0 && a.last() != '/' ==> join(a, b) == a + seq!['/'] + b,
        b[0] != '/' ==> join(a.push('/'), b) == a + seq!['/'] + b,
{
    assert(a.push('/') =~= a + seq!['/']);
}

} // verus!
