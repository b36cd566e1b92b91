//! Which files are left alone.
use vstd::prelude::*;
use crate::globs::{
    add_glob, build_set, builder_patterns, can_build, clone_set, empty_set, is_pattern,
    new_builder, parse_glob, pattern_matches, set_matches, set_patterns,
};
use crate::text::{
    chars_of, has_char, lines, split_lines, string_of, trim, trimmed, views, views_empty,
    views_push,
};

verus! {

/// The files that are left alone.
#[derive(Debug)]
pub struct BrassIgnore {
    /// The patterns as they were written.
    pub raw_patterns: Vec<String>,
    /// The patterns as they are matched.
    pub glob_set: globset::GlobSet,
}

/// A pattern as it was written, and as it is matched.
#[verifier::ext_equal]
pub struct Rule {
    pub raw: Seq<char>,
    pub pattern: Seq<char>,
}

/// `s` without the slashes at its front.
pub open spec fn without_slashes(s: Seq<char>) -> Seq<char>
    decreases s.len(),
{
    if s.len() > 0 && s[0] == '/' {
        without_slashes(s.drop_first())
    } else {
        s
    }
}

/// The pattern that a line stands for: a directory stands for all it holds, a
/// bare name for that name in any directory, and a path is taken from the top.
pub open spec fn normalized(line: Seq<char>) -> Seq<char> {
    if line.len() > 0 && line.last() == '/' {
        line + "**"@
    } else if !line.contains('/') {
        "**/"@ + line
    } else {
        without_slashes(line)
    }
}

/// The rules of the lines of an ignore file; blank lines and lines that begin
/// with `#` are none.
pub open spec fn line_rules(ls: Seq<Seq<char>>) -> Seq<Rule>
    decreases ls.len(),
{
    if ls.len() == 0 {
        Seq::empty()
    } else {
        let before = line_rules(ls.drop_last());
        let line = trim(ls.last());
        if line.len() == 0 || line[0] == '#' {
            before
        } else {
            before.push(Rule { raw: line, pattern: normalized(line) })
        }
    }
}

/// The rules that hold whatever an ignore file says.
pub open spec fn default_rules() -> Seq<Rule> {
    seq![
        Rule { raw: ".brass_control/**"@, pattern: ".brass_control/**"@ },
        Rule { raw: "**/.brass_control/**"@, pattern: "**/.brass_control/**"@ },
        Rule { raw: ".brass_control_ignore"@, pattern: ".brass_control_ignore"@ },
    ]
}

/// The rules whose patterns are patterns.
pub open spec fn usable(rules: Seq<Rule>) -> Seq<Rule>
    decreases rules.len(),
{
    if rules.len() == 0 {
        Seq::empty()
    } else if is_pattern(rules.last().pattern) {
        usable(rules.drop_last()).push(rules.last())
    } else {
        usable(rules.drop_last())
    }
}

/// The rules of an ignore file, behind those that always hold.
pub open spec fn all_rules(content: Option<Seq<char>>) -> Seq<Rule> {
    match content {
        Some(text) => default_rules() + line_rules(lines(text)),
        None => default_rules(),
    }
}

/// The rules as they were written.
pub open spec fn raws(rules: Seq<Rule>) -> Seq<Seq<char>> {
    rules.map_values(|r: Rule| r.raw)
}

/// The rules as they are matched.
pub open spec fn patterns(rules: Seq<Rule>) -> Seq<Seq<char>> {
    rules.map_values(|r: Rule| r.pattern)
}

/// The patterns of a set made of the given ones; none where they cannot be
/// made into a set.
pub open spec fn built(ps: Seq<Seq<char>>) -> Seq<Seq<char>> {
    if can_build(ps) {
        ps
    } else {
        Seq::empty()
    }
}

/// Whether one of some patterns matches a path.
pub open spec fn any_matches(ps: Seq<Seq<char>>, path: Seq<char>) -> bool {
    exists|i: int| 0 <= i < ps.len() && #[trigger] pattern_matches(ps[i], path)
}

/// Rules that are being collected.
struct Collected {
    raw: Vec<String>,
    builder: globset::GlobSetBuilder,
}

impl Collected {
    spec fn holds(&self, rules: Seq<Rule>) -> bool {
        &&& views(self.raw@) == raws(rules)
        &&& builder_patterns(self.builder) == patterns(rules)
    }

    fn new() -> (r: Collected)
        ensures
            r.holds(Seq::empty()),
    {
        broadcast use views_empty;

        let r = Collected { raw: Vec::new(), builder: new_builder() };
        assert(raws(Seq::empty()) =~= Seq::empty());
        assert(patterns(Seq::empty()) =~= Seq::empty());
        r
    }

    fn push(&mut self, raw: &str, pattern: &str, Ghost(rules): Ghost<Seq<Rule>>)
        requires
            old(self).holds(usable(rules)),
        ensures
            final(self).holds(usable(rules.push(Rule { raw: raw@, pattern: pattern@ }))),
    {
        broadcast use views_push;

        let ghost rule = Rule { raw: raw@, pattern: pattern@ };
        let ghost before = usable(rules);
        assert(rules.push(rule).drop_last() =~= rules);
        if let Some(glob) = parse_glob(pattern) {
            add_glob(&mut self.builder, glob);
            self.raw.push(raw.to_owned());
            assert(raws(before.push(rule)) =~= raws(before).push(raw@));
            assert(patterns(before.push(rule)) =~= patterns(before).push(pattern@));
        }
    }

    fn finish(self, Ghost(rules): Ghost<Seq<Rule>>) -> (r: BrassIgnore)
        requires
            self.holds(rules),
        ensures
            views(r.raw_patterns@) == raws(rules),
            set_patterns(r.glob_set) == built(patterns(rules)),
    {
        let glob_set = match build_set(&self.builder) {
            Some(set) => set,
            None => empty_set(),
        };
        BrassIgnore { raw_patterns: self.raw, glob_set }
    }
}

/// The pattern that a line stands for.
pub fn normalize(line: &str) -> (r: String)
    ensures
        r@ == normalized(line@),
{
    let cs = chars_of(line);
    if cs.len() > 0 && cs[cs.len() - 1] == '/' {
        let mut out = line.to_owned();
        out.append("**");
        out
    } else if !has_char(line, '/') {
        let mut out = "**/".to_owned();
        out.append(line);
        out
    } else {
        let mut i: usize = 0;
        assert(cs@.skip(0) =~= cs@);
        while i < cs.len() && cs[i] == '/'
            invariant
                i <= cs@.len(),
                without_slashes(cs@) == without_slashes(cs@.skip(i as int)),
            decreases cs@.len() - i,
        {
            assert(cs@.skip(i as int).drop_first() =~= cs@.skip(i + 1));
            i = i + 1;
        }
        assert(cs@.subrange(i as int, cs@.len() as int) =~= cs@.skip(i as int));
        string_of(&cs, i, cs.len())
    }
}

impl Default for BrassIgnore {
    fn default() -> (r: BrassIgnore)
        ensures
            views(r.raw_patterns@) == seq![".brass_control/**"@],
            set_patterns(r.glob_set) == built(
                patterns(
                    usable(
                        seq![
                            Rule { raw: ".brass_control/**"@, pattern: ".brass_control/**"@ },
                            Rule {
                                raw: "**/.brass_control/**"@,
                                pattern: "**/.brass_control/**"@,
                            },
                        ],
                    ),
                ),
            ),
    {
        broadcast use {views_empty, views_push};

        let ghost first = Rule { raw: ".brass_control/**"@, pattern: ".brass_control/**"@ };
        let ghost second = Rule { raw: "**/.brass_control/**"@, pattern: "**/.brass_control/**"@ };
        let ghost one = Seq::empty().push(first);
        let ghost two = one.push(second);
        let mut all = Collected::new();
        all.push(".brass_control/**", ".brass_control/**", Ghost(Seq::empty()));
        all.push("**/.brass_control/**", "**/.brass_control/**", Ghost(one));
        assert(two =~= seq![first, second]);
        let set = all.finish(Ghost(usable(two)));
        let mut raw_patterns: Vec<String> = Vec::new();
        raw_patterns.push(".brass_control/**".to_owned());
        assert(views(raw_patterns@) =~= seq![".brass_control/**"@]);
        BrassIgnore { raw_patterns, glob_set: set.glob_set }
    }
}

impl Clone for BrassIgnore {
    fn clone(&self) -> (r: BrassIgnore)
        ensures
            views(r.raw_patterns@) == views(self.raw_patterns@),
            set_patterns(r.glob_set) == set_patterns(self.glob_set),
    {
        let raw_patterns = self.raw_patterns.clone();
        assert(views(raw_patterns@) =~= views(self.raw_patterns@));
        BrassIgnore { raw_patterns, glob_set: clone_set(&self.glob_set) }
    }
}

impl BrassIgnore {
    /// The rules of an ignore file, where there is one, behind those that
    /// always hold.
    pub fn load(content: Option<&str>) -> (r: BrassIgnore)
        ensures
            ({
                let rules = usable(
                    all_rules(
                        match content {
                            Some(text) => Some(text@),
                            None => None,
                        },
                    ),
                );
                &&& views(r.raw_patterns@) == raws(rules)
                &&& set_patterns(r.glob_set) == built(patterns(rules))
            }),
    {
        let ghost ds = default_rules();
        let ghost one = Seq::empty().push(ds[0]);
        let ghost two = one.push(ds[1]);
        let mut all = Collected::new();
        all.push(".brass_control/**", ".brass_control/**", Ghost(Seq::empty()));
        all.push("**/.brass_control/**", "**/.brass_control/**", Ghost(one));
        all.push(".brass_control_ignore", ".brass_control_ignore", Ghost(two));
        assert(two.push(ds[2]) =~= ds);
        match content {
            None => all.finish(Ghost(usable(ds))),
            Some(text) => {
                let ls = split_lines(text);
                let ghost lv = views(ls@);
                let mut i: usize = 0;
                assert(ds + line_rules(lv.take(0)) =~= ds);
                while i < ls.len()
                    invariant
                        i <= ls@.len(),
                        lv == views(ls@),
                        all.holds(usable(ds + line_rules(lv.take(i as int)))),
                    decreases ls@.len() - i,
                {
                    let ghost before = ds + line_rules(lv.take(i as int));
                    assert(lv.take(i + 1).drop_last() =~= lv.take(i as int));
                    assert(lv.take(i + 1).last() == ls@[i as int]@);
                    let line = trimmed(ls[i].as_str());
                    let cs = chars_of(line.as_str());
                    if cs.len() > 0 && cs[0] != '#' {
                        let pattern = normalize(line.as_str());
                        all.push(line.as_str(), pattern.as_str(), Ghost(before));
                        assert(before.push(Rule { raw: line@, pattern: pattern@ }) =~= ds
                            + line_rules(lv.take(i + 1)));
                    }
                    i = i + 1;
                }
                assert(lv.take(i as int) =~= lv);
                all.finish(Ghost(usable(ds + line_rules(lv))))
            },
        }
    }

    /// Whether a path is left alone.
    pub fn is_ignored(&self, path: &str) -> (r: bool)
        ensures
            r == any_matches(set_patterns(self.glob_set), path@),
    {
        set_matches(&self.glob_set, path)
    }
}

// ---------------------------------------------------------------------------
// Laws

proof fn lemma_usable_keeps(rules: Seq<Rule>, more: Seq<Rule>, i: int)
    requires
        0 <= i < rules.len(),
        is_pattern(rules[i].pattern),
    ensures
        usable(rules + more).contains(rules[i]),
    decreases more.len(), rules.len(),
{
    if more.len() > 0 {
        lemma_usable_keeps(rules, more.drop_last(), i);
        assert((rules + more).drop_last() =~= rules + more.drop_last());
        let u = usable(rules + more.drop_last());
        let k = choose|k: int| 0 <= k < u.len() && u[k] == rules[i];
        assert(u.push(more.last())[k] == rules[i]);
    } else {
        assert(rules + more =~= rules);
        let u = usable(rules.drop_last());
        if i == rules.len() - 1 {
            assert(u.push(rules.last())[u.len() as int] == rules[i]);
        } else {
            assert(rules.drop_last() + Seq::<Rule>::empty() =~= rules.drop_last());
            lemma_usable_keeps(rules.drop_last(), Seq::empty(), i);
            let k = choose|k: int| 0 <= k < u.len() && u[k] == rules[i];
            assert(u.push(rules.last())[k] == rules[i]);
        }
    }
}

/// Whatever an ignore file says, the rules that always hold are in force: what
/// one of them matches is left alone, as long as the patterns make a set.
pub proof fn default_rules_always_hold(content: Option<Seq<char>>, i: int, path: Seq<char>)
    requires
        0 <= i < default_rules().len(),
        is_pattern(default_rules()[i].pattern),
        can_build(patterns(usable(all_rules(content)))),
        pattern_matches(default_rules()[i].pattern, path),
    ensures
        any_matches(built(patterns(usable(all_rules(content)))), path),
{
    let ds = default_rules();
    let more = match content {
        Some(text) => line_rules(lines(text)),
        None => Seq::empty(),
    };
    assert(all_rules(content) =~= ds + more);
    lemma_usable_keeps(ds, more, i);
    let u = usable(all_rules(content));
    let k = choose|k: int| 0 <= k < u.len() && u[k] == ds[i];
    assert(patterns(u)[k] == ds[i].pattern);
    assert(pattern_matches(built(patterns(u))[k], path));
}

/// The rules of an ignore file are its lines, trimmed and in order, but for the
/// blank ones and those that begin with `#`.
pub proof fn rules_are_the_written_lines(ls: Seq<Seq<char>>)
    ensures
        line_rules(ls) == ls.map_values(|l: Seq<char>| trim(l)).filter(
            |l: Seq<char>| l.len() > 0 && l[0] != '#',
        ).map_values(|l: Seq<char>| Rule { raw: l, pattern: normalized(l) }),
    decreases ls.len(),
{
    reveal(Seq::filter);
    let cut = |l: Seq<char>| trim(l);
    let says = |l: Seq<char>| l.len() > 0 && l[0] != '#';
    let rule = |l: Seq<char>| Rule { raw: l, pattern: normalized(l) };
    if ls.len() == 0 {
        assert(ls.map_values(cut).filter(says).map_values(rule) =~= Seq::empty());
    } else {
        let less = ls.drop_last();
        rules_are_the_written_lines(less);
        let line = trim(ls.last());
        assert(ls.map_values(cut).drop_last() =~= less.map_values(cut));
        let before = less.map_values(cut).filter(says);
        assert(before.push(line).map_values(rule) =~= before.map_values(rule).push(rule(line)));
    }
}

proof fn lemma_without_slashes(n: nat, path: Seq<char>)
    requires
        path.len() > 0,
        path[0] != '/',
    ensures
        without_slashes(Seq::new(n, |i: int| '/') + path) == path,
    decreases n,
{
    let s = Seq::new(n, |i: int| '/') + path;
    if n > 0 {
        lemma_without_slashes((n - 1) as nat, path);
        assert(s.drop_first() =~= Seq::new((n - 1) as nat, |i: int| '/') + path);
    } else {
        assert(s =~= path);
    }
}

/// A line that ends in a slash is matched by all below that directory; a name is
/// matched in every directory; a path with slashes in front, or inside, is
/// matched as it is, without those in front.
pub proof fn lines_become_patterns(dir: Seq<char>, name: Seq<char>, n: nat, path: Seq<char>)
    requires
        !name.contains('/'),
        path.len() > 0,
        path[0] != '/',
        path.last() != '/',
        n > 0 || path.contains('/'),
    ensures
        normalized(dir.push('/')) == dir + "/**"@,
        normalized(name) == "**/"@ + name,
        normalized(Seq::new(n, |i: int| '/') + path) == path,
{
    reveal_strlit("**");
    reveal_strlit("/**");
    assert(dir.push('/') + "**"@ =~= dir + "/**"@);
    if name.len() > 0 {
        assert(name.contains(name.last()));
    }
    let s = Seq::new(n, |i: int| '/') + path;
    assert(s.last() == path.last());
    if n > 0 {
        assert(s.contains(s[0]));
    } else {
        assert(s =~= path);
    }
    lemma_without_slashes(n, path);
}

/// The rules that can be used are all those, in order, whose patterns are
/// patterns.
pub proof fn usable_rules_are_those_with_patterns(rules: Seq<Rule>)
    ensures
        usable(rules) == rules.filter(|r: Rule| is_pattern(r.pattern)),
    decreases rules.len(),
{
    reveal(Seq::filter);
    if rules.len() == 0 {
        assert(rules.filter(|r: Rule| is_pattern(r.pattern)) =~= Seq::empty());
    } else {
        usable_rules_are_those_with_patterns(rules.drop_last());
    }
}

proof fn lemma_usable_are_rules(rules: Seq<Rule>, r: Rule)
    requires
        usable(rules).contains(r),
    ensures
        rules.contains(r),
        is_pattern(r.pattern),
    decreases rules.len(),
{
    if rules.len() > 0 {
        let less = rules.drop_last();
        let u = usable(rules);
        let k = choose|k: int| 0 <= k < u.len() && u[k] == r;
        if is_pattern(rules.last().pattern) && k == u.len() - 1 {
            assert(rules.contains(rules.last()));
        } else {
            assert(usable(less)[k] == r);
            lemma_usable_are_rules(less, r);
            let j = choose|j: int| 0 <= j < less.len() && less[j] == r;
            assert(rules[j] == r);
        }
    }
}

/// As long as the patterns make a set, a path is left alone if and only if the
/// pattern of one of the rules matches it.
pub proof fn path_is_ignored_by_a_rule(rules: Seq<Rule>, path: Seq<char>)
    requires
        can_build(patterns(usable(rules))),
    ensures
        any_matches(built(patterns(usable(rules))), path) <==> exists|i: int|
            0 <= i < rules.len() && is_pattern(rules[i].pattern) && #[trigger] pattern_matches(
                rules[i].pattern,
                path,
            ),
{
    let u = usable(rules);
    let ps = patterns(u);
    if any_matches(built(ps), path) {
        let k = choose|k: int| 0 <= k < ps.len() && #[trigger] pattern_matches(ps[k], path);
        assert(ps[k] == u[k].pattern);
        assert(u.contains(u[k]));
        lemma_usable_are_rules(rules, u[k]);
        let i = choose|i: int| 0 <= i < rules.len() && rules[i] == u[k];
        assert(pattern_matches(rules[i].pattern, path));
    }
    assert forall|i: int|
        0 <= i < rules.len() && is_pattern(rules[i].pattern) && #[trigger] pattern_matches(
            rules[i].pattern,
            path,
        ) implies any_matches(built(ps), path) by {
        lemma_usable_keeps(rules, Seq::empty(), i);
        assert(rules + Seq::<Rule>::empty() =~= rules);
        let k = choose|k: int| 0 <= k < u.len() && u[k] == rules[i];
        assert(ps[k] == rules[i].pattern);
        assert(pattern_matches(ps[k], path));
    }
}

/// What an ignore file says comes behind three rules: two for the control
/// directory, at the top or below, and one for the ignore file itself.
pub proof fn control_files_are_ignored(content: Option<Seq<char>>)
    ensures
        patterns(all_rules(content)).take(3) == seq![
            ".brass_control/**"@,
            "**/.brass_control/**"@,
            ".brass_control_ignore"@,
        ],
        patterns(all_rules(content)).skip(3) == (match content {
            Some(text) => patterns(line_rules(lines(text))),
            None => Seq::empty(),
        }),
{
    let all = all_rules(content);
    let ps = patterns(all);
    assert(ps[0] == all[0].pattern);
    assert(ps[1] == all[1].pattern);
    assert(ps[2] == all[2].pattern);
    assert(ps.take(3) =~= seq![
        ".brass_control/**"@,
        "**/.brass_control/**"@,
        ".brass_control_ignore"@,
    ]);
    match content {
        Some(text) => {
            assert(ps.skip(3) =~= patterns(line_rules(lines(text))));
        },
        None => {
            assert(ps.skip(3) =~= Seq::empty());
        },
    }
}

/// Every rule is kept as it was written, beside the pattern it is matched by, in
/// order.
pub proof fn rules_are_kept_as_written(rules: Seq<Rule>)
    ensures
        raws(rules).len() == rules.len(),
        patterns(rules).len() == rules.len(),
        forall|i: int| 0 <= i < rules.len() ==> #[trigger] raws(rules)[i] == rules[i].raw,
        forall|i: int| 0 <= i < rules.len() ==> #[trigger] patterns(rules)[i] == rules[i].pattern,
{
}

} // verus!
