//! Settings and access rules.
use vstd::prelude::*;
use crate::text::{
    begins_with, ends_with, has_prefix, no_suffix_is_left, same_text, strip_suffixes, trim_suffix,
};

verus! {

/// The settings of a repository.
#[derive(Debug, PartialEq, Eq)]
pub struct BrassConfig {
    pub user_name: String,
    pub user_email: String,
    pub default_branch: String,
    pub is_admin: bool,
}

impl Clone for BrassConfig {
    fn clone(&self) -> (r: BrassConfig)
        ensures
            r == *self,
    {
        BrassConfig {
            user_name: self.user_name.clone(),
            user_email: self.user_email.clone(),
            default_branch: self.default_branch.clone(),
            is_admin: self.is_admin,
        }
    }
}

impl Default for BrassConfig {
    fn default() -> (r: BrassConfig)
        ensures
            r.user_name@ == "Anonymous"@,
            r.user_email@ == "user@localhost"@,
            r.default_branch@ == "main"@,
            !r.is_admin,
    {
        BrassConfig {
            user_name: "Anonymous".to_owned(),
            user_email: "user@localhost".to_owned(),
            default_branch: "main".to_owned(),
            is_admin: false,
        }
    }
}

/// What a rule allows.
#[derive(Debug, Clone, Copy, PartialEq, Eq, Structural)]
pub enum AccessLevel {
    ReadOnly,
    ReadWrite,
}

/// What a user, or every user under the name `*`, may do with some paths.
#[derive(Debug, PartialEq, Eq)]
pub struct AccessRule {
    pub user: String,
    pub path_pattern: String,
    pub access: AccessLevel,
}

impl Clone for AccessRule {
    fn clone(&self) -> (r: AccessRule)
        ensures
            r == *self,
    {
        AccessRule {
            user: self.user.clone(),
            path_pattern: self.path_pattern.clone(),
            access: self.access,
        }
    }
}

/// The access rules of a repository.
#[derive(Debug, PartialEq, Eq)]
pub struct AclConfig {
    pub rules: Vec<AccessRule>,
}

impl Clone for AclConfig {
    fn clone(&self) -> (r: AclConfig)
        ensures
            r.rules@ == self.rules@,
    {
        let rules = self.rules.clone();
        assert(rules@ =~= self.rules@);
        AclConfig { rules }
    }
}

/// The directory that a pattern stands for: the pattern without `/**` and then
/// without `/*` at its end.
pub open spec fn pattern_root(pattern: Seq<char>) -> Seq<char> {
    trim_suffix(trim_suffix(pattern, "/**"@), "/*"@)
}

/// Whether a rule keeps a user from writing a path.
pub open spec fn forbids(rule: AccessRule, user: Seq<char>, path: Seq<char>) -> bool {
    &&& rule.user@ == user || rule.user@ == "*"@
    &&& begins_with(path, pattern_root(rule.path_pattern@))
    &&& rule.access == AccessLevel::ReadOnly
}

/// Whether no rule keeps a user from writing a path.
pub open spec fn may_write(rules: Seq<AccessRule>, user: Seq<char>, path: Seq<char>) -> bool {
    forall|i: int| 0 <= i < rules.len() ==> !#[trigger] forbids(rules[i], user, path)
}

impl Default for AclConfig {
    fn default() -> (r: AclConfig)
        ensures
            r.rules@.len() == 0,
    {
        AclConfig { rules: Vec::new() }
    }
}

impl AclConfig {
    /// Whether a user may write a path: no rule for the user that covers the
    /// path is read-only.
    pub fn can_write(&self, user: &str, path: &str) -> (r: bool)
        ensures
            r == may_write(self.rules@, user@, path@),
    {
        let mut i: usize = 0;
        while i < self.rules.len()
            invariant
                i <= self.rules@.len(),
                forall|k: int| 0 <= k < i ==> !#[trigger] forbids(self.rules@[k], user@, path@),
            decreases self.rules@.len() - i,
        {
            let rule = &self.rules[i];
            if same_text(rule.user.as_str(), user) || same_text(rule.user.as_str(), "*") {
                let once = strip_suffixes(rule.path_pattern.as_str(), "/**");
                let root = strip_suffixes(once.as_str(), "/*");
                if has_prefix(path, root.as_str()) && rule.access == AccessLevel::ReadOnly {
                    assert(forbids(self.rules@[i as int], user@, path@));
                    return false;
                }
            }
            i = i + 1;
        }
        true
    }
}

// ---------------------------------------------------------------------------
// Laws

/// Without rules everybody may write everything.
pub proof fn no_rules_no_limits(user: Seq<char>, path: Seq<char>)
    ensures
        may_write(Seq::empty(), user, path),
{
}

/// A further rule never allows what was forbidden before.
pub proof fn rules_only_restrict(
    rules: Seq<AccessRule>,
    rule: AccessRule,
    user: Seq<char>,
    path: Seq<char>,
)
    requires
        may_write(rules.push(rule), user, path),
    ensures
        may_write(rules, user, path),
{
    assert forall|i: int| 0 <= i < rules.len() implies !#[trigger] forbids(
        rules[i],
        user,
        path,
    ) by {
        assert(rules.push(rule)[i] == rules[i]);
        assert(!forbids(rules.push(rule)[i], user, path));
    }
}

/// A read-only rule for everybody keeps every user from every path under it.
pub proof fn star_rule_holds_for_everybody(
    rules: Seq<AccessRule>,
    i: int,
    user: Seq<char>,
    path: Seq<char>,
)
    requires
        0 <= i < rules.len(),
        rules[i].user@ == "*"@,
        rules[i].access == AccessLevel::ReadOnly,
        begins_with(path, pattern_root(rules[i].path_pattern@)),
    ensures
        !may_write(rules, user, path),
{
    assert(forbids(rules[i], user, path));
}

/// A user may not write a path if and only if the path goes on behind the
/// directory of a read-only rule for the user or for everybody.
pub proof fn write_is_forbidden_by_a_rule(
    rules: Seq<AccessRule>,
    user: Seq<char>,
    path: Seq<char>,
)
    ensures
        !may_write(rules, user, path) <==> exists|i: int, rest: Seq<char>|
            0 <= i < rules.len() && (rules[i].user@ == user || rules[i].user@ == "*"@)
                && rules[i].access == AccessLevel::ReadOnly && path == #[trigger] (pattern_root(
                rules[i].path_pattern@,
            ) + rest),
{
    if !may_write(rules, user, path) {
        let i = choose|i: int| 0 <= i < rules.len() && #[trigger] forbids(rules[i], user, path);
        let root = pattern_root(rules[i].path_pattern@);
        let rest = path.skip(root.len() as int);
        assert(path =~= root + rest);
    }
    assert forall|i: int, rest: Seq<char>|
        0 <= i < rules.len() && (rules[i].user@ == user || rules[i].user@ == "*"@)
            && rules[i].access == AccessLevel::ReadOnly && path == #[trigger] (pattern_root(
            rules[i].path_pattern@,
        ) + rest) implies !may_write(rules, user, path) by {
        let root = pattern_root(rules[i].path_pattern@);
        assert(path.take(root.len() as int) =~= root);
        assert(forbids(rules[i], user, path));
    }
}

/// A pattern is the directory that it stands for, with `/*` any number of times
/// behind it and then `/**` any number of times; the directory does not end in
/// `/*` itself.
pub proof fn pattern_begins_with_its_directory(pattern: Seq<char>) -> (r: (nat, nat))
    ensures
        pattern == pattern_root(pattern) + Seq::new(r.0, |i: int| "/*"@).flatten() + Seq::new(
            r.1,
            |i: int| "/**"@,
        ).flatten(),
        forall|front: Seq<char>| pattern_root(pattern) != #[trigger] (front + "/*"@),
{
    reveal_strlit("/*");
    reveal_strlit("/**");
    let deep = no_suffix_is_left(pattern, "/**"@);
    let flat = no_suffix_is_left(trim_suffix(pattern, "/**"@), "/*"@);
    (flat, deep)
}

/// A directory, the directory with `/*`, and the directory with `/**` stand for
/// the same paths.
pub proof fn patterns_of_a_directory(dir: Seq<char>)
    requires
        dir.len() > 0,
        dir.last() != '*',
    ensures
        pattern_root(dir) == dir,
        pattern_root(dir + "/*"@) == dir,
        pattern_root(dir + "/**"@) == dir,
{
    reveal_strlit("/*");
    reveal_strlit("/**");
    let flat = dir + "/*"@;
    let deep = dir + "/**"@;
    if ends_with(dir, "/**"@) {
        assert(dir.skip(dir.len() - 3)[2] == dir.last());
    }
    if ends_with(dir, "/*"@) {
        assert(dir.skip(dir.len() - 2)[1] == dir.last());
    }
    if ends_with(flat, "/**"@) {
        assert(flat.skip(flat.len() - 3)[1] == '/');
    }
    assert(flat.skip(flat.len() - 2) =~= "/*"@);
    assert(flat.take(flat.len() - 2) =~= dir);
    assert(deep.skip(deep.len() - 3) =~= "/**"@);
    assert(deep.take(deep.len() - 3) =~= dir);
    assert(trim_suffix(dir, "/**"@) == dir);
    assert(trim_suffix(dir, "/*"@) == dir);
    assert(trim_suffix(flat, "/**"@) == flat);
}

} // verus!
