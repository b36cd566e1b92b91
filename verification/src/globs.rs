//! Sets of glob patterns, from the crate `globset`. What is said of them here
//! holds where the slash is the only path separator.
use vstd::prelude::*;

verus! {

/// A parsed pattern.
#[verifier::external_type_specification]
#[verifier::external_body]
pub struct ExGlob(globset::Glob);

/// Patterns that are being collected.
#[verifier::external_type_specification]
#[verifier::external_body]
pub struct ExGlobSetBuilder(globset::GlobSetBuilder);

/// Patterns that are matched together.
#[verifier::external_type_specification]
#[verifier::external_body]
pub struct ExGlobSet(globset::GlobSet);

/// Whether a text is a pattern.
pub uninterp spec fn is_pattern(text: Seq<char>) -> bool;

/// The pattern that a parsed pattern holds.
pub uninterp spec fn glob_text(glob: globset::Glob) -> Seq<char>;

/// The patterns that a builder holds, in the order in which they were added.
pub uninterp spec fn builder_patterns(builder: globset::GlobSetBuilder) -> Seq<Seq<char>>;

/// The patterns that a set holds.
pub uninterp spec fn set_patterns(set: globset::GlobSet) -> Seq<Seq<char>>;

/// Whether patterns can be made into one set.
pub uninterp spec fn can_build(patterns: Seq<Seq<char>>) -> bool;

/// Whether a pattern matches a path.
pub uninterp spec fn pattern_matches(pattern: Seq<char>, path: Seq<char>) -> bool;

/// `globset::Glob::new` parses a pattern. Whether it succeeds depends on the
/// text alone, and the result holds the text.
#[verifier::external_body]
pub(crate) fn parse_glob(text: &str) -> (r: Option<globset::Glob>)
    ensures
        r is Some <==> is_pattern(text@),
        match r {
            Some(glob) => glob_text(glob) == text@,
            None => true,
        },
{
    globset::Glob::new(text).ok()
}

/// `globset::GlobSetBuilder::new` makes a builder without patterns.
#[verifier::external_body]
pub(crate) fn new_builder() -> (r: globset::GlobSetBuilder)
    ensures
        builder_patterns(r) == Seq::<Seq<char>>::empty(),
{
    globset::GlobSetBuilder::new()
}

/// `globset::GlobSetBuilder::add` adds a pattern to those of a builder.
#[verifier::external_body]
pub(crate) fn add_glob(builder: &mut globset::GlobSetBuilder, glob: globset::Glob)
    ensures
        builder_patterns(*final(builder)) == builder_patterns(*old(builder)).push(glob_text(glob)),
{
    builder.add(glob);
}

/// `globset::GlobSetBuilder::build` makes the patterns of a builder into a set.
/// Whether it succeeds depends on the patterns alone.
#[verifier::external_body]
pub(crate) fn build_set(builder: &globset::GlobSetBuilder) -> (r: Option<globset::GlobSet>)
    ensures
        r is Some <==> can_build(builder_patterns(*builder)),
        match r {
            Some(set) => set_patterns(set) == builder_patterns(*builder),
            None => true,
        },
{
    builder.build().ok()
}

/// `globset::GlobSet::empty` is a set without patterns.
#[verifier::external_body]
pub(crate) fn empty_set() -> (r: globset::GlobSet)
    ensures
        set_patterns(r) == Seq::<Seq<char>>::empty(),
{
    globset::GlobSet::empty()
}

/// The `clone` of a `globset::GlobSet` is a set with the same patterns.
#[verifier::external_body]
pub(crate) fn clone_set(set: &globset::GlobSet) -> (r: globset::GlobSet)
    ensures
        set_patterns(r) == set_patterns(*set),
{
    set.clone()
}

/// `globset::GlobSet::is_match` tells whether any pattern of a set matches a
/// path.
#[verifier::external_body]
pub(crate) fn set_matches(set: &globset::GlobSet, path: &str) -> (r: bool)
    ensures
        r == (exists|i: int|
            0 <= i < set_patterns(*set).len() && #[trigger] pattern_matches(
                set_patterns(*set)[i],
                path@,
            )),
{
    set.is_match(path)
}

} // verus!
