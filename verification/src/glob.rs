//! The glob matching of the `globset` crate, used to exclude paths.
//!
//! A glob set is known by the list of patterns it was built from; which paths
//! a list of patterns matches is named (`glob_set_matches`), not described.
use globset::{Glob, GlobSet, GlobSetBuilder};
use vstd::prelude::*;

verus! {

#[verifier::external_type_specification]
#[verifier::external_body]
pub struct ExGlob(globset::Glob);

#[verifier::external_type_specification]
#[verifier::external_body]
pub struct ExGlobSet(globset::GlobSet);

#[verifier::external_type_specification]
#[verifier::external_body]
pub struct ExGlobSetBuilder(globset::GlobSetBuilder);

/// Whether `Glob::new` accepts a pattern.
pub uninterp spec fn glob_pattern_valid(pattern: Seq<char>) -> bool;

/// The pattern text that a `Glob` was built from.
pub uninterp spec fn glob_source(g: Glob) -> Seq<char>;

/// The patterns added to a `GlobSetBuilder`, in order.
pub uninterp spec fn builder_patterns(b: GlobSetBuilder) -> Seq<Seq<char>>;

/// The patterns that a `GlobSet` was built from, in order.
pub uninterp spec fn glob_set_patterns(s: GlobSet) -> Seq<Seq<char>>;

/// Whether `GlobSetBuilder::build` succeeds on a list of patterns.
pub uninterp spec fn glob_set_buildable(patterns: Seq<Seq<char>>) -> bool;

/// Whether some pattern of a glob set built from `patterns` matches the path
/// with the given bytes.
pub uninterp spec fn glob_set_matches(patterns: Seq<Seq<char>>, path: Seq<u8>) -> bool;

/// Calls `Glob::new` (default options): whether it succeeds depends on the
/// pattern alone, and the glob keeps the pattern's text.
#[verifier::external_body]
pub(crate) fn new_glob(pattern: &str) -> (r: Result<Glob, globset::Error>)
    ensures
        r is Ok <==> glob_pattern_valid(pattern@),
        r matches Ok(g) ==> glob_source(g) == pattern@,
{
    Glob::new(pattern)
}

/// Calls `GlobSetBuilder::new`: a builder with no pattern.
#[verifier::external_body]
pub(crate) fn new_glob_set_builder() -> (r: GlobSetBuilder)
    ensures
        builder_patterns(r) == Seq::<Seq<char>>::empty(),
{
    GlobSetBuilder::new()
}

/// Calls `GlobSetBuilder::add`, which appends the glob to the builder's list.
#[verifier::external_body]
pub(crate) fn add_glob(b: &mut GlobSetBuilder, g: Glob)
    ensures
        builder_patterns(*final(b)) == builder_patterns(*old(b)).push(glob_source(g)),
{
    b.add(g);
}

/// Calls `GlobSetBuilder::build`: whether it succeeds depends on the patterns
/// alone (an empty list always builds), and the set keeps the builder's list.
#[verifier::external_body]
pub(crate) fn finish_glob_set(b: &GlobSetBuilder) -> (r: Result<GlobSet, globset::Error>)
    ensures
        r is Ok <==> glob_set_buildable(builder_patterns(*b)),
        builder_patterns(*b).len() == 0 ==> r is Ok,
        r matches Ok(s) ==> glob_set_patterns(s) == builder_patterns(*b),
{
    b.build()
}

/// Calls `GlobSet::is_match_candidate` on a candidate made from the path's
/// bytes (on Unix the same candidate `GlobSet::is_match` makes from a path).
/// The answer depends on the set's patterns and the path alone; an empty set
/// matches nothing.
#[verifier::external_body]
pub(crate) fn glob_set_is_match(s: &GlobSet, path: &[u8]) -> (r: bool)
    ensures
        r == glob_set_matches(glob_set_patterns(*s), path@),
        glob_set_patterns(*s).len() == 0 ==> !r,
{
    s.is_match_candidate(&globset::Candidate::from_bytes(path))
}

/// Calls `GlobSet::clone`: the copy is built from the same patterns.
#[verifier::external_body]
pub(crate) fn clone_glob_set(s: &GlobSet) -> (r: GlobSet)
    ensures
        glob_set_patterns(r) == glob_set_patterns(*s),
{
    s.clone()
}

pub open spec fn string_views(v: Seq<String>) -> Seq<Seq<char>> {
    v.map_values(|s: String| s@)
}

/// Every pattern parses and the list builds.
pub open spec fn patterns_usable(patterns: Seq<Seq<char>>) -> bool {
    (forall|i: int| 0 <= i < patterns.len() ==> glob_pattern_valid(#[trigger] patterns[i]))
        && glob_set_buildable(patterns)
}

/// Builds the glob set of a list of patterns; fails on the first pattern that
/// does not parse, or if the set does not build.
pub fn build_glob_set(patterns: &[String]) -> (r: Result<GlobSet, globset::Error>)
    ensures
        r is Ok <==> patterns_usable(string_views(patterns@)),
        patterns@.len() == 0 ==> r is Ok,
        r matches Ok(s) ==> glob_set_patterns(s) == string_views(patterns@),
{
    let mut builder = new_glob_set_builder();
    let mut i: usize = 0;
    while i < patterns.len()
        invariant
            i <= patterns@.len(),
            builder_patterns(builder) == string_views(patterns@).subrange(0, i as int),
            forall|j: int| 0 <= j < i ==> glob_pattern_valid(#[trigger] patterns@[j]@),
        decreases patterns@.len() - i,
    {
        match new_glob(patterns[i].as_str()) {
            Ok(g) => {
                add_glob(&mut builder, g);
                assert(builder_patterns(builder) =~= string_views(patterns@).subrange(0, i + 1));
            },
            Err(e) => {
                assert(!patterns_usable(string_views(patterns@))) by {
                    assert(string_views(patterns@)[i as int] == patterns@[i as int]@);
                }
                return Err(e);
            },
        }
        i += 1;
    }
    assert(string_views(patterns@).subrange(0, i as int) =~= string_views(patterns@));
    finish_glob_set(&builder)
}

} // verus!
