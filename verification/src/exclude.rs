//! The exclusion set: the aggregate of all user-supplied exclude
//! patterns, with OR semantics.  A path is excluded iff at least one
//! pattern matches it, evaluated both on the path as given and on the
//! path expressed relative to the current directory, so that patterns
//! authored without a leading `**/` still match nested files regardless
//! of where the tool is invoked from.

use vstd::prelude::*;

use crate::glob::GlobPattern;
use crate::glob::PatternElem;
use crate::glob::any_matches;
use crate::glob::compile_pattern;
use crate::glob::glob_views;
use crate::glob::matches_any;
use crate::paths::is_absolute_path;
use crate::paths::lemma_candidate_forms_agree;
use crate::paths::make_relative_path;
use crate::paths::norm_components;
use crate::paths::relative_components;
use crate::text::components_of;
use crate::text::split_components;

verus! {

/// An unordered collection of compiled glob patterns; a path is excluded
/// iff at least one of them matches it.
pub struct ExcludeSet {
    patterns: Vec<GlobPattern>,
}

impl View for ExcludeSet {
    type V = Seq<Seq<PatternElem>>;

    closed spec fn view(&self) -> Seq<Seq<PatternElem>> {
        glob_views(self.patterns@)
    }
}

/// The compiled forms of a sequence of raw pattern strings.
pub open spec fn compiled_patterns(patterns: Seq<String>) -> Seq<Seq<PatternElem>> {
    patterns.map_values(|p: String| compile_pattern(p@))
}

/// Compiles every raw pattern into an exclusion set.  Compilation in this
/// grammar is total: every string is a valid pattern, so building the set
/// cannot fail.
pub fn build_exclude_set(patterns: &[String]) -> (r: ExcludeSet)
    ensures
        r@ == compiled_patterns(patterns@),
{
    let mut compiled: Vec<GlobPattern> = Vec::new();
    let mut i: usize = 0;
    while i < patterns.len()
        invariant
            i <= patterns@.len(),
            compiled@.len() == i,
            forall|j: int| 0 <= j < i ==> #[trigger] compiled@[j]@ == compile_pattern(
                patterns@[j]@,
            ),
        decreases patterns@.len() - i,
    {
        compiled.push(GlobPattern::new(patterns[i].as_str()));
        i = i + 1;
    }
    proof {
        assert(glob_views(compiled@) =~= compiled_patterns(patterns@));
    }
    ExcludeSet { patterns: compiled }
}

/// Whether the pattern set excludes the path: some pattern matches either
/// the path's own components or the path expressed relative to the
/// current directory.
pub open spec fn spec_is_excluded(
    pats: Seq<Seq<PatternElem>>,
    path: Seq<char>,
    cwd: Seq<char>,
) -> bool {
    any_matches(pats, components_of(path)) || any_matches(
        pats,
        relative_components(path, cwd),
    )
}

/// Whether the exclusion set excludes the candidate path, evaluated both
/// as given and relative to the current directory.
pub fn is_excluded(path: &str, set: &ExcludeSet, current_dir: &str) -> (r: bool)
    ensures
        r == spec_is_excluded(set@, path@, current_dir@),
{
    let raw = split_components(path);
    if matches_any(set.patterns.as_slice(), raw.as_slice()) {
        return true;
    }
    let relative = make_relative_path(path, current_dir);
    matches_any(set.patterns.as_slice(), relative.as_slice())
}

/// A pattern that matches a candidate's relative component sequence
/// excludes that candidate whether it is written bare, `./`-prefixed, or
/// absolute beneath the current directory, since all three normalize to
/// the same relative components.
pub proof fn lemma_excluded_in_any_form(
    pats: Seq<Seq<PatternElem>>,
    p: Seq<char>,
    cwd: Seq<char>,
)
    requires
        !is_absolute_path(p),
        is_absolute_path(cwd),
        any_matches(pats, norm_components(p)),
    ensures
        spec_is_excluded(pats, p, cwd),
        spec_is_excluded(pats, seq!['.', '/'] + p, cwd),
        spec_is_excluded(pats, cwd + seq!['/'] + p, cwd),
{
    lemma_candidate_forms_agree(p, cwd);
}

} // verus!
