//! Glob-style pattern compiler and matcher.
//!
//! A pattern string is split on `/` into component patterns: the literal
//! `**` matches any number of whole path components (including none), and
//! any other segment matches a single component character by character,
//! where `*` matches any run of characters within the component, `?`
//! matches exactly one character, and every other character matches itself.
//! A pattern matches a path only if the entire component sequence is
//! consumed.

use vstd::prelude::*;

use crate::text::components_of;
use crate::text::strs_view;
use crate::text::split_components;

verus! {

/// A compiled component pattern, as it appears in specifications: either
/// the whole-component wildcard `**` or a single-component segment.
pub enum PatternElem {
    AnyDepth,
    Segment(Seq<char>),
}

/// Whether the segment pattern `pat` matches the candidate component
/// `cand`, character by character: `*` matches any run of characters, `?`
/// matches exactly one, and any other character matches itself.
pub open spec fn segment_match(pat: Seq<char>, cand: Seq<char>) -> bool
    decreases pat.len(),
{
    if pat.len() == 0 {
        cand.len() == 0
    } else if pat[0] == '*' {
        exists|k: int| 0 <= k <= cand.len() && segment_match(pat.skip(1), #[trigger] cand.skip(k))
    } else if pat[0] == '?' {
        cand.len() > 0 && segment_match(pat.skip(1), cand.skip(1))
    } else {
        cand.len() > 0 && cand[0] == pat[0] && segment_match(pat.skip(1), cand.skip(1))
    }
}

/// Whether the compiled pattern `pats` matches the whole component
/// sequence `comps`: `AnyDepth` consumes zero or more components, a
/// segment consumes exactly one that it matches, and the path must be
/// exhausted exactly when the pattern is.
pub open spec fn glob_match(pats: Seq<PatternElem>, comps: Seq<Seq<char>>) -> bool
    decreases pats.len(),
{
    if pats.len() == 0 {
        comps.len() == 0
    } else {
        match pats[0] {
            PatternElem::AnyDepth => exists|k: int|
                0 <= k <= comps.len() && glob_match(pats.skip(1), #[trigger] comps.skip(k)),
            PatternElem::Segment(t) => comps.len() > 0 && segment_match(t, comps[0]) && glob_match(
                pats.skip(1),
                comps.skip(1),
            ),
        }
    }
}

/// The compiled form of one raw pattern segment.
pub open spec fn compile_component(c: Seq<char>) -> PatternElem {
    if c == seq!['*', '*'] {
        PatternElem::AnyDepth
    } else {
        PatternElem::Segment(c)
    }
}

/// The compiled form of a raw pattern string: its nonempty `/`-separated
/// segments, each compiled.
pub open spec fn compile_pattern(p: Seq<char>) -> Seq<PatternElem> {
    components_of(p).map_values(|c: Seq<char>| compile_component(c))
}

/// A single-component pattern, matched character by character.
pub struct SinglePattern {
    pattern: String,
}

impl View for SinglePattern {
    type V = Seq<char>;

    closed spec fn view(&self) -> Seq<char> {
        self.pattern@
    }
}

/// Decides `segment_match` of the pattern from cursor `pi` against the
/// candidate from cursor `ci`.
fn matches_chars(pattern: &str, pi: usize, candidate: &str, ci: usize) -> (r: bool)
    requires
        pi <= pattern@.len(),
        ci <= candidate@.len(),
    ensures
        r == segment_match(pattern@.skip(pi as int), candidate@.skip(ci as int)),
    decreases pattern@.len() - pi,
{
    let plen = pattern.unicode_len();
    let clen = candidate.unicode_len();
    let ghost pat = pattern@.skip(pi as int);
    let ghost cand = candidate@.skip(ci as int);
    if pi == plen {
        proof {
            assert(pat.len() == 0);
            assert((cand.len() == 0) == (ci == clen));
        }
        return ci == clen;
    }
    let pc = pattern.get_char(pi);
    proof {
        assert(pat[0] == pattern@[pi as int]);
        assert(pat.skip(1) =~= pattern@.skip(pi + 1));
    }
    if pc == '*' {
        let mut k = ci;
        loop
            invariant
                ci <= k <= clen,
                pi < plen,
                plen == pattern@.len(),
                clen == candidate@.len(),
                pattern@[pi as int] == '*',
                pat == pattern@.skip(pi as int),
                cand == candidate@.skip(ci as int),
                forall|j: int|
                    ci <= j < k ==> !segment_match(
                        pattern@.skip(pi + 1),
                        #[trigger] candidate@.skip(j),
                    ),
            decreases clen - k,
        {
            if matches_chars(pattern, pi + 1, candidate, k) {
                proof {
                    assert(pat.skip(1) =~= pattern@.skip(pi + 1));
                    assert(cand.skip(k - ci) =~= candidate@.skip(k as int));
                    assert(segment_match(pat.skip(1), cand.skip(k - ci)));
                    assert(segment_match(pat, cand));
                }
                return true;
            }
            if k == clen {
                proof {
                    assert(pat.skip(1) =~= pattern@.skip(pi + 1));
                    assert forall|kk: int|
                        0 <= kk <= cand.len() implies !segment_match(
                        pat.skip(1),
                        #[trigger] cand.skip(kk),
                    ) by {
                        assert(cand.skip(kk) =~= candidate@.skip(ci + kk));
                        assert(!segment_match(pattern@.skip(pi + 1), candidate@.skip(ci + kk)));
                    }
                    assert(!segment_match(pat, cand));
                }
                return false;
            }
            k = k + 1;
        }
    } else if pc == '?' {
        if ci == clen {
            proof {
                assert(cand.len() == 0);
                assert(!segment_match(pat, cand));
            }
            false
        } else {
            let r = matches_chars(pattern, pi + 1, candidate, ci + 1);
            proof {
                assert(cand.skip(1) =~= candidate@.skip(ci + 1));
            }
            r
        }
    } else {
        if ci == clen {
            proof {
                assert(cand.len() == 0);
                assert(!segment_match(pat, cand));
            }
            false
        } else {
            let cc = candidate.get_char(ci);
            proof {
                assert(cand[0] == candidate@[ci as int]);
            }
            if cc == pc {
                let r = matches_chars(pattern, pi + 1, candidate, ci + 1);
                proof {
                    assert(cand.skip(1) =~= candidate@.skip(ci + 1));
                }
                r
            } else {
                proof {
                    assert(!segment_match(pat, cand));
                }
                false
            }
        }
    }
}

impl SinglePattern {
    /// Compiles a raw segment into a single-component pattern.
    pub fn new(pattern: &str) -> (r: Self)
        ensures
            r@ == pattern@,
    {
        Self { pattern: pattern.to_owned() }
    }

    /// Whether this segment pattern matches the candidate component.
    pub fn matches(&self, candidate: &str) -> (r: bool)
        ensures
            r == segment_match(self@, candidate@),
    {
        proof {
            assert(self.pattern@.skip(0) =~= self@);
            assert(candidate@.skip(0) =~= candidate@);
        }
        matches_chars(self.pattern.as_str(), 0, candidate, 0)
    }
}

/// One compiled component of a glob pattern.
pub enum ComponentPattern {
    DoubleStar,
    Single(SinglePattern),
}

impl View for ComponentPattern {
    type V = PatternElem;

    closed spec fn view(&self) -> PatternElem {
        match self {
            ComponentPattern::DoubleStar => PatternElem::AnyDepth,
            ComponentPattern::Single(sp) => PatternElem::Segment(sp@),
        }
    }
}

impl ComponentPattern {
    /// Compiles one raw pattern segment: the literal `**` becomes the
    /// whole-component wildcard, anything else a single-component pattern.
    pub fn new(component: &str) -> (r: Self)
        ensures
            r@ == compile_component(component@),
    {
        let is_double_star = component.unicode_len() == 2 && component.get_char(0) == '*'
            && component.get_char(1) == '*';
        if is_double_star {
            proof {
                assert(component@ =~= seq!['*', '*']);
            }
            ComponentPattern::DoubleStar
        } else {
            proof {
                if component@ == seq!['*', '*'] {
                    assert(component@.len() == 2);
                    assert(component@[0] == '*');
                    assert(component@[1] == '*');
                }
            }
            ComponentPattern::Single(SinglePattern::new(component))
        }
    }
}

/// The views of a sequence of compiled component patterns.
pub open spec fn pats_view(s: Seq<ComponentPattern>) -> Seq<PatternElem> {
    s.map_values(|c: ComponentPattern| c@)
}

/// Decides `glob_match` of the compiled components from cursor `pi`
/// against the path components from cursor `ci`.
fn matches_components(
    patterns: &Vec<ComponentPattern>,
    pi: usize,
    components: &[String],
    ci: usize,
) -> (r: bool)
    requires
        pi <= patterns@.len(),
        ci <= components@.len(),
    ensures
        r == glob_match(
            pats_view(patterns@).skip(pi as int),
            strs_view(components@).skip(ci as int),
        ),
    decreases patterns@.len() - pi,
{
    let plen = patterns.len();
    let clen = components.len();
    let ghost pat = pats_view(patterns@).skip(pi as int);
    let ghost cand = strs_view(components@).skip(ci as int);
    if pi == plen {
        proof {
            assert(pat.len() == 0);
            assert((cand.len() == 0) == (ci == clen));
        }
        return ci == clen;
    }
    proof {
        assert(pat[0] == pats_view(patterns@)[pi as int]);
        assert(pat.skip(1) =~= pats_view(patterns@).skip(pi + 1));
    }
    match &patterns[pi] {
        ComponentPattern::DoubleStar => {
            let mut k = ci;
            loop
                invariant
                    ci <= k <= clen,
                    pi < plen,
                    plen == patterns@.len(),
                    clen == components@.len(),
                    patterns@[pi as int]@ is AnyDepth,
                    pat == pats_view(patterns@).skip(pi as int),
                    cand == strs_view(components@).skip(ci as int),
                    forall|j: int|
                        ci <= j < k ==> !glob_match(
                            pats_view(patterns@).skip(pi + 1),
                            #[trigger] strs_view(components@).skip(j),
                        ),
                decreases clen - k,
            {
                if matches_components(patterns, pi + 1, components, k) {
                    proof {
                        assert(pat.skip(1) =~= pats_view(patterns@).skip(pi + 1));
                        assert(cand.skip(k - ci) =~= strs_view(components@).skip(k as int));
                        assert(glob_match(pat.skip(1), cand.skip(k - ci)));
                        assert(glob_match(pat, cand));
                    }
                    return true;
                }
                if k == clen {
                    proof {
                        assert(pat.skip(1) =~= pats_view(patterns@).skip(pi + 1));
                        assert forall|kk: int|
                            0 <= kk <= cand.len() implies !glob_match(
                            pat.skip(1),
                            #[trigger] cand.skip(kk),
                        ) by {
                            assert(cand.skip(kk) =~= strs_view(components@).skip(ci + kk));
                            assert(!glob_match(
                                pats_view(patterns@).skip(pi + 1),
                                strs_view(components@).skip(ci + kk),
                            ));
                        }
                        assert(!glob_match(pat, cand));
                    }
                    return false;
                }
                k = k + 1;
            }
        },
        ComponentPattern::Single(sp) => {
            if ci == clen {
                proof {
                    assert(cand.len() == 0);
                    assert(!glob_match(pat, cand));
                }
                false
            } else {
                proof {
                    assert(cand[0] == strs_view(components@)[ci as int]);
                }
                if sp.matches(components[ci].as_str()) {
                    let r = matches_components(patterns, pi + 1, components, ci + 1);
                    proof {
                        assert(cand.skip(1) =~= strs_view(components@).skip(ci + 1));
                    }
                    r
                } else {
                    proof {
                        assert(!glob_match(pat, cand));
                    }
                    false
                }
            }
        },
    }
}

/// A compiled glob pattern: the ordered compiled components of the raw
/// pattern string.
pub struct GlobPattern {
    components: Vec<ComponentPattern>,
}

impl View for GlobPattern {
    type V = Seq<PatternElem>;

    closed spec fn view(&self) -> Seq<PatternElem> {
        pats_view(self.components@)
    }
}

impl GlobPattern {
    /// Compiles a raw pattern string, splitting it on `/` and discarding
    /// empty segments.
    pub fn new(pattern: &str) -> (r: Self)
        ensures
            r@ == compile_pattern(pattern@),
    {
        let raw = split_components(pattern);
        let mut components: Vec<ComponentPattern> = Vec::new();
        let mut i: usize = 0;
        while i < raw.len()
            invariant
                i <= raw.len(),
                strs_view(raw@) == components_of(pattern@),
                components@.len() == i,
                forall|j: int|
                    0 <= j < i ==> #[trigger] components@[j]@ == compile_component(raw@[j]@),
            decreases raw.len() - i,
        {
            components.push(ComponentPattern::new(raw[i].as_str()));
            i = i + 1;
        }
        proof {
            assert(pats_view(components@) =~= compile_pattern(pattern@));
        }
        GlobPattern { components }
    }

    /// Whether this pattern matches the whole candidate component
    /// sequence.
    pub fn matches(&self, path_components: &[String]) -> (r: bool)
        ensures
            r == glob_match(self@, strs_view(path_components@)),
    {
        proof {
            assert(pats_view(self.components@).skip(0) =~= self@);
            assert(strs_view(path_components@).skip(0) =~= strs_view(path_components@));
        }
        matches_components(&self.components, 0, path_components, 0)
    }
}

/// The views of a sequence of compiled glob patterns.
pub open spec fn glob_views(s: Seq<GlobPattern>) -> Seq<Seq<PatternElem>> {
    s.map_values(|g: GlobPattern| g@)
}

/// Whether any pattern in `pats` matches the component sequence `comps`.
pub open spec fn any_matches(pats: Seq<Seq<PatternElem>>, comps: Seq<Seq<char>>) -> bool {
    exists|i: int| 0 <= i < pats.len() && glob_match(#[trigger] pats[i], comps)
}

/// Whether any of the compiled patterns matches the candidate path,
/// given as its component sequence.
pub fn matches_any(patterns: &[GlobPattern], relative: &[String]) -> (r: bool)
    ensures
        r == any_matches(glob_views(patterns@), strs_view(relative@)),
{
    if patterns.is_empty() {
        return false;
    }
    let mut i: usize = 0;
    while i < patterns.len()
        invariant
            i <= patterns@.len(),
            forall|j: int|
                0 <= j < i ==> !glob_match(
                    #[trigger] glob_views(patterns@)[j],
                    strs_view(relative@),
                ),
        decreases patterns@.len() - i,
    {
        if patterns[i].matches(relative) {
            proof {
                assert(glob_views(patterns@)[i as int] == patterns@[i as int]@);
            }
            return true;
        }
        i = i + 1;
    }
    false
}

/// A segment pattern without wildcards matches exactly the component
/// equal to it.
pub proof fn lemma_literal_segment_match(pat: Seq<char>, cand: Seq<char>)
    requires
        forall|i: int| 0 <= i < pat.len() ==> pat[i] != '*' && pat[i] != '?',
    ensures
        segment_match(pat, cand) <==> pat == cand,
    decreases pat.len(),
{
    if pat.len() == 0 {
        if cand.len() == 0 {
            assert(pat =~= cand);
        }
    } else {
        assert forall|i: int| 0 <= i < pat.skip(1).len() implies #[trigger] pat.skip(1)[i] != '*'
            && pat.skip(1)[i] != '?' by {
            assert(pat.skip(1)[i] == pat[i + 1]);
        }
        lemma_literal_segment_match(pat.skip(1), cand.skip(1));
        if segment_match(pat, cand) {
            assert(cand.len() > 0 && cand[0] == pat[0]);
            assert(pat =~= seq![pat[0]] + pat.skip(1));
            assert(cand =~= seq![cand[0]] + cand.skip(1));
        }
        if pat == cand {
            assert(cand.len() > 0 && cand[0] == pat[0]);
            assert(pat.skip(1) == cand.skip(1));
        }
    }
}

/// A pattern set holding both `**/s` and `**/s/**` (for a segment
/// pattern `s`) excludes every path one of whose components matches `s`:
/// the directory itself and everything beneath it, at any depth.
pub proof fn lemma_anydepth_pair_excludes(seg: Seq<char>, comps: Seq<Seq<char>>, i: int)
    requires
        0 <= i < comps.len(),
        segment_match(seg, comps[i]),
    ensures
        glob_match(seq![PatternElem::AnyDepth, PatternElem::Segment(seg)], comps) || glob_match(
            seq![PatternElem::AnyDepth, PatternElem::Segment(seg), PatternElem::AnyDepth],
            comps,
        ),
{
    if i == comps.len() - 1 {
        let pats = seq![PatternElem::AnyDepth, PatternElem::Segment(seg)];
        let tail = pats.skip(1);
        let rest = comps.skip(i);
        assert(tail[0] == PatternElem::Segment(seg));
        assert(rest.len() == 1);
        assert(rest[0] == comps[i]);
        assert(tail.skip(1).len() == 0);
        assert(rest.skip(1).len() == 0);
        assert(glob_match(tail.skip(1), rest.skip(1)));
        assert(glob_match(tail, rest));
        assert(glob_match(pats, comps));
    } else {
        let pats = seq![
            PatternElem::AnyDepth,
            PatternElem::Segment(seg),
            PatternElem::AnyDepth,
        ];
        let tail = pats.skip(1);
        let rest = comps.skip(i);
        assert(tail[0] == PatternElem::Segment(seg));
        assert(rest.len() > 0);
        assert(rest[0] == comps[i]);
        let deep = tail.skip(1);
        let below = rest.skip(1);
        assert(deep.len() == 1);
        assert(deep[0] == PatternElem::AnyDepth);
        assert(deep.skip(1).len() == 0);
        assert(below.skip(below.len() as int).len() == 0);
        assert(glob_match(deep.skip(1), below.skip(below.len() as int)));
        assert(glob_match(deep, below));
        assert(glob_match(tail, rest));
        assert(glob_match(pats, comps));
    }
}

} // verus!
