//! The root-scope resolver: given the raw list of requested root path
//! strings and the current directory, computes the display label and the
//! optional anchor path that restricts which subtree is rendered.

use vstd::prelude::*;

use crate::paths::make_relative_path;
use crate::paths::paths_view;
use crate::paths::is_absolute_path;
use crate::paths::norm_components;
use crate::paths::relative_components;
use crate::text::strs_view;
use crate::text::joined;
use crate::text::join_parts;
use crate::text::spec_trim;
use crate::text::text_eq;
use crate::text::trim_spaces;

verus! {

/// The requested root strings, each trimmed of whitespace, blank entries
/// dropped, and the rest normalized relative to the current directory.
pub open spec fn normalized_requests(paths: Seq<String>, cwd: Seq<char>) -> Seq<Seq<Seq<char>>>
    decreases paths.len(),
{
    if paths.len() == 0 {
        seq![]
    } else {
        let t = spec_trim(paths[0]@);
        let rest = normalized_requests(paths.skip(1), cwd);
        if t.len() == 0 {
            rest
        } else {
            seq![relative_components(t, cwd)] + rest
        }
    }
}

/// The longest common component-wise prefix of two component sequences.
pub open spec fn common_prefix(a: Seq<Seq<char>>, b: Seq<Seq<char>>) -> Seq<Seq<char>>
    decreases a.len(),
{
    if a.len() == 0 || b.len() == 0 || a[0] != b[0] {
        seq![]
    } else {
        seq![a[0]] + common_prefix(a.skip(1), b.skip(1))
    }
}

/// The common prefix of `acc` and all of `norm` from index `i` on.
pub open spec fn common_prefix_from(
    norm: Seq<Seq<Seq<char>>>,
    i: int,
    acc: Seq<Seq<char>>,
) -> Seq<Seq<char>>
    decreases norm.len() - i,
{
    if i < 0 || i >= norm.len() {
        acc
    } else {
        common_prefix_from(norm, i + 1, common_prefix(acc, norm[i]))
    }
}

/// The resolved root scope: the display label and the optional anchor
/// path.  The label is `.` with no anchor when the request list is empty,
/// when some request is the current directory itself, or when the
/// requests share no common prefix; otherwise the label is the joined
/// common prefix and the anchor is that prefix.
pub open spec fn spec_root_scope(paths: Seq<String>, cwd: Seq<char>) -> (Seq<char>, Option<
    Seq<Seq<char>>,
>) {
    let norm = normalized_requests(paths, cwd);
    if norm.len() == 0 {
        (seq!['.'], None)
    } else if exists|i: int| 0 <= i < norm.len() && (#[trigger] norm[i]).len() == 0 {
        (seq!['.'], None)
    } else {
        let prefix = common_prefix_from(norm, 1, norm[0]);
        if prefix.len() == 0 {
            (seq!['.'], None)
        } else {
            (joined(prefix, seq!['/']), Some(prefix))
        }
    }
}

/// The label used when no anchor is resolved.
fn dot_label() -> (r: String)
    ensures
        r@ == seq!['.'],
{
    let r = ".";
    proof {
        reveal_strlit(".");
        assert(r@ =~= seq!['.']);
    }
    r.to_owned()
}

/// The common prefix of two component sequences is the first `m`
/// components when the sequences agree up to `m` and disagree (or end)
/// there.
proof fn lemma_common_prefix_take(a: Seq<Seq<char>>, b: Seq<Seq<char>>, m: int)
    requires
        0 <= m <= a.len(),
        m <= b.len(),
        forall|j: int| 0 <= j < m ==> a[j] == b[j],
        m == a.len() || m == b.len() || a[m] != b[m],
    ensures
        common_prefix(a, b) == a.take(m),
    decreases m,
{
    if m == 0 {
        assert(common_prefix(a, b) =~= a.take(0));
    } else {
        lemma_common_prefix_take(a.skip(1), b.skip(1), m - 1);
        assert(a.skip(1).take(m - 1) =~= a.take(m).skip(1));
        assert(common_prefix(a, b) =~= seq![a[0]] + common_prefix(a.skip(1), b.skip(1)));
        assert(seq![a[0]] + a.take(m).skip(1) =~= a.take(m));
    }
}

/// Resolves the root scope for the requested root strings: the display
/// label and the optional anchor path, as `spec_root_scope` states.
pub fn determine_root_scope(paths: &[String], current_dir: &str) -> (r: (String, Option<
    Vec<String>,
>))
    ensures
        r.0@ == spec_root_scope(paths@, current_dir@).0,
        (match (r.1, spec_root_scope(paths@, current_dir@).1) {
            (Some(v), Some(s)) => strs_view(v@) == s,
            (None, None) => true,
            _ => false,
        }),
{
    let ghost target = normalized_requests(paths@, current_dir@);
    let mut normalized: Vec<Vec<String>> = Vec::new();
    let mut i: usize = 0;
    proof {
        assert(paths@.skip(0) =~= paths@);
        assert(paths_view(normalized@) + normalized_requests(paths@, current_dir@) =~= target);
    }
    while i < paths.len()
        invariant
            i <= paths@.len(),
            target == normalized_requests(paths@, current_dir@),
            target == paths_view(normalized@) + normalized_requests(
                paths@.skip(i as int),
                current_dir@,
            ),
        decreases paths@.len() - i,
    {
        proof {
            assert(paths@.skip(i as int)[0] == paths@[i as int]);
            assert(paths@.skip(i as int).skip(1) =~= paths@.skip(i + 1));
        }
        let trimmed = trim_spaces(paths[i].as_str());
        if trimmed.unicode_len() > 0 {
            let rel = make_relative_path(trimmed, current_dir);
            proof {
                assert(paths_view(normalized@.push(rel)) =~= paths_view(normalized@) + seq![
                    strs_view(rel@),
                ]);
                assert((paths_view(normalized@) + seq![strs_view(rel@)]) + normalized_requests(
                    paths@.skip(i + 1),
                    current_dir@,
                ) =~= paths_view(normalized@) + (seq![strs_view(rel@)] + normalized_requests(
                    paths@.skip(i + 1),
                    current_dir@,
                )));
            }
            normalized.push(rel);
        }
        i = i + 1;
    }
    proof {
        assert(normalized_requests(paths@.skip(paths@.len() as int), current_dir@).len() == 0);
        assert(paths_view(normalized@) =~= target);
    }
    if normalized.len() == 0 {
        return (dot_label(), None);
    }
    let mut j: usize = 0;
    while j < normalized.len()
        invariant
            j <= normalized@.len(),
            target == normalized_requests(paths@, current_dir@),
            target == paths_view(normalized@),
            forall|k: int| 0 <= k < j ==> (#[trigger] target[k]).len() != 0,
        decreases normalized@.len() - j,
    {
        if normalized[j].len() == 0 {
            proof {
                assert(target[j as int].len() == 0);
            }
            return (dot_label(), None);
        }
        j = j + 1;
    }
    let first = &normalized[0];
    let mut prefix: Vec<String> = Vec::new();
    let mut k: usize = 0;
    while k < first.len()
        invariant
            k <= first@.len(),
            first@ == normalized@[0]@,
            normalized@.len() > 0,
            strs_view(prefix@) =~= strs_view(first@).take(k as int),
        decreases first@.len() - k,
    {
        let comp = first[k].clone();
        proof {
            assert(strs_view(prefix@.push(comp)) =~= strs_view(prefix@) + seq![
                strs_view(first@)[k as int],
            ]);
            assert(strs_view(first@).take(k as int) + seq![strs_view(first@)[k as int]]
                =~= strs_view(first@).take(k + 1));
        }
        prefix.push(comp);
        k = k + 1;
    }
    proof {
        assert(strs_view(first@).take(first@.len() as int) =~= strs_view(first@));
        assert(strs_view(prefix@) == target[0]);
    }
    let mut p: usize = 1;
    while p < normalized.len()
        invariant
            1 <= p <= normalized@.len(),
            target == paths_view(normalized@),
            common_prefix_from(target, 1, target[0]) == common_prefix_from(
                target,
                p as int,
                strs_view(prefix@),
            ),
        decreases normalized@.len() - p,
    {
        let cur = &normalized[p];
        let ghost acc = strs_view(prefix@);
        let ghost curv = strs_view(cur@);
        proof {
            assert(curv == target[p as int]);
        }
        let mut m: usize = 0;
        while m < prefix.len() && m < cur.len() && text_eq(
            prefix[m].as_str(),
            cur[m].as_str(),
        )
            invariant
                m <= prefix@.len(),
                m <= cur@.len(),
                acc == strs_view(prefix@),
                curv == strs_view(cur@),
                forall|q: int| 0 <= q < m ==> acc[q] == curv[q],
            decreases prefix@.len() - m,
        {
            m = m + 1;
        }
        proof {
            assert(m == acc.len() || m == curv.len() || acc[m as int] != curv[m as int]);
            lemma_common_prefix_take(acc, curv, m as int);
        }
        prefix.truncate(m);
        proof {
            assert(strs_view(prefix@) =~= acc.take(m as int));
        }
        p = p + 1;
    }
    proof {
        assert(common_prefix_from(target, normalized@.len() as int, strs_view(prefix@))
            == strs_view(prefix@));
    }
    if prefix.len() == 0 {
        return (dot_label(), None);
    }
    let slash = "/";
    proof {
        reveal_strlit("/");
        assert(slash@ =~= seq!['/']);
    }
    let label = join_parts(&prefix, slash);
    (label, Some(prefix))
}

/// The normalized requests do not depend on the current directory when no
/// trimmed request is absolute.
proof fn lemma_normalized_requests_ignore_cwd(paths: Seq<String>, cwd1: Seq<char>, cwd2: Seq<char>)
    requires
        forall|i: int| 0 <= i < paths.len() ==> !is_absolute_path(spec_trim((#[trigger] paths[i])@)),
    ensures
        normalized_requests(paths, cwd1) == normalized_requests(paths, cwd2),
    decreases paths.len(),
{
    if paths.len() > 0 {
        assert forall|i: int| 0 <= i < paths.skip(1).len() implies !is_absolute_path(
            spec_trim((#[trigger] paths.skip(1)[i])@),
        ) by {
            assert(paths.skip(1)[i] == paths[i + 1]);
        }
        lemma_normalized_requests_ignore_cwd(paths.skip(1), cwd1, cwd2);
        let t = spec_trim(paths[0]@);
        if t.len() != 0 {
            assert(relative_components(t, cwd1) == norm_components(t));
            assert(relative_components(t, cwd2) == norm_components(t));
        }
    }
}

/// Root-scope resolution of relative requests does not depend on the
/// current directory: when no trimmed requested root is an absolute path,
/// the same requests resolve to the same label and anchor under any two
/// current directories.
pub proof fn lemma_root_scope_ignores_cwd(paths: Seq<String>, cwd1: Seq<char>, cwd2: Seq<char>)
    requires
        forall|i: int| 0 <= i < paths.len() ==> !is_absolute_path(spec_trim((#[trigger] paths[i])@)),
    ensures
        spec_root_scope(paths, cwd1) == spec_root_scope(paths, cwd2),
{
    lemma_normalized_requests_ignore_cwd(paths, cwd1, cwd2);
}

} // verus!
