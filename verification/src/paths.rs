//! Path normalization: a path is modelled as its ordered sequence of
//! `/`-separated components, with platform separators and current-directory
//! markers normalized away before matching or tree building.

use vstd::prelude::*;

use crate::text::components_of;
use crate::text::lemma_components_concat;
use crate::text::split_acc;
use crate::text::strs_view;
use crate::text::split_components;
use crate::text::text_eq;

verus! {

/// The component-sequence views of a sequence of component vectors.
pub open spec fn paths_view(s: Seq<Vec<String>>) -> Seq<Seq<Seq<char>>> {
    s.map_values(|v: Vec<String>| strs_view(v@))
}

/// The component sequence with `.` components dropped.
pub open spec fn drop_dots(cs: Seq<Seq<char>>) -> Seq<Seq<char>>
    decreases cs.len(),
{
    if cs.len() == 0 {
        seq![]
    } else if cs[0] == seq!['.'] {
        drop_dots(cs.skip(1))
    } else {
        seq![cs[0]] + drop_dots(cs.skip(1))
    }
}

/// The normalized components of a path string: split on `/`, with empty
/// and `.` segments dropped.
pub open spec fn norm_components(s: Seq<char>) -> Seq<Seq<char>> {
    drop_dots(components_of(s))
}

/// Whether a path string is absolute.
pub open spec fn is_absolute_path(s: Seq<char>) -> bool {
    s.len() > 0 && s[0] == '/'
}

/// The path expressed relative to the current directory: an absolute path
/// under an absolute current directory is stripped of that prefix;
/// everything else keeps its own normalized components.
pub open spec fn relative_components(p: Seq<char>, cwd: Seq<char>) -> Seq<Seq<char>> {
    let pc = norm_components(p);
    let cc = norm_components(cwd);
    if is_absolute_path(p) && is_absolute_path(cwd) && cc.is_prefix_of(pc) {
        pc.skip(cc.len() as int)
    } else {
        pc
    }
}

/// Dropping `.` components distributes over concatenation.
pub proof fn lemma_drop_dots_concat(a: Seq<Seq<char>>, b: Seq<Seq<char>>)
    ensures
        drop_dots(a + b) == drop_dots(a) + drop_dots(b),
    decreases a.len(),
{
    if a.len() == 0 {
        assert(a + b =~= b);
        assert(drop_dots(a) =~= Seq::<Seq<char>>::empty());
        assert(drop_dots(a) + drop_dots(b) =~= drop_dots(b));
    } else {
        assert((a + b)[0] == a[0]);
        assert((a + b).skip(1) =~= a.skip(1) + b);
        lemma_drop_dots_concat(a.skip(1), b);
        if a[0] != seq!['.'] {
            assert(seq![a[0]] + (drop_dots(a.skip(1)) + drop_dots(b)) =~= (seq![a[0]]
                + drop_dots(a.skip(1))) + drop_dots(b));
        }
    }
}

/// A candidate path resolves to the same relative component sequence
/// whether it is written bare, `./`-prefixed, or absolute beneath the
/// current directory.
pub proof fn lemma_candidate_forms_agree(p: Seq<char>, cwd: Seq<char>)
    requires
        !is_absolute_path(p),
        is_absolute_path(cwd),
    ensures
        relative_components(p, cwd) == norm_components(p),
        relative_components(seq!['.', '/'] + p, cwd) == norm_components(p),
        relative_components(cwd + seq!['/'] + p, cwd) == norm_components(p),
{
    let dotted = seq!['.', '/'] + p;
    assert(dotted[0] == '.');
    assert(!is_absolute_path(dotted));
    assert(seq!['.'] + seq!['/'] + p =~= dotted);
    lemma_components_concat(seq!['.'], p);
    assert(seq!['.'].skip(1).len() == 0);
    assert(Seq::<char>::empty().push('.') =~= seq!['.']);
    assert(split_acc(seq!['.'], seq![]) == split_acc(seq!['.'].skip(1), seq!['.']));
    assert(components_of(seq!['.']) == seq![seq!['.']]);
    assert(components_of(dotted) == seq![seq!['.']] + components_of(p));
    lemma_drop_dots_concat(seq![seq!['.']], components_of(p));
    assert(seq![seq!['.']].skip(1).len() == 0);
    assert(seq![seq!['.']][0] == seq!['.']);
    assert(drop_dots(seq![seq!['.']].skip(1)).len() == 0);
    assert(drop_dots(seq![seq!['.']]) =~= Seq::<Seq<char>>::empty());
    assert(norm_components(dotted) =~= norm_components(p));

    let abs = cwd + seq!['/'] + p;
    assert(abs[0] == cwd[0]);
    assert(is_absolute_path(abs));
    lemma_components_concat(cwd, p);
    lemma_drop_dots_concat(components_of(cwd), components_of(p));
    let cc = norm_components(cwd);
    let pc = norm_components(abs);
    assert(pc =~= cc + norm_components(p));
    assert(pc.subrange(0, cc.len() as int) =~= cc);
    assert(cc.is_prefix_of(pc));
    assert(pc.skip(cc.len() as int) =~= norm_components(p));
}

/// Decides whether a path string is absolute.
pub fn is_absolute(s: &str) -> (r: bool)
    ensures
        r == is_absolute_path(s@),
{
    s.unicode_len() > 0 && s.get_char(0) == '/'
}

/// Decides whether a component is the current-directory marker `.`.
fn is_dot(comp: &str) -> (r: bool)
    ensures
        r == (comp@ == seq!['.']),
{
    let r = comp.unicode_len() == 1 && comp.get_char(0) == '.';
    proof {
        if r {
            assert(comp@ =~= seq!['.']);
        } else if comp@ == seq!['.'] {
            assert(comp@.len() == 1);
            assert(comp@[0] == '.');
        }
    }
    r
}

/// Splits a path string into its normalized components, dropping empty
/// and `.` segments.
pub fn normalize_components(s: &str) -> (r: Vec<String>)
    ensures
        strs_view(r@) == norm_components(s@),
{
    let parts = split_components(s);
    let mut r: Vec<String> = Vec::new();
    let ghost cs = strs_view(parts@);
    let mut i: usize = 0;
    proof {
        assert(cs.skip(0) =~= cs);
        assert(strs_view(r@) + drop_dots(cs) =~= drop_dots(cs));
    }
    while i < parts.len()
        invariant
            i <= parts.len(),
            cs == strs_view(parts@),
            norm_components(s@) == strs_view(r@) + drop_dots(cs.skip(i as int)),
        decreases parts.len() - i,
    {
        let ghost rest = cs.skip(i as int);
        proof {
            assert(rest[0] == parts@[i as int]@);
            assert(rest.skip(1) =~= cs.skip(i + 1));
        }
        if !is_dot(parts[i].as_str()) {
            let comp = parts[i].clone();
            proof {
                assert(strs_view(r@.push(comp)) =~= strs_view(r@) + seq![rest[0]]);
                assert((strs_view(r@) + seq![rest[0]]) + drop_dots(cs.skip(i + 1)) =~= strs_view(
                    r@,
                ) + (seq![rest[0]] + drop_dots(cs.skip(i + 1))));
            }
            r.push(comp);
        }
        i = i + 1;
    }
    proof {
        assert(cs.skip(parts@.len() as int).len() == 0);
        assert(strs_view(r@) + drop_dots(cs.skip(parts@.len() as int)) =~= strs_view(r@));
    }
    r
}

/// Expresses a path relative to the current directory and normalizes it:
/// an absolute path that lies under an absolute current directory loses
/// that prefix; any other path only has its empty and `.` segments
/// dropped.
pub fn make_relative_path(path: &str, current_dir: &str) -> (r: Vec<String>)
    ensures
        strs_view(r@) == relative_components(path@, current_dir@),
{
    let pc = normalize_components(path);
    if !(is_absolute(path) && is_absolute(current_dir)) {
        return pc;
    }
    let cc = normalize_components(current_dir);
    let ghost pv = strs_view(pc@);
    let ghost cv = strs_view(cc@);
    if cc.len() > pc.len() {
        proof {
            assert(!cv.is_prefix_of(pv));
        }
        return pc;
    }
    let mut i: usize = 0;
    while i < cc.len()
        invariant
            i <= cc.len() <= pc.len(),
            pv == strs_view(pc@),
            cv == strs_view(cc@),
            pv == norm_components(path@),
            cv == norm_components(current_dir@),
            is_absolute_path(path@),
            is_absolute_path(current_dir@),
            forall|j: int| 0 <= j < i ==> cv[j] == pv[j],
        decreases cc.len() - i,
    {
        if !text_eq(cc[i].as_str(), pc[i].as_str()) {
            proof {
                assert(cv[i as int] != pv[i as int]);
                if cv.is_prefix_of(pv) {
                    assert(cv =~= pv.subrange(0, cv.len() as int));
                    assert(cv[i as int] == pv[i as int]);
                }
            }
            return pc;
        }
        i = i + 1;
    }
    proof {
        assert(cv =~= pv.subrange(0, cv.len() as int));
        assert(cv.is_prefix_of(pv));
    }
    let mut out: Vec<String> = Vec::new();
    let mut j: usize = cc.len();
    while j < pc.len()
        invariant
            cc.len() <= j <= pc.len(),
            pv == strs_view(pc@),
            cv == strs_view(cc@),
            strs_view(out@) =~= pv.subrange(cv.len() as int, j as int),
        decreases pc.len() - j,
    {
        let comp = pc[j].clone();
        proof {
            assert(strs_view(out@.push(comp)) =~= strs_view(out@) + seq![pv[j as int]]);
            assert(pv.subrange(cv.len() as int, j as int) + seq![pv[j as int]] =~= pv.subrange(
                cv.len() as int,
                j + 1,
            ));
        }
        out.push(comp);
        j = j + 1;
    }
    proof {
        assert(pv.subrange(cv.len() as int, pv.len() as int) =~= pv.skip(cv.len() as int));
    }
    out
}

/// Decides view equality of two component sequences.
pub fn path_eq(a: &Vec<String>, b: &Vec<String>) -> (r: bool)
    ensures
        r == (strs_view(a@) == strs_view(b@)),
{
    if a.len() != b.len() {
        proof {
            assert(strs_view(a@).len() != strs_view(b@).len());
        }
        return false;
    }
    let mut i: usize = 0;
    while i < a.len()
        invariant
            i <= a.len(),
            a@.len() == b@.len(),
            forall|j: int| 0 <= j < i ==> strs_view(a@)[j] == strs_view(b@)[j],
        decreases a.len() - i,
    {
        if !text_eq(a[i].as_str(), b[i].as_str()) {
            proof {
                assert(strs_view(a@)[i as int] == a@[i as int]@);
                assert(strs_view(b@)[i as int] == b@[i as int]@);
            }
            return false;
        }
        i = i + 1;
    }
    proof {
        assert(strs_view(a@) =~= strs_view(b@));
    }
    true
}

} // verus!
