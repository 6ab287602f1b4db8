//! The tree relation: the parent-to-children structure synthesized purely
//! from file leaf paths, and its deterministic renderer.
//!
//! The relation maps a parent path (including the empty root path) to an
//! ordered, duplicate-free set of immediate child paths.  Directories come
//! into existence only as prefixes of real file paths.  Rendering walks the
//! relation depth first, children sorted lexicographically, with `├─ ` /
//! `└─ ` connector glyphs.

use vstd::prelude::*;

use crate::paths::make_relative_path;
use crate::scope::determine_root_scope;
use crate::scope::spec_root_scope;
use crate::text::join_parts;
use crate::text::joined;
use crate::paths::paths_view;
use crate::paths::path_eq;
use crate::paths::relative_components;
use crate::text::str_lt;
use crate::text::strs_view;
use crate::text::text_eq;
use crate::text::text_lt;
use crate::text::lemma_str_lt_connex;
use crate::text::lemma_str_lt_trans;

verus! {

/// One row of the tree relation, as it appears in specifications: a
/// parent path and its ordered child paths.
pub struct EntryView {
    pub parent: Seq<Seq<char>>,
    pub children: Seq<Seq<Seq<char>>>,
}

/// One row of the tree relation: a parent path and its ordered,
/// duplicate-free child paths.
struct TreeEntry {
    parent: Vec<String>,
    children: Vec<Vec<String>>,
}

impl View for TreeEntry {
    type V = EntryView;

    closed spec fn view(&self) -> EntryView {
        EntryView { parent: strs_view(self.parent@), children: paths_view(self.children@) }
    }
}

/// The children of one row are immediate children of its parent, in
/// strictly increasing order of their final component.
pub open spec fn entry_wf(e: EntryView) -> bool {
    &&& e.children.len() > 0
    &&& forall|k: int|
        0 <= k < e.children.len() ==> (#[trigger] e.children[k]).len() == e.parent.len() + 1
    &&& forall|k: int|
        0 <= k < e.children.len() ==> (#[trigger] e.children[k]).drop_last() == e.parent
    &&& forall|k: int, l: int|
        0 <= k < l < e.children.len() ==> str_lt(
            (#[trigger] e.children[k]).last(),
            (#[trigger] e.children[l]).last(),
        )
}

/// A well-formed relation: parents are distinct and every row is
/// well-formed.
pub open spec fn rel_wf(r: Seq<EntryView>) -> bool {
    &&& forall|i: int, j: int|
        0 <= i < j < r.len() ==> (#[trigger] r[i]).parent != (#[trigger] r[j]).parent
    &&& forall|i: int| 0 <= i < r.len() ==> entry_wf(#[trigger] r[i])
}

/// The longest parent path length in the relation.
pub open spec fn max_parent_len(r: Seq<EntryView>) -> nat
    decreases r.len(),
{
    if r.len() == 0 {
        0
    } else {
        let rest = max_parent_len(r.skip(1));
        if r[0].parent.len() > rest {
            r[0].parent.len()
        } else {
            rest
        }
    }
}

/// The children of `p` in the relation, or the empty sequence when `p`
/// has no row.
pub open spec fn children_of(r: Seq<EntryView>, p: Seq<Seq<char>>) -> Seq<Seq<Seq<char>>>
    decreases r.len(),
{
    if r.len() == 0 {
        seq![]
    } else if r[0].parent == p {
        r[0].children
    } else {
        children_of(r.skip(1), p)
    }
}

/// Every parent in the relation is at most `max_parent_len` long.
pub proof fn lemma_parent_le_max(r: Seq<EntryView>, i: int)
    requires
        0 <= i < r.len(),
    ensures
        r[i].parent.len() <= max_parent_len(r),
    decreases r.len(),
{
    if i > 0 {
        lemma_parent_le_max(r.skip(1), i - 1);
    }
}

/// A nonempty `children_of` comes from a row of the relation, so it is
/// well-formed and its parent is at most `max_parent_len` long.
pub proof fn lemma_children_of_wf(r: Seq<EntryView>, p: Seq<Seq<char>>)
    requires
        forall|i: int| 0 <= i < r.len() ==> entry_wf(#[trigger] r[i]),
        children_of(r, p).len() > 0,
    ensures
        p.len() <= max_parent_len(r),
        entry_wf(EntryView { parent: p, children: children_of(r, p) }),
    decreases r.len(),
{
    if r.len() == 0 {
    } else if r[0].parent == p {
        lemma_parent_le_max(r, 0);
    } else {
        lemma_children_of_wf(r.skip(1), p);
        if children_of(r.skip(1), p).len() > 0 {
            let j = choose|j: int|
                0 <= j < r.skip(1).len() && #[trigger] r.skip(1)[j].parent == p;
            assert(max_parent_len(r.skip(1)) <= max_parent_len(r));
        }
    }
}

/// The child paths with `child` inserted in order of final component, or
/// unchanged if a child with that final component is already present.
pub open spec fn insert_sorted(
    children: Seq<Seq<Seq<char>>>,
    child: Seq<Seq<char>>,
) -> Seq<Seq<Seq<char>>>
    decreases children.len(),
{
    if children.len() == 0 {
        seq![child]
    } else if child.last() == children[0].last() {
        children
    } else if str_lt(child.last(), children[0].last()) {
        seq![child] + children
    } else {
        seq![children[0]] + insert_sorted(children.skip(1), child)
    }
}

/// The relation with the edge `parent -> child` inserted: the first row
/// for `parent` gains the child (in order, without duplication), or a new
/// row is appended.
pub open spec fn spec_add_edge(
    r: Seq<EntryView>,
    parent: Seq<Seq<char>>,
    child: Seq<Seq<char>>,
) -> Seq<EntryView>
    decreases r.len(),
{
    if r.len() == 0 {
        seq![EntryView { parent: parent, children: seq![child] }]
    } else if r[0].parent == parent {
        seq![EntryView { parent: parent, children: insert_sorted(r[0].children, child) }]
            + r.skip(1)
    } else {
        seq![r[0]] + spec_add_edge(r.skip(1), parent, child)
    }
}

/// Inserting the same child twice leaves the child list as after one
/// insertion.
proof fn lemma_insert_sorted_idempotent(cs: Seq<Seq<Seq<char>>>, child: Seq<Seq<char>>)
    ensures
        insert_sorted(insert_sorted(cs, child), child) == insert_sorted(cs, child),
    decreases cs.len(),
{
    let once = insert_sorted(cs, child);
    if cs.len() == 0 {
        assert(once == seq![child]);
        assert(once[0] == child);
        assert(insert_sorted(once, child) == once);
    } else if child.last() == cs[0].last() {
    } else if str_lt(child.last(), cs[0].last()) {
        assert(once == seq![child] + cs);
        assert(once[0] == child);
        assert(insert_sorted(once, child) == once);
    } else {
        lemma_insert_sorted_idempotent(cs.skip(1), child);
        assert(once == seq![cs[0]] + insert_sorted(cs.skip(1), child));
        assert(once[0] == cs[0]);
        assert(once.skip(1) =~= insert_sorted(cs.skip(1), child));
        assert(insert_sorted(once, child) == seq![cs[0]] + insert_sorted(once.skip(1), child));
    }
}

/// Re-inserting an existing parent-to-child edge is a no-op: the relation
/// after inserting the same edge twice equals the relation after
/// inserting it once.
pub proof fn lemma_add_edge_idempotent(
    r: Seq<EntryView>,
    parent: Seq<Seq<char>>,
    child: Seq<Seq<char>>,
)
    ensures
        spec_add_edge(spec_add_edge(r, parent, child), parent, child) == spec_add_edge(
            r,
            parent,
            child,
        ),
    decreases r.len(),
{
    let once = spec_add_edge(r, parent, child);
    if r.len() == 0 {
        assert(once == seq![EntryView { parent: parent, children: seq![child] }]);
        assert(once[0].parent == parent);
        assert(seq![child][0] == child);
        assert(insert_sorted(seq![child], child) == seq![child]);
        assert(once.skip(1) =~= Seq::<EntryView>::empty());
        assert(spec_add_edge(once, parent, child) =~= once);
    } else if r[0].parent == parent {
        lemma_insert_sorted_idempotent(r[0].children, child);
        let updated = EntryView {
            parent: parent,
            children: insert_sorted(r[0].children, child),
        };
        assert(once == seq![updated] + r.skip(1));
        assert(once[0] == updated);
        assert(once.skip(1) =~= r.skip(1));
        assert(spec_add_edge(once, parent, child) == seq![
            EntryView {
                parent: parent,
                children: insert_sorted(insert_sorted(r[0].children, child), child),
            },
        ] + r.skip(1));
    } else {
        lemma_add_edge_idempotent(r.skip(1), parent, child);
        assert(once == seq![r[0]] + spec_add_edge(r.skip(1), parent, child));
        assert(once[0] == r[0]);
        assert(once.skip(1) =~= spec_add_edge(r.skip(1), parent, child));
        assert(spec_add_edge(once, parent, child) == seq![r[0]] + spec_add_edge(
            once.skip(1),
            parent,
            child,
        ));
    }
}

/// The relation with every prefix edge of `rel` from position `i` on
/// inserted.
pub open spec fn spec_add_path_from(
    r: Seq<EntryView>,
    rel: Seq<Seq<char>>,
    i: int,
) -> Seq<EntryView>
    decreases rel.len() - i,
{
    if i < 0 || i >= rel.len() {
        r
    } else {
        spec_add_path_from(spec_add_edge(r, rel.take(i), rel.take(i + 1)), rel, i + 1)
    }
}

/// The relation with one file path inserted: every strict prefix becomes
/// a parent of the next longer prefix.  An empty path adds nothing.
pub open spec fn spec_add_file(r: Seq<EntryView>, rel: Seq<Seq<char>>) -> Seq<EntryView> {
    spec_add_path_from(r, rel, 0)
}



/// Every row of the relation after inserting an edge has a parent that
/// was already a parent or is the inserted parent.
proof fn lemma_add_edge_parents(r: Seq<EntryView>, p: Seq<Seq<char>>, c: Seq<Seq<char>>)
    ensures
        forall|idx: int|
            0 <= idx < spec_add_edge(r, p, c).len() ==> (#[trigger] spec_add_edge(
                r,
                p,
                c,
            )[idx]).parent == p || exists|j: int|
                0 <= j < r.len() && (#[trigger] r[j]).parent == spec_add_edge(r, p, c)[idx].parent,
    decreases r.len(),
{
    let out = spec_add_edge(r, p, c);
    if r.len() == 0 {
    } else if r[0].parent == p {
        assert forall|idx: int| 0 <= idx < out.len() implies (#[trigger] out[idx]).parent == p
            || exists|j: int| 0 <= j < r.len() && (#[trigger] r[j]).parent == out[idx].parent by {
            if idx > 0 {
                assert(out[idx] == r.skip(1)[idx - 1]);
                assert(r[idx].parent == out[idx].parent);
            }
        }
    } else {
        lemma_add_edge_parents(r.skip(1), p, c);
        let rest = spec_add_edge(r.skip(1), p, c);
        assert forall|idx: int| 0 <= idx < out.len() implies (#[trigger] out[idx]).parent == p
            || exists|j: int| 0 <= j < r.len() && (#[trigger] r[j]).parent == out[idx].parent by {
            if idx == 0 {
                assert(out[0] == r[0]);
                assert(r[0].parent == out[0].parent);
            } else {
                assert(out[idx] == rest[idx - 1]);
                if rest[idx - 1].parent != p {
                    let j = choose|j: int|
                        0 <= j < r.skip(1).len() && (#[trigger] r.skip(1)[j]).parent == rest[idx
                            - 1].parent;
                    assert(r[j + 1].parent == out[idx].parent);
                }
            }
        }
    }
}

/// Inserting a properly shaped edge preserves well-formedness of the
/// relation.
proof fn lemma_add_edge_wf(r: Seq<EntryView>, p: Seq<Seq<char>>, c: Seq<Seq<char>>)
    requires
        rel_wf(r),
        c.len() == p.len() + 1,
        c.drop_last() == p,
    ensures
        rel_wf(spec_add_edge(r, p, c)),
    decreases r.len(),
{
    let out = spec_add_edge(r, p, c);
    if r.len() == 0 {
        let entry = EntryView { parent: p, children: seq![c] };
        assert(out[0] == entry);
        assert(seq![c][0] == c);
        assert(entry_wf(entry));
    } else if r[0].parent == p {
        lemma_insert_sorted_wf(r[0], c);
        let updated = EntryView { parent: p, children: insert_sorted(r[0].children, c) };
        assert(out == seq![updated] + r.skip(1));
        assert(out[0] == updated);
        assert forall|a: int| 0 <= a < out.len() implies entry_wf(#[trigger] out[a]) by {
            if a > 0 {
                assert(out[a] == r[a]);
            }
        }
        assert forall|a: int, b: int| 0 <= a < b < out.len() implies (#[trigger] out[a]).parent
            != (#[trigger] out[b]).parent by {
            assert(out[a].parent == r[a].parent);
            assert(out[b].parent == r[b].parent);
        }
    } else {
        assert forall|i: int, j: int| 0 <= i < j < r.skip(1).len() implies (#[trigger] r.skip(
            1,
        )[i]).parent != (#[trigger] r.skip(1)[j]).parent by {
            assert(r.skip(1)[i] == r[i + 1]);
            assert(r.skip(1)[j] == r[j + 1]);
        }
        assert forall|i: int| 0 <= i < r.skip(1).len() implies entry_wf(
            #[trigger] r.skip(1)[i],
        ) by {
            assert(r.skip(1)[i] == r[i + 1]);
        }
        lemma_add_edge_wf(r.skip(1), p, c);
        lemma_add_edge_parents(r.skip(1), p, c);
        let rest = spec_add_edge(r.skip(1), p, c);
        assert(out == seq![r[0]] + rest);
        assert(out[0] == r[0]);
        assert forall|a: int| 0 <= a < out.len() implies entry_wf(#[trigger] out[a]) by {
            if a > 0 {
                assert(out[a] == rest[a - 1]);
            }
        }
        assert forall|a: int, b: int| 0 <= a < b < out.len() implies (#[trigger] out[a]).parent
            != (#[trigger] out[b]).parent by {
            if a == 0 {
                assert(out[b] == rest[b - 1]);
                if rest[b - 1].parent == r[0].parent {
                    assert(rest[b - 1].parent != p);
                    let j = choose|j: int|
                        0 <= j < r.skip(1).len() && (#[trigger] r.skip(1)[j]).parent == rest[b
                            - 1].parent;
                    assert(r[j + 1].parent == r[0].parent);
                }
            } else {
                assert(out[a] == rest[a - 1]);
                assert(out[b] == rest[b - 1]);
            }
        }
    }
}


/// Inserting a properly shaped child keeps every existing child and puts
/// the new child in the list.
proof fn lemma_insert_sorted_complete(
    cs: Seq<Seq<Seq<char>>>,
    parent: Seq<Seq<char>>,
    child: Seq<Seq<char>>,
)
    requires
        forall|k: int| 0 <= k < cs.len() ==> (#[trigger] cs[k]).len() == parent.len() + 1,
        forall|k: int| 0 <= k < cs.len() ==> (#[trigger] cs[k]).drop_last() == parent,
        child.len() == parent.len() + 1,
        child.drop_last() == parent,
    ensures
        insert_sorted(cs, child).contains(child),
        forall|x: Seq<Seq<char>>|
            cs.contains(x) ==> #[trigger] insert_sorted(cs, child).contains(x),
    decreases cs.len(),
{
    let out = insert_sorted(cs, child);
    if cs.len() == 0 {
        assert(out[0] == child);
    } else if child.last() == cs[0].last() {
        assert(cs[0] =~= cs[0].drop_last().push(cs[0].last()));
        assert(child =~= child.drop_last().push(child.last()));
        assert(cs[0] == child);
        assert(out.contains(child));
    } else if str_lt(child.last(), cs[0].last()) {
        assert(out[0] == child);
        assert(out.contains(child));
        assert forall|x: Seq<Seq<char>>| cs.contains(x) implies #[trigger] out.contains(x) by {
            let i = choose|i: int| 0 <= i < cs.len() && cs[i] == x;
            assert(out[i + 1] == x);
        }
    } else {
        assert forall|k: int| 0 <= k < cs.skip(1).len() implies (#[trigger] cs.skip(1)[k]).len()
            == parent.len() + 1 && (#[trigger] cs.skip(1)[k]).drop_last() == parent by {
            assert(cs.skip(1)[k] == cs[k + 1]);
        }
        lemma_insert_sorted_complete(cs.skip(1), parent, child);
        let rest = insert_sorted(cs.skip(1), child);
        assert(out == seq![cs[0]] + rest);
        let ci = choose|ci: int| 0 <= ci < rest.len() && rest[ci] == child;
        assert(out[ci + 1] == child);
        assert(out.contains(child));
        assert forall|x: Seq<Seq<char>>| cs.contains(x) implies #[trigger] out.contains(x) by {
            let i = choose|i: int| 0 <= i < cs.len() && cs[i] == x;
            if i == 0 {
                assert(out[0] == x);
            } else {
                assert(cs.skip(1)[i - 1] == x);
                assert(cs.skip(1).contains(x));
                assert(rest.contains(x));
                let j = choose|j: int| 0 <= j < rest.len() && rest[j] == x;
                assert(out[j + 1] == x);
            }
        }
    }
}

/// Inserting an edge keeps every existing edge and makes the new child a
/// child of its parent.
proof fn lemma_add_edge_complete(r: Seq<EntryView>, p: Seq<Seq<char>>, c: Seq<Seq<char>>)
    requires
        rel_wf(r),
        c.len() == p.len() + 1,
        c.drop_last() == p,
    ensures
        children_of(spec_add_edge(r, p, c), p).contains(c),
        forall|q: Seq<Seq<char>>, x: Seq<Seq<char>>|
            children_of(r, q).contains(x) ==> #[trigger] children_of(
                spec_add_edge(r, p, c),
                q,
            ).contains(x),
    decreases r.len(),
{
    let out = spec_add_edge(r, p, c);
    if r.len() == 0 {
        let entry = EntryView { parent: p, children: seq![c] };
        assert(out[0] == entry);
        assert(children_of(out, p) == seq![c]);
        assert(seq![c][0] == c);
        assert(children_of(out, p).contains(c));
    } else if r[0].parent == p {
        let updated = EntryView { parent: p, children: insert_sorted(r[0].children, c) };
        assert(out == seq![updated] + r.skip(1));
        assert(out[0] == updated);
        assert(out.skip(1) =~= r.skip(1));
        assert(entry_wf(r[0]));
        lemma_insert_sorted_complete(r[0].children, p, c);
        assert(children_of(out, p) == updated.children);
        assert forall|q: Seq<Seq<char>>, x: Seq<Seq<char>>|
            children_of(r, q).contains(x) implies #[trigger] children_of(out, q).contains(x) by {
            if q == p {
                assert(children_of(r, q) == r[0].children);
            } else {
                assert(children_of(out, q) == children_of(r.skip(1), q));
                assert(children_of(r, q) == children_of(r.skip(1), q));
            }
        }
    } else {
        assert forall|i: int, j: int| 0 <= i < j < r.skip(1).len() implies (#[trigger] r.skip(
            1,
        )[i]).parent != (#[trigger] r.skip(1)[j]).parent by {
            assert(r.skip(1)[i] == r[i + 1]);
            assert(r.skip(1)[j] == r[j + 1]);
        }
        assert forall|i: int| 0 <= i < r.skip(1).len() implies entry_wf(
            #[trigger] r.skip(1)[i],
        ) by {
            assert(r.skip(1)[i] == r[i + 1]);
        }
        lemma_add_edge_complete(r.skip(1), p, c);
        let rest = spec_add_edge(r.skip(1), p, c);
        assert(out == seq![r[0]] + rest);
        assert(out[0] == r[0]);
        assert(out.skip(1) =~= rest);
        assert(children_of(out, p) == children_of(rest, p));
        assert forall|q: Seq<Seq<char>>, x: Seq<Seq<char>>|
            children_of(r, q).contains(x) implies #[trigger] children_of(out, q).contains(x) by {
            if q == r[0].parent {
                assert(children_of(out, q) == r[0].children);
                assert(children_of(r, q) == r[0].children);
            } else {
                assert(children_of(r, q) == children_of(r.skip(1), q));
                assert(children_of(out, q) == children_of(rest, q));
            }
        }
    }
}

/// Inserting the prefix edges of `rel` from position `j` on keeps every
/// existing edge, keeps the relation well-formed, and makes every such
/// prefix step an edge.
proof fn lemma_add_path_complete(r: Seq<EntryView>, rel: Seq<Seq<char>>, j: int)
    requires
        rel_wf(r),
        0 <= j,
    ensures
        rel_wf(spec_add_path_from(r, rel, j)),
        forall|q: Seq<Seq<char>>, x: Seq<Seq<char>>|
            children_of(r, q).contains(x) ==> #[trigger] children_of(
                spec_add_path_from(r, rel, j),
                q,
            ).contains(x),
        forall|k: int|
            j <= k < rel.len() ==> children_of(
                spec_add_path_from(r, rel, j),
                #[trigger] rel.take(k),
            ).contains(rel.take(k + 1)),
    decreases rel.len() - j,
{
    if j >= rel.len() {
    } else {
        assert(rel.take(j + 1).drop_last() =~= rel.take(j));
        lemma_add_edge_wf(r, rel.take(j), rel.take(j + 1));
        lemma_add_edge_complete(r, rel.take(j), rel.take(j + 1));
        let stepped = spec_add_edge(r, rel.take(j), rel.take(j + 1));
        lemma_add_path_complete(stepped, rel, j + 1);
        let out = spec_add_path_from(r, rel, j);
        assert(out == spec_add_path_from(stepped, rel, j + 1));
        assert(children_of(stepped, rel.take(j)).contains(rel.take(j + 1)));
        assert(children_of(out, rel.take(j)).contains(rel.take(j + 1)));
    }
}

/// The relation built from any file list is well-formed, and every prefix
/// step of every file's relative component sequence is one of its edges.
pub proof fn lemma_tree_has_file_prefixes(
    files: Seq<Seq<char>>,
    cwd: Seq<char>,
    i: int,
    k: int,
)
    requires
        0 <= i < files.len(),
        0 <= k < relative_components(files[i], cwd).len(),
    ensures
        rel_wf(spec_build(files, cwd)),
        children_of(
            spec_build(files, cwd),
            relative_components(files[i], cwd).take(k),
        ).contains(relative_components(files[i], cwd).take(k + 1)),
    decreases files.len(),
{
    let before = spec_build(files.drop_last(), cwd);
    let rel = relative_components(files.last(), cwd);
    lemma_build_wf(files.drop_last(), cwd);
    lemma_add_path_complete(before, rel, 0);
    if i == files.len() - 1 {
        assert(files[i] == files.last());
    } else {
        assert(files.drop_last()[i] == files[i]);
        lemma_tree_has_file_prefixes(files.drop_last(), cwd, i, k);
    }
}

/// The relation built from any file list is well-formed.
pub proof fn lemma_build_wf(files: Seq<Seq<char>>, cwd: Seq<char>)
    ensures
        rel_wf(spec_build(files, cwd)),
    decreases files.len(),
{
    if files.len() > 0 {
        lemma_build_wf(files.drop_last(), cwd);
        lemma_add_path_complete(
            spec_build(files.drop_last(), cwd),
            relative_components(files.last(), cwd),
            0,
        );
    }
}

/// Every member of an `insert_sorted` result was in the list or is the
/// inserted child.
proof fn lemma_insert_sorted_source(
    cs: Seq<Seq<Seq<char>>>,
    child: Seq<Seq<char>>,
    x: Seq<Seq<char>>,
)
    requires
        insert_sorted(cs, child).contains(x),
    ensures
        cs.contains(x) || x == child,
    decreases cs.len(),
{
    let out = insert_sorted(cs, child);
    let i = choose|i: int| 0 <= i < out.len() && out[i] == x;
    if cs.len() == 0 {
        assert(out[i] == child);
    } else if child.last() == cs[0].last() {
    } else if str_lt(child.last(), cs[0].last()) {
        if i > 0 {
            assert(out[i] == cs[i - 1]);
        }
    } else {
        if i == 0 {
            assert(out[0] == cs[0]);
            assert(cs[0] == x);
        } else {
            let rest = insert_sorted(cs.skip(1), child);
            assert(out[i] == rest[i - 1]);
            assert(rest.contains(x));
            lemma_insert_sorted_source(cs.skip(1), child, x);
            if cs.skip(1).contains(x) {
                let j = choose|j: int| 0 <= j < cs.skip(1).len() && cs.skip(1)[j] == x;
                assert(cs[j + 1] == x);
            }
        }
    }
}

/// Every child of `p` after inserting the edge `q -> child` was a child
/// of `p` before, or is the inserted child under its own parent.
proof fn lemma_add_edge_source(
    r: Seq<EntryView>,
    q: Seq<Seq<char>>,
    child: Seq<Seq<char>>,
    p: Seq<Seq<char>>,
    x: Seq<Seq<char>>,
)
    requires
        children_of(spec_add_edge(r, q, child), p).contains(x),
    ensures
        children_of(r, p).contains(x) || (p == q && x == child),
    decreases r.len(),
{
    let out = spec_add_edge(r, q, child);
    if r.len() == 0 {
        let entry = EntryView { parent: q, children: seq![child] };
        assert(out[0] == entry);
        if p == q {
            assert(children_of(out, p) == seq![child]);
            let i = choose|i: int| 0 <= i < seq![child].len() && seq![child][i] == x;
            assert(x == child);
        } else {
            assert(out.skip(1).len() == 0);
            assert(children_of(out.skip(1), p).len() == 0);
            assert(children_of(out, p) == children_of(out.skip(1), p));
        }
    } else if r[0].parent == q {
        let updated = EntryView { parent: q, children: insert_sorted(r[0].children, child) };
        assert(out == seq![updated] + r.skip(1));
        assert(out[0] == updated);
        assert(out.skip(1) =~= r.skip(1));
        if p == q {
            assert(children_of(out, p) == updated.children);
            lemma_insert_sorted_source(r[0].children, child, x);
        } else {
            assert(children_of(out, p) == children_of(r.skip(1), p));
            assert(children_of(r, p) == children_of(r.skip(1), p));
        }
    } else {
        assert(out == seq![r[0]] + spec_add_edge(r.skip(1), q, child));
        assert(out[0] == r[0]);
        assert(out.skip(1) =~= spec_add_edge(r.skip(1), q, child));
        if p == r[0].parent {
            assert(children_of(out, p) == r[0].children);
            assert(children_of(r, p) == r[0].children);
        } else {
            assert(children_of(out, p) == children_of(spec_add_edge(r.skip(1), q, child), p));
            lemma_add_edge_source(r.skip(1), q, child, p, x);
        }
    }
}

/// Every child of `p` after inserting the prefix edges of `rel` from
/// position `j` on was a child of `p` before, or is one of those prefix
/// edges.
proof fn lemma_add_path_source(
    r: Seq<EntryView>,
    rel: Seq<Seq<char>>,
    j: int,
    p: Seq<Seq<char>>,
    x: Seq<Seq<char>>,
)
    requires
        0 <= j,
        children_of(spec_add_path_from(r, rel, j), p).contains(x),
    ensures
        children_of(r, p).contains(x) || exists|k: int|
            j <= k < rel.len() && p == #[trigger] rel.take(k) && x == rel.take(k + 1),
    decreases rel.len() - j,
{
    if j >= rel.len() {
    } else {
        let stepped = spec_add_edge(r, rel.take(j), rel.take(j + 1));
        lemma_add_path_source(stepped, rel, j + 1, p, x);
        if children_of(stepped, p).contains(x) {
            lemma_add_edge_source(r, rel.take(j), rel.take(j + 1), p, x);
            if !children_of(r, p).contains(x) {
                assert(p == rel.take(j) && x == rel.take(j + 1));
            }
        }
    }
}

/// Directories are synthesized only as prefixes of real file paths: every
/// edge of the built relation is one prefix step of the relative
/// component sequence of some file in the list.
pub proof fn lemma_tree_nodes_from_files(
    files: Seq<Seq<char>>,
    cwd: Seq<char>,
    p: Seq<Seq<char>>,
    c: Seq<Seq<char>>,
)
    requires
        children_of(spec_build(files, cwd), p).contains(c),
    ensures
        exists|i: int, k: int|
            0 <= i < files.len() && 0 <= k < relative_components(files[i], cwd).len() && p
                == #[trigger] relative_components(files[i], cwd).take(k) && c
                == relative_components(files[i], cwd).take(k + 1),
    decreases files.len(),
{
    if files.len() == 0 {
    } else {
        let before = spec_build(files.drop_last(), cwd);
        let rel = relative_components(files.last(), cwd);
        lemma_add_path_source(before, rel, 0, p, c);
        if children_of(before, p).contains(c) {
            lemma_tree_nodes_from_files(files.drop_last(), cwd, p, c);
            let (i, k): (int, int) = choose|i: int, k: int|
                0 <= i < files.drop_last().len() && 0 <= k < relative_components(
                    files.drop_last()[i],
                    cwd,
                ).len() && p == #[trigger] relative_components(files.drop_last()[i], cwd).take(k)
                    && c == relative_components(files.drop_last()[i], cwd).take(k + 1);
            assert(files.drop_last()[i] == files[i]);
            assert(p == relative_components(files[i], cwd).take(k));
        } else {
            let k = choose|k: int|
                0 <= k < rel.len() && p == #[trigger] rel.take(k) && c == rel.take(k + 1);
            let i = files.len() - 1;
            assert(files[i] == files.last());
            assert(p == relative_components(files[i], cwd).take(k));
        }
    }
}

/// The relation built from the file paths, each first expressed relative
/// to the current directory.
pub open spec fn spec_build(files: Seq<Seq<char>>, cwd: Seq<char>) -> Seq<EntryView>
    decreases files.len(),
{
    if files.len() == 0 {
        seq![]
    } else {
        spec_add_file(spec_build(files.drop_last(), cwd), relative_components(files.last(), cwd))
    }
}

/// The final component of a nonempty component vector.
fn last_of(v: &Vec<String>) -> (r: &String)
    requires
        v@.len() > 0,
    ensures
        r@ == strs_view(v@).last(),
{
    &v[v.len() - 1]
}

/// Copies a component vector.
fn clone_path(p: &Vec<String>) -> (r: Vec<String>)
    ensures
        strs_view(r@) == strs_view(p@),
{
    let mut r: Vec<String> = Vec::new();
    let mut i: usize = 0;
    while i < p.len()
        invariant
            i <= p@.len(),
            r@.len() == i,
            forall|j: int| 0 <= j < i ==> strs_view(r@)[j] == strs_view(p@)[j],
        decreases p@.len() - i,
    {
        r.push(p[i].clone());
        i = i + 1;
    }
    proof {
        assert(strs_view(r@) =~= strs_view(p@));
    }
    r
}

/// Inserts `child` into a sorted child list, keeping it sorted and
/// duplicate-free.
fn insert_child(children: &mut Vec<Vec<String>>, child: &Vec<String>)
    requires
        child@.len() > 0,
        forall|k: int, l: int|
            0 <= k < l < old(children)@.len() ==> str_lt(
                (#[trigger] paths_view(old(children)@)[k]).last(),
                (#[trigger] paths_view(old(children)@)[l]).last(),
            ),
        forall|k: int| 0 <= k < old(children)@.len() ==> (#[trigger] paths_view(
            old(children)@,
        )[k]).len() > 0,
    ensures
        paths_view(final(children)@) == insert_sorted(
            paths_view(old(children)@),
            strs_view(child@),
        ),
{
    let ghost cs = paths_view(old(children)@);
    let ghost cv = strs_view(child@);
    let child_name = &child[child.len() - 1];
    proof {
        assert(cv.last() == child@[child@.len() - 1]@);
    }
    let mut pos: usize = 0;
    proof {
        assert forall|k: int| 0 <= k < children@.len() implies (#[trigger] children@[k])@.len()
            > 0 by {
            assert(paths_view(children@)[k].len() == strs_view(children@[k]@).len());
        }
    }
    while pos < children.len() && text_lt(last_of(&children[pos]).as_str(), child_name.as_str())
        invariant
            pos <= children@.len(),
            children@ == old(children)@,
            cs == paths_view(children@),
            cv == strs_view(child@),
            cv.last() == child@[child@.len() - 1]@,
            child@.len() > 0,
            child_name@ == cv.last(),
            forall|k: int| 0 <= k < children@.len() ==> (#[trigger] children@[k])@.len() > 0,
            forall|q: int| 0 <= q < pos ==> str_lt((#[trigger] cs[q]).last(), cv.last()),
        decreases children@.len() - pos,
    {
        proof {
            assert(cs[pos as int] == strs_view(children@[pos as int]@));
            assert(children@[pos as int]@.len() > 0);
            assert(cs[pos as int].last() == children@[pos as int]@[children@[pos as int]@.len()
                - 1]@);
        }
        pos = pos + 1;
    }
    proof {
        if pos < children@.len() {
            assert(cs[pos as int] == strs_view(children@[pos as int]@));
            assert(cs[pos as int].last() == children@[pos as int]@[children@[pos as int]@.len()
                - 1]@);
        }
    }
    if pos < children.len() && text_eq(last_of(&children[pos]).as_str(), child_name.as_str()) {
        proof {
            lemma_insert_sorted_at(cs, cv, pos as int);
        }
        return;
    }
    proof {
        lemma_insert_sorted_at(cs, cv, pos as int);
    }
    children.insert(pos, clone_path(child));
    proof {
        assert(paths_view(children@) =~= cs.insert(pos as int, cv));
    }
}

/// `insert_sorted` inserts at the first position whose final component is
/// not below the new child's, or leaves the list unchanged when that
/// position already holds the same final component.
proof fn lemma_insert_sorted_at(cs: Seq<Seq<Seq<char>>>, child: Seq<Seq<char>>, pos: int)
    requires
        0 <= pos <= cs.len(),
        forall|q: int| 0 <= q < pos ==> str_lt((#[trigger] cs[q]).last(), child.last()),
        pos < cs.len() ==> !str_lt(cs[pos].last(), child.last()),
    ensures
        pos < cs.len() && cs[pos].last() == child.last() ==> insert_sorted(cs, child) == cs,
        !(pos < cs.len() && cs[pos].last() == child.last()) ==> insert_sorted(cs, child)
            == cs.insert(pos, child),
    decreases cs.len(),
{
    if cs.len() == 0 {
        assert(insert_sorted(cs, child) =~= cs.insert(0, child));
    } else if pos == 0 {
        if cs[0].last() == child.last() {
        } else {
            if !str_lt(child.last(), cs[0].last()) {
                lemma_str_lt_connex(child.last(), cs[0].last());
            }
            assert(str_lt(child.last(), cs[0].last()));
            assert(seq![child] + cs =~= cs.insert(0, child));
        }
    } else {
        assert(str_lt(cs[0].last(), child.last()));
        if child.last() == cs[0].last() {
            lemma_str_lt_irrefl(child.last());
        }
        if str_lt(child.last(), cs[0].last()) {
            lemma_str_lt_trans(child.last(), cs[0].last(), child.last());
            lemma_str_lt_irrefl(child.last());
        }
        lemma_insert_sorted_at(cs.skip(1), child, pos - 1);
        if pos < cs.len() && cs[pos].last() == child.last() {
            assert(cs.skip(1)[pos - 1] == cs[pos]);
            assert(seq![cs[0]] + cs.skip(1) =~= cs);
        } else {
            assert(seq![cs[0]] + cs.skip(1).insert(pos - 1, child) =~= cs.insert(pos, child));
        }
    }
}

/// No sequence precedes itself.
proof fn lemma_str_lt_irrefl(a: Seq<char>)
    ensures
        !str_lt(a, a),
    decreases a.len(),
{
    if a.len() > 0 {
        lemma_str_lt_irrefl(a.skip(1));
    }
}

/// Inserting a child into a well-formed sorted list keeps it sorted and
/// keeps the parent shape, provided the child has that shape.
proof fn lemma_insert_sorted_wf(e: EntryView, child: Seq<Seq<char>>)
    requires
        entry_wf(e) || e.children.len() == 0,
        forall|k: int|
            0 <= k < e.children.len() ==> (#[trigger] e.children[k]).len() == e.parent.len() + 1,
        forall|k: int|
            0 <= k < e.children.len() ==> (#[trigger] e.children[k]).drop_last() == e.parent,
        forall|k: int, l: int|
            0 <= k < l < e.children.len() ==> str_lt(
                (#[trigger] e.children[k]).last(),
                (#[trigger] e.children[l]).last(),
            ),
        child.len() == e.parent.len() + 1,
        child.drop_last() == e.parent,
    ensures
        entry_wf(EntryView { parent: e.parent, children: insert_sorted(e.children, child) }),
    decreases e.children.len(),
{
    let out = insert_sorted(e.children, child);
    if e.children.len() == 0 {
        assert(out =~= seq![child]);
    } else if child.last() == e.children[0].last() {
    } else if str_lt(child.last(), e.children[0].last()) {
        let cs = e.children;
        assert(out =~= seq![child] + cs);
        assert forall|k: int, l: int| 0 <= k < l < out.len() implies str_lt(
            (#[trigger] out[k]).last(),
            (#[trigger] out[l]).last(),
        ) by {
            if k == 0 {
                if l > 1 {
                    lemma_str_lt_trans(child.last(), cs[0].last(), cs[l - 1].last());
                }
            }
        }
    } else {
        if !str_lt(e.children[0].last(), child.last()) {
            lemma_str_lt_connex(child.last(), e.children[0].last());
        }
        assert(str_lt(e.children[0].last(), child.last()));
        let sub = EntryView { parent: e.parent, children: e.children.skip(1) };
        lemma_insert_sorted_wf(sub, child);
        let rest = insert_sorted(e.children.skip(1), child);
        assert(out =~= seq![e.children[0]] + rest);
        assert forall|k: int, l: int| 0 <= k < l < out.len() implies str_lt(
            (#[trigger] out[k]).last(),
            (#[trigger] out[l]).last(),
        ) by {
            if k == 0 {
                lemma_insert_sorted_first(e.children.skip(1), child, e.children[0].last());
            }
        }
    }
}

/// Every element of an `insert_sorted` result whose inputs all exceed a
/// bound itself exceeds the bound.
proof fn lemma_insert_sorted_first(
    cs: Seq<Seq<Seq<char>>>,
    child: Seq<Seq<char>>,
    bound: Seq<char>,
)
    requires
        forall|k: int| 0 <= k < cs.len() ==> str_lt(bound, (#[trigger] cs[k]).last()),
        str_lt(bound, child.last()),
    ensures
        forall|k: int|
            0 <= k < insert_sorted(cs, child).len() ==> str_lt(
                bound,
                (#[trigger] insert_sorted(cs, child)[k]).last(),
            ),
    decreases cs.len(),
{
    let out = insert_sorted(cs, child);
    if cs.len() == 0 {
        assert forall|k: int| 0 <= k < out.len() implies str_lt(
            bound,
            (#[trigger] out[k]).last(),
        ) by {
            assert(out[k] == child);
        }
    } else if child.last() == cs[0].last() {
    } else if str_lt(child.last(), cs[0].last()) {
        assert forall|k: int| 0 <= k < out.len() implies str_lt(
            bound,
            (#[trigger] out[k]).last(),
        ) by {
            if k > 0 {
                assert(out[k] == cs[k - 1]);
            }
        }
    } else {
        assert forall|k: int| 0 <= k < cs.skip(1).len() implies str_lt(
            bound,
            (#[trigger] cs.skip(1)[k]).last(),
        ) by {
            assert(cs.skip(1)[k] == cs[k + 1]);
        }
        lemma_insert_sorted_first(cs.skip(1), child, bound);
        let rest = insert_sorted(cs.skip(1), child);
        assert forall|k: int| 0 <= k < out.len() implies str_lt(
            bound,
            (#[trigger] out[k]).last(),
        ) by {
            if k > 0 {
                assert(out[k] == rest[k - 1]);
            }
        }
    }
}

/// The connector glyph for a child line.
pub open spec fn connector_glyph(is_last: bool) -> Seq<char> {
    if is_last {
        seq!['└', '─', ' ']
    } else {
        seq!['├', '─', ' ']
    }
}

/// The indentation a child line adds for its own descendants.
pub open spec fn indent_glyph(is_last: bool) -> Seq<char> {
    if is_last {
        seq![' ', ' ', ' ']
    } else {
        seq!['│', ' ', ' ']
    }
}

/// The display name of a node: its final path component, or the full
/// joined path when there is no nonempty final component.
pub open spec fn display_of(p: Seq<Seq<char>>) -> Seq<char> {
    if p.len() > 0 && p.last().len() > 0 {
        p.last()
    } else {
        joined(p, seq!['/'])
    }
}

/// Whether a child list may stand under the relation: all entries of one
/// length, at most one longer than the longest parent.
pub open spec fn kids_ok(r: Seq<EntryView>, kids: Seq<Seq<Seq<char>>>) -> bool {
    kids.len() > 0 ==> {
        &&& 1 <= kids[0].len() <= max_parent_len(r) + 1
        &&& forall|i: int| 0 <= i < kids.len() ==> (#[trigger] kids[i]).len() == kids[0].len()
    }
}

/// The rendering recursion measure: how much deeper the relation can go
/// below this child list.
pub open spec fn rank(r: Seq<EntryView>, kids: Seq<Seq<Seq<char>>>) -> int {
    if kids.len() == 0 {
        0
    } else {
        max_parent_len(r) + 2 - kids[0].len()
    }
}

/// The rendered lines for the child list `kids` under `prefix`: for each
/// child in order, its connector line followed by the lines of its own
/// subtree, indented by whether it is the last sibling.
pub open spec fn spec_render_children(
    r: Seq<EntryView>,
    kids: Seq<Seq<Seq<char>>>,
    prefix: Seq<char>,
) -> Seq<Seq<char>>
    decreases rank(r, kids), kids.len(),
        when rel_wf(r) && kids_ok(r, kids)
{
    if kids.len() == 0 {
        seq![]
    } else {
        let node = kids[0];
        let is_last = kids.len() == 1;
        let line = prefix + connector_glyph(is_last) + display_of(node);
        let sub = children_of(r, node);
        proof {
            if sub.len() > 0 {
                lemma_children_of_wf(r, node);
                assert(sub[0].len() == node.len() + 1);
            }
            if kids.len() > 1 {
                assert(kids.skip(1)[0] == kids[1]);
            }
        }
        seq![line] + spec_render_children(r, sub, prefix + indent_glyph(is_last))
            + spec_render_children(r, kids.skip(1), prefix)
    }
}

/// Unfolds one step of `spec_render_children` on a nonempty child list.
proof fn lemma_render_children_unfold(
    r: Seq<EntryView>,
    kids: Seq<Seq<Seq<char>>>,
    prefix: Seq<char>,
)
    requires
        rel_wf(r),
        kids_ok(r, kids),
        kids.len() > 0,
    ensures
        spec_render_children(r, kids, prefix) == seq![
            prefix + connector_glyph(kids.len() == 1) + display_of(kids[0]),
        ] + spec_render_children(
            r,
            children_of(r, kids[0]),
            prefix + indent_glyph(kids.len() == 1),
        ) + spec_render_children(r, kids.skip(1), prefix),
{
    let sub = children_of(r, kids[0]);
    if sub.len() > 0 {
        lemma_children_of_wf(r, kids[0]);
        assert(entry_wf(EntryView { parent: kids[0], children: sub }));
        assert(sub[0].len() == kids[0].len() + 1);
        assert(kids_ok(r, sub));
    } else {
        assert(kids_ok(r, sub));
    }
    if kids.len() > 1 {
        assert(kids.skip(1)[0] == kids[1]);
        assert forall|q: int| 0 <= q < kids.skip(1).len() implies (#[trigger] kids.skip(
            1,
        )[q]).len() == kids.skip(1)[0].len() by {
            assert(kids.skip(1)[q] == kids[q + 1]);
        }
    }
    assert(kids_ok(r, kids.skip(1)));
}

/// The rendered lines for one node: its own connector line followed by
/// the lines of its children.
pub open spec fn spec_node_lines(
    r: Seq<EntryView>,
    node: Seq<Seq<char>>,
    prefix: Seq<char>,
    is_last: bool,
) -> Seq<Seq<char>> {
    seq![prefix + connector_glyph(is_last) + display_of(node)] + spec_render_children(
        r,
        children_of(r, node),
        prefix + indent_glyph(is_last),
    )
}

/// The display name of a node: its final path component, or the full
/// joined path when that is absent or empty.
pub fn display_name(path: &Vec<String>) -> (r: String)
    ensures
        r@ == display_of(strs_view(path@)),
{
    if path.len() > 0 {
        let last = &path[path.len() - 1];
        if last.unicode_len() > 0 {
            proof {
                assert(strs_view(path@).last() == last@);
            }
            return last.clone();
        }
        proof {
            assert(strs_view(path@).last() == last@);
        }
    }
    let slash = "/";
    proof {
        reveal_strlit("/");
        assert(slash@ =~= seq!['/']);
    }
    join_parts(path, slash)
}

/// The tree relation: an arena-style association of parent paths with
/// their ordered child paths.
pub struct TreeRelation {
    entries: Vec<TreeEntry>,
}

impl View for TreeRelation {
    type V = Seq<EntryView>;

    closed spec fn view(&self) -> Seq<EntryView> {
        self.entries@.map_values(|e: TreeEntry| e@)
    }
}

impl TreeRelation {
    /// Whether the relation is well-formed.
    pub open spec fn wf(&self) -> bool {
        rel_wf(self@)
    }

    /// The empty relation.
    pub fn new() -> (r: Self)
        ensures
            r@ == Seq::<EntryView>::empty(),
            r.wf(),
    {
        let r = TreeRelation { entries: Vec::new() };
        proof {
            assert(r@ =~= Seq::<EntryView>::empty());
        }
        r
    }

    /// Whether the relation has no rows.
    pub fn is_empty(&self) -> (r: bool)
        ensures
            r == (self@.len() == 0),
    {
        self.entries.len() == 0
    }

    /// Inserts the edge `parent -> child`; re-inserting an existing edge
    /// is a no-op.
    pub fn insert_edge(&mut self, parent: &Vec<String>, child: &Vec<String>)
        requires
            old(self).wf(),
            child@.len() > 0,
            strs_view(child@).len() == strs_view(parent@).len() + 1,
            strs_view(child@).drop_last() == strs_view(parent@),
        ensures
            final(self).wf(),
            final(self)@ == spec_add_edge(old(self)@, strs_view(parent@), strs_view(child@)),
    {
        let ghost r0 = self@;
        let ghost pv = strs_view(parent@);
        let ghost cv = strs_view(child@);
        let mut i: usize = 0;
        proof {
            assert(r0.skip(0) =~= r0);
            assert(r0.take(0) + spec_add_edge(r0, pv, cv) =~= spec_add_edge(r0, pv, cv));
        }
        while i < self.entries.len()
            invariant
                i <= self.entries@.len(),
                self == old(self),
                r0 == self@,
                rel_wf(r0),
                pv == strs_view(parent@),
                cv == strs_view(child@),
                child@.len() > 0,
                cv.len() == pv.len() + 1,
                cv.drop_last() == pv,
                forall|j: int| 0 <= j < i ==> (#[trigger] r0[j]).parent != pv,
                spec_add_edge(r0, pv, cv) == r0.take(i as int) + spec_add_edge(
                    r0.skip(i as int),
                    pv,
                    cv,
                ),
            decreases self.entries@.len() - i,
        {
            proof {
                assert(r0[i as int] == self.entries@[i as int]@);
                assert(r0.skip(i as int)[0] == r0[i as int]);
            }
            if path_eq(&self.entries[i].parent, parent) {
                let mut entry = self.entries.remove(i);
                proof {
                    assert(entry@ == r0[i as int]);
                    assert(entry_wf(entry@));
                    assert(paths_view(entry.children@) == entry@.children);
                }
                insert_child(&mut entry.children, child);
                proof {
                    lemma_insert_sorted_wf(r0[i as int], cv);
                }
                self.entries.insert(i, entry);
                proof {
                    let updated = EntryView {
                        parent: pv,
                        children: insert_sorted(r0[i as int].children, cv),
                    };
                    assert(entry@.children == insert_sorted(r0[i as int].children, cv));
                    assert(entry@.parent == pv);
                    assert(entry@ == updated);
                    assert(r0.skip(i as int).skip(1) =~= r0.skip(i + 1));
                    assert(spec_add_edge(r0.skip(i as int), pv, cv) == seq![updated] + r0.skip(
                        i + 1,
                    ));
                    assert(self@ =~= r0.take(i as int) + (seq![updated] + r0.skip(i + 1)));
                    assert(self@ == spec_add_edge(r0, pv, cv));
                    assert forall|a: int, b: int| 0 <= a < b < self@.len() implies (
                    #[trigger] self@[a]).parent != (#[trigger] self@[b]).parent by {
                        assert(self@[a] == if a == i as int {
                            updated
                        } else {
                            r0[a]
                        });
                        assert(self@[b] == if b == i as int {
                            updated
                        } else {
                            r0[b]
                        });
                    }
                    assert forall|a: int| 0 <= a < self@.len() implies entry_wf(
                        #[trigger] self@[a],
                    ) by {
                        if a != i as int {
                            assert(self@[a] == r0[a]);
                        }
                    }
                }
                return;
            }
            proof {
                assert(r0.skip(i as int).skip(1) =~= r0.skip(i + 1));
                assert(spec_add_edge(r0.skip(i as int), pv, cv) == seq![r0[i as int]]
                    + spec_add_edge(r0.skip(i + 1), pv, cv));
                assert(r0.take(i as int) + (seq![r0[i as int]] + spec_add_edge(
                    r0.skip(i + 1),
                    pv,
                    cv,
                )) =~= r0.take(i + 1) + spec_add_edge(r0.skip(i + 1), pv, cv));
            }
            i = i + 1;
        }
        let mut entry = TreeEntry { parent: clone_path(parent), children: Vec::new() };
        entry.children.push(clone_path(child));
        proof {
            assert(r0.skip(r0.len() as int).len() == 0);
            assert(paths_view(entry.children@) =~= seq![cv]);
            assert(entry@ == EntryView { parent: pv, children: seq![cv] });
            assert(entry_wf(entry@));
        }
        self.entries.push(entry);
        proof {
            assert(self@ =~= r0.take(r0.len() as int) + seq![
                EntryView { parent: pv, children: seq![cv] },
            ]);
            assert(self@ == spec_add_edge(r0, pv, cv));
            assert forall|a: int, b: int| 0 <= a < b < self@.len() implies (
            #[trigger] self@[a]).parent != (#[trigger] self@[b]).parent by {
                if b == r0.len() as int {
                    assert(self@[a] == r0[a]);
                }
            }
            assert forall|a: int| 0 <= a < self@.len() implies entry_wf(#[trigger] self@[a]) by {
                if a < r0.len() as int {
                    assert(self@[a] == r0[a]);
                }
            }
        }
    }

    /// Inserts every prefix edge of one file path, expressed as its
    /// component sequence; an empty path adds nothing.
    pub fn add_file(&mut self, rel: &Vec<String>)
        requires
            old(self).wf(),
        ensures
            final(self).wf(),
            final(self)@ == spec_add_file(old(self)@, strs_view(rel@)),
    {
        let ghost r0 = self@;
        let ghost rv = strs_view(rel@);
        if rel.len() == 0 {
            return;
        }
        let mut cursor: Vec<String> = Vec::new();
        let mut i: usize = 0;
        proof {
            assert(strs_view(cursor@) =~= rv.take(0));
        }
        while i < rel.len()
            invariant
                i <= rel@.len(),
                rv == strs_view(rel@),
                strs_view(cursor@) == rv.take(i as int),
                self.wf(),
                spec_add_file(r0, rv) == spec_add_path_from(self@, rv, i as int),
            decreases rel@.len() - i,
        {
            let mut next = clone_path(&cursor);
            let ghost nb = next@;
            proof {
                assert(rv.len() == rel@.len());
                assert(strs_view(cursor@).len() == cursor@.len());
                assert(rv.take(i as int).len() == i);
                assert(cursor@.len() == i);
                assert(strs_view(nb).len() == nb.len());
                assert(nb.len() == i);
            }
            next.push(rel[i].clone());
            proof {
                assert(next@ == nb.push(rel@[i as int]));
                assert(rv[i as int] == rel@[i as int]@);
                assert forall|j: int| 0 <= j < i + 1 implies #[trigger] strs_view(next@)[j]
                    == rv.take(i + 1)[j] by {
                    if j < i {
                        assert(next@[j] == nb[j]);
                        assert(strs_view(nb)[j] == strs_view(cursor@)[j]);
                    }
                }
                assert(strs_view(next@) =~= rv.take(i + 1));
                assert(strs_view(next@).drop_last() =~= rv.take(i as int));
            }
            let ghost before = self@;
            self.insert_edge(&cursor, &next);
            proof {
                assert(spec_add_path_from(before, rv, i as int) == spec_add_path_from(
                    spec_add_edge(before, rv.take(i as int), rv.take(i + 1)),
                    rv,
                    i + 1,
                ));
            }
            cursor = next;
            i = i + 1;
        }
    }

    /// The children of `parent`, when it has a row in the relation.
    pub fn lookup(&self, parent: &Vec<String>) -> (r: Option<&Vec<Vec<String>>>)
        requires
            self.wf(),
        ensures
            (match r {
                Some(c) => paths_view(c@) == children_of(self@, strs_view(parent@))
                    && paths_view(c@).len() > 0,
                None => children_of(self@, strs_view(parent@)).len() == 0,
            }),
    {
        let ghost rv = self@;
        let ghost pv = strs_view(parent@);
        let mut i: usize = 0;
        proof {
            assert(rv.skip(0) =~= rv);
        }
        while i < self.entries.len()
            invariant
                i <= self.entries@.len(),
                rv == self@,
                self.wf(),
                pv == strs_view(parent@),
                children_of(rv, pv) == children_of(rv.skip(i as int), pv),
            decreases self.entries@.len() - i,
        {
            proof {
                assert(rv.skip(i as int)[0] == rv[i as int]);
                assert(rv[i as int] == self.entries@[i as int]@);
                assert(rv.skip(i as int).skip(1) =~= rv.skip(i + 1));
            }
            if path_eq(&self.entries[i].parent, parent) {
                proof {
                    assert(children_of(rv, pv) == rv[i as int].children);
                    assert(entry_wf(rv[i as int]));
                }
                return Some(&self.entries[i].children);
            }
            i = i + 1;
        }
        proof {
            assert(rv.skip(rv.len() as int).len() == 0);
        }
        None
    }
}

/// Builds the tree relation from the file paths, each expressed relative
/// to the current directory.
pub fn build_relation(entries: &[String], current_dir: &str) -> (r: TreeRelation)
    ensures
        r.wf(),
        r@ == spec_build(strs_view(entries@), current_dir@),
{
    let mut relation = TreeRelation::new();
    let mut i: usize = 0;
    proof {
        assert(strs_view(entries@).take(0) =~= Seq::<Seq<char>>::empty());
    }
    while i < entries.len()
        invariant
            i <= entries@.len(),
            relation.wf(),
            relation@ == spec_build(strs_view(entries@).take(i as int), current_dir@),
        decreases entries@.len() - i,
    {
        let rel = make_relative_path(entries[i].as_str(), current_dir);
        proof {
            let fv = strs_view(entries@);
            assert(fv.take(i + 1).drop_last() =~= fv.take(i as int));
            assert(fv.take(i + 1).last() == entries@[i as int]@);
        }
        relation.add_file(&rel);
        i = i + 1;
    }
    proof {
        assert(strs_view(entries@).take(entries@.len() as int) =~= strs_view(entries@));
    }
    relation
}

/// Renders one node of the tree: its connector line, then its children,
/// depth first.
pub fn render_tree_node(
    node: &Vec<String>,
    prefix: &str,
    is_last: bool,
    children: &TreeRelation,
    lines: &mut Vec<String>,
)
    requires
        children.wf(),
        1 <= strs_view(node@).len(),
        strs_view(node@).len() <= max_parent_len(children@) + 1,
    ensures
        strs_view(final(lines)@) == strs_view(old(lines)@) + spec_node_lines(
            children@,
            strs_view(node@),
            prefix@,
            is_last,
        ),
    decreases max_parent_len(children@) + 1 - strs_view(node@).len(),
{
    let ghost r = children@;
    let ghost nodev = strs_view(node@);
    let connector = if is_last {
        "└─ "
    } else {
        "├─ "
    };
    let name = display_name(node);
    let mut line = prefix.to_owned();
    line.append(connector);
    line.append(name.as_str());
    proof {
        reveal_strlit("└─ ");
        reveal_strlit("├─ ");
        assert(connector@ =~= connector_glyph(is_last));
        assert(line@ == prefix@ + connector_glyph(is_last) + display_of(nodev));
    }
    let ghost linev = line@;
    let ghost lines0 = lines@;
    lines.push(line);
    proof {
        assert(strs_view(lines@) =~= strs_view(lines0) + seq![linev]);
    }
    let kids_opt = children.lookup(node);
    match kids_opt {
        None => {
            proof {
                let np = prefix@ + indent_glyph(is_last);
                assert(children_of(r, nodev) =~= Seq::<Seq<Seq<char>>>::empty());
                assert(spec_render_children(r, children_of(r, nodev), np) =~= Seq::<
                    Seq<char>,
                >::empty());
                assert(strs_view(lines@) =~= strs_view(lines0) + spec_node_lines(
                    r,
                    nodev,
                    prefix@,
                    is_last,
                ));
            }
        },
        Some(kids) => {
            let indent = if is_last {
                "   "
            } else {
                "│  "
            };
            let mut next_prefix = prefix.to_owned();
            next_prefix.append(indent);
            let ghost kidsv = paths_view(kids@);
            proof {
                reveal_strlit("   ");
                reveal_strlit("│  ");
                assert(indent@ =~= indent_glyph(is_last));
                assert(next_prefix@ == prefix@ + indent_glyph(is_last));
                lemma_children_of_wf(r, nodev);
                assert(kidsv.skip(0) =~= kidsv);
            }
            let mut k: usize = 0;
            while k < kids.len()
                invariant
                    k <= kids@.len(),
                    children.wf(),
                    r == children@,
                    kidsv == paths_view(kids@),
                    kidsv == children_of(r, nodev),
                    kidsv.len() > 0,
                    nodev == strs_view(node@),
                    1 <= nodev.len(),
                    nodev.len() <= max_parent_len(r),
                    entry_wf(EntryView { parent: nodev, children: kidsv }),
                    next_prefix@ == prefix@ + indent_glyph(is_last),
                    strs_view(lines0) + spec_node_lines(r, nodev, prefix@, is_last) == strs_view(
                        lines@,
                    ) + spec_render_children(r, kidsv.skip(k as int), next_prefix@),
                decreases kids@.len() - k,
            {
                let ghost head = kidsv[k as int];
                proof {
                    assert(kidsv.skip(k as int)[0] == head);
                    assert(head == strs_view(kids@[k as int]@));
                    assert(head.len() == nodev.len() + 1);
                    assert(kidsv.skip(k as int).skip(1) =~= kidsv.skip(k + 1));
                    assert forall|q: int| 0 <= q < kidsv.skip(k as int).len() implies (
                    #[trigger] kidsv.skip(k as int)[q]).len() == head.len() by {
                        assert(kidsv.skip(k as int)[q] == kidsv[k + q]);
                    }
                    assert(kids_ok(r, kidsv.skip(k as int)));
                }
                let last_child = k + 1 == kids.len();
                render_tree_node(&kids[k], next_prefix.as_str(), last_child, children, lines);
                proof {
                    let remaining = kidsv.skip(k as int);
                    assert((remaining.len() == 1) == last_child);
                    lemma_render_children_unfold(r, remaining, next_prefix@);
                    assert(spec_render_children(r, remaining, next_prefix@) == seq![
                        next_prefix@ + connector_glyph(last_child) + display_of(head),
                    ] + spec_render_children(
                        r,
                        children_of(r, head),
                        next_prefix@ + indent_glyph(last_child),
                    ) + spec_render_children(r, kidsv.skip(k + 1), next_prefix@));
                    assert(spec_node_lines(r, head, next_prefix@, last_child) == seq![
                        next_prefix@ + connector_glyph(last_child) + display_of(head),
                    ] + spec_render_children(
                        r,
                        children_of(r, head),
                        next_prefix@ + indent_glyph(last_child),
                    ));
                    assert(strs_view(lines0) + spec_node_lines(r, nodev, prefix@, is_last)
                        =~= strs_view(lines@) + spec_render_children(
                        r,
                        kidsv.skip(k + 1),
                        next_prefix@,
                    ));
                }
                k = k + 1;
            }
            proof {
                assert(kidsv.skip(kids@.len() as int).len() == 0);
                assert(spec_render_children(r, kidsv.skip(kids@.len() as int), next_prefix@)
                    =~= Seq::<Seq<char>>::empty());
                assert(strs_view(lines@) =~= strs_view(lines0) + spec_node_lines(
                    r,
                    nodev,
                    prefix@,
                    is_last,
                ));
            }
        },
    }
}

/// The rendered tree text: the resolved label, then, when the relation is
/// not empty, the rendered children of the anchor (or of the conceptual
/// empty root), joined by newlines, with a trailing newline.
pub open spec fn spec_render_tree(
    files: Seq<Seq<char>>,
    requested: Seq<String>,
    cwd: Seq<char>,
) -> Seq<char> {
    let r = spec_build(files, cwd);
    let scope = spec_root_scope(requested, cwd);
    if r.len() == 0 {
        scope.0 + seq!['\n']
    } else {
        let kids = (match scope.1 {
            Some(anchor) => if children_of(r, anchor).len() > 0 {
                children_of(r, anchor)
            } else {
                children_of(r, seq![])
            },
            None => children_of(r, seq![]),
        });
        joined(seq![scope.0] + spec_render_children(r, kids, seq![]), seq!['\n']) + seq!['\n']
    }
}

/// Renders the directory tree implied by the file paths: the root label,
/// then one connector line per node, depth first, children sorted by
/// final component.  The output is a function of the inputs alone, so
/// rendering the same file list twice gives byte-identical text.
pub fn render_tree(entries: &[String], requested_paths: &[String], current_dir: &str) -> (r:
    String)
    ensures
        r@ == spec_render_tree(strs_view(entries@), requested_paths@, current_dir@),
{
    let relation = build_relation(entries, current_dir);
    let ghost rv = relation@;
    let scope = determine_root_scope(requested_paths, current_dir);
    let root_label = scope.0;
    let root_path = scope.1;
    let newline = "\n";
    proof {
        reveal_strlit("\n");
        assert(newline@ =~= seq!['\n']);
    }
    if relation.is_empty() {
        let mut out = root_label;
        out.append(newline);
        return out;
    }
    let ghost sscope = spec_root_scope(requested_paths@, current_dir@);
    let ghost skids = (match sscope.1 {
        Some(anchor) => if children_of(rv, anchor).len() > 0 {
            children_of(rv, anchor)
        } else {
            children_of(rv, seq![])
        },
        None => children_of(rv, seq![]),
    });
    let mut lines: Vec<String> = Vec::new();
    let ghost labelv = root_label@;
    lines.push(root_label);
    proof {
        assert(strs_view(lines@) =~= seq![labelv]);
    }
    let empty_path: Vec<String> = Vec::new();
    proof {
        assert(strs_view(empty_path@) =~= Seq::<Seq<char>>::empty());
    }
    let kids_opt = (match &root_path {
        Some(anchor) => {
            let first = relation.lookup(anchor);
            (match first {
                Some(found) => Some(found),
                None => relation.lookup(&empty_path),
            })
        },
        None => relation.lookup(&empty_path),
    });
    let empty_prefix = "";
    proof {
        reveal_strlit("");
        assert(empty_prefix@ =~= Seq::<char>::empty());
    }
    match kids_opt {
        None => {
            proof {
                assert(skids.len() == 0);
                assert(spec_render_children(rv, skids, empty_prefix@) =~= Seq::<
                    Seq<char>,
                >::empty());
                assert(seq![labelv] + spec_render_children(rv, skids, empty_prefix@)
                    =~= strs_view(lines@));
            }
        },
        Some(kids) => {
            let ghost kidsv = paths_view(kids@);
            let ghost parent0 = (match sscope.1 {
                Some(anchor) => if children_of(rv, anchor).len() > 0 {
                    anchor
                } else {
                    Seq::<Seq<char>>::empty()
                },
                None => Seq::<Seq<char>>::empty(),
            });
            proof {
                assert(kidsv == children_of(rv, parent0));
                assert(kidsv == skids);
                lemma_children_of_wf(rv, parent0);
                assert(kidsv.skip(0) =~= kidsv);
            }
            let mut k: usize = 0;
            while k < kids.len()
                invariant
                    k <= kids@.len(),
                    relation.wf(),
                    rv == relation@,
                    kidsv == paths_view(kids@),
                    kidsv == children_of(rv, parent0),
                    kidsv.len() > 0,
                    empty_prefix@ == Seq::<char>::empty(),
                    parent0.len() <= max_parent_len(rv),
                    entry_wf(EntryView { parent: parent0, children: kidsv }),
                    seq![labelv] + spec_render_children(rv, kidsv, empty_prefix@) == strs_view(
                        lines@,
                    ) + spec_render_children(rv, kidsv.skip(k as int), empty_prefix@),
                decreases kids@.len() - k,
            {
                let ghost head = kidsv[k as int];
                proof {
                    assert(kidsv.skip(k as int)[0] == head);
                    assert(head == strs_view(kids@[k as int]@));
                    assert(head.len() == parent0.len() + 1);
                    assert(kidsv.skip(k as int).skip(1) =~= kidsv.skip(k + 1));
                    assert forall|q: int| 0 <= q < kidsv.skip(k as int).len() implies (
                    #[trigger] kidsv.skip(k as int)[q]).len() == head.len() by {
                        assert(kidsv.skip(k as int)[q] == kidsv[k + q]);
                    }
                    assert(kids_ok(rv, kidsv.skip(k as int)));
                }
                let last_child = k + 1 == kids.len();
                render_tree_node(&kids[k], empty_prefix, last_child, &relation, &mut lines);
                proof {
                    let remaining = kidsv.skip(k as int);
                    assert((remaining.len() == 1) == last_child);
                    lemma_render_children_unfold(rv, remaining, empty_prefix@);
                    assert(spec_render_children(rv, remaining, empty_prefix@) == seq![
                        empty_prefix@ + connector_glyph(last_child) + display_of(head),
                    ] + spec_render_children(
                        rv,
                        children_of(rv, head),
                        empty_prefix@ + indent_glyph(last_child),
                    ) + spec_render_children(rv, kidsv.skip(k + 1), empty_prefix@));
                    assert(spec_node_lines(rv, head, empty_prefix@, last_child) == seq![
                        empty_prefix@ + connector_glyph(last_child) + display_of(head),
                    ] + spec_render_children(
                        rv,
                        children_of(rv, head),
                        empty_prefix@ + indent_glyph(last_child),
                    ));
                    assert(seq![labelv] + spec_render_children(rv, kidsv, empty_prefix@)
                        =~= strs_view(lines@) + spec_render_children(
                        rv,
                        kidsv.skip(k + 1),
                        empty_prefix@,
                    ));
                }
                k = k + 1;
            }
            proof {
                assert(kidsv.skip(kids@.len() as int).len() == 0);
                assert(spec_render_children(rv, kidsv.skip(kids@.len() as int), empty_prefix@)
                    =~= Seq::<Seq<char>>::empty());
                assert(strs_view(lines@) =~= seq![labelv] + spec_render_children(
                    rv,
                    skids,
                    empty_prefix@,
                ));
            }
        },
    }
    let mut out = join_parts(&lines, newline);
    out.append(newline);
    proof {
        assert(out@ == spec_render_tree(strs_view(entries@), requested_paths@, current_dir@));
    }
    out
}

} // verus!
