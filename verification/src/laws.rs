//! What holds of compaction, and between compaction and expansion.
use crate::compaction::{collides, compacted, covered, full, uncompacted};
use crate::index::{
    ancestor_at, child_of, children_of, descendants, is_cell, lemma_ancestor_is_cell,
    lemma_ancestor_of_ancestor, lemma_ancestor_self, lemma_child, lemma_resolution_bound,
    parent_of, resolution_of,
};
use vstd::prelude::*;

verus! {

/// Whether every member of `s` is a cell.
pub open spec fn all_cells(s: Set<u64>) -> bool {
    forall|c: u64| #[trigger] s.contains(c) ==> is_cell(c)
}

/// Whether every member of `s` is a cell of resolution `res`.
pub open spec fn uniform(s: Set<u64>, res: int) -> bool {
    forall|c: u64| #[trigger] s.contains(c) ==> is_cell(c) && resolution_of(c) == res
}

/// Whether every member of `s` is a cell of resolution `res` or coarser.
pub open spec fn no_finer_than(s: Set<u64>, res: int) -> bool {
    forall|c: u64| #[trigger] s.contains(c) ==> is_cell(c) && resolution_of(c) <= res
}

/// Whether every cell one level above `res` has a child that `s` lacks.
pub open spec fn no_group_complete(s: Set<u64>, res: int) -> bool {
    forall|p: u64|
        #![trigger is_cell(p)]
        is_cell(p) && resolution_of(p) == res - 1 ==> exists|d: u64| #[trigger]
            children_of(p).contains(d) && !s.contains(d)
}

/// No cell is complete in a compact form.
proof fn lemma_compacted_has_no_full(s: Set<u64>, p: u64)
    ensures
        !full(compacted(s), p),
    decreases 15 - resolution_of(p),
{
    let t = compacted(s);
    if full(t, p) {
        lemma_resolution_bound(p);
        assert forall|d: u64| #[trigger] children_of(p).contains(d) implies s.contains(d) || full(
            s,
            d,
        ) by {
            lemma_compacted_has_no_full(s, d);
            assert(t.contains(d));
        }
        assert(full(s, p));
        lemma_child(p, 0);
        let k = child_of(p, 0);
        lemma_compacted_has_no_full(s, k);
        assert(t.contains(k));
        assert(parent_of(k) == p);
    }
}

/// A compact form is minimal: it holds cells only, and no cell is complete in it.
pub proof fn law_compact_is_minimal(s: Set<u64>)
    requires
        all_cells(s),
    ensures
        all_cells(compacted(s)),
        forall|p: u64| !full(compacted(s), p),
{
    assert forall|p: u64| !full(compacted(s), p) by {
        lemma_compacted_has_no_full(s, p);
    }
}

/// Compacting a compact form changes nothing, and never fails on a collision:
/// `compact(compact(s))` is `compact(s)`.
pub proof fn law_compact_idempotent(s: Set<u64>)
    requires
        all_cells(s),
    ensures
        !collides(compacted(s)),
        compacted(compacted(s)) == compacted(s),
{
    law_compact_is_minimal(s);
    assert(compacted(compacted(s)) =~= compacted(s));
}

/// Where no member is finer than `res`, nothing finer is covered.
proof fn lemma_nothing_beyond_is_covered(s: Set<u64>, res: int, c: u64)
    requires
        no_finer_than(s, res),
        resolution_of(c) > res,
    ensures
        !covered(s, c),
    decreases 15 - resolution_of(c),
{
    if full(s, c) {
        lemma_child(c, 0);
        lemma_nothing_beyond_is_covered(s, res, child_of(c, 0));
    }
}

/// Where no member is finer than `res`, what a covered cell holds at that resolution
/// is held by a member.
proof fn lemma_covered_is_held(s: Set<u64>, res: int, c: u64, d: u64)
    requires
        no_finer_than(s, res),
        covered(s, c),
        descendants(c, res).contains(d),
    ensures
        uncompacted(s, res).contains(d),
    decreases res - resolution_of(c),
{
    let rc = resolution_of(c);
    lemma_resolution_bound(c);
    lemma_resolution_bound(d);
    if !s.contains(c) {
        if rc == res {
            lemma_child(c, 0);
            lemma_nothing_beyond_is_covered(s, res, child_of(c, 0));
        } else {
            let k = ancestor_at(d, rc + 1);
            lemma_ancestor_is_cell(d, rc + 1);
            lemma_ancestor_of_ancestor(d, rc + 1, rc);
            assert(children_of(c).contains(k));
            assert(descendants(k, res).contains(d));
            lemma_covered_is_held(s, res, k, d);
        }
    }
}

/// What a covered cell holds is held by some cell of the compact form: the coarsest
/// of its ancestors up to which every one is covered.
proof fn lemma_covered_has_root(s: Set<u64>, res: int, m: u64, d: u64)
    requires
        is_cell(m),
        covered(s, m),
        descendants(m, res).contains(d),
    ensures
        uncompacted(compacted(s), res).contains(d),
    decreases resolution_of(m),
{
    let rm = resolution_of(m);
    lemma_resolution_bound(m);
    lemma_resolution_bound(d);
    if rm >= 1 && full(s, parent_of(m)) {
        let p = parent_of(m);
        lemma_ancestor_is_cell(m, rm - 1);
        lemma_ancestor_of_ancestor(d, rm, rm - 1);
        assert(descendants(p, res).contains(d));
        lemma_covered_has_root(s, res, p, d);
    } else {
        assert(compacted(s).contains(m));
    }
}

/// A compact form holds what the set held: expanded to a resolution that no member
/// exceeds, both give the same cells.
pub proof fn law_compaction_keeps_area(s: Set<u64>, res: int)
    requires
        no_finer_than(s, res),
    ensures
        uncompacted(compacted(s), res) == uncompacted(s, res),
{
    assert forall|d: u64|
        uncompacted(compacted(s), res).contains(d) <==> uncompacted(s, res).contains(d) by {
        if uncompacted(compacted(s), res).contains(d) {
            let c = choose|c: u64|
                compacted(s).contains(c) && #[trigger] descendants(c, res).contains(d);
            lemma_covered_is_held(s, res, c, d);
        }
        if uncompacted(s, res).contains(d) {
            let m = choose|m: u64| s.contains(m) && #[trigger] descendants(m, res).contains(d);
            lemma_covered_has_root(s, res, m, d);
        }
    }
    assert(uncompacted(compacted(s), res) =~= uncompacted(s, res));
}

/// Compacting a set of cells of one resolution and expanding the result to that
/// resolution gives the set back: `uncompact(compact(s), res)` is `s`. Such a set
/// never fails on a collision.
pub proof fn law_uncompact_restores(s: Set<u64>, res: int)
    requires
        uniform(s, res),
    ensures
        !collides(s),
        uncompacted(compacted(s), res) == s,
{
    assert forall|p: u64| s.contains(p) implies !full(s, p) by {
        if full(s, p) {
            lemma_child(p, 0);
            lemma_nothing_beyond_is_covered(s, res, child_of(p, 0));
        }
    }
    law_compaction_keeps_area(s, res);
    assert forall|d: u64| uncompacted(s, res).contains(d) <==> s.contains(d) by {
        if uncompacted(s, res).contains(d) {
            let m = choose|m: u64| s.contains(m) && #[trigger] descendants(m, res).contains(d);
            lemma_ancestor_self(d);
        }
        if s.contains(d) {
            lemma_ancestor_self(d);
            assert(descendants(d, res).contains(d));
        }
    }
    assert(uncompacted(s, res) =~= s);
}

/// Among the children of `parent`, only `parent` is complete.
proof fn lemma_only_the_parent_is_full(parent: u64, c: u64)
    requires
        is_cell(parent),
        full(children_of(parent), c),
    ensures
        c == parent,
    decreases resolution_of(parent) - resolution_of(c),
{
    let s = children_of(parent);
    let res = resolution_of(parent);
    let rc = resolution_of(c);
    lemma_resolution_bound(c);
    lemma_child(c, 0);
    let first = child_of(c, 0);
    if rc > res {
        lemma_nothing_beyond_is_covered(s, res + 1, first);
    } else if rc == res {
        if full(s, first) {
            lemma_child(first, 0);
            lemma_nothing_beyond_is_covered(s, res + 1, child_of(first, 0));
        }
    } else {
        lemma_child(c, 2);
        let third = child_of(c, 2);
        lemma_only_the_parent_is_full(parent, first);
        lemma_only_the_parent_is_full(parent, third);
    }
}

/// All the children of a cell compact to the cell.
pub proof fn law_children_compact_to_parent(parent: u64)
    requires
        is_cell(parent),
        resolution_of(parent) < 15,
    ensures
        !collides(children_of(parent)),
        compacted(children_of(parent)) == set![parent],
{
    let s = children_of(parent);
    let res = resolution_of(parent);
    lemma_resolution_bound(parent);
    assert(full(s, parent));
    assert forall|c: u64| full(s, c) implies c == parent by {
        lemma_only_the_parent_is_full(parent, c);
    }
    if res >= 1 {
        lemma_ancestor_is_cell(parent, res - 1);
    }
    assert forall|c: u64| compacted(s).contains(c) <==> c == parent by {
        if s.contains(c) {
            assert(parent_of(c) == parent);
        }
    }
    assert(compacted(s) =~= set![parent]);
}

/// Where every member is of resolution `res` and no group of siblings is complete, no
/// cell is complete.
proof fn lemma_incomplete_is_not_full(s: Set<u64>, res: int, c: u64)
    requires
        uniform(s, res),
        no_group_complete(s, res),
    ensures
        !full(s, c),
    decreases res - resolution_of(c),
{
    if full(s, c) {
        let rc = resolution_of(c);
        lemma_child(c, 0);
        let first = child_of(c, 0);
        if rc >= res {
            lemma_nothing_beyond_is_covered(s, res, first);
        } else if rc == res - 1 {
            let d = choose|d: u64| #[trigger] children_of(c).contains(d) && !s.contains(d);
            if full(s, d) {
                lemma_child(d, 0);
                lemma_nothing_beyond_is_covered(s, res, child_of(d, 0));
            }
        } else {
            lemma_incomplete_is_not_full(s, res, first);
        }
    }
}

/// A set of cells of one resolution in which no group of siblings is complete is its
/// own compact form: where one of seven children is missing, the six stay.
pub proof fn law_incomplete_groups_stay(s: Set<u64>, res: int)
    requires
        uniform(s, res),
        no_group_complete(s, res),
    ensures
        compacted(s) == s,
{
    assert forall|c: u64| !full(s, c) by {
        lemma_incomplete_is_not_full(s, res, c);
    }
    assert(compacted(s) =~= s);
}

} // verus!
