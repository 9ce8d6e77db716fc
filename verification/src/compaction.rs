//! Cell sets: the compact form of a set, and its expansion to one resolution.
use crate::dedup::{first_occurrences, lemma_first_occurrences, unique};
use crate::error::Error;
use crate::grid::{
    cell_ancestor, cell_children, cell_resolution, index_is_valid, resolution_is_valid,
};
use crate::index::{
    child_of, children_of, descendants, is_cell, lemma_ancestor_is_cell, lemma_child,
    lemma_listing, lemma_resolution_bound, listing, parent_of, resolution_of,
};
use crate::seqs::{
    lemma_concat_contains, lemma_concat_no_duplicates, lemma_push_contains,
    lemma_push_no_duplicates,
};
use std::collections::HashSet;
use vstd::prelude::*;

verus! {

broadcast use vstd::std_specs::hash::group_hash_axioms;

/// Whether every element of the list is a cell.
pub open spec fn all_valid(cells: Seq<u64>) -> bool {
    forall|i: int| 0 <= i < cells.len() ==> is_cell(#[trigger] cells[i])
}

/// Whether every child of `cell` is in `s` or is itself complete there: the whole of
/// its area is accounted for, at resolutions finer than its own.
pub open spec fn full(s: Set<u64>, cell: u64) -> bool
    decreases 15 - resolution_of(cell),
{
    &&& is_cell(cell)
    &&& resolution_of(cell) < 15
    &&& forall|d: u64| #[trigger] children_of(cell).contains(d) ==> s.contains(d) || full(s, d)
}

/// Whether `cell` is in `s` or complete there.
pub open spec fn covered(s: Set<u64>, cell: u64) -> bool {
    s.contains(cell) || full(s, cell)
}

/// Whether `cell` is a covered cell of resolution `res`.
pub open spec fn covered_at(s: Set<u64>, cell: u64, res: int) -> bool {
    is_cell(cell) && resolution_of(cell) == res && covered(s, cell)
}

/// The compact form of `s`: the covered cells whose parent is not complete. A complete
/// group of siblings is replaced by its parent, and so on upwards; every other cell
/// stays as it is.
pub open spec fn compacted(s: Set<u64>) -> Set<u64> {
    Set::new(|c: u64| covered(s, c) && !(resolution_of(c) >= 1 && full(s, parent_of(c))))
}

/// Whether `s` holds a cell that is also complete there, so that replacing its
/// children would give it a second time.
pub open spec fn collides(s: Set<u64>) -> bool {
    exists|p: u64| s.contains(p) && full(s, p)
}

/// The cells of resolution `res` that the cells of `s` hold between them.
pub open spec fn uncompacted(s: Set<u64>, res: int) -> Set<u64> {
    Set::new(|d: u64| exists|c: u64| s.contains(c) && #[trigger] descendants(c, res).contains(d))
}

/// The expansion of a list: the descendants of its first cell, then those of the
/// second, and so on, each group in rising order.
pub open spec fn expansion(cells: Seq<u64>, res: int) -> Seq<u64>
    decreases cells.len(),
{
    if cells.len() == 0 {
        Seq::empty()
    } else {
        expansion(cells.drop_last(), res) + listing(cells.last(), res)
    }
}

/// Whether every element of the list is a cell; stops at the first that is not.
pub fn validate_all(cells: &Vec<u64>) -> (ok: bool)
    ensures
        ok == all_valid(cells@),
{
    let mut i: usize = 0;
    while i < cells.len()
        invariant
            i <= cells.len(),
            forall|j: int| 0 <= j < i ==> is_cell(#[trigger] cells[j]),
        decreases cells.len() - i,
    {
        if !index_is_valid(cells[i]) {
            return false;
        }
        i += 1;
    }
    true
}

/// Expands every cell to its descendants at `resolution`, in the order of the list,
/// each descendant kept where it first occurs: the result is a set. A cell that is
/// already at that resolution stays; a cell finer than it has no descendants there and
/// is left out. The cells are checked before the resolution.
pub fn uncompact(cells: Vec<u64>, resolution: u8) -> (r: Result<Vec<u64>, Error>)
    ensures
        !all_valid(cells@) ==> r == Err::<Vec<u64>, Error>(Error::InvalidCellIndex),
        all_valid(cells@) && resolution > 15 ==> r == Err::<Vec<u64>, Error>(
            Error::InvalidResolution,
        ),
        all_valid(cells@) && resolution <= 15 ==> r is Ok,
        r matches Ok(v) ==> {
            &&& v@ == first_occurrences(expansion(cells@, resolution as int))
            &&& v@.no_duplicates()
            &&& v@.to_set() == uncompacted(cells@.to_set(), resolution as int)
            &&& forall|i: int|
                0 <= i < v.len() ==> is_cell(#[trigger] v[i]) && resolution_of(v[i]) == resolution
        },
{
    if !validate_all(&cells) {
        return Err(Error::InvalidCellIndex);
    }
    if !resolution_is_valid(resolution) {
        return Err(Error::InvalidResolution);
    }
    let mut out: Vec<u64> = Vec::new();
    let mut i: usize = 0;
    while i < cells.len()
        invariant
            i <= cells.len(),
            resolution <= 15,
            all_valid(cells@),
            out@ == expansion(cells@.take(i as int), resolution as int),
            forall|d: u64|
                out@.contains(d) <==> exists|j: int|
                    0 <= j < i && #[trigger] descendants(cells[j], resolution as int).contains(d),
        decreases cells.len() - i,
    {
        let mut group = cell_children(cells[i], resolution);
        proof {
            lemma_listing(cells[i as int], resolution as int, group@);
            let before = out@;
            let after = out@ + group@;
            assert(cells@.take(i + 1).drop_last() == cells@.take(i as int));
            assert forall|d: u64|
                after.contains(d) <==> exists|j: int|
                    0 <= j < i + 1 && #[trigger] descendants(
                        cells[j],
                        resolution as int,
                    ).contains(d) by {
                if after.contains(d) {
                    let k = choose|k: int| 0 <= k < after.len() && after[k] == d;
                    if k < before.len() {
                        assert(before[k] == d);
                        assert(before.contains(d));
                    } else {
                        assert(group@[k - before.len()] == d);
                        assert(group@.to_set().contains(d));
                        assert(descendants(cells[i as int], resolution as int).contains(d));
                    }
                }
                if exists|j: int|
                    0 <= j < i + 1 && #[trigger] descendants(
                        cells[j],
                        resolution as int,
                    ).contains(d) {
                    let j = choose|j: int|
                        0 <= j < i + 1 && #[trigger] descendants(
                            cells[j],
                            resolution as int,
                        ).contains(d);
                    if j < i {
                        assert(before.contains(d));
                        let k = choose|k: int| 0 <= k < before.len() && before[k] == d;
                        assert(after[k] == d);
                    } else {
                        assert(group@.to_set().contains(d));
                        assert(group@.contains(d));
                        let k = choose|k: int| 0 <= k < group@.len() && group@[k] == d;
                        assert(after[before.len() + k] == d);
                    }
                }
            }
        }
        out.append(&mut group);
        i += 1;
    }
    proof {
        assert(cells@.take(cells.len() as int) == cells@);
        assert forall|d: u64|
            out@.to_set().contains(d) <==> uncompacted(
                cells@.to_set(),
                resolution as int,
            ).contains(d) by {
            if out@.contains(d) {
                let j = choose|j: int|
                    0 <= j < cells.len() && #[trigger] descendants(
                        cells[j],
                        resolution as int,
                    ).contains(d);
                assert(cells@.contains(cells[j]));
            }
            if uncompacted(cells@.to_set(), resolution as int).contains(d) {
                let c = choose|c: u64|
                    cells@.to_set().contains(c) && #[trigger] descendants(
                        c,
                        resolution as int,
                    ).contains(d);
                let j = choose|j: int| 0 <= j < cells.len() && cells[j] == c;
                assert(descendants(cells[j], resolution as int).contains(d));
            }
        }
        assert(out@.to_set() =~= uncompacted(cells@.to_set(), resolution as int));
        lemma_first_occurrences(out@);
    }
    let kept = unique(out);
    proof {
        assert forall|i: int| 0 <= i < kept.len() implies is_cell(#[trigger] kept[i])
            && resolution_of(kept[i]) == resolution by {
            assert(kept@.contains(kept[i]));
            assert(uncompacted(cells@.to_set(), resolution as int).contains(kept[i]));
        }
    }
    Ok(kept)
}

/// The cells of a list as a hash set.
fn hash_set_of(cells: &Vec<u64>) -> (set: HashSet<u64>)
    ensures
        set@ == cells@.to_set(),
{
    let mut set: HashSet<u64> = HashSet::new();
    let mut i: usize = 0;
    while i < cells.len()
        invariant
            i <= cells.len(),
            set@ == cells@.take(i as int).to_set(),
        decreases cells.len() - i,
    {
        proof {
            assert(cells@.take(i + 1) == cells@.take(i as int).push(cells[i as int]));
            lemma_push_contains(cells@.take(i as int), cells[i as int]);
            assert(cells@.take(i + 1).to_set() =~= cells@.take(i as int).to_set().insert(
                cells[i as int],
            ));
        }
        set.insert(cells[i]);
        i += 1;
    }
    proof {
        assert(cells@.take(cells.len() as int) == cells@);
    }
    set
}

/// The cells of the list that are of resolution `res`, in their order.
fn cells_at(cells: &Vec<u64>, res: u8) -> (found: Vec<u64>)
    requires
        all_valid(cells@),
        cells@.no_duplicates(),
    ensures
        found@.no_duplicates(),
        forall|c: u64| #[trigger]
            found@.contains(c) <==> cells@.contains(c) && resolution_of(c) == res,
{
    let mut found: Vec<u64> = Vec::new();
    let mut i: usize = 0;
    while i < cells.len()
        invariant
            i <= cells.len(),
            all_valid(cells@),
            cells@.no_duplicates(),
            found@.no_duplicates(),
            forall|c: u64| #[trigger]
                found@.contains(c) <==> cells@.take(i as int).contains(c) && resolution_of(c)
                    == res,
        decreases cells.len() - i,
    {
        let cell = cells[i];
        proof {
            assert(cells@.take(i + 1) == cells@.take(i as int).push(cell));
            lemma_push_contains(cells@.take(i as int), cell);
            lemma_push_contains(found@, cell);
            if cells@.take(i as int).contains(cell) {
                let j = choose|j: int| 0 <= j < i && cells@.take(i as int)[j] == cell;
                assert(cells[j] == cells[i as int]);
            }
        }
        if cell_resolution(cell) == res {
            proof {
                lemma_push_no_duplicates(found@, cell);
            }
            found.push(cell);
        }
        i += 1;
    }
    proof {
        assert(cells@.take(cells.len() as int) == cells@);
    }
    found
}

/// Whether the set holds every cell of the list.
fn all_in(cells: &Vec<u64>, set: &HashSet<u64>) -> (ok: bool)
    ensures
        ok == forall|c: u64| cells@.contains(c) ==> set@.contains(c),
{
    let mut i: usize = 0;
    while i < cells.len()
        invariant
            i <= cells.len(),
            forall|j: int| 0 <= j < i ==> set@.contains(#[trigger] cells[j]),
        decreases cells.len() - i,
    {
        if !set.contains(&cells[i]) {
            proof {
                assert(cells@.contains(cells[i as int]));
            }
            return false;
        }
        i += 1;
    }
    true
}

/// One level of the compaction. `level` holds the covered cells of resolution `res`;
/// each goes to `out` unless its parent is complete, and each complete parent joins
/// `next`, once. Gives up with `false` where a complete parent is a member already.
fn collapse_level(
    level: &Vec<u64>,
    here: &HashSet<u64>,
    members: &HashSet<u64>,
    res: u8,
    next: &mut Vec<u64>,
    out: &mut Vec<u64>,
) -> (ok: bool)
    requires
        1 <= res <= 15,
        forall|c: u64| members@.contains(c) ==> is_cell(c),
        level@.no_duplicates(),
        forall|c: u64| #[trigger] level@.contains(c) <==> covered_at(members@, c, res as int),
        here@ == level@.to_set(),
        old(next)@.no_duplicates(),
        forall|c: u64| #[trigger]
            old(next)@.contains(c) <==> members@.contains(c) && resolution_of(c) == res - 1,
        old(out)@.no_duplicates(),
        forall|c: u64| #[trigger] old(out)@.contains(c) ==> resolution_of(c) > res,
    ensures
        ok <==> forall|p: u64|
            members@.contains(p) && resolution_of(p) == res - 1 ==> !full(members@, p),
        ok ==> final(next)@.no_duplicates(),
        ok ==> forall|c: u64| #[trigger]
            final(next)@.contains(c) <==> covered_at(members@, c, res - 1),
        ok ==> final(out)@.no_duplicates(),
        ok ==> forall|c: u64| #[trigger]
            final(out)@.contains(c) <==> old(out)@.contains(c) || (level@.contains(c) && !full(
                members@,
                parent_of(c),
            )),
{
    let ghost s = members@;
    let ghost next0 = next@;
    let ghost out0 = out@;
    let mut raised: HashSet<u64> = HashSet::new();
    let mut i: usize = 0;
    while i < level.len()
        invariant
            i <= level.len(),
            1 <= res <= 15,
            s == members@,
            forall|c: u64| s.contains(c) ==> is_cell(c),
            level@.no_duplicates(),
            forall|c: u64| #[trigger] level@.contains(c) <==> covered_at(s, c, res as int),
            here@ == level@.to_set(),
            forall|c: u64| #[trigger]
                next0.contains(c) <==> s.contains(c) && resolution_of(c) == res - 1,
            forall|c: u64| #[trigger] out0.contains(c) ==> resolution_of(c) > res,
            next@.no_duplicates(),
            forall|c: u64| #[trigger]
                next@.contains(c) <==> next0.contains(c) || raised@.contains(c),
            forall|c: u64| #[trigger]
                raised@.contains(c) ==> full(s, c) && resolution_of(c) == res - 1 && !s.contains(
                    c,
                ),
            forall|j: int|
                0 <= j < i && full(s, parent_of(#[trigger] level[j])) ==> raised@.contains(
                    parent_of(level[j]),
                ),
            out@.no_duplicates(),
            forall|c: u64| #[trigger]
                out@.contains(c) <==> out0.contains(c) || (exists|j: int|
                    0 <= j < i && #[trigger] level[j] == c && !full(s, parent_of(c))),
        decreases level.len() - i,
    {
        let cell = level[i];
        assert(level@.contains(cell));
        let parent = cell_ancestor(cell, res - 1);
        proof {
            lemma_ancestor_is_cell(cell, res - 1);
        }
        let kids = cell_children(parent, res);
        let complete = all_in(&kids, here);
        proof {
            assert(children_of(parent) == kids@.to_set());
            if complete {
                assert forall|d: u64| #[trigger] children_of(parent).contains(d) implies s.contains(
                    d,
                ) || full(s, d) by {
                    assert(kids@.contains(d));
                    assert(here@.contains(d));
                    assert(level@.contains(d));
                }
                assert(full(s, parent));
            }
            if full(s, parent) {
                assert forall|d: u64| kids@.contains(d) implies here@.contains(d) by {
                    assert(children_of(parent).contains(d));
                    assert(covered_at(s, d, res as int));
                    assert(level@.contains(d));
                }
            }
            assert(complete == full(s, parent));
        }
        if complete {
            if members.contains(&parent) {
                return false;
            }
            if !raised.contains(&parent) {
                proof {
                    lemma_push_contains(next@, parent);
                    lemma_push_no_duplicates(next@, parent);
                }
                raised.insert(parent);
                next.push(parent);
            }
        } else {
            proof {
                lemma_push_contains(out@, cell);
                if out@.contains(cell) {
                    let j = choose|j: int|
                        0 <= j < i && #[trigger] level[j] == cell && !full(s, parent_of(cell));
                    assert(level[j] == level[i as int]);
                }
                lemma_push_no_duplicates(out@, cell);
            }
            out.push(cell);
        }
        i += 1;
    }
    proof {
        assert forall|p: u64| resolution_of(p) == res - 1 && full(s, p) implies raised@.contains(
            p,
        ) by {
            lemma_child(p, 0);
            let k = child_of(p, 0);
            assert(children_of(p).contains(k));
            assert(covered_at(s, k, res as int));
            assert(level@.contains(k));
            let j = choose|j: int| 0 <= j < level.len() && level[j] == k;
            assert(parent_of(level[j]) == p);
        }
        assert forall|c: u64| #[trigger] out@.contains(c) <==> out0.contains(c) || (level@.contains(
            c,
        ) && !full(s, parent_of(c))) by {
            if level@.contains(c) && !full(s, parent_of(c)) {
                let j = choose|j: int| 0 <= j < level.len() && level[j] == c;
                assert(level[j] == c);
            }
        }
    }
    true
}

/// The compaction of a list of cells that holds none twice: the levels from the finest
/// to the coarsest, each by [`collapse_level`].
fn compact_distinct(cells: &Vec<u64>) -> (r: Option<Vec<u64>>)
    requires
        all_valid(cells@),
        cells@.no_duplicates(),
    ensures
        r is None <==> collides(cells@.to_set()),
        r matches Some(v) ==> v@.no_duplicates() && v@.to_set() == compacted(cells@.to_set())
            && all_valid(v@),
{
    let ghost s = cells@.to_set();
    let members = hash_set_of(cells);
    let mut out: Vec<u64> = Vec::new();
    let mut level = cells_at(cells, 15);
    let mut res: u8 = 15;
    proof {
        assert forall|c: u64| s.contains(c) implies is_cell(c) by {
            let j = choose|j: int| 0 <= j < cells.len() && cells[j] == c;
            assert(is_cell(cells[j]));
        }
        assert forall|c: u64| #[trigger] resolution_of(c) <= 15 by {
            lemma_resolution_bound(c);
        }
        assert forall|c: u64| !(#[trigger] out@.contains(c)) by {}
    }
    while res > 0
        invariant
            res <= 15,
            s == cells@.to_set(),
            s == members@,
            all_valid(cells@),
            cells@.no_duplicates(),
            forall|c: u64| s.contains(c) ==> is_cell(c),
            level@.no_duplicates(),
            forall|c: u64| #[trigger] level@.contains(c) <==> covered_at(s, c, res as int),
            out@.no_duplicates(),
            forall|c: u64| #[trigger]
                out@.contains(c) <==> compacted(s).contains(c) && resolution_of(c) > res,
            forall|p: u64| s.contains(p) && resolution_of(p) >= res ==> !full(s, p),
        decreases res,
    {
        let here = hash_set_of(&level);
        let mut next = cells_at(cells, res - 1);
        if !collapse_level(&level, &here, &members, res, &mut next, &mut out) {
            return None;
        }
        proof {
            assert forall|c: u64| #[trigger]
                out@.contains(c) <==> compacted(s).contains(c) && resolution_of(c) > res - 1 by {
                if compacted(s).contains(c) && resolution_of(c) == res {
                    assert(covered_at(s, c, res as int));
                    assert(level@.contains(c));
                }
                if level@.contains(c) {
                    assert(covered_at(s, c, res as int));
                }
            }
        }
        level = next;
        res = res - 1;
    }
    proof {
        lemma_concat_contains(out@, level@);
        lemma_concat_no_duplicates(out@, level@);
        assert forall|c: u64| #[trigger] (out@ + level@).to_set().contains(c) <==> compacted(
            s,
        ).contains(c) by {
            lemma_resolution_bound(c);
            if level@.contains(c) {
                assert(covered_at(s, c, 0));
            }
            if compacted(s).contains(c) && resolution_of(c) == 0 {
                assert(covered_at(s, c, 0));
            }
        }
        assert((out@ + level@).to_set() =~= compacted(s));
        assert forall|i: int| 0 <= i < (out@ + level@).len() implies is_cell(
            #[trigger] (out@ + level@)[i],
        ) by {
            assert((out@ + level@).to_set().contains((out@ + level@)[i]));
        }
        assert forall|p: u64| s.contains(p) implies !full(s, p) by {
            lemma_resolution_bound(p);
        }
    }
    out.append(&mut level);
    Some(out)
}

/// The compact form of a cell set: repetitions are dropped, then every complete group
/// of siblings is replaced by its parent, from the finest resolution upwards, until
/// none is left. Cells of several resolutions may be mixed; a cell whose siblings are
/// not all there stays as it is. The order of the result is not fixed.
///
/// One integer that is no cell fails the whole. So does a complete group of siblings,
/// given or reached by compaction, whose parent is in the set as well.
pub fn compact(cells: Vec<u64>) -> (r: Result<Vec<u64>, Error>)
    ensures
        !all_valid(cells@) ==> r == Err::<Vec<u64>, Error>(Error::InvalidCellIndex),
        all_valid(cells@) && collides(cells@.to_set()) ==> r == Err::<Vec<u64>, Error>(
            Error::CompactionError,
        ),
        all_valid(cells@) && !collides(cells@.to_set()) ==> r is Ok,
        r matches Ok(v) ==> v@.no_duplicates() && v@.to_set() == compacted(cells@.to_set())
            && all_valid(v@),
{
    let ghost given = cells@;
    let distinct = unique(cells);
    proof {
        lemma_first_occurrences(given);
        if all_valid(given) {
            assert forall|i: int| 0 <= i < distinct.len() implies is_cell(
                #[trigger] distinct[i],
            ) by {
                assert(distinct@.contains(distinct[i]));
                let j = choose|j: int| 0 <= j < given.len() && given[j] == distinct[i];
                assert(is_cell(given[j]));
            }
        }
        if all_valid(distinct@) {
            assert forall|i: int| 0 <= i < given.len() implies is_cell(#[trigger] given[i]) by {
                assert(given.contains(given[i]));
                let j = choose|j: int| 0 <= j < distinct.len() && distinct[j] == given[i];
                assert(is_cell(distinct[j]));
            }
        }
    }
    if !validate_all(&distinct) {
        return Err(Error::InvalidCellIndex);
    }
    match compact_distinct(&distinct) {
        Some(kept) => Ok(kept),
        None => Err(Error::CompactionError),
    }
}

} // verus!
