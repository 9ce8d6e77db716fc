//! The 64-bit layout of a cell index, and the hierarchy that the layout encodes.
//!
//! From the top: one reserved bit (0), four mode bits (1 for a cell), three reserved
//! bits (0), four bits of resolution, seven bits of base cell (0 to 121), then fifteen
//! three-bit digits, one per resolution level. The digits of the levels up to the
//! cell's resolution are in 0..=6; those beyond it are 7. Twelve base cells are
//! pentagons: below them the first digit that is not 0 is never 1.
//!
//! The functions that read bits are opaque: the lemmas of this module say what the
//! rest of the library needs of them.
use crate::seqs::{ascending, lemma_ascending_is_unique};
use vstd::prelude::*;

verus! {

/// The resolution that an index encodes.
#[verifier::opaque]
pub open spec fn resolution_of(cell: u64) -> int {
    ((cell >> 52) & 0xf) as int
}

/// The base cell that an index encodes.
#[verifier::opaque]
pub open spec fn base_cell_of(cell: u64) -> int {
    ((cell >> 45) & 0x7f) as int
}

/// The bit offset of the digit of `level`, for levels 1 to 15.
pub open spec fn digit_offset(level: int) -> u64 {
    (45 - 3 * level) as u64
}

/// The digit of `level`, for levels 1 to 15.
#[verifier::opaque]
pub open spec fn digit(cell: u64, level: int) -> int {
    ((cell >> digit_offset(level)) & 7) as int
}

/// The bits of the digits beyond `res`: all of the low 45 bits for 0, none for 15.
#[verifier::opaque]
pub open spec fn tail_mask(res: int) -> u64 {
    ((1u64 << digit_offset(res)) - 1) as u64
}

/// Whether the base cell is one of the twelve pentagons of the icosahedron.
pub open spec fn is_pentagon_base(base: int) -> bool {
    base == 4 || base == 14 || base == 24 || base == 38 || base == 49 || base == 58 || base == 63
        || base == 72 || base == 83 || base == 97 || base == 107 || base == 117
}

/// Whether every digit of the levels before `level` is 0.
pub open spec fn zeros_before(cell: u64, level: int) -> bool {
    forall|k: int| 1 <= k < level ==> #[trigger] digit(cell, k) == 0
}

/// Whether the integer is the index of a cell of the grid.
pub open spec fn is_cell(cell: u64) -> bool {
    let res = resolution_of(cell);
    &&& cell >> 56 == 8
    &&& base_cell_of(cell) <= 121
    &&& cell & tail_mask(res) == tail_mask(res)
    &&& forall|k: int| 1 <= k <= res ==> #[trigger] digit(cell, k) != 7
    &&& is_pentagon_base(base_cell_of(cell)) ==> forall|k: int|
        1 <= k <= res && zeros_before(cell, k) ==> #[trigger] digit(cell, k) != 1
}

/// Whether the cell is a pentagon: its base cell is one, and all its digits are 0.
pub open spec fn is_pentagon(cell: u64) -> bool {
    is_pentagon_base(base_cell_of(cell)) && zeros_before(cell, resolution_of(cell) + 1)
}

/// The index of the cell of resolution `res` that holds `cell`, for `res` up to the
/// resolution of `cell`: the resolution field is replaced and the digits beyond `res`
/// are set to 7.
#[verifier::opaque]
pub open spec fn ancestor_at(cell: u64, res: int) -> u64 {
    (cell & !(0xfu64 << 52)) | ((res as u64) << 52) | tail_mask(res)
}

/// The parent: the ancestor one level up.
pub open spec fn parent_of(cell: u64) -> u64 {
    ancestor_at(cell, resolution_of(cell) - 1)
}

/// The index one level down from `cell` with `d` as the digit of the new level.
#[verifier::opaque]
pub open spec fn child_of(cell: u64, d: int) -> u64 {
    let res = resolution_of(cell) + 1;
    (cell & !(0xfu64 << 52) & !(7u64 << digit_offset(res))) | ((res as u64) << 52) | ((d as u64)
        << digit_offset(res))
}

/// The cells of resolution `res` that `cell` holds: itself at its own resolution, none
/// at a coarser one.
pub open spec fn descendants(cell: u64, res: int) -> Set<u64> {
    Set::new(
        |d: u64|
            is_cell(d) && resolution_of(d) == res && resolution_of(cell) <= res && ancestor_at(
                d,
                resolution_of(cell),
            ) == cell,
    )
}

/// The descendants of `cell` at resolution `res` in rising order of their indexes:
/// the order in which the grid lists them.
pub open spec fn listing(cell: u64, res: int) -> Seq<u64> {
    choose|s: Seq<u64>| ascending(s) && s.to_set() == descendants(cell, res)
}

/// The children: the descendants one level down.
pub open spec fn children_of(cell: u64) -> Set<u64> {
    descendants(cell, resolution_of(cell) + 1)
}

/// A rising list of the descendants is the listing.
pub proof fn lemma_listing(cell: u64, res: int, s: Seq<u64>)
    requires
        ascending(s),
        s.to_set() == descendants(cell, res),
    ensures
        s == listing(cell, res),
{
    lemma_ascending_is_unique(s, listing(cell, res));
}

/// A resolution field holds 0 to 15.
pub proof fn lemma_resolution_bound(cell: u64)
    ensures
        0 <= resolution_of(cell) <= 15,
{
    reveal(resolution_of);
    assert((cell >> 52) & 0xf <= 15) by (bit_vector);
}

/// A digit is 0 to 7.
proof fn lemma_digit_bound(cell: u64, level: int)
    ensures
        0 <= digit(cell, level) <= 7,
{
    reveal(digit);
    let at: u64 = digit_offset(level);
    assert((cell >> at) & 7 <= 7) by (bit_vector);
}

proof fn lemma_ancestor_fields(cell: u64, res: u64)
    requires
        res <= 15,
    ensures
        resolution_of(ancestor_at(cell, res as int)) == res,
        base_cell_of(ancestor_at(cell, res as int)) == base_cell_of(cell),
        ancestor_at(cell, res as int) >> 56 == cell >> 56,
        ancestor_at(cell, res as int) & tail_mask(res as int) == tail_mask(res as int),
{
    reveal(resolution_of);
    reveal(base_cell_of);
    reveal(tail_mask);
    reveal(ancestor_at);
    let off: u64 = (45 - 3 * res) as u64;
    let t: u64 = tail_mask(res as int);
    let a: u64 = ancestor_at(cell, res as int);
    assert((a >> 52) & 0xf == res && (a >> 45) & 0x7f == (cell >> 45) & 0x7f && a >> 56 == cell
        >> 56 && a & t == t) by (bit_vector)
        requires
            off <= 45,
            res <= 15,
            t == ((1u64 << off) - 1) as u64,
            a == (cell & !(0xfu64 << 52)) | (res << 52) | t,
    ;
}

proof fn lemma_ancestor_digit(cell: u64, res: u64, level: u64)
    requires
        1 <= level <= res <= 15,
    ensures
        digit(ancestor_at(cell, res as int), level as int) == digit(cell, level as int),
{
    reveal(digit);
    reveal(tail_mask);
    reveal(ancestor_at);
    let off: u64 = (45 - 3 * res) as u64;
    let at: u64 = (45 - 3 * level) as u64;
    let t: u64 = tail_mask(res as int);
    let a: u64 = ancestor_at(cell, res as int);
    assert((a >> at) & 7 == (cell >> at) & 7) by (bit_vector)
        requires
            off <= at <= 42,
            res <= 15,
            t == ((1u64 << off) - 1) as u64,
            a == (cell & !(0xfu64 << 52)) | (res << 52) | t,
    ;
}

/// The ancestors of a cell are cells.
pub proof fn lemma_ancestor_is_cell(cell: u64, res: int)
    requires
        is_cell(cell),
        0 <= res <= resolution_of(cell),
    ensures
        is_cell(ancestor_at(cell, res)),
        resolution_of(ancestor_at(cell, res)) == res,
{
    lemma_resolution_bound(cell);
    let a = ancestor_at(cell, res);
    lemma_ancestor_fields(cell, res as u64);
    assert forall|k: int| 1 <= k <= res implies digit(a, k) == digit(cell, k) by {
        lemma_ancestor_digit(cell, res as u64, k as u64);
    }
    assert forall|k: int| 1 <= k <= res && #[trigger] zeros_before(a, k) implies zeros_before(
        cell,
        k,
    ) by {
        assert forall|j: int| 1 <= j < k implies #[trigger] digit(cell, j) == 0 by {
            assert(digit(a, j) == 0);
        }
    }
}

/// A cell is its own ancestor at its own resolution.
pub proof fn lemma_ancestor_self(cell: u64)
    requires
        is_cell(cell),
    ensures
        ancestor_at(cell, resolution_of(cell)) == cell,
{
    reveal(resolution_of);
    reveal(tail_mask);
    reveal(ancestor_at);
    let res: u64 = (cell >> 52) & 0xf;
    assert(res <= 15) by (bit_vector)
        requires
            res == (cell >> 52) & 0xf,
    ;
    let off: u64 = (45 - 3 * res) as u64;
    let t: u64 = tail_mask(res as int);
    assert((cell & !(0xfu64 << 52)) | (res << 52) | t == cell) by (bit_vector)
        requires
            off <= 45,
            res == (cell >> 52) & 0xf,
            t == ((1u64 << off) - 1) as u64,
            cell & t == t,
    ;
}

/// The ancestor of an ancestor is an ancestor.
pub proof fn lemma_ancestor_of_ancestor(cell: u64, fine: int, coarse: int)
    requires
        0 <= coarse <= fine <= 15,
    ensures
        ancestor_at(ancestor_at(cell, fine), coarse) == ancestor_at(cell, coarse),
{
    reveal(tail_mask);
    reveal(ancestor_at);
    let f: u64 = fine as u64;
    let c: u64 = coarse as u64;
    let off_f: u64 = (45 - 3 * f) as u64;
    let off_c: u64 = (45 - 3 * c) as u64;
    let tf: u64 = tail_mask(fine);
    let tc: u64 = tail_mask(coarse);
    let mid: u64 = (cell & !(0xfu64 << 52)) | (f << 52) | tf;
    assert((mid & !(0xfu64 << 52)) | (c << 52) | tc == (cell & !(0xfu64 << 52)) | (c << 52) | tc)
        by (bit_vector)
        requires
            off_f <= off_c <= 45,
            f <= 15,
            c <= 15,
            tf == ((1u64 << off_f) - 1) as u64,
            tc == ((1u64 << off_c) - 1) as u64,
            mid == (cell & !(0xfu64 << 52)) | (f << 52) | tf,
    ;
}

proof fn lemma_child_fields(cell: u64, d: u64)
    requires
        cell & tail_mask(resolution_of(cell)) == tail_mask(resolution_of(cell)),
        resolution_of(cell) < 15,
        d <= 7,
    ensures
        resolution_of(child_of(cell, d as int)) == resolution_of(cell) + 1,
        base_cell_of(child_of(cell, d as int)) == base_cell_of(cell),
        child_of(cell, d as int) >> 56 == cell >> 56,
        child_of(cell, d as int) & tail_mask(resolution_of(cell) + 1) == tail_mask(
            resolution_of(cell) + 1,
        ),
        digit(child_of(cell, d as int), resolution_of(cell) + 1) == d,
        ancestor_at(child_of(cell, d as int), resolution_of(cell)) == cell,
{
    reveal(resolution_of);
    reveal(base_cell_of);
    reveal(digit);
    reveal(tail_mask);
    reveal(ancestor_at);
    reveal(child_of);
    let res: u64 = (cell >> 52) & 0xf;
    let down: u64 = (res + 1) as u64;
    let off: u64 = (45 - 3 * res) as u64;
    let at: u64 = (45 - 3 * down) as u64;
    let t: u64 = tail_mask(res as int);
    let tt: u64 = tail_mask(down as int);
    let child: u64 = child_of(cell, d as int);
    assert(child == (cell & !(0xfu64 << 52) & !(7u64 << at)) | (down << 52) | (d << at));
    assert((child >> 52) & 0xf == down && (child >> 45) & 0x7f == (cell >> 45) & 0x7f && child
        >> 56 == cell >> 56 && child & tt == tt && (child >> at) & 7 == d && (child & !(0xfu64
        << 52)) | (res << 52) | t == cell) by (bit_vector)
        requires
            res < 15,
            down == res + 1,
            off == at + 3,
            at <= 42,
            d <= 7,
            res == (cell >> 52) & 0xf,
            t == ((1u64 << off) - 1) as u64,
            tt == ((1u64 << at) - 1) as u64,
            cell & t == t,
            child == (cell & !(0xfu64 << 52) & !(7u64 << at)) | (down << 52) | (d << at),
    ;
}

proof fn lemma_child_digit(cell: u64, d: u64, level: int)
    requires
        1 <= level <= resolution_of(cell) < 15,
        d <= 7,
    ensures
        digit(child_of(cell, d as int), level) == digit(cell, level),
{
    reveal(resolution_of);
    reveal(digit);
    reveal(child_of);
    let res: u64 = (cell >> 52) & 0xf;
    let down: u64 = (res + 1) as u64;
    let at: u64 = (45 - 3 * down) as u64;
    let lv: u64 = (45 - 3 * level) as u64;
    let child: u64 = child_of(cell, d as int);
    assert(child == (cell & !(0xfu64 << 52) & !(7u64 << at)) | (down << 52) | (d << at));
    assert((child >> lv) & 7 == (cell >> lv) & 7) by (bit_vector)
        requires
            at + 3 <= lv <= 42,
            d <= 7,
            down <= 15,
            child == (cell & !(0xfu64 << 52) & !(7u64 << at)) | (down << 52) | (d << at),
    ;
}

proof fn lemma_child_is_cell(cell: u64, d: int)
    requires
        is_cell(cell),
        resolution_of(cell) < 15,
        0 <= d <= 6,
        !(is_pentagon(cell) && d == 1),
    ensures
        is_cell(child_of(cell, d)),
{
    let res = resolution_of(cell);
    let child = child_of(cell, d);
    lemma_resolution_bound(cell);
    lemma_child_fields(cell, d as u64);
    assert forall|k: int| 1 <= k <= res implies #[trigger] digit(child, k) == digit(cell, k) by {
        lemma_child_digit(cell, d as u64, k);
    }
    assert forall|k: int| 1 <= k <= res + 1 implies #[trigger] digit(child, k) != 7 by {
        if k <= res {
            assert(digit(cell, k) != 7);
        }
    }
    if is_pentagon_base(base_cell_of(cell)) {
        assert forall|k: int| 1 <= k <= res + 1 && zeros_before(child, k) implies #[trigger] digit(
            child,
            k,
        ) != 1 by {
            assert forall|j: int| 1 <= j < k implies #[trigger] digit(cell, j) == 0 by {
                assert(digit(child, j) == 0);
            }
            assert(zeros_before(cell, k));
            if k <= res {
                assert(digit(cell, k) != 1);
            }
        }
    }
}

/// Below a cell coarser than the finest resolution, each digit from 0 to 6 gives a
/// child; but for digit 1 below a pentagon.
pub proof fn lemma_child(cell: u64, d: int)
    requires
        is_cell(cell),
        resolution_of(cell) < 15,
        0 <= d <= 6,
        !(is_pentagon(cell) && d == 1),
    ensures
        children_of(cell).contains(child_of(cell, d)),
        digit(child_of(cell, d), resolution_of(cell) + 1) == d,
{
    lemma_resolution_bound(cell);
    lemma_child_fields(cell, d as u64);
    lemma_child_is_cell(cell, d);
}

proof fn lemma_child_from_digit(cell: u64, c: u64)
    requires
        resolution_of(cell) < 15,
        resolution_of(c) == resolution_of(cell) + 1,
        c & tail_mask(resolution_of(c)) == tail_mask(resolution_of(c)),
        ancestor_at(c, resolution_of(cell)) == cell,
    ensures
        c == child_of(cell, digit(c, resolution_of(cell) + 1)),
{
    reveal(resolution_of);
    reveal(digit);
    reveal(tail_mask);
    reveal(ancestor_at);
    reveal(child_of);
    let res: u64 = (cell >> 52) & 0xf;
    let down: u64 = (res + 1) as u64;
    let off: u64 = (45 - 3 * res) as u64;
    let at: u64 = (45 - 3 * down) as u64;
    let t: u64 = tail_mask(res as int);
    let tt: u64 = tail_mask(down as int);
    let d: u64 = (c >> at) & 7;
    assert(d == digit(c, resolution_of(cell) + 1));
    let child: u64 = child_of(cell, d as int);
    assert(child == (cell & !(0xfu64 << 52) & !(7u64 << at)) | (down << 52) | (d << at));
    assert(child == c) by (bit_vector)
        requires
            res < 15,
            down == res + 1,
            off == at + 3,
            at <= 42,
            down == (c >> 52) & 0xf,
            t == ((1u64 << off) - 1) as u64,
            tt == ((1u64 << at) - 1) as u64,
            c & tt == tt,
            cell == (c & !(0xfu64 << 52)) | (res << 52) | t,
            d == (c >> at) & 7,
            child == (cell & !(0xfu64 << 52) & !(7u64 << at)) | (down << 52) | (d << at),
    ;
}

/// Every child of a cell is given by its last digit, which is 0 to 6, and not 1 below
/// a pentagon.
pub proof fn lemma_children(cell: u64, c: u64)
    requires
        is_cell(cell),
        children_of(cell).contains(c),
    ensures
        c == child_of(cell, digit(c, resolution_of(cell) + 1)),
        0 <= digit(c, resolution_of(cell) + 1) <= 6,
        !(is_pentagon(cell) && digit(c, resolution_of(cell) + 1) == 1),
{
    let res = resolution_of(cell);
    lemma_resolution_bound(cell);
    lemma_resolution_bound(c);
    lemma_digit_bound(c, res + 1);
    lemma_child_from_digit(cell, c);
    if is_pentagon(cell) {
        lemma_ancestor_fields(c, res as u64);
        assert forall|k: int| 1 <= k < res + 1 implies #[trigger] digit(c, k) == 0 by {
            lemma_ancestor_digit(c, res as u64, k as u64);
            assert(digit(cell, k) == 0);
        }
        assert(zeros_before(c, res + 1));
    }
}

/// The fan-out of the grid: a cell coarser than the finest resolution has seven
/// children, a pentagon six.
pub proof fn law_fan_out(cell: u64)
    requires
        is_cell(cell),
        resolution_of(cell) < 15,
    ensures
        children_of(cell).finite(),
        children_of(cell).len() == if is_pentagon(cell) {
            6nat
        } else {
            7nat
        },
{
    let by_digit = |d: int| child_of(cell, d);
    let others = set![by_digit(0), by_digit(2), by_digit(3), by_digit(4), by_digit(5), by_digit(6)];
    let all = others.insert(by_digit(1));
    lemma_child(cell, 0);
    lemma_child(cell, 2);
    lemma_child(cell, 3);
    lemma_child(cell, 4);
    lemma_child(cell, 5);
    lemma_child(cell, 6);
    assert(others.len() == 6);
    assert forall|c: u64| children_of(cell).contains(c) implies all.contains(c) && (is_pentagon(
        cell,
    ) ==> others.contains(c)) by {
        lemma_children(cell, c);
    }
    if is_pentagon(cell) {
        assert(children_of(cell) =~= others);
    } else {
        lemma_child(cell, 1);
        assert(children_of(cell) =~= all);
    }
}

} // verus!
