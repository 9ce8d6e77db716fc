//! Removing repeated cells from a list.
use itertools::Itertools;
use vstd::prelude::*;

verus! {

/// The list without its repetitions: each value stays where it first occurs.
pub open spec fn first_occurrences(s: Seq<u64>) -> Seq<u64>
    decreases s.len(),
{
    if s.len() == 0 {
        Seq::empty()
    } else {
        let head = first_occurrences(s.drop_last());
        if head.contains(s.last()) {
            head
        } else {
            head.push(s.last())
        }
    }
}

/// `itertools::Itertools::unique`: passes each value on the first time it comes, in
/// the order of the input.
#[verifier::external_body]
pub(crate) fn unique(cells: Vec<u64>) -> (kept: Vec<u64>)
    ensures
        kept@ == first_occurrences(cells@),
{
    cells.into_iter().unique().collect()
}

/// What is left holds no value twice, and holds exactly the values of the list.
pub proof fn lemma_first_occurrences(s: Seq<u64>)
    ensures
        first_occurrences(s).no_duplicates(),
        forall|x: u64|
            #![trigger first_occurrences(s).contains(x)]
            #![trigger s.contains(x)]
            first_occurrences(s).contains(x) <==> s.contains(x),
        first_occurrences(s).to_set() == s.to_set(),
    decreases s.len(),
{
    let kept = first_occurrences(s);
    if s.len() == 0 {
        assert(kept.to_set() =~= s.to_set());
    } else {
        let init = s.drop_last();
        let head = first_occurrences(init);
        lemma_first_occurrences(init);
        assert forall|x: u64| kept.contains(x) <==> s.contains(x) by {
            if kept.contains(x) {
                let i = choose|i: int| 0 <= i < kept.len() && kept[i] == x;
                if i < head.len() {
                    assert(head.contains(x));
                    let j = choose|j: int| 0 <= j < init.len() && init[j] == x;
                    assert(s[j] == x);
                } else {
                    assert(s[s.len() - 1] == x);
                }
            }
            if s.contains(x) {
                let j = choose|j: int| 0 <= j < s.len() && s[j] == x;
                if j < init.len() {
                    assert(init[j] == x);
                    assert(head.contains(x));
                    let i = choose|i: int| 0 <= i < head.len() && head[i] == x;
                    assert(kept[i] == x);
                } else if !head.contains(x) {
                    assert(kept[kept.len() - 1] == x);
                }
            }
        }
        assert(kept.to_set() =~= s.to_set());
    }
}

} // verus!
