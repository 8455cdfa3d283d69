//! What a filter keeps, and in which order.

use vstd::prelude::*;

verus! {

/// The positions in `s` of the elements that `s.filter(pred)` keeps, in
/// rising order: the filter keeps exactly the elements that meet `pred`, and
/// keeps them in the order in which they stand in `s`.
pub proof fn lemma_filter_positions<A>(s: Seq<A>, pred: spec_fn(A) -> bool) -> (at: Seq<int>)
    ensures
        at.len() == s.filter(pred).len(),
        forall|k: int|
            0 <= k < at.len() ==> 0 <= (#[trigger] at[k]) < s.len() && s[at[k]] == s.filter(pred)[k]
                && pred(s[at[k]]),
        forall|k: int, l: int| 0 <= k < l < at.len() ==> (#[trigger] at[k]) < (#[trigger] at[l]),
        forall|i: int|
            0 <= i < s.len() && pred(#[trigger] s[i]) ==> exists|k: int|
                0 <= k < at.len() && (#[trigger] at[k]) == i,
    decreases s.len(),
{
    reveal(Seq::filter);
    if s.len() == 0 {
        Seq::empty()
    } else {
        let front = s.drop_last();
        let before = lemma_filter_positions(front, pred);
        let last = s.len() - 1;
        if pred(s.last()) {
            let at = before.push(last);
            assert forall|i: int| 0 <= i < s.len() && pred(#[trigger] s[i]) implies exists|k: int|
                0 <= k < at.len() && (#[trigger] at[k]) == i by {
                if i < last {
                    assert(pred(front[i]));
                    let k = choose|k: int| 0 <= k < before.len() && (#[trigger] before[k]) == i;
                    assert(at[k] == i);
                } else {
                    assert(at[before.len() as int] == i);
                }
            }
            at
        } else {
            assert forall|i: int| 0 <= i < s.len() && pred(#[trigger] s[i]) implies exists|k: int|
                0 <= k < before.len() && (#[trigger] before[k]) == i by {
                assert(pred(front[i]));
            }
            before
        }
    }
}

} // verus!
