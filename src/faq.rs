//! Which entries of a question-and-answer list are open.
use vstd::prelude::*;

verus! {

/// The first place of `s` that holds `x`, where `s` holds it.
pub open spec fn first_position(s: Seq<usize>, x: usize) -> int {
    choose|p: int| 0 <= p < s.len() && s[p] == x && forall|j: int| 0 <= j < p ==> s[j] != x
}

/// The open entries after a click on entry `index`: the first place that
/// holds `index` is dropped where there is one, else `index` is added last.
pub open spec fn toggled(open: Seq<usize>, index: usize) -> Seq<usize> {
    if open.contains(index) {
        open.remove(first_position(open, index))
    } else {
        open.push(index)
    }
}

/// Opens entry `index` where it is closed, and closes it where it is open.
pub fn toggle_open(open: &mut Vec<usize>, index: usize)
    ensures
        final(open)@ == toggled(old(open)@, index),
{
    let ghost before = open@;
    let mut p: usize = 0;
    while p < open.len() && open[p] != index
        invariant
            open@ == before,
            p <= open@.len(),
            forall|j: int| 0 <= j < p ==> open@[j] != index,
        decreases open@.len() - p,
    {
        p = p + 1;
    }
    if p < open.len() {
        let ghost pi = p as int;
        assert(before.contains(index));
        assert(exists|r: int|
            0 <= r < before.len() && before[r] == index && forall|j: int|
                0 <= j < r ==> before[j] != index) by {
            assert(0 <= pi < before.len() && before[pi] == index && forall|j: int|
                0 <= j < pi ==> before[j] != index);
        }
        let ghost q = first_position(before, index);
        assert(q == pi) by {
            if q < pi {
                assert(before[q] != index);
            } else if q > pi {
                assert(before[pi] != index);
            }
        }
        open.remove(p);
    } else {
        assert(!before.contains(index));
        open.push(index);
    }
}

} // verus!
