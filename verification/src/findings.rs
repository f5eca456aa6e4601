//! Lists of findings: what an analyzer hands to the board.

use vstd::prelude::*;

verus! {

/// The views of the items of a list.
pub open spec fn views<T: View>(s: Seq<T>) -> Seq<T::V> {
    Seq::new(s.len(), |i: int| s[i]@)
}

/// Appends a finding.
pub fn record<T: View>(found: &mut Vec<T>, x: T)
    ensures
        final(found)@ == old(found)@.push(x),
        views(final(found)@) == views(old(found)@).push(x@),
        forall|p: T::V| #[trigger]
            views(final(found)@).contains(p) <==> views(old(found)@).contains(p) || p == x@,
{
    let ghost before = views(found@);
    found.push(x);
    proof {
        assert(views(found@) =~= before.push(x@));
        assert forall|p: T::V| #[trigger]
            views(found@).contains(p) <==> before.contains(p) || p == x@ by {
            if before.contains(p) {
                let i = choose|i: int| 0 <= i < before.len() && before[i] == p;
                assert(views(found@)[i] == p);
            }
            if p == x@ {
                assert(views(found@)[before.len() as int] == p);
            }
        }
    }
}

/// Appends a finding that is its own description.
pub fn note<T>(found: &mut Vec<T>, x: T)
    ensures
        final(found)@ == old(found)@.push(x),
        forall|z: T| #[trigger] final(found)@.contains(z) <==> old(found)@.contains(z) || z == x,
{
    let ghost before = found@;
    found.push(x);
    proof {
        assert forall|z: T| #[trigger] found@.contains(z) <==> before.contains(z) || z == x by {
            if before.contains(z) {
                let i = choose|i: int| 0 <= i < before.len() && before[i] == z;
                assert(found@[i] == z);
            }
            if z == x {
                assert(found@[before.len() as int] == z);
            }
        }
    }
}

} // verus!
