//! Naked subsets of every size at once.

use vstd::prelude::*;
use crate::board::Board;
use crate::findings::views;
use crate::nakeds::{from_board_sized, no_two_alike, Group, GroupView};

verus! {

/// The views of two lists in a row are the views of the one and then of the other.
proof fn lemma_views_joined(a: Seq<Group>, b: Seq<Group>)
    ensures
        views(a + b) == views(a) + views(b),
        forall|p: GroupView| #[trigger]
            views(a + b).contains(p) <==> views(a).contains(p) || views(b).contains(p),
{
    let whole = views(a + b);
    assert(whole =~= views(a) + views(b));
    assert forall|p: GroupView| #[trigger]
        whole.contains(p) <==> views(a).contains(p) || views(b).contains(p) by {
        if whole.contains(p) {
            let i = choose|i: int| 0 <= i < whole.len() && whole[i] == p;
            if i < a.len() {
                assert(views(a)[i] == p);
            } else {
                assert(views(b)[i - a.len()] == p);
            }
        }
        if views(a).contains(p) {
            let i = choose|i: int| 0 <= i < views(a).len() && views(a)[i] == p;
            assert(whole[i] == p);
        }
        if views(b).contains(p) {
            let i = choose|i: int| 0 <= i < views(b).len() && views(b)[i] == p;
            assert(whole[a.len() + i] == p);
        }
    }
}

/// The naked pairs, then the naked triples, then the naked quads of the
/// board, each combination of cells once.
pub fn from_board(board: &Board) -> (found: Vec<Group>)
    requires
        board@.shaped(),
    ensures
        forall|p: GroupView| #[trigger]
            views(found@).contains(p) <==> board@.is_naked(2, p) || board@.is_naked(3, p)
                || board@.is_naked(4, p),
        no_two_alike(views(found@)),
{
    let mut found = from_board_sized(board, 2);
    let mut triples = from_board_sized(board, 3);
    let mut quads = from_board_sized(board, 4);
    let ghost two = found@;
    let ghost three = triples@;
    let ghost four = quads@;
    found.append(&mut triples);
    found.append(&mut quads);
    proof {
        lemma_views_joined(two, three);
        lemma_views_joined(two + three, four);
        let all = views(found@);
        assert forall|i: int| 0 <= i < all.len() implies (#[trigger] all[i]).cells.len() == (if i
            < two.len() {
            2int
        } else if i < two.len() + three.len() {
            3int
        } else {
            4int
        }) by {
            if i < two.len() {
                assert(views(two)[i] == all[i]);
                assert(views(two).contains(all[i]));
            } else if i < two.len() + three.len() {
                assert(views(three)[i - two.len()] == all[i]);
                assert(views(three).contains(all[i]));
            } else {
                assert(views(four)[i - two.len() - three.len()] == all[i]);
                assert(views(four).contains(all[i]));
            }
        }
        assert forall|i: int, j: int| 0 <= i < j < all.len() implies all[i].cells != all[j].cells by {
            if j < two.len() {
                assert(views(two)[i] == all[i] && views(two)[j] == all[j]);
            } else if two.len() <= i && j < two.len() + three.len() {
                assert(views(three)[i - two.len()] == all[i]);
                assert(views(three)[j - two.len()] == all[j]);
            } else if two.len() + three.len() <= i {
                assert(views(four)[i - two.len() - three.len()] == all[i]);
                assert(views(four)[j - two.len() - three.len()] == all[j]);
            }
        }
    }
    found
}

} // verus!
