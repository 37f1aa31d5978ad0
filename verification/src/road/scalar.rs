//! The portable road test: flood fills over bitboards.

use vstd::prelude::*;
use crate::road::{
    BOARD, LEFT_EDGE, LOWER_EDGE, RIGHT_EDGE, adjacent, bit, is_walk, lemma_adjacent_iff,
    lemma_bits_basic, lemma_expand_bit, occupied, reaches,
    reaches_bottom, reaches_right, within_board, lemma_bits_difference, lemma_nonzero_has_bit,
    is_fill, lemma_fill_meets_edges,
};
use vstd::set_lib::{lemma_int_range, lemma_len_subset, set_int_range};

verus! {

/// Expands `set` to the squares orthogonally adjacent to it, restricted to `occ`.
///
/// Shifts of 6 move between ranks. Shifts of 1 move between files and are masked
/// against the edge they would wrap into, so a square on the right file cannot
/// leak onto the left file of the next rank.
fn expand(set: u64, occ: u64) -> (r: u64)
    ensures
        within_board(occ) ==> within_board(r),
        within_board(set) ==> forall|i: int|
            #![trigger bit(r, i as u64)]
            0 <= i < 36 ==> (bit(r, i as u64) <==> (occupied(occ, i) && exists|j: int|
                #[trigger] adjacent(j, i) && bit(set, j as u64))),
{
    let up = set << 6;
    let down = set >> 6;
    let left = (set << 1) & !LEFT_EDGE;
    let right = (set >> 1) & !RIGHT_EDGE;

    let r = (up | down | left | right) & occ;
    proof {
        lemma_bits_basic(up | down | left | right, occ, 0);
        if within_board(set) {
            assert forall|i: int| 0 <= i < 36 implies (bit(r, i as u64) <==> (occupied(occ, i)
                && exists|j: int| #[trigger] adjacent(j, i) && bit(set, j as u64))) by {
                lemma_expand_bit(set, occ, i as u64);
                let iu = i as u64;
                if bit(r, iu) {
                    let j: int = if iu >= 6 && bit(set, (iu - 6) as u64) {
                        i - 6
                    } else if bit(set, (iu + 6) as u64) {
                        i + 6
                    } else if iu % 6 != 0 && bit(set, (iu - 1) as u64) {
                        i - 1
                    } else {
                        i + 1
                    };
                    lemma_bits_basic(set, set, j as u64);
                    lemma_adjacent_iff(j, i);
                    assert(adjacent(j, i) && bit(set, j as u64));
                }
                if occupied(occ, i) && exists|j: int| #[trigger] adjacent(j, i) && bit(set, j as u64) {
                    let j = choose|j: int| #[trigger] adjacent(j, i) && bit(set, j as u64);
                    lemma_adjacent_iff(j, i);
                }
            }
        }
    }
    r
}

/// No square outside `set` is an occupied neighbour of a square of `set`.
pub open spec fn closed(set: u64, occ: u64) -> bool {
    forall|j: int, i: int|
        #![trigger adjacent(j, i), bit(set, j as u64), bit(occ, i as u64)]
        adjacent(j, i) && bit(set, j as u64) && bit(occ, i as u64) ==> bit(set, i as u64)
}

/// Every square of a walk from `seed` lies in a set that holds `seed` and is
/// closed under occupied neighbours.
proof fn lemma_walk_stays_in_closed(occ: u64, seed: u64, set: u64, p: Seq<int>)
    requires
        is_walk(occ, seed, p),
        closed(set, occ),
        forall|i: u64| i < 36 && #[trigger] bit(seed, i) ==> bit(set, i),
    ensures
        bit(set, p.last() as u64),
    decreases p.len(),
{
    if p.len() > 1 {
        let q = p.drop_last();
        assert(is_walk(occ, seed, q)) by {
            assert forall|k: int| 1 <= k < q.len() implies #[trigger] occupied(occ, q[k]) by {
                assert(occupied(occ, p[k]));
            }
            assert forall|k: int| 0 <= k < q.len() - 1 implies #[trigger] adjacent(q[k], q[k + 1]) by {
                assert(adjacent(p[k], p[k + 1]));
            }
        }
        lemma_walk_stays_in_closed(occ, seed, set, q);
        let m = p.len() - 2;
        assert(adjacent(p[m], p[m + 1]));
        assert(occupied(occ, p[m + 1]));
    }
}

/// A walk ending on `j` extends to any occupied neighbour `i` of `j`.
proof fn lemma_walk_extends(occ: u64, seed: u64, j: int, i: int)
    requires
        reaches(occ, seed, j),
        adjacent(j, i),
        occupied(occ, i),
    ensures
        reaches(occ, seed, i),
{
    let p = choose|p: Seq<int>| #[trigger] is_walk(occ, seed, p) && p.last() == j;
    let q = p.push(i);
    assert forall|k: int| 1 <= k < q.len() implies #[trigger] occupied(occ, q[k]) by {
        if k < p.len() {
            assert(occupied(occ, p[k]));
        }
    }
    assert forall|k: int| 0 <= k < q.len() - 1 implies #[trigger] adjacent(q[k], q[k + 1]) by {
        if k < p.len() - 1 {
            assert(adjacent(p[k], p[k + 1]));
        }
    }
    assert(is_walk(occ, seed, q));
}

/// The squares of `set` that are not in `seed`: what a fill has added.
pub open spec fn added(set: u64, seed: u64) -> Set<int> {
    Set::new(|i: int| 0 <= i < 36 && bit(set, i as u64) && !bit(seed, i as u64))
}

/// The occupied squares of `occ` outside `seed`: all that a fill can add.
pub open spec fn addable(occ: u64, seed: u64) -> Set<int> {
    Set::new(|i: int| 0 <= i < 36 && bit(occ, i as u64) && !bit(seed, i as u64))
}

/// Flood fills outwards from `seed` through `occ` until it stops growing.
///
/// Every expansion that does not end the fill adds at least one occupied
/// square, so the fill ends after at most one expansion more than there are
/// occupied squares outside `seed`.
fn flood(seed: u64, occ: u64) -> (r: u64)
    requires
        within_board(seed),
        within_board(occ),
    ensures
        is_fill(r, occ, seed),
{
    let mut set = seed;
    let ghost mut steps: nat = 0;

    proof {
        assert forall|i: int| 0 <= i < 36 && bit(set, i as u64) implies reaches(occ, seed, i) by {
            let p = seq![i];
            assert(is_walk(occ, seed, p));
        }
        assert(added(set, seed) =~= Set::<int>::empty());
        lemma_int_range(0, 36);
        lemma_len_subset(addable(occ, seed), set_int_range(0, 36));
    }

    loop
        invariant
            within_board(seed),
            within_board(occ),
            within_board(set),
            forall|i: u64| i < 36 && #[trigger] bit(seed, i) ==> bit(set, i),
            forall|i: int| 0 <= i < 36 && bit(set, i as u64) ==> reaches(occ, seed, i),
            addable(occ, seed).finite(),
            added(set, seed).subset_of(addable(occ, seed)),
            steps <= added(set, seed).len(),
        decreases BOARD - set,
    {
        let e = expand(set, occ);
        let next = set | e;

        proof {
            lemma_bits_basic(e, occ, 0);
            lemma_bits_basic(set, e, 0);
        }

        if next == set {
            proof {
                assert forall|j: int, i: int|
                    #![trigger adjacent(j, i), bit(set, j as u64), bit(occ, i as u64)]
                    adjacent(j, i) && bit(set, j as u64) && bit(occ, i as u64)
                    implies bit(set, i as u64) by {
                    lemma_bits_basic(set, e, i as u64);
                    assert(occupied(occ, i));
                    assert(bit(e, i as u64));
                }
                assert forall|i: int| 0 <= i < 36 && reaches(occ, seed, i) implies bit(set, i as u64) by {
                    let p = choose|p: Seq<int>| #[trigger] is_walk(occ, seed, p) && p.last() == i;
                    lemma_walk_stays_in_closed(occ, seed, set, p);
                }
            }
            proof {
                lemma_len_subset(added(set, seed), addable(occ, seed));
                assert(steps <= addable(occ, seed).len());
            }
            return set;
        }

        proof {
            lemma_bits_difference(set, e, 0);
            lemma_nonzero_has_bit(e & !set);
            let k = choose|k: u64| k < 64 && #[trigger] bit(e & !set, k);
            lemma_bits_difference(set, e, k);
            lemma_bits_basic(e, e, k);
            lemma_bits_basic(set, e, k);
            assert(k < 36);
            assert(occupied(occ, k as int));
            assert(!bit(seed, k)) by {
                if bit(seed, k) {
                    assert(bit(set, k));
                }
            }
            assert(added(set, seed).insert(k as int).subset_of(added(next, seed))) by {
                assert forall|i: int| added(set, seed).contains(i) implies added(next, seed).contains(i) by {
                    lemma_bits_basic(set, e, i as u64);
                }
            }
            assert(added(next, seed).subset_of(addable(occ, seed))) by {
                assert forall|i: int| added(next, seed).contains(i) implies addable(occ, seed).contains(i) by {
                    lemma_bits_basic(set, e, i as u64);
                    if !bit(set, i as u64) {
                        assert(bit(e, i as u64));
                    }
                }
            }
            lemma_len_subset(added(next, seed), addable(occ, seed));
            lemma_len_subset(added(set, seed), addable(occ, seed));
            lemma_len_subset(added(set, seed).insert(k as int), added(next, seed));
            assert(!added(set, seed).contains(k as int));
            steps = steps + 1;
        }

        proof {
            assert forall|i: u64| i < 36 && #[trigger] bit(seed, i) implies bit(next, i) by {
                lemma_bits_basic(set, e, i);
            }
            assert forall|i: int| 0 <= i < 36 && bit(next, i as u64) implies reaches(occ, seed, i) by {
                lemma_bits_basic(set, e, i as u64);
                if !bit(set, i as u64) {
                    assert(bit(e, i as u64));
                    let j = choose|j: int| #[trigger] adjacent(j, i) && bit(set, j as u64);
                    lemma_walk_extends(occ, seed, j, i);
                }
            }
        }
        set = next;
    }
}

/// Portable equivalent of the vectorised road tests.
///
/// Only one seed per axis is used. A road exists exactly when the fill from one
/// edge reaches the opposite edge, so filling from both ends is an
/// iteration-count optimisation rather than a difference in meaning.
pub fn has_road(road_occ: u64, up: u64, _down: u64, left: u64, _right: u64) -> (r: bool)
    requires
        within_board(road_occ),
        within_board(up),
        within_board(left),
    ensures
        r == (reaches_bottom(road_occ, up) || reaches_right(road_occ, left)),
{
    let vertical = flood(up, road_occ);
    let horizontal = flood(left, road_occ);
    proof {
        lemma_fill_meets_edges(vertical, road_occ, up);
        lemma_fill_meets_edges(horizontal, road_occ, left);
    }
    vertical & LOWER_EDGE != 0 || horizontal & RIGHT_EDGE != 0
}

} // verus!
