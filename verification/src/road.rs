//! Road detection on the 6x6 board.
//!
//! A board is a `u64` whose low 36 bits are the squares, square `sq` lying on
//! rank `sq / 6` and file `sq % 6`. A road is a chain of orthogonally adjacent
//! occupied squares joining the top rank to the bottom rank, or the left file
//! to the right file.

use vstd::prelude::*;

pub mod scalar;

verus! {

/// Every square of the board.
pub const BOARD: u64 = 0xf_ffff_ffff;
/// The bottom rank (rank 0).
pub const LOWER_EDGE: u64 = 0x3f;
/// The top rank (rank 5).
pub const UPPER_EDGE: u64 = 0xf_c000_0000;
/// The left file (file 0).
pub const LEFT_EDGE: u64 = 0x0_4104_1041;
/// The right file (file 5).
pub const RIGHT_EDGE: u64 = 0x8_2082_0820;

/// Bit `i` of `x` is set.
pub open spec fn bit(x: u64, i: u64) -> bool {
    (x >> i) & 1u64 == 1u64
}

pub open spec fn on_board(sq: int) -> bool {
    0 <= sq < 36
}

pub open spec fn rank(sq: int) -> int {
    sq / 6
}

pub open spec fn file(sq: int) -> int {
    sq % 6
}

/// `sq` is a square of the board and holds a piece in `bb`.
pub open spec fn occupied(bb: u64, sq: int) -> bool {
    on_board(sq) && bit(bb, sq as u64)
}

/// `a` and `b` are orthogonal neighbours on the board.
pub open spec fn adjacent(a: int, b: int) -> bool {
    &&& on_board(a)
    &&& on_board(b)
    &&& ((rank(a) == rank(b) && (file(a) == file(b) + 1 || file(b) == file(a) + 1)) || (file(a)
        == file(b) && (rank(a) == rank(b) + 1 || rank(b) == rank(a) + 1)))
}

/// `p` is a walk that starts on a square of `seed` and then steps between
/// neighbouring squares, every square after the first being occupied in `occ`.
pub open spec fn is_walk(occ: u64, seed: u64, p: Seq<int>) -> bool {
    &&& p.len() > 0
    &&& occupied(seed, p[0])
    &&& forall|k: int| 1 <= k < p.len() ==> #[trigger] occupied(occ, p[k])
    &&& forall|k: int| 0 <= k < p.len() - 1 ==> #[trigger] adjacent(p[k], p[k + 1])
}

/// Square `sq` can be reached from `seed` through squares occupied in `occ`:
/// the set that a flood fill from `seed` through `occ` covers.
pub open spec fn reaches(occ: u64, seed: u64, sq: int) -> bool {
    exists|p: Seq<int>| #[trigger] is_walk(occ, seed, p) && p.last() == sq
}

/// Some square of the bottom rank is reached from `seed` through `occ`.
pub open spec fn reaches_bottom(occ: u64, seed: u64) -> bool {
    exists|i: int| 0 <= i < 6 && #[trigger] reaches(occ, seed, i)
}

/// Some square of the top rank is reached from `seed` through `occ`.
pub open spec fn reaches_top(occ: u64, seed: u64) -> bool {
    exists|i: int| 30 <= i < 36 && #[trigger] reaches(occ, seed, i)
}

/// Some square of the right file is reached from `seed` through `occ`.
pub open spec fn reaches_right(occ: u64, seed: u64) -> bool {
    exists|i: int| 0 <= i < 36 && i % 6 == 5 && #[trigger] reaches(occ, seed, i)
}

/// Some square of the left file is reached from `seed` through `occ`.
pub open spec fn reaches_left(occ: u64, seed: u64) -> bool {
    exists|i: int| 0 <= i < 36 && i % 6 == 0 && #[trigger] reaches(occ, seed, i)
}

/// The occupied squares of the top rank, and those directly below them.
pub open spec fn upper_seed(o: u64) -> u64 {
    (o & UPPER_EDGE) | (((o & UPPER_EDGE) >> 6u64) & o)
}

/// The occupied squares of the bottom rank, and those directly above them.
pub open spec fn lower_seed(o: u64) -> u64 {
    (o & LOWER_EDGE) | (((o & LOWER_EDGE) << 6u64) & o)
}

/// The occupied squares of the left file, and those directly right of them.
pub open spec fn left_seed(o: u64) -> u64 {
    (o & LEFT_EDGE) | (((o & LEFT_EDGE) << 1u64) & o)
}

/// The occupied squares of the right file, and those directly left of them.
pub open spec fn right_seed(o: u64) -> u64 {
    (o & RIGHT_EDGE) | (((o & RIGHT_EDGE) >> 1u64) & o)
}

/// `p` is a chain of neighbouring squares, all occupied in `occ`.
pub open spec fn is_chain(occ: u64, p: Seq<int>) -> bool {
    &&& p.len() > 0
    &&& forall|k: int| 0 <= k < p.len() ==> #[trigger] occupied(occ, p[k])
    &&& forall|k: int| 0 <= k < p.len() - 1 ==> #[trigger] adjacent(p[k], p[k + 1])
}

/// Some chain of occupied squares joins the top rank to the bottom rank.
pub open spec fn vertical_road(occ: u64) -> bool {
    exists|p: Seq<int>| #[trigger] is_chain(occ, p) && rank(p[0]) == 5 && rank(p.last()) == 0
}

/// Some chain of occupied squares joins the left file to the right file.
pub open spec fn horizontal_road(occ: u64) -> bool {
    exists|p: Seq<int>| #[trigger] is_chain(occ, p) && file(p[0]) == 0 && file(p.last()) == 5
}

/// The occupied squares of `occ` form a road.
pub open spec fn road(occ: u64) -> bool {
    vertical_road(occ) || horizontal_road(occ)
}

/// `r` is the flood fill of `seed` through `occ`: on the board, exactly the
/// squares reached from `seed` through occupied squares.
pub open spec fn is_fill(r: u64, occ: u64, seed: u64) -> bool {
    &&& within_board(r)
    &&& forall|i: int| 0 <= i < 36 ==> (bit(r, i as u64) <==> reaches(occ, seed, i))
}

/// The squares of `bb` lie on the board.
pub open spec fn within_board(bb: u64) -> bool {
    bb <= BOARD
}

/// Some square one step up, down, left or right of `i`, without wrapping
/// between files, is in `set`.
pub open spec fn has_neighbour_in(set: u64, i: u64) -> bool {
    ||| (i >= 6 && bit(set, (i - 6) as u64))
    ||| bit(set, (i + 6) as u64)
    ||| (i % 6 != 0 && bit(set, (i - 1) as u64))
    ||| (i % 6 != 5 && bit(set, (i + 1) as u64))
}

/// The bitwise expansion of `set` by one step, restricted to `occ`.
pub open spec fn expand_spec(set: u64, occ: u64) -> u64 {
    ((set << 6u64) | (set >> 6u64) | ((set << 1u64) & !LEFT_EDGE) | ((set >> 1u64) & !RIGHT_EDGE))
        & occ
}

/// A square is in the expansion exactly when it is occupied and next to `set`.
pub proof fn lemma_expand_bit(set: u64, occ: u64, i: u64)
    by (bit_vector)
    requires
        i < 36,
    ensures
        bit(expand_spec(set, occ), i) == (bit(occ, i) && has_neighbour_in(set, i)),
{
}

/// Bits of a union, and the board bound under union and intersection.
pub proof fn lemma_bits_basic(a: u64, b: u64, i: u64)
    by (bit_vector)
    requires
        i < 64,
    ensures
        bit(a | b, i) == (bit(a, i) || bit(b, i)),
        (a | b) >= a,
        a <= BOARD && b <= BOARD ==> (a | b) <= BOARD,
        b <= BOARD ==> (a & b) <= BOARD,
        a <= BOARD && i >= 36 ==> !bit(a, i),
{
}

/// Bits of a difference, and how a union that grows shows it.
pub proof fn lemma_bits_difference(a: u64, b: u64, i: u64)
    by (bit_vector)
    requires
        i < 64,
    ensures
        bit(b & !a, i) == (bit(b, i) && !bit(a, i)),
        (a | b) != a ==> (b & !a) != 0,
{
}

/// Halving a value moves its bits down by one place.
proof fn lemma_bits_halve(x: u64, i: u64)
    by (bit_vector)
    requires
        i < 63,
    ensures
        bit(x >> 1u64, i) == bit(x, (i + 1) as u64),
        x & 1u64 == 1u64 ==> bit(x, 0),
        x != 0 && x & 1u64 != 1u64 ==> (x >> 1u64) != 0 && (x >> 1u64) < x,
{
}

/// A nonzero value has a set bit.
pub proof fn lemma_nonzero_has_bit(x: u64)
    requires
        x != 0,
    ensures
        exists|i: u64| i < 64 && #[trigger] bit(x, i),
    decreases x,
{
    lemma_bits_halve(x, 0);
    if x & 1u64 != 1u64 {
        let y = x >> 1u64;
        lemma_nonzero_has_bit(y);
        let i = choose|i: u64| i < 64 && #[trigger] bit(y, i);
        if i < 63 {
            lemma_bits_halve(x, i);
            assert(bit(x, (i + 1) as u64));
        } else {
            lemma_bits_halve(x, 62);
            assert(bit(y, 63) ==> false) by {
                lemma_bits_top(x);
            }
        }
    }
}

/// Halving leaves the top bit clear.
proof fn lemma_bits_top(x: u64)
    by (bit_vector)
    ensures
        !bit(x >> 1u64, 63),
{
}

/// A board meets the bottom rank exactly when one of its squares 0..6 is set.
pub proof fn lemma_lower_edge(x: u64)
    by (bit_vector)
    ensures
        (x & LOWER_EDGE != 0) == (bit(x, 0) || bit(x, 1) || bit(x, 2) || bit(x, 3) || bit(x, 4)
            || bit(x, 5)),
{
}

/// A board meets the top rank exactly when one of its squares 30..36 is set.
pub proof fn lemma_upper_edge(x: u64)
    by (bit_vector)
    ensures
        (x & UPPER_EDGE != 0) == (bit(x, 30) || bit(x, 31) || bit(x, 32) || bit(x, 33) || bit(x, 34)
            || bit(x, 35)),
{
}

/// A board meets the left file exactly when one of its squares 0, 6, .., 30 is set.
pub proof fn lemma_left_edge(x: u64)
    by (bit_vector)
    ensures
        (x & LEFT_EDGE != 0) == (bit(x, 0) || bit(x, 6) || bit(x, 12) || bit(x, 18) || bit(x, 24)
            || bit(x, 30)),
{
}

/// A board meets the right file exactly when one of its squares 5, 11, .., 35 is set.
pub proof fn lemma_right_edge(x: u64)
    by (bit_vector)
    ensures
        (x & RIGHT_EDGE != 0) == (bit(x, 5) || bit(x, 11) || bit(x, 17) || bit(x, 23) || bit(x, 29)
            || bit(x, 35)),
{
}

/// The adjacency of the board, in the terms `has_neighbour_in` uses.
pub proof fn lemma_adjacent_iff(j: int, i: int)
    requires
        on_board(i),
        0 <= j < 64,
    ensures
        adjacent(j, i) <==> (
            (i >= 6 && j == i - 6)
            || (i < 30 && j == i + 6)
            || (i % 6 != 0 && j == i - 1)
            || (i % 6 != 5 && j == i + 1)),
{
}

/// The seed that `has_road` fills from the top: the occupied squares of the
/// top rank and the occupied squares directly below them.
pub proof fn lemma_upper_seed(o: u64, i: u64)
    by (bit_vector)
    requires
        i < 36,
    ensures
        bit(upper_seed(o), i) == (bit(o, i) && (i >= 30 || (
        i >= 24 && bit(o, (i + 6) as u64)))),
{
}

/// The seed that `has_road` fills from the left: the occupied squares of the
/// left file and the occupied squares directly right of them.
pub proof fn lemma_left_seed(o: u64, i: u64)
    by (bit_vector)
    requires
        i < 36,
    ensures
        bit(left_seed(o), i) == (bit(o, i) && (i % 6 == 0 || (
        i % 6 == 1 && bit(o, (i - 1) as u64)))),
{
}

/// The seed that fills from the bottom: the occupied squares of the bottom
/// rank and the occupied squares directly above them.
pub proof fn lemma_lower_seed(o: u64, i: u64)
    by (bit_vector)
    requires
        i < 36,
    ensures
        bit(lower_seed(o), i) == (bit(o, i) && (i < 6 || (
        i < 12 && bit(o, (i - 6) as u64)))),
{
}

/// The seed that fills from the right: the occupied squares of the right
/// file and the occupied squares directly left of them.
pub proof fn lemma_right_seed(o: u64, i: u64)
    by (bit_vector)
    requires
        i < 36,
    ensures
        bit(right_seed(o), i) == (bit(o, i) && (i % 6 == 5 || (
        i % 6 == 4 && bit(o, (i + 1) as u64)))),
{
}

/// A chain read backwards is a chain.
proof fn lemma_chain_reverse(occ: u64, p: Seq<int>)
    requires
        is_chain(occ, p),
    ensures
        is_chain(occ, p.reverse()),
        p.reverse()[0] == p.last(),
        p.reverse().last() == p[0],
{
    let q = p.reverse();
    let n = p.len();
    assert forall|k: int| 0 <= k < q.len() implies #[trigger] occupied(occ, q[k]) by {
        assert(q[k] == p[n - 1 - k]);
        assert(occupied(occ, p[n - 1 - k]));
    }
    assert forall|k: int| 0 <= k < q.len() - 1 implies #[trigger] adjacent(q[k], q[k + 1]) by {
        let m = n - 2 - k;
        assert(q[k] == p[m + 1] && q[k + 1] == p[m]);
        assert(adjacent(p[m], p[m + 1]));
    }
}

/// A walk whose first square is occupied is a chain.
proof fn lemma_walk_to_chain(occ: u64, seed: u64, p: Seq<int>)
    requires
        is_walk(occ, seed, p),
        occupied(occ, p[0]),
    ensures
        is_chain(occ, p),
{
    assert forall|k: int| 0 <= k < p.len() implies #[trigger] occupied(occ, p[k]) by {
        if k > 0 {
            assert(occupied(occ, p[k]));
        }
    }
}

/// A chain that starts on a square of `seed` is a walk from `seed`.
proof fn lemma_chain_to_walk(occ: u64, seed: u64, p: Seq<int>)
    requires
        is_chain(occ, p),
        occupied(seed, p[0]),
    ensures
        is_walk(occ, seed, p),
{
    assert forall|k: int| 1 <= k < p.len() implies #[trigger] occupied(occ, p[k]) by {
        assert(occupied(occ, p[k]));
    }
}

/// A chain extends backwards by an occupied neighbour of its first square.
proof fn lemma_chain_prepend(occ: u64, p: Seq<int>, a: int)
    requires
        is_chain(occ, p),
        occupied(occ, a),
        adjacent(a, p[0]),
    ensures
        is_chain(occ, seq![a] + p),
        (seq![a] + p)[0] == a,
        (seq![a] + p).last() == p.last(),
{
    let q = seq![a] + p;
    assert forall|k: int| 0 <= k < q.len() implies #[trigger] occupied(occ, q[k]) by {
        if k > 0 {
            assert(q[k] == p[k - 1]);
            assert(occupied(occ, p[k - 1]));
        }
    }
    assert forall|k: int| 0 <= k < q.len() - 1 implies #[trigger] adjacent(q[k], q[k + 1]) by {
        if k > 0 {
            let m = k - 1;
            assert(q[k] == p[m] && q[k + 1] == p[m + 1]);
            assert(adjacent(p[m], p[m + 1]));
        }
    }
}

/// Decides whether the occupied squares of `road_occ` form a road: a chain of
/// orthogonally adjacent squares joining the top and bottom ranks, or the left
/// and right files.
pub fn has_road(road_occ: u64) -> (r: bool)
    requires
        within_board(road_occ),
    ensures
        r == road(road_occ),
{
    let up = road_occ & UPPER_EDGE;
    let down = road_occ & LOWER_EDGE;
    let left = road_occ & LEFT_EDGE;
    let right = road_occ & RIGHT_EDGE;

    let up = up | (up >> 6 & road_occ);
    let down = down | (down << 6 & road_occ);
    let left = left | (left << 1 & road_occ);
    let right = right | (right >> 1 & road_occ);

    proof {
        lemma_bits_basic(road_occ & UPPER_EDGE, (road_occ & UPPER_EDGE) >> 6u64 & road_occ, 0);
        lemma_bits_basic((road_occ & UPPER_EDGE) >> 6u64, road_occ, 0);
        lemma_bits_basic(road_occ, UPPER_EDGE, 0);
        lemma_bits_basic(road_occ & LEFT_EDGE, (road_occ & LEFT_EDGE) << 1u64 & road_occ, 0);
        lemma_bits_basic((road_occ & LEFT_EDGE) << 1u64, road_occ, 0);
        lemma_bits_basic(road_occ, LEFT_EDGE, 0);
        lemma_vertical(road_occ, up);
        lemma_horizontal(road_occ, left);
    }
    scalar::has_road(road_occ, up, down, left, right)
}

/// Filling from the top seed reaches the bottom rank exactly when there is a
/// vertical road.
proof fn lemma_vertical(o: u64, up: u64)
    requires
        within_board(o),
        up == upper_seed(o),
    ensures
        reaches_bottom(o, up) == vertical_road(o),
{
    if reaches_bottom(o, up) {
        let i = choose|i: int| 0 <= i < 6 && #[trigger] reaches(o, up, i);
        let p = choose|p: Seq<int>| #[trigger] is_walk(o, up, p) && p.last() == i;
        let a = p[0];
        lemma_upper_seed(o, a as u64);
        lemma_walk_to_chain(o, up, p);
        if a >= 30 {
            assert(is_chain(o, p) && rank(p[0]) == 5 && rank(p.last()) == 0);
        } else {
            lemma_adjacent_iff(a + 6, a);
            lemma_chain_prepend(o, p, a + 6);
            let q = seq![a + 6] + p;
            assert(is_chain(o, q) && rank(q[0]) == 5 && rank(q.last()) == 0);
        }
    }
    if vertical_road(o) {
        let p = choose|p: Seq<int>| #[trigger] is_chain(o, p) && rank(p[0]) == 5 && rank(p.last()) == 0;
        assert(occupied(o, p[0]));
        assert(occupied(o, p.last())) by {
            assert(occupied(o, p[p.len() - 1]));
        }
        lemma_upper_seed(o, p[0] as u64);
        lemma_chain_to_walk(o, up, p);
        assert(reaches(o, up, p.last()));
    }
}

/// Filling from the left seed reaches the right file exactly when there is a
/// horizontal road.
proof fn lemma_horizontal(o: u64, left: u64)
    requires
        within_board(o),
        left == left_seed(o),
    ensures
        reaches_right(o, left) == horizontal_road(o),
{
    if reaches_right(o, left) {
        let i = choose|i: int| 0 <= i < 36 && i % 6 == 5 && #[trigger] reaches(o, left, i);
        let p = choose|p: Seq<int>| #[trigger] is_walk(o, left, p) && p.last() == i;
        let a = p[0];
        lemma_left_seed(o, a as u64);
        lemma_walk_to_chain(o, left, p);
        if a % 6 == 0 {
            assert(is_chain(o, p) && file(p[0]) == 0 && file(p.last()) == 5);
        } else {
            lemma_adjacent_iff(a - 1, a);
            lemma_chain_prepend(o, p, a - 1);
            let q = seq![a - 1] + p;
            assert(is_chain(o, q) && file(q[0]) == 0 && file(q.last()) == 5);
        }
    }
    if horizontal_road(o) {
        let p = choose|p: Seq<int>| #[trigger] is_chain(o, p) && file(p[0]) == 0 && file(p.last()) == 5;
        assert(occupied(o, p[0]));
        assert(occupied(o, p.last())) by {
            assert(occupied(o, p[p.len() - 1]));
        }
        lemma_left_seed(o, p[0] as u64);
        lemma_chain_to_walk(o, left, p);
        assert(reaches(o, left, p.last()));
    }
}

/// Filling from the bottom seed reaches the top rank exactly when there is a
/// vertical road.
proof fn lemma_vertical_upwards(o: u64, down: u64)
    requires
        within_board(o),
        down == lower_seed(o),
    ensures
        reaches_top(o, down) == vertical_road(o),
{
    if reaches_top(o, down) {
        let i = choose|i: int| 30 <= i < 36 && #[trigger] reaches(o, down, i);
        let p = choose|p: Seq<int>| #[trigger] is_walk(o, down, p) && p.last() == i;
        let a = p[0];
        lemma_lower_seed(o, a as u64);
        lemma_walk_to_chain(o, down, p);
        if a < 6 {
            lemma_chain_reverse(o, p);
            let r = p.reverse();
            assert(is_chain(o, r) && rank(r[0]) == 5 && rank(r.last()) == 0);
        } else {
            lemma_adjacent_iff(a - 6, a);
            lemma_chain_prepend(o, p, a - 6);
            let q = seq![a - 6] + p;
            lemma_chain_reverse(o, q);
            let r = q.reverse();
            assert(is_chain(o, r) && rank(r[0]) == 5 && rank(r.last()) == 0);
        }
    }
    if vertical_road(o) {
        let p = choose|p: Seq<int>| #[trigger] is_chain(o, p) && rank(p[0]) == 5 && rank(p.last()) == 0;
        lemma_chain_reverse(o, p);
        let r = p.reverse();
        assert(occupied(o, r[0]));
        assert(occupied(o, r.last())) by {
            assert(occupied(o, r[r.len() - 1]));
        }
        lemma_lower_seed(o, r[0] as u64);
        lemma_chain_to_walk(o, down, r);
        assert(reaches(o, down, r.last()));
    }
}

/// Filling from the right seed reaches the left file exactly when there is a
/// horizontal road.
proof fn lemma_horizontal_leftwards(o: u64, right: u64)
    requires
        within_board(o),
        right == right_seed(o),
    ensures
        reaches_left(o, right) == horizontal_road(o),
{
    if reaches_left(o, right) {
        let i = choose|i: int| 0 <= i < 36 && i % 6 == 0 && #[trigger] reaches(o, right, i);
        let p = choose|p: Seq<int>| #[trigger] is_walk(o, right, p) && p.last() == i;
        let a = p[0];
        lemma_right_seed(o, a as u64);
        lemma_walk_to_chain(o, right, p);
        if a % 6 == 5 {
            lemma_chain_reverse(o, p);
            let r = p.reverse();
            assert(is_chain(o, r) && file(r[0]) == 0 && file(r.last()) == 5);
        } else {
            lemma_adjacent_iff(a + 1, a);
            lemma_chain_prepend(o, p, a + 1);
            let q = seq![a + 1] + p;
            lemma_chain_reverse(o, q);
            let r = q.reverse();
            assert(is_chain(o, r) && file(r[0]) == 0 && file(r.last()) == 5);
        }
    }
    if horizontal_road(o) {
        let p = choose|p: Seq<int>| #[trigger] is_chain(o, p) && file(p[0]) == 0 && file(p.last()) == 5;
        lemma_chain_reverse(o, p);
        let r = p.reverse();
        assert(occupied(o, r[0]));
        assert(occupied(o, r.last())) by {
            assert(occupied(o, r[r.len() - 1]));
        }
        lemma_right_seed(o, r[0] as u64);
        lemma_chain_to_walk(o, right, r);
        assert(reaches(o, right, r.last()));
    }
}

/// Filling from either end of an axis decides the same thing: the fill from
/// the top seed reaches the bottom rank exactly when the fill from the bottom
/// seed reaches the top rank, and likewise across the files. This is why one
/// seed per axis is enough.
pub proof fn law_fill_direction_is_irrelevant(o: u64)
    requires
        within_board(o),
    ensures
        reaches_bottom(o, upper_seed(o)) == reaches_top(o, lower_seed(o)),
        reaches_right(o, left_seed(o)) == reaches_left(o, right_seed(o)),
{
    lemma_vertical(o, upper_seed(o));
    lemma_vertical_upwards(o, lower_seed(o));
    lemma_horizontal(o, left_seed(o));
    lemma_horizontal_leftwards(o, right_seed(o));
}

/// The occupied squares of each edge.
pub proof fn lemma_edge_bits(o: u64, i: u64)
    by (bit_vector)
    requires
        i < 36,
    ensures
        bit(o & UPPER_EDGE, i) == (bit(o, i) && i >= 30),
        bit(o & LOWER_EDGE, i) == (bit(o, i) && i < 6),
        bit(o & LEFT_EDGE, i) == (bit(o, i) && i % 6 == 0),
        bit(o & RIGHT_EDGE, i) == (bit(o, i) && i % 6 == 5),
{
}

/// Filling from the occupied squares of one edge reaches the opposite edge
/// exactly when there is a road across that axis.
proof fn lemma_bare_edges(o: u64)
    requires
        within_board(o),
    ensures
        reaches_bottom(o, o & UPPER_EDGE) == vertical_road(o),
        reaches_top(o, o & LOWER_EDGE) == vertical_road(o),
        reaches_right(o, o & LEFT_EDGE) == horizontal_road(o),
        reaches_left(o, o & RIGHT_EDGE) == horizontal_road(o),
{
    let up = o & UPPER_EDGE;
    let down = o & LOWER_EDGE;
    let left = o & LEFT_EDGE;
    let right = o & RIGHT_EDGE;
    if reaches_bottom(o, up) {
        let i = choose|i: int| 0 <= i < 6 && #[trigger] reaches(o, up, i);
        let p = choose|p: Seq<int>| #[trigger] is_walk(o, up, p) && p.last() == i;
        lemma_edge_bits(o, p[0] as u64);
        lemma_walk_to_chain(o, up, p);
        assert(is_chain(o, p) && rank(p[0]) == 5 && rank(p.last()) == 0);
    }
    if reaches_top(o, down) {
        let i = choose|i: int| 30 <= i < 36 && #[trigger] reaches(o, down, i);
        let p = choose|p: Seq<int>| #[trigger] is_walk(o, down, p) && p.last() == i;
        lemma_edge_bits(o, p[0] as u64);
        lemma_walk_to_chain(o, down, p);
        lemma_chain_reverse(o, p);
        let r = p.reverse();
        assert(is_chain(o, r) && rank(r[0]) == 5 && rank(r.last()) == 0);
    }
    if vertical_road(o) {
        let p = choose|p: Seq<int>| #[trigger] is_chain(o, p) && rank(p[0]) == 5 && rank(p.last()) == 0;
        assert(occupied(o, p[0]));
        assert(occupied(o, p.last())) by {
            assert(occupied(o, p[p.len() - 1]));
        }
        lemma_edge_bits(o, p[0] as u64);
        lemma_chain_to_walk(o, up, p);
        assert(reaches(o, up, p.last()));
        lemma_chain_reverse(o, p);
        let r = p.reverse();
        lemma_edge_bits(o, r[0] as u64);
        lemma_chain_to_walk(o, down, r);
        assert(reaches(o, down, r.last()));
    }
    if reaches_right(o, left) {
        let i = choose|i: int| 0 <= i < 36 && i % 6 == 5 && #[trigger] reaches(o, left, i);
        let p = choose|p: Seq<int>| #[trigger] is_walk(o, left, p) && p.last() == i;
        lemma_edge_bits(o, p[0] as u64);
        lemma_walk_to_chain(o, left, p);
        assert(is_chain(o, p) && file(p[0]) == 0 && file(p.last()) == 5);
    }
    if reaches_left(o, right) {
        let i = choose|i: int| 0 <= i < 36 && i % 6 == 0 && #[trigger] reaches(o, right, i);
        let p = choose|p: Seq<int>| #[trigger] is_walk(o, right, p) && p.last() == i;
        lemma_edge_bits(o, p[0] as u64);
        lemma_walk_to_chain(o, right, p);
        lemma_chain_reverse(o, p);
        let r = p.reverse();
        assert(is_chain(o, r) && file(r[0]) == 0 && file(r.last()) == 5);
    }
    if horizontal_road(o) {
        let p = choose|p: Seq<int>| #[trigger] is_chain(o, p) && file(p[0]) == 0 && file(p.last()) == 5;
        assert(occupied(o, p[0]));
        assert(occupied(o, p.last())) by {
            assert(occupied(o, p[p.len() - 1]));
        }
        lemma_edge_bits(o, p[0] as u64);
        lemma_chain_to_walk(o, left, p);
        assert(reaches(o, left, p.last()));
        lemma_chain_reverse(o, p);
        let r = p.reverse();
        lemma_edge_bits(o, r[0] as u64);
        lemma_chain_to_walk(o, right, r);
        assert(reaches(o, right, r.last()));
    }
}

/// The same holds of fills seeded with the occupied squares of an edge alone:
/// the fill from the top edge reaches the bottom rank exactly when the fill
/// from the bottom edge reaches the top rank, and exactly when there is a
/// vertical road; likewise across the files.
pub proof fn law_edge_fill_direction_is_irrelevant(o: u64)
    requires
        within_board(o),
    ensures
        reaches_bottom(o, o & UPPER_EDGE) == reaches_top(o, o & LOWER_EDGE),
        reaches_bottom(o, o & UPPER_EDGE) == vertical_road(o),
        reaches_right(o, o & LEFT_EDGE) == reaches_left(o, o & RIGHT_EDGE),
        reaches_right(o, o & LEFT_EDGE) == horizontal_road(o),
{
    lemma_bare_edges(o);
}

/// A fill meets an edge exactly when it reaches a square of that edge.
pub proof fn lemma_fill_meets_edges(r: u64, occ: u64, seed: u64)
    requires
        is_fill(r, occ, seed),
    ensures
        (r & LOWER_EDGE != 0) == reaches_bottom(occ, seed),
        (r & UPPER_EDGE != 0) == reaches_top(occ, seed),
        (r & LEFT_EDGE != 0) == reaches_left(occ, seed),
        (r & RIGHT_EDGE != 0) == reaches_right(occ, seed),
{
    lemma_lower_edge(r);
    lemma_upper_edge(r);
    lemma_left_edge(r);
    lemma_right_edge(r);
    if reaches_bottom(occ, seed) {
        let i = choose|i: int| 0 <= i < 6 && #[trigger] reaches(occ, seed, i);
        assert(bit(r, i as u64));
    }
    if r & LOWER_EDGE != 0 {
        assert(reaches(occ, seed, 0) || reaches(occ, seed, 1) || reaches(occ, seed, 2)
            || reaches(occ, seed, 3) || reaches(occ, seed, 4) || reaches(occ, seed, 5));
    }
    if reaches_top(occ, seed) {
        let i = choose|i: int| 30 <= i < 36 && #[trigger] reaches(occ, seed, i);
        assert(bit(r, i as u64));
    }
    if r & UPPER_EDGE != 0 {
        assert(reaches(occ, seed, 30) || reaches(occ, seed, 31) || reaches(occ, seed, 32)
            || reaches(occ, seed, 33) || reaches(occ, seed, 34) || reaches(occ, seed, 35));
    }
    if reaches_left(occ, seed) {
        let i = choose|i: int| 0 <= i < 36 && i % 6 == 0 && #[trigger] reaches(occ, seed, i);
        assert(bit(r, i as u64));
    }
    if r & LEFT_EDGE != 0 {
        assert(reaches(occ, seed, 0) || reaches(occ, seed, 6) || reaches(occ, seed, 12)
            || reaches(occ, seed, 18) || reaches(occ, seed, 24) || reaches(occ, seed, 30));
    }
    if reaches_right(occ, seed) {
        let i = choose|i: int| 0 <= i < 36 && i % 6 == 5 && #[trigger] reaches(occ, seed, i);
        assert(bit(r, i as u64));
    }
    if r & RIGHT_EDGE != 0 {
        assert(reaches(occ, seed, 5) || reaches(occ, seed, 11) || reaches(occ, seed, 17)
            || reaches(occ, seed, 23) || reaches(occ, seed, 29) || reaches(occ, seed, 35));
    }
}

/// Filling from either edge gives the same answer: for the fills `up`,
/// `down`, `left` and `right` of the occupied squares of the top, bottom, left
/// and right edges, the top fill meets the bottom rank exactly when the
/// bottom fill meets the top rank, exactly when there is a vertical road; and
/// the left fill meets the right file exactly when the right fill meets the
/// left file, exactly when there is a horizontal road.
pub proof fn law_edge_fills_agree(occ: u64, up: u64, down: u64, left: u64, right: u64)
    requires
        within_board(occ),
        is_fill(up, occ, occ & UPPER_EDGE),
        is_fill(down, occ, occ & LOWER_EDGE),
        is_fill(left, occ, occ & LEFT_EDGE),
        is_fill(right, occ, occ & RIGHT_EDGE),
    ensures
        (up & LOWER_EDGE != 0) == (down & UPPER_EDGE != 0),
        (up & LOWER_EDGE != 0) == vertical_road(occ),
        (left & RIGHT_EDGE != 0) == (right & LEFT_EDGE != 0),
        (left & RIGHT_EDGE != 0) == horizontal_road(occ),
{
    lemma_bare_edges(occ);
    lemma_fill_meets_edges(up, occ, occ & UPPER_EDGE);
    lemma_fill_meets_edges(down, occ, occ & LOWER_EDGE);
    lemma_fill_meets_edges(left, occ, occ & LEFT_EDGE);
    lemma_fill_meets_edges(right, occ, occ & RIGHT_EDGE);
}

} // verus!
