use syntaks::road::scalar;
use syntaks::road::{has_road, LEFT_EDGE, LOWER_EDGE, RIGHT_EDGE, UPPER_EDGE};

const BOARD: u64 = (1 << 36) - 1;

/// Reproduces the seeding that `has_road` does before filling.
fn seeds(road_occ: u64) -> (u64, u64, u64, u64) {
    let up = road_occ & UPPER_EDGE;
    let down = road_occ & LOWER_EDGE;
    let left = road_occ & LEFT_EDGE;
    let right = road_occ & RIGHT_EDGE;

    (
        up | (up >> 6 & road_occ),
        down | (down << 6 & road_occ),
        left | (left << 1 & road_occ),
        right | (right >> 1 & road_occ),
    )
}

fn reaches(road_occ: u64, from: fn(usize) -> bool, to: fn(usize) -> bool) -> bool {
    let mut seen = [false; 36];
    let mut stack: Vec<usize> = (0..36)
        .filter(|&sq| road_occ >> sq & 1 == 1 && from(sq))
        .collect();

    for &sq in &stack {
        seen[sq] = true;
    }

    while let Some(sq) = stack.pop() {
        if to(sq) {
            return true;
        }

        let (rank, file) = (sq / 6, sq % 6);
        let mut neighbours = Vec::new();

        if rank > 0 {
            neighbours.push(sq - 6);
        }
        if rank < 5 {
            neighbours.push(sq + 6);
        }
        if file > 0 {
            neighbours.push(sq - 1);
        }
        if file < 5 {
            neighbours.push(sq + 1);
        }

        for n in neighbours {
            if !seen[n] && road_occ >> n & 1 == 1 {
                seen[n] = true;
                stack.push(n);
            }
        }
    }

    false
}

fn top_rank(sq: usize) -> bool {
    sq / 6 == 5
}

fn bottom_rank(sq: usize) -> bool {
    sq / 6 == 0
}

fn left_file(sq: usize) -> bool {
    sq % 6 == 0
}

fn right_file(sq: usize) -> bool {
    sq % 6 == 5
}

/// Naive square-by-square search, written independently of the bitboard
/// implementation so that agreement between them means something.
fn reference_has_road(road_occ: u64) -> bool {
    reaches(road_occ, top_rank, bottom_rank) || reaches(road_occ, left_file, right_file)
}

fn scalar_road(road_occ: u64) -> bool {
    let (up, down, left, right) = seeds(road_occ);
    scalar::has_road(road_occ, up, down, left, right)
}

/// xorshift64*, so the cases are reproducible without a dependency.
struct Rng(u64);

impl Rng {
    fn next(&mut self) -> u64 {
        self.0 ^= self.0 >> 12;
        self.0 ^= self.0 << 25;
        self.0 ^= self.0 >> 27;
        self.0.wrapping_mul(0x2545_f491_4f6c_dd1d)
    }

    /// ANDing randoms together sweeps the density.
    fn board(&mut self, ands: u32) -> u64 {
        let mut board = BOARD;
        for _ in 0..ands {
            board &= self.next();
        }
        board & BOARD
    }
}

#[test]
fn known_positions() {
    assert!(!scalar_road(0), "empty board has no road");
    assert!(scalar_road(BOARD), "full board has a road");
    assert!(scalar_road(LEFT_EDGE), "a full file is a road");
    assert!(scalar_road(LOWER_EDGE), "a full rank is a road");
    // A file with its middle square missing is not a road.
    assert!(!scalar_road(LEFT_EDGE & !(1 << 18)));
    // Wrapping from the right file to the left file of the next rank must
    // not count as adjacency.
    assert!(!scalar_road(RIGHT_EDGE & !(1 << 35) | 1 << 30));
}

#[test]
fn scalar_matches_reference() {
    let mut rng = Rng(0x9e37_79b9_7f4a_7c15);

    for ands in 1..=4 {
        for _ in 0..40_000 {
            let board = rng.board(ands);
            assert_eq!(
                scalar_road(board),
                reference_has_road(board),
                "disagreement on board {board:#x}"
            );
        }
    }
}

// This crate has no vectorised road test; the two tests below hold the flood
// fill, seeded by hand, against the public `has_road` on the same boards.
#[test]
fn scalar_matches_avx2() {
    let mut rng = Rng(0xdead_beef_cafe_f00d);

    for ands in 1..=4 {
        for _ in 0..40_000 {
            let board = rng.board(ands);
            assert_eq!(scalar_road(board), has_road(board), "disagreement on board {board:#x}");
        }
    }
}

#[test]
fn scalar_matches_sse() {
    let mut rng = Rng(0xdead_beef_cafe_f00d);

    for ands in 1..=4 {
        for _ in 0..40_000 {
            let board = rng.board(ands);
            assert_eq!(scalar_road(board), has_road(board), "disagreement on board {board:#x}");
        }
    }
}

#[test]
fn edge_masks_cover_the_board_edges() {
    assert_eq!(LOWER_EDGE, 0b111111);
    assert_eq!(UPPER_EDGE, 0b111111 << 30);
    for rank in 0..6 {
        assert_eq!(LEFT_EDGE >> (rank * 6) & 0b111111, 0b000001);
        assert_eq!(RIGHT_EDGE >> (rank * 6) & 0b111111, 0b100000);
    }
}

#[test]
fn public_has_road_known_positions() {
    assert!(!has_road(0));
    assert!(has_road(BOARD));
    assert!(has_road(LEFT_EDGE));
    assert!(has_road(RIGHT_EDGE));
    assert!(has_road(LOWER_EDGE));
    assert!(has_road(UPPER_EDGE));
    assert!(!has_road(LEFT_EDGE & !(1 << 18)));
    assert!(!has_road(RIGHT_EDGE & !(1 << 35) | 1 << 30));
    // A staircase joining the bottom rank to the top rank.
    let stairs: u64 = [0, 6, 7, 13, 14, 20, 21, 27, 28, 34]
        .iter()
        .fold(0, |bb, sq| bb | 1u64 << sq);
    assert!(has_road(stairs));
    // Diagonal neighbours do not connect.
    let diagonal: u64 = [0, 7, 14, 21, 28, 35].iter().fold(0, |bb, sq| bb | 1u64 << sq);
    assert!(!has_road(diagonal));
    // Two edges touching but no crossing.
    assert!(!has_road(LEFT_EDGE & !(1 << 0) | 0b111110 & LOWER_EDGE & !(1 << 5)));
}

#[test]
fn road_is_unchanged_by_reflection() {
    fn flip_ranks(board: u64) -> u64 {
        let mut out = 0;
        for sq in 0..36 {
            if board >> sq & 1 == 1 {
                out |= 1 << ((5 - sq / 6) * 6 + sq % 6);
            }
        }
        out
    }
    fn flip_files(board: u64) -> u64 {
        let mut out = 0;
        for sq in 0..36 {
            if board >> sq & 1 == 1 {
                out |= 1 << (sq / 6 * 6 + 5 - sq % 6);
            }
        }
        out
    }

    let mut rng = Rng(0x0123_4567_89ab_cdef);
    for ands in 1..=3 {
        for _ in 0..5_000 {
            let board = rng.board(ands);
            assert_eq!(has_road(board), has_road(flip_ranks(board)));
            assert_eq!(has_road(board), has_road(flip_files(board)));
        }
    }
}

#[test]
fn seeds_reach_one_step_inward() {
    // The top seed includes the square just below an occupied top square.
    let board = (1u64 << 30) | (1u64 << 24);
    let (up, down, left, right) = seeds(board);
    assert_eq!(up, board);
    assert_eq!(down, 0);
    assert_eq!(left, board);
    assert_eq!(right, 0);
    assert!(!scalar_road(board));
}

#[test]
fn bare_edge_seeds_decide_the_same() {
    let mut rng = Rng(0x5555_aaaa_3333_cccc);
    for ands in 1..=3 {
        for _ in 0..5_000 {
            let board = rng.board(ands);
            let bare = scalar::has_road(board, board & UPPER_EDGE, 0, board & LEFT_EDGE, 0);
            assert_eq!(bare, has_road(board), "disagreement on board {board:#x}");
        }
    }
}
