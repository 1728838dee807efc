use maze::grid::{Direction, Grid, MazeError};
use maze::maze::{glyph, Maze};
use maze::navigator::Navigator;
use maze::rng::MazeRng;
use maze::wilson::generate;

fn grid(w: usize, h: usize) -> Grid {
    Grid::new(w, h).unwrap()
}

/// The four (bit, index delta) pairs of a grid, with their boundary checks.
fn neighbors(w: usize, h: usize, i: usize) -> Vec<(u8, usize)> {
    let mut out = Vec::new();
    if i % w > 0 {
        out.push((8u8, i - 1));
    }
    if i % w < w - 1 {
        out.push((4u8, i + 1));
    }
    if i >= w {
        out.push((2u8, i - w));
    }
    if i < w * h - w {
        out.push((1u8, i + w));
    }
    out
}

/// Asserts the spanning-tree shape: mutually symmetric masks, no bit
/// pointing off-grid, exactly `area - 1` edges, all cells reachable from 0.
fn assert_spanning_tree(m: &Maze, w: usize, h: usize) {
    let area = w * h;
    assert_eq!(m.masks.len(), area);
    let mut bit_count = 0usize;
    for i in 0..area {
        let mask = m.masks[i];
        assert!(mask < 16);
        let nbrs = neighbors(w, h, i);
        for bit in [8u8, 4, 2, 1] {
            if mask & bit != 0 {
                let nbr = nbrs.iter().find(|p| p.0 == bit);
                let (b, j) = nbr.expect("open bit points off-grid");
                let back = match *b {
                    8 => 4u8,
                    4 => 8,
                    2 => 1,
                    _ => 2,
                };
                assert!(m.masks[*j] & back != 0, "mask symmetry broken");
                bit_count += 1;
            }
        }
    }
    assert_eq!(bit_count % 2, 0);
    assert_eq!(bit_count / 2, area - 1, "edge count is not area - 1");
    let mut seen = vec![false; area];
    let mut stack = vec![0usize];
    seen[0] = true;
    let mut reached = 0usize;
    while let Some(i) = stack.pop() {
        reached += 1;
        for (bit, j) in neighbors(w, h, i) {
            if m.masks[i] & bit != 0 && !seen[j] {
                seen[j] = true;
                stack.push(j);
            }
        }
    }
    assert_eq!(reached, area, "maze is not connected");
}

#[test]
fn one_cell_maze_is_immediately_solved() {
    let g = grid(1, 1);
    let mut rng = MazeRng::from_seed(7);
    let m = generate(g, &mut rng);
    assert_eq!(m.masks, vec![0u8]);
    let nav = Navigator::new(&m);
    assert_eq!(nav.position(), 0);
    assert!(nav.is_solved(&m));
}

#[test]
fn code_91_rejects_right_and_down() {
    let g = grid(2, 1);
    let m = Maze::decode(g, &b"91".to_vec()).unwrap();
    assert_eq!(m.masks, vec![9u8, 1u8]);
    let mut nav = Navigator::new(&m);
    // cell 0 holds 9 = Left + Down: no Right bit, so the move is a no-op
    assert!(!nav.attempt_move(&m, Direction::Right));
    assert_eq!(nav.position(), 0);
    // the Down bit is set, but a 1-row grid has no Down neighbor
    assert!(!nav.attempt_move(&m, Direction::Down));
    assert_eq!(nav.position(), 0);
    // the Left bit is set, but cell 0 sits on the left edge
    assert!(!nav.attempt_move(&m, Direction::Left));
    assert_eq!(nav.position(), 0);
}

#[test]
fn accepted_move_reaches_solved() {
    let g = grid(2, 1);
    let m = Maze::decode(g, &b"48".to_vec()).unwrap();
    let mut nav = Navigator::new(&m);
    assert!(!nav.is_solved(&m));
    assert!(nav.attempt_move(&m, Direction::Right));
    assert_eq!(nav.position(), 1);
    assert!(nav.is_solved(&m));
}

#[test]
fn boundary_rejection_on_all_four_edges() {
    let g = grid(3, 3);
    let m = Maze::decode(g, &b"fffffffff".to_vec()).unwrap();
    // every mask is fully open, so only the grid edge can reject
    let cases = [
        (0usize, Direction::Left),
        (0, Direction::Up),
        (2, Direction::Right),
        (2, Direction::Up),
        (6, Direction::Left),
        (6, Direction::Down),
        (8, Direction::Right),
        (8, Direction::Down),
    ];
    for (start, d) in cases {
        let mut nav = place(&m, start);
        assert!(!nav.attempt_move(&m, d), "move off-grid was accepted");
        assert_eq!(nav.position(), start);
    }
}

/// Walks a fully open maze to cell `target` by accepted moves.
fn place(m: &Maze, target: usize) -> Navigator {
    let w = m.grid.width;
    let mut nav = Navigator::new(m);
    while nav.position() % w < target % w {
        assert!(nav.attempt_move(m, Direction::Right));
    }
    while nav.position() / w < target / w {
        assert!(nav.attempt_move(m, Direction::Down));
    }
    assert_eq!(nav.position(), target);
    nav
}

#[test]
fn wall_rejection_everywhere() {
    let g = grid(3, 3);
    let m = Maze::decode(g, &b"000000000".to_vec()).unwrap();
    let mut nav = Navigator::new(&m);
    for d in [Direction::Left, Direction::Right, Direction::Up, Direction::Down] {
        assert!(!nav.attempt_move(&m, d), "move through a wall was accepted");
        assert_eq!(nav.position(), 0);
    }
}

#[test]
fn decode_rejects_bad_digits() {
    let g = grid(2, 1);
    assert_eq!(Maze::decode(g, &b"9X".to_vec()).unwrap_err(), MazeError::InvalidHexDigit);
    // uppercase digits are not part of the alphabet
    assert_eq!(Maze::decode(g, &b"9A".to_vec()).unwrap_err(), MazeError::InvalidHexDigit);
}

#[test]
fn decode_short_code_leaves_walls() {
    let g = grid(2, 2);
    let m = Maze::decode(g, &b"9".to_vec()).unwrap();
    assert_eq!(m.masks, vec![9u8, 0, 0, 0]);
}

#[test]
fn decode_long_code_ignores_extra_digits() {
    let g = grid(1, 1);
    let m = Maze::decode(g, &b"91".to_vec()).unwrap();
    assert_eq!(m.masks, vec![9u8]);
}

#[test]
fn encode_then_decode_restores_masks() {
    let g = grid(5, 5);
    let mut rng = MazeRng::from_seed(42);
    let m = generate(g, &mut rng);
    let code = m.encode();
    assert_eq!(code.len(), 25);
    for b in &code {
        assert!((b'0'..=b'9').contains(b) || (b'a'..=b'f').contains(b));
    }
    let m2 = Maze::decode(g, &code).unwrap();
    assert_eq!(m2.masks, m.masks);
}

#[test]
fn decode_then_encode_restores_code() {
    let g = grid(2, 1);
    let code = b"91".to_vec();
    let m = Maze::decode(g, &code).unwrap();
    assert_eq!(m.encode(), code);
}

#[test]
fn grid_rejects_zero_dimensions() {
    assert_eq!(Grid::new(0, 5).unwrap_err(), MazeError::ZeroDimension);
    assert_eq!(Grid::new(5, 0).unwrap_err(), MazeError::ZeroDimension);
    assert_eq!(Grid::new(0, 0).unwrap_err(), MazeError::ZeroDimension);
}

#[test]
fn grid_index_round_trip() {
    let g = grid(4, 3);
    assert_eq!(g.to_row_col(0), (0, 0));
    assert_eq!(g.to_row_col(5), (1, 1));
    assert_eq!(g.to_row_col(11), (2, 3));
    assert_eq!(g.to_index(1, 1), 5);
    assert_eq!(g.to_index(2, 3), 11);
}

#[test]
fn boundary_predicates_match_edges() {
    let g = grid(3, 2);
    // corners of a 3x2 grid: 0 top-left, 2 top-right, 3 bottom-left, 5 bottom-right
    assert!(!g.has_left(0) && g.has_right(0) && !g.has_up(0) && g.has_down(0));
    assert!(g.has_left(2) && !g.has_right(2) && !g.has_up(2) && g.has_down(2));
    assert!(!g.has_left(3) && g.has_right(3) && g.has_up(3) && !g.has_down(3));
    assert!(g.has_left(5) && !g.has_right(5) && g.has_up(5) && !g.has_down(5));
    // an interior-row middle cell of a 3x3 grid has all four
    let g3 = grid(3, 3);
    assert!(g3.has_left(4) && g3.has_right(4) && g3.has_up(4) && g3.has_down(4));
}

#[test]
fn glyph_table_matches_masks() {
    assert_eq!(glyph(0), ' ');
    assert_eq!(glyph(3), '\u{2551}');
    assert_eq!(glyph(5), '\u{2554}');
    assert_eq!(glyph(9), '\u{2557}');
    assert_eq!(glyph(12), '\u{2550}');
    assert_eq!(glyph(15), '\u{256c}');
}

#[test]
fn generated_5x5_is_a_spanning_tree_for_1000_seeds() {
    let g = grid(5, 5);
    for seed in 0..1000u64 {
        let mut rng = MazeRng::from_seed(seed);
        let m = generate(g, &mut rng);
        assert_spanning_tree(&m, 5, 5);
    }
}

#[test]
fn generated_mazes_are_solvable_across_sizes() {
    for (w, h) in [(2, 1), (1, 2), (1, 9), (9, 1), (2, 2), (3, 7), (8, 5), (20, 2), (13, 13)] {
        let g = grid(w, h);
        let mut rng = MazeRng::from_seed((w * 100 + h) as u64);
        let m = generate(g, &mut rng);
        assert_spanning_tree(&m, w, h);
    }
}

#[test]
fn same_seed_gives_same_maze() {
    let g = grid(6, 4);
    let mut r1 = MazeRng::from_seed(99);
    let mut r2 = MazeRng::from_seed(99);
    let m1 = generate(g, &mut r1);
    let m2 = generate(g, &mut r2);
    assert_eq!(m1.masks, m2.masks);
}

#[test]
fn rng_draw_stays_below_bound() {
    let mut rng = MazeRng::from_seed(1);
    for n in 1..200usize {
        let v = rng.below(n);
        assert!(v < n);
    }
}

#[test]
fn navigator_walks_generated_maze_to_exit() {
    // follow a BFS parent chain of the open bits by attempt_move only
    let (w, h) = (7usize, 6usize);
    let g = grid(w, h);
    let mut rng = MazeRng::from_seed(3);
    let m = generate(g, &mut rng);
    let area = w * h;
    let mut parent: Vec<Option<(usize, Direction)>> = vec![None; area];
    let mut stack = vec![0usize];
    let mut seen = vec![false; area];
    seen[0] = true;
    while let Some(i) = stack.pop() {
        for (bit, j) in neighbors(w, h, i) {
            if m.masks[i] & bit != 0 && !seen[j] {
                let d = match bit {
                    8 => Direction::Left,
                    4 => Direction::Right,
                    2 => Direction::Up,
                    _ => Direction::Down,
                };
                seen[j] = true;
                parent[j] = Some((i, d));
                stack.push(j);
            }
        }
    }
    let mut moves = Vec::new();
    let mut cur = area - 1;
    while cur != 0 {
        let (p, d) = parent[cur].expect("exit not reached from start");
        moves.push(d);
        cur = p;
    }
    moves.reverse();
    let mut nav = Navigator::new(&m);
    for d in moves {
        assert!(nav.attempt_move(&m, d));
    }
    assert!(nav.is_solved(&m));
}
