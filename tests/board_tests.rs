use npuzzle::{GameMode, NBoard, Tile, TileType};
use std::collections::{HashMap, VecDeque};

fn board_from(n: usize, homes: &[usize], missing_home: usize) -> Option<NBoard> {
    let mut tiles = Vec::new();
    let mut mi = usize::MAX;
    for (i, &h) in homes.iter().enumerate() {
        if h == missing_home {
            tiles.push(Tile::new(h, TileType::Missing));
            mi = i;
        } else {
            tiles.push(Tile::new(h, TileType::InPlay));
        }
    }
    NBoard::from_tiles(n, tiles, mi)
}

fn homes_of(b: &NBoard) -> Vec<usize> {
    let n = b.side_len();
    (0..n * n).map(|i| b.index_at(i)).collect()
}

fn missing_count(b: &NBoard) -> usize {
    b.to_string_representation().matches('*').count()
}

fn is_permutation(v: &[usize]) -> bool {
    let mut s = v.to_vec();
    s.sort();
    s.iter().enumerate().all(|(i, &x)| i == x)
}

/// Length of a shortest solution by breadth-first search, or None.
fn bfs_distance(start: &NBoard) -> Option<usize> {
    let mut seen: HashMap<String, usize> = HashMap::new();
    let mut queue = VecDeque::new();
    seen.insert(start.to_string_representation(), 0);
    queue.push_back((start.clone(), 0usize));
    while let Some((b, d)) = queue.pop_front() {
        if b.check_win() {
            return Some(d);
        }
        for p in b.get_swappable() {
            let mut c = b.clone();
            c.swap(p);
            let key = c.to_string_representation();
            if !seen.contains_key(&key) {
                seen.insert(key, d + 1);
                queue.push_back((c, d + 1));
            }
        }
    }
    None
}

fn apply_moves(start: &NBoard, moves: &[usize]) -> NBoard {
    let mut b = start.clone();
    for &p in moves {
        assert!(b.get_swappable().contains(&p), "move {} is not legal", p);
        b.swap(p);
    }
    b
}

#[test]
fn new_board_is_solved() {
    let b = NBoard::new(3);
    assert!(b.check_win());
    assert_eq!(b.side_len(), 3);
    for i in 0..9 {
        assert_eq!(b.index_at(i), i);
    }
    assert_eq!(missing_count(&b), 0);
    assert_eq!(b.to_string_representation(), "0,1,2,3,4,5,6,7,8,");
}

#[test]
fn swap_then_swap_back_restores_win() {
    let mut b = board_from(2, &[0, 1, 2, 3], 3).unwrap();
    assert!(b.check_win());
    assert_eq!(b.get_missing_index(), 3);
    let r = b.swap(2);
    assert_eq!(r, 2);
    assert_eq!(b.get_missing_index(), 2);
    assert!(!b.check_win());
    assert_eq!(homes_of(&b), vec![0, 1, 3, 2]);
    b.swap(3);
    assert!(b.check_win());
    assert_eq!(homes_of(&b), vec![0, 1, 2, 3]);
}

#[test]
fn swap_round_trip_on_generated_boards() {
    for n in 2..=5 {
        let mut b = NBoard::new(n);
        b.generate();
        let before = b.to_string_representation();
        let q = b.get_missing_index();
        for p in b.get_swappable() {
            b.swap(p);
            assert_ne!(b.to_string_representation(), before);
            b.swap(q);
            assert_eq!(b.to_string_representation(), before);
            assert_eq!(b.get_missing_index(), q);
        }
    }
}

#[test]
fn generated_boards_keep_one_missing_tile_and_all_homes() {
    for n in 2..=5 {
        for _ in 0..10 {
            let mut b = NBoard::new(n);
            b.generate();
            assert_eq!(missing_count(&b), 1);
            assert!(is_permutation(&homes_of(&b)));
            let m = b.get_missing_index();
            assert!(m < n * n);
            let text = b.to_string_representation();
            let cell = text.split(',').nth(m).unwrap();
            assert!(cell.ends_with('*'));
            for p in b.get_swappable() {
                b.swap(p);
                assert_eq!(missing_count(&b), 1);
                assert!(is_permutation(&homes_of(&b)));
            }
        }
    }
}

#[test]
fn generated_boards_are_solvable() {
    for n in 2..=5 {
        for _ in 0..8 {
            let mut b = NBoard::new(n);
            b.generate();
            assert!(b.solvable(), "generated board of side {} judged unsolvable", n);
        }
    }
}

fn permutations(v: Vec<usize>) -> Vec<Vec<usize>> {
    if v.len() <= 1 {
        return vec![v];
    }
    let mut out = Vec::new();
    for i in 0..v.len() {
        let mut rest = v.clone();
        let x = rest.remove(i);
        for mut p in permutations(rest) {
            p.insert(0, x);
            out.push(p);
        }
    }
    out
}

#[test]
fn solvable_agrees_with_search_for_every_two_by_two_board() {
    let mut solvable_count = 0;
    for perm in permutations(vec![0, 1, 2, 3]) {
        for missing in 0..4 {
            let mut b = board_from(2, &perm, missing).unwrap();
            let reachable = bfs_distance(&b).is_some();
            assert_eq!(b.solvable(), reachable, "board {:?} missing {}", perm, missing);
            assert_eq!(b.dfs_solve().is_some(), reachable);
            assert_eq!(b.a_star_solve().is_some(), reachable);
            if reachable {
                solvable_count += 1;
            }
        }
    }
    assert_eq!(solvable_count, 48);
}

#[test]
fn solvable_agrees_with_search_on_three_by_three_samples() {
    let cases: Vec<(Vec<usize>, usize)> = vec![
        (vec![1, 2, 0, 3, 4, 5, 6, 7, 8], 0),
        (vec![1, 0, 2, 3, 4, 5, 6, 7, 8], 8),
        (vec![8, 1, 2, 3, 4, 5, 6, 7, 0], 4),
        (vec![3, 1, 2, 0, 4, 5, 6, 7, 8], 0),
        (vec![0, 1, 2, 3, 4, 5, 6, 8, 7], 0),
    ];
    for (homes, missing) in cases {
        let b = board_from(3, &homes, missing).unwrap();
        let reachable = bfs_distance(&b).is_some();
        assert_eq!(b.solvable(), reachable, "board {:?} missing {}", homes, missing);
    }
}

#[test]
fn parity_rule_on_four_by_four_boards() {
    let mut solved: Vec<usize> = (0..16).collect();
    let b = board_from(4, &solved, 15).unwrap();
    assert!(b.solvable());
    solved.swap(0, 1);
    let b = board_from(4, &solved, 15).unwrap();
    assert!(!b.solvable());
    // Missing tile with home in an odd row, moved up one row: still solvable.
    let mut g = board_from(4, &(0..16).collect::<Vec<_>>(), 5).unwrap();
    g.swap(1);
    assert!(g.solvable());
    g.swap(0);
    assert!(g.solvable());
}

#[test]
fn a_star_on_solved_board_is_empty() {
    let b = NBoard::new(3);
    assert_eq!(b.a_star_solve(), Some(vec![]));
    let b = board_from(3, &(0..9).collect::<Vec<_>>(), 4).unwrap();
    assert_eq!(b.a_star_solve(), Some(vec![]));
}

#[test]
fn a_star_one_move_from_solved() {
    let mut b = board_from(3, &(0..9).collect::<Vec<_>>(), 4).unwrap();
    for p in b.get_swappable() {
        let mut c = b.clone();
        c.swap(p);
        assert_eq!(c.a_star_solve(), Some(vec![4]));
    }
    b.swap(1);
    assert_eq!(b.a_star_solve(), Some(vec![4]));
}

#[test]
fn a_star_finds_a_shortest_path_on_a_fixed_board() {
    let b = board_from(3, &[1, 2, 5, 0, 4, 8, 3, 6, 7], 8).unwrap();
    let shortest = bfs_distance(&b).unwrap();
    let path = b.a_star_solve().unwrap();
    assert_eq!(path.len(), shortest);
    assert!(apply_moves(&b, &path).check_win());
}

#[test]
fn a_star_exact_path_on_a_fixed_board() {
    let mut b = board_from(3, &(0..9).collect::<Vec<_>>(), 8).unwrap();
    b.swap(5);
    b.swap(4);
    b.swap(3);
    b.swap(0);
    assert_eq!(b.a_star_solve(), Some(vec![3, 4, 5, 8]));
    assert_eq!(bfs_distance(&b), Some(4));
}

#[test]
fn a_star_path_solves_generated_boards() {
    for _ in 0..5 {
        let mut b = NBoard::new(3);
        b.generate();
        let path = b.a_star_solve().unwrap();
        assert!(apply_moves(&b, &path).check_win());
    }
}

#[test]
fn dfs_path_runs_from_solved_board_back_to_start() {
    for _ in 0..3 {
        let mut b = NBoard::new(3);
        b.generate();
        let before = b.to_string_representation();
        let path = b.dfs_solve().unwrap();
        assert_eq!(b.to_string_representation(), before);
        assert!(path[0].check_win());
        assert_eq!(path.last().unwrap().to_string_representation(), before);
        for w in path.windows(2) {
            let solved_side = &w[0];
            let start_side = &w[1];
            assert!(start_side.get_swappable().contains(&solved_side.get_missing_index()));
            let mut c = start_side.clone();
            c.swap(solved_side.get_missing_index());
            assert_eq!(c.to_string_representation(), solved_side.to_string_representation());
        }
    }
}

#[test]
fn dfs_none_when_parity_is_violated() {
    let b = board_from(2, &[1, 0, 2, 3], 3);
    let mut b = b.unwrap();
    assert!(!b.solvable());
    assert!(b.dfs_solve().is_none());
    let mut c = board_from(3, &[1, 0, 2, 3, 4, 5, 6, 7, 8], 8).unwrap();
    assert!(c.dfs_solve().is_none());
    assert!(!c.solvable());
}

#[test]
fn dfs_on_solved_board_is_that_board() {
    let mut b = NBoard::new(2);
    let path = b.dfs_solve().unwrap();
    assert_eq!(path.len(), 1);
    assert!(path[0].check_win());
}

#[test]
fn from_tiles_rejects_malformed_arrangements() {
    assert!(board_from(2, &[0, 1, 2], 2).is_none());
    assert!(board_from(2, &[0, 1, 1, 3], 3).is_none());
    assert!(board_from(2, &[0, 1, 2, 4], 1).is_none());
    // No tile is Missing.
    assert!(board_from(2, &[0, 1, 2, 3], 9).is_none());
    // Two tiles Missing.
    let tiles = vec![
        Tile::new(0, TileType::Missing),
        Tile::new(1, TileType::Missing),
        Tile::new(2, TileType::InPlay),
        Tile::new(3, TileType::InPlay),
    ];
    assert!(NBoard::from_tiles(2, tiles, 0).is_none());
    // Missing index pointing at an in-play tile.
    let tiles = vec![
        Tile::new(0, TileType::Missing),
        Tile::new(1, TileType::InPlay),
        Tile::new(2, TileType::InPlay),
        Tile::new(3, TileType::InPlay),
    ];
    assert!(NBoard::from_tiles(2, tiles, 1).is_none());
}

#[test]
fn set_board_and_set_mi_assemble_a_board() {
    let mut b = NBoard::new(2);
    b.set_board(vec![
        Tile::new(1, TileType::InPlay),
        Tile::new(0, TileType::Missing),
        Tile::new(2, TileType::InPlay),
        Tile::new(3, TileType::InPlay),
    ]);
    b.set_mi(1);
    assert_eq!(b.get_missing_index(), 1);
    assert_eq!(homes_of(&b), vec![1, 0, 2, 3]);
    assert!(b.solvable());
    assert_eq!(b.a_star_solve(), Some(vec![0]));
}

#[test]
fn reset_copies_tiles() {
    let mut dst = vec![Tile::new(5, TileType::InPlay)];
    let src = vec![Tile::new(0, TileType::Missing), Tile::new(1, TileType::InPlay)];
    NBoard::reset(&mut dst, &src);
    assert_eq!(dst, src);
}

#[test]
fn swappable_positions_respect_edges() {
    let mut b = board_from(3, &(0..9).collect::<Vec<_>>(), 0).unwrap();
    let mut s = b.get_swappable();
    s.sort();
    assert_eq!(s, vec![1, 3]);
    b.swap(1);
    b.swap(4);
    let mut s = b.get_swappable();
    s.sort();
    assert_eq!(s, vec![1, 3, 5, 7]);
    b.swap(5);
    let mut s = b.get_swappable();
    s.sort();
    assert_eq!(s, vec![2, 4, 8]);
}

#[test]
fn text_marks_the_missing_tile() {
    let b = board_from(2, &[2, 0, 1, 3], 0).unwrap();
    assert_eq!(b.to_string_representation(), "2,0*,1,3,");
    let b = board_from(4, &(0..16).collect::<Vec<_>>(), 12).unwrap();
    assert_eq!(
        b.to_string_representation(),
        "0,1,2,3,4,5,6,7,8,9,10,11,12*,13,14,15,"
    );
}

#[test]
fn tiles_and_modes() {
    let t = Tile::new(7, TileType::Missing);
    assert_eq!(t.home_index(), 7);
    assert!(t.is_missing());
    let d = Tile::default();
    assert_eq!(d.home_index(), 0);
    assert!(!d.is_missing());
    assert_eq!(GameMode::TimeAttack.label(), "Time Attack");
    assert_eq!(GameMode::Outsmart.label(), "Outsmart");
    assert_eq!(GameMode::Race.label(), "Race");
}

#[test]
fn default_board_is_smallest_solved_board() {
    let b = NBoard::default();
    assert_eq!(b.side_len(), 2);
    assert!(b.check_win());
    assert_eq!(b.to_string_representation(), "0,1,2,3,");
}

#[test]
fn shuffle_follows_the_given_picks() {
    let mut tiles = vec![
        Tile::new(0, TileType::InPlay),
        Tile::new(1, TileType::InPlay),
        Tile::new(2, TileType::InPlay),
        Tile::new(3, TileType::Missing),
    ];
    // From 3 the moves are [2 (left), 1 (above)]; pick 0 takes 2.
    // From 2 the moves are [3 (right), 0 (above)]; pick 7 % 2 == 1 takes 0.
    let end = NBoard::generate_puzzle(&mut tiles, 2, 3, &vec![0, 7]);
    assert_eq!(end, 0);
    let homes: Vec<usize> = tiles.iter().map(|t| t.home_index()).collect();
    assert_eq!(homes, vec![3, 1, 0, 2]);
    assert!(tiles[0].is_missing());
    let end = NBoard::generate_puzzle(&mut tiles, 2, 0, &vec![]);
    assert_eq!(end, 0);
}
