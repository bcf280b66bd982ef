use dice_wars::grid::{cell_neighbors, neighbor_of, COLS, ROWS};
use dice_wars::rules::{color_map, diff_idx, idx_diff, player_name, Difficulty, PlayerName};

#[test]
fn difficulty_wire_numbers() {
    assert_eq!(diff_idx(Difficulty::Easy), 0);
    assert_eq!(diff_idx(Difficulty::Normal), 1);
    assert_eq!(diff_idx(Difficulty::Hard), 2);
    assert_eq!(idx_diff(7), Difficulty::Normal);
    for d in [Difficulty::Easy, Difficulty::Normal, Difficulty::Hard] {
        assert_eq!(idx_diff(diff_idx(d)), d);
    }
}

#[test]
fn color_swap_is_its_own_inverse() {
    assert_eq!(color_map(3, 0), 3);
    assert_eq!(color_map(3, 3), 0);
    assert_eq!(color_map(3, 5), 5);
    for h in 0..8 {
        for p in 0..8 {
            assert_eq!(color_map(h, color_map(h, p)), p);
        }
    }
}

#[test]
fn player_names() {
    assert_eq!(player_name(2, 1, 0), PlayerName::You);
    assert_eq!(player_name(2, 3, 1), PlayerName::Label(1));
    assert_eq!(player_name(2, 1, 2), PlayerName::Color(0));
    assert_eq!(player_name(2, 1, 4), PlayerName::Color(4));
}

#[test]
fn hex_neighbors_odd_r_layout() {
    // even row: SE is straight below-left of the shift
    assert_eq!(neighbor_of(5, 2, 0), Some(2 * COLS + 6));
    assert_eq!(neighbor_of(5, 2, 1), Some(3 * COLS + 5));
    assert_eq!(neighbor_of(5, 2, 2), Some(3 * COLS + 4));
    // odd row shifts right
    assert_eq!(neighbor_of(5, 3, 1), Some(4 * COLS + 6));
    assert_eq!(neighbor_of(5, 3, 5), Some(2 * COLS + 6));
    // off the grid
    assert_eq!(neighbor_of(0, 0, 3), None);
    assert_eq!(neighbor_of(0, 0, 4), None);
    assert_eq!(neighbor_of(COLS - 1, ROWS - 1, 0), None);
}

#[test]
fn hex_adjacency_is_symmetric() {
    for i in 0..COLS * ROWS {
        let ns = cell_neighbors(i);
        assert!(ns.len() >= 2 && ns.len() <= 6);
        for j in ns {
            assert!(cell_neighbors(j).contains(&i));
        }
    }
    assert_eq!(cell_neighbors(0), vec![1, COLS]);
}
