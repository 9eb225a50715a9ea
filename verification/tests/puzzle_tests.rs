use slide_puzzle_3x3::{Coordination, Puzzle, Swipe};

fn grid(rows: [[u8; 3]; 3]) -> Vec<Vec<u8>> {
    rows.iter().map(|r| r.to_vec()).collect()
}

fn solved() -> Puzzle {
    Puzzle::new(grid([[0, 1, 2], [3, 4, 5], [6, 7, 8]]), Coordination::new(2, 2))
}

#[test]
fn opposite_pairs() {
    assert_eq!(Swipe::Up.opposite(), Swipe::Down);
    assert_eq!(Swipe::Down.opposite(), Swipe::Up);
    assert_eq!(Swipe::Left.opposite(), Swipe::Right);
    assert_eq!(Swipe::Right.opposite(), Swipe::Left);
}

#[test]
fn coordination_new_stores_fields() {
    let c = Coordination::new(1, 2);
    assert_eq!(c.x, 1);
    assert_eq!(c.y, 2);
}

#[test]
fn puzzle_new_stores_grid_and_blank() {
    let p = Puzzle::new(grid([[0, 1, 2], [3, 8, 4], [5, 6, 7]]), Coordination::new(1, 1));
    assert_eq!(p.tiles, grid([[0, 1, 2], [3, 8, 4], [5, 6, 7]]));
    assert_eq!(p.empty_tile, Coordination::new(1, 1));
}

#[test]
fn possible_actions_center_lists_all_four() {
    let p = Puzzle::new(grid([[0, 1, 2], [3, 8, 4], [5, 6, 7]]), Coordination::new(1, 1));
    assert_eq!(
        p.possible_actions(),
        vec![Swipe::Left, Swipe::Right, Swipe::Up, Swipe::Down]
    );
}

#[test]
fn possible_actions_bottom_right_corner() {
    assert_eq!(solved().possible_actions(), vec![Swipe::Right, Swipe::Down]);
}

#[test]
fn possible_actions_top_left_corner() {
    let p = Puzzle::new(grid([[8, 0, 1], [2, 3, 4], [5, 6, 7]]), Coordination::new(0, 0));
    assert_eq!(p.possible_actions(), vec![Swipe::Left, Swipe::Up]);
}

#[test]
fn possible_actions_top_right_corner() {
    let p = Puzzle::new(grid([[0, 1, 8], [2, 3, 4], [5, 6, 7]]), Coordination::new(2, 0));
    assert_eq!(p.possible_actions(), vec![Swipe::Right, Swipe::Up]);
}

#[test]
fn possible_actions_top_edge() {
    let p = Puzzle::new(grid([[0, 8, 1], [2, 3, 4], [5, 6, 7]]), Coordination::new(1, 0));
    assert_eq!(p.possible_actions(), vec![Swipe::Left, Swipe::Right, Swipe::Up]);
}

#[test]
fn possible_actions_left_edge() {
    let p = Puzzle::new(grid([[0, 1, 2], [8, 3, 4], [5, 6, 7]]), Coordination::new(0, 1));
    assert_eq!(p.possible_actions(), vec![Swipe::Left, Swipe::Up, Swipe::Down]);
}

#[test]
fn transitional_state_swaps_blank_and_target() {
    let p = Puzzle::new(grid([[0, 1, 2], [3, 4, 5], [6, 8, 7]]), Coordination::new(1, 2));
    let q = p.transitional_state_with_action(Swipe::Left);
    assert_eq!(q.tiles, grid([[0, 1, 2], [3, 4, 5], [6, 7, 8]]));
    assert_eq!(q.empty_tile, Coordination::new(2, 2));
    // the source state is untouched
    assert_eq!(p.tiles, grid([[0, 1, 2], [3, 4, 5], [6, 8, 7]]));
}

#[test]
fn swipe_then_opposite_returns_to_start() {
    let p = Puzzle::new(grid([[0, 1, 2], [3, 8, 4], [5, 6, 7]]), Coordination::new(1, 1));
    for swipe in p.possible_actions() {
        let there = p.transitional_state_with_action(swipe);
        let back = there.transitional_state_with_action(swipe.opposite());
        assert_eq!(back, p);
    }
}

#[test]
fn is_correct_on_canonical_grid() {
    assert!(solved().is_correct());
}

#[test]
fn is_correct_rejects_swapped_tiles() {
    let p = Puzzle::new(grid([[1, 0, 2], [3, 4, 5], [6, 7, 8]]), Coordination::new(2, 2));
    assert!(!p.is_correct());
}

#[test]
fn is_correct_rejects_blank_misplaced() {
    let p = Puzzle::new(grid([[0, 1, 2], [3, 4, 5], [6, 8, 7]]), Coordination::new(1, 2));
    assert!(!p.is_correct());
}
