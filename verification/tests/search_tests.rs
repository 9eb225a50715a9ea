use slide_puzzle_3x3::{solve, Coordination, Outcome, Puzzle, Swipe};

fn grid(rows: [[u8; 3]; 3]) -> Vec<Vec<u8>> {
    rows.iter().map(|r| r.to_vec()).collect()
}

#[test]
fn already_solved_input_needs_no_swipes() {
    let p = Puzzle::new(grid([[0, 1, 2], [3, 4, 5], [6, 7, 8]]), Coordination::new(2, 2));
    assert!(matches!(solve(&p), Outcome::AlreadyCorrect));
}

#[test]
fn one_swipe_fixture_resolves_in_one_swipe() {
    // Rows 1 2 3 / 4 5 6 / 7 9 8 in 1-based labels: only the last two
    // tiles are out of place, so the optimum is a single swipe.
    let p = Puzzle::new(grid([[0, 1, 2], [3, 4, 5], [6, 8, 7]]), Coordination::new(1, 2));
    match solve(&p) {
        Outcome::Solved(steps) => {
            assert_eq!(steps.len(), 1);
            assert_eq!(steps[0].0, Swipe::Left);
            assert_eq!(steps[0].1.tiles, grid([[0, 1, 2], [3, 4, 5], [6, 7, 8]]));
            assert!(steps[0].1.is_correct());
        }
        other => panic!("expected a solution, got {:?}", other),
    }
}

#[test]
fn two_swipe_scramble_resolves_in_two_swipes() {
    // The solved grid after swipes Right then Down; the shortest way back
    // therefore takes exactly two swipes.
    let p = Puzzle::new(grid([[0, 1, 2], [3, 8, 5], [6, 4, 7]]), Coordination::new(1, 1));
    match solve(&p) {
        Outcome::Solved(steps) => {
            assert_eq!(steps.len(), 2);
            let last = &steps[1].1;
            assert!(last.is_correct());
            assert_eq!(last.tiles, grid([[0, 1, 2], [3, 4, 5], [6, 7, 8]]));
        }
        other => panic!("expected a solution, got {:?}", other),
    }
}

#[test]
fn solution_steps_are_legal_and_chain() {
    // The solved grid scrambled by five swipes, so a solution exists.
    let p = Puzzle::new(grid([[1, 8, 2], [0, 4, 5], [3, 6, 7]]), Coordination::new(1, 0));
    match solve(&p) {
        Outcome::Solved(steps) => {
            let mut cur = p.clone();
            for (swipe, state) in &steps {
                assert!(cur.possible_actions().contains(swipe));
                cur = cur.transitional_state_with_action(*swipe);
                assert_eq!(&cur, state);
            }
            assert!(cur.is_correct());
        }
        other => panic!("expected a solution, got {:?}", other),
    }
}

#[test]
fn unsolvable_parity_class_reports_no_solution() {
    // Two tiles swapped relative to the solved grid, blank kept in place:
    // the other parity class, which cannot reach the goal.
    let p = Puzzle::new(grid([[1, 0, 2], [3, 4, 5], [6, 7, 8]]), Coordination::new(2, 2));
    assert!(matches!(solve(&p), Outcome::NoSolution));
}
