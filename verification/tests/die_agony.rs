use algorithms::die_agony::{
    bfs, copy_die, grid, grid_spec, has_face, has_square, tiny_grid, tip, tips, Die,
};

// Test that if the die is at 0,0 there are just 2 possible moves.
#[test]
fn test_adjacent_at_start() {
    let die = Die::new(grid());
    assert_eq!(die.adjacent().len(), 2);
}

// Test that if the die is at 5,5 it is at the goal.
#[test]
fn test_is_at_goal() {
    let mut die = Die::new(grid());
    die.x = 5;
    die.y = 5;
    assert!(die.is_at_goal());
}

// Test that if the die is at 5,5 there are just 2 possible moves.
#[test]
fn test_adjacent_at_goal() {
    let mut die = Die::new(grid());
    die.x = 5;
    die.y = 5;
    assert_eq!(die.adjacent().len(), 2);
}

// Test that if the die is at 0,0 it is not at the goal.
#[test]
fn test_is_not_at_goal() {
    let die = Die::new(grid());
    assert!(!die.is_at_goal());
}

// Test that if the die is at 3,5, there are 3 possible moves.
#[test]
fn test_adjacent_at_3_5() {
    let mut die = Die::new(grid());
    die.x = 3;
    die.y = 5;
    assert_eq!(die.adjacent().len(), 3);
}

// Test that if the die is at 1,1, there are 4 possible moves.
#[test]
fn test_adjacent_at_1_1() {
    let mut die = Die::new(grid());
    die.x = 1;
    die.y = 1;
    assert_eq!(die.adjacent().len(), 4);
}

#[test]
fn grids_are_as_printed() {
    let printed = grid_spec();
    let mut flipped = grid();
    flipped.reverse();
    assert_eq!(printed, flipped);
    assert_eq!(printed[0], vec![57, 33, 132, 268, 492, 732]);
    assert_eq!(printed[3], vec![-7, 2, 357, 452, 317, 395]);
    assert_eq!(printed[5], vec![0, 77, 32, 403, 337, 452]);
    assert_eq!(tiny_grid(), vec![vec![0, 8, 8], vec![-13, 84, 32], vec![0, 89, 503]]);
}

#[test]
fn adjacent_lists_left_right_below_above() {
    let mut die = Die::new(grid());
    die.x = 1;
    die.y = 2;
    assert_eq!(die.position(), (1, 2));
    assert_eq!(die.adjacent(), vec![(0, 2), (2, 2), (1, 1), (1, 3)]);
    die.x = 0;
    die.y = 0;
    assert_eq!(die.adjacent(), vec![(1, 0), (0, 1)]);
}

#[test]
fn move_to_notes_face_square_and_score() {
    let mut die = Die::new(tiny_grid());
    assert_eq!(die.face, -1);
    // first move: the face is the whole difference
    assert!(die.move_to(1, 0));
    assert_eq!(die.position(), (1, 0));
    assert_eq!(die.score, 8);
    assert_eq!(die.known_faces, vec![8]);
    assert_eq!(die.squares_visited, vec![(1, 0)]);
    // second move: (8 - 8) / 1 = 0
    assert!(die.move_to(2, 0));
    assert_eq!(die.known_faces, vec![8, 0]);
    // third move: (32 - 8) / 2 = 12
    assert!(die.move_to(2, 1));
    assert_eq!(die.known_faces, vec![8, 0, 12]);
    assert_eq!(die.score, 32);
    // a face that is known already is refused: (32 - 32) / 3 = 0
    assert!(!die.move_to(2, 1));
    assert_eq!(die.squares_visited.len(), 3);
    assert_eq!(die.score, 32);
}

#[test]
fn move_to_refuses_a_seventh_face() {
    let mut die = Die::new(vec![vec![0, 1, 3, 9, 21, 41, 71, 113]]);
    for (step, x) in (1..=6).enumerate() {
        assert!(die.move_to(x, 0), "move {}", step);
    }
    assert_eq!(die.known_faces, vec![1, 2, 3, 4, 5, 6]);
    assert!(!die.move_to(7, 0));
    assert_eq!(die.position(), (6, 0));
}

#[test]
fn tip_rounds_towards_zero() {
    assert_eq!(tip(7, 2), 3);
    assert_eq!(tip(-7, 2), -3);
    assert_eq!(tip(-21, 3), -7);
    assert_eq!(tip(0, 5), 0);
    assert!(has_face(&vec![1, 2, 3], 2));
    assert!(!has_face(&vec![1, 2, 3], 4));
}

#[test]
fn tiny_grid_has_a_way() {
    let found = bfs(Die::new(tiny_grid())).unwrap();
    assert!(found.is_at_goal());
    assert_eq!(found.position(), (2, 2));
    assert_eq!(found.squares_visited.last(), Some(&(2, 2)));
    assert_eq!(found.known_faces.len(), found.squares_visited.len());
    assert_eq!(found.score, 503);
    println!("{:?} {:?}", found.known_faces, found.squares_visited);
    assert_eq!(found.squares_visited, vec![(1, 0), (1, 1), (2, 1), (2, 2)]);
    let copy = copy_die(&found);
    assert_eq!(copy.squares_visited, found.squares_visited);
    assert_eq!(copy.grid, found.grid);
    assert!(has_square(&copy.squares_visited, 2, 1));
    assert!(!has_square(&copy.squares_visited, 0, 0));
}

#[test]
fn a_grid_without_a_way_gives_none() {
    // every tip would take the face 0 a second time
    assert!(bfs(Die::new(vec![vec![0, 0], vec![0, 0]])).is_none());
    // a grid of one square is its own goal
    let alone = bfs(Die::new(vec![vec![5]])).unwrap();
    assert!(alone.squares_visited.is_empty());
    let next = tips(&Die::new(tiny_grid()));
    assert_eq!(next.len(), 2);
    assert_eq!(next[0].position(), (1, 0));
    assert_eq!(next[1].position(), (0, 1));
}
