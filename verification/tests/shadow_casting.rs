use algorithms::codingame::puzzle::shadow_casting::{
    cell_to_char, char_to_cell, copy_world, max_cell, merge_cells,
    merge_larger_world_with_smaller_world, merge_worlds, mk_shadow, render_world, Cell,
};

#[test]
fn world_is_ordered() {
    assert!(Cell::Rock > Cell::LightShadow);
}

#[test]
fn cells_and_chars_round_trip() {
    for c in ['#', '-', '`', ' '] {
        assert_eq!(cell_to_char(char_to_cell(c)), c);
    }
    assert_eq!(char_to_cell('#'), Cell::Rock);
    assert_eq!(char_to_cell('-'), Cell::DeepShadow);
    assert_eq!(char_to_cell('`'), Cell::LightShadow);
    assert_eq!(char_to_cell(' '), Cell::Empty);
}

#[test]
fn max_cell_agrees_with_the_order() {
    let all = [Cell::Empty, Cell::LightShadow, Cell::DeepShadow, Cell::Rock];
    for a in all {
        for b in all {
            assert_eq!(max_cell(a, b), std::cmp::max(a, b));
        }
    }
}

#[test]
fn merge_cells_takes_the_stronger_and_extends() {
    let mut a = vec![Cell::Empty, Cell::Rock];
    merge_cells(&mut a, &vec![Cell::DeepShadow, Cell::LightShadow, Cell::LightShadow]);
    assert_eq!(a, vec![Cell::DeepShadow, Cell::Rock, Cell::LightShadow]);
    let mut b = vec![Cell::Empty, Cell::Rock, Cell::Empty];
    merge_cells(&mut b, &vec![Cell::LightShadow]);
    assert_eq!(b, vec![Cell::LightShadow, Cell::Rock, Cell::Empty]);
}

#[test]
fn mk_shadow_casts_two_rows() {
    let w = mk_shadow(vec![Cell::Empty, Cell::Rock, Cell::Empty]);
    assert_eq!(
        w,
        vec![
            vec![Cell::Empty, Cell::Rock, Cell::Empty],
            vec![Cell::Empty, Cell::Empty, Cell::DeepShadow, Cell::Empty],
            vec![Cell::Empty, Cell::Empty, Cell::Empty, Cell::LightShadow, Cell::Empty],
        ]
    );
    assert_eq!(render_world(w), " # \n  - \n   ` ");
}

#[test]
fn merge_worlds_lays_the_shorter_over_the_end() {
    let mut tall = vec![vec![Cell::Rock], vec![Cell::Empty], vec![Cell::Empty, Cell::Empty]];
    let mut short = vec![vec![Cell::DeepShadow, Cell::Rock], vec![Cell::LightShadow]];
    let merged = merge_worlds(&mut tall, &mut short);
    let expected = vec![
        vec![Cell::Rock],
        vec![Cell::DeepShadow, Cell::Rock],
        vec![Cell::LightShadow, Cell::Empty],
    ];
    assert_eq!(merged, expected);
    assert_eq!(tall, expected);
    assert_eq!(short.len(), 2);
    // the other way round, the second world is the one that is changed
    let mut small = vec![vec![Cell::Rock]];
    let mut big = vec![vec![Cell::Empty], vec![Cell::Empty]];
    let merged = merge_worlds(&mut small, &mut big);
    assert_eq!(merged, vec![vec![Cell::Empty], vec![Cell::Rock]]);
    assert_eq!(big, merged);
    assert_eq!(small, vec![vec![Cell::Rock]]);
    assert_eq!(copy_world(&big), big);
}

#[test]
fn merging_a_shadow_into_a_canvas() {
    // what the program does with each line of the picture
    let mut res: Vec<Vec<Cell>> = vec![vec![], vec![], vec![]];
    for line in ["#", " #"] {
        let cells: Vec<Cell> = line.chars().map(char_to_cell).collect();
        let mut shadow = mk_shadow(cells);
        merge_worlds(&mut res, &mut shadow);
        res.push(Vec::new());
    }
    assert_eq!(render_world(res), "#\n #\n  -\n   `\n");
}

#[test]
fn render_world_of_nothing_is_empty() {
    assert_eq!(render_world(vec![]), "");
    assert_eq!(render_world(vec![vec![]]), "");
    assert_eq!(render_world(vec![vec![], vec![Cell::Rock]]), "\n#");
    let mut w = vec![vec![Cell::Rock]];
    merge_larger_world_with_smaller_world(&mut w, &vec![]);
    assert_eq!(w, vec![vec![Cell::Rock]]);
}
