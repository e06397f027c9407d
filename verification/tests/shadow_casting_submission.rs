use algorithms::codingame::puzzle::shadow_casting::{cast_shadows as cast_plain, Cell as Plain};
use algorithms::codingame::puzzle::submissions::shadow_casting::{
    cast_shadows, cell_to_char, char_to_cell, max_cell, mk_shadow, render_world, shadow_picture,
    strength, Cell,
};

#[test]
fn any_character_is_a_cell() {
    assert_eq!(char_to_cell('x'), Cell::Ext('x'));
    assert_eq!(char_to_cell(' '), Cell::Empty);
    assert_eq!(char_to_cell('#'), Cell::Rock);
    for c in ['#', '-', '`', ' ', 'x', 'é'] {
        assert_eq!(cell_to_char(char_to_cell(c)), c);
    }
    assert!(Cell::Ext('a') > Cell::Rock);
    assert!(Cell::Ext('b') > Cell::Ext('a'));
    assert_eq!(max_cell(Cell::Ext('a'), Cell::Ext('b')), Cell::Ext('b'));
    assert_eq!(max_cell(Cell::Rock, Cell::Ext('a')), Cell::Ext('a'));
    assert_eq!(strength(Cell::Ext('a')), 4 + 97);
    assert_eq!(strength(Cell::DeepShadow), 2);
}

#[test]
fn every_character_casts_a_shadow() {
    let w = mk_shadow(vec![Cell::Ext('x'), Cell::Empty, Cell::Rock]);
    assert_eq!(render_world(w), "x #\n - -\n  ` `");
}

#[test]
fn picture_drops_the_last_row() {
    let problem = vec![vec![Cell::Ext('a')], vec![Cell::Empty, Cell::Ext('b')]];
    assert_eq!(shadow_picture(&problem), "a\n b\n  -\n   `");
    assert_eq!(cast_shadows(&problem).len(), 5);
    assert_eq!(shadow_picture(&vec![]), "\n");
    let plain = vec![vec![Plain::Rock], vec![Plain::Empty, Plain::Rock]];
    assert_eq!(cast_plain(&plain).len(), 5);
    assert_eq!(cast_plain(&plain)[2], vec![Plain::Empty, Plain::Empty, Plain::DeepShadow]);
}
