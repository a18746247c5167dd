use kvs::{numbered_moves, Move};

#[test]
fn a_thousand_moves() {
    let moves = numbered_moves(1000);
    assert_eq!(moves.len(), 1000);
    assert_eq!(moves[0], Move { move_x: 1, mov_y: 0 });
    assert_eq!(moves[3], Move { move_x: 4, mov_y: 9 });
    assert_eq!(moves[999], Move { move_x: 1000, mov_y: 998001 });
}

#[test]
fn no_moves() {
    assert!(numbered_moves(0).is_empty());
}
