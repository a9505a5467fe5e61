use snek::snek::{SnekDirection, SnekGame};

#[test]
fn test_draw_text_initial_board() {
    let game = SnekGame::new(32, 24);
    let out = game.draw_text();
    assert_eq!(out.len(), 24 * 33);
    let row = 10 * 33;
    assert_eq!(out[row + 10], '→');
    assert_eq!(out[row + 14], '▄');
    assert_eq!(out[row + 20], '█');
    assert_eq!(out[row + 0], '_');
    assert_eq!(out[row + 32], '\n');
    for y in 0..24 {
        assert_eq!(out[y * 33 + 32], '\n');
    }
    assert_eq!(out[0], '_');
}

#[test]
fn test_draw_text_head_arrow_follows_heading() {
    let mut game = SnekGame::new(32, 24);
    game.set_snekdir(SnekDirection::North);
    game.step();
    let out = game.draw_text();
    assert_eq!(out[9 * 33 + 10], '↑');
    // The spot the head left is now a body segment.
    assert_eq!(out[10 * 33 + 10], '■');
}
