use snek::snek::{SnekDirection, SnekGame, SnekObject, SnekPosition};

fn do_game_steps(game: &mut SnekGame, ticks: usize) {
    for _ in 0..ticks {
        game.step();
        if game.game_over {
            return;
        }
    }
}

#[test]
fn test_snek_hit_wall() {
    let mut game = SnekGame::new(32, 24);
    game.set_snekdir(SnekDirection::North);
    do_game_steps(&mut game, 24);
    assert_eq!(game.game_over, true);

    let mut game = SnekGame::new(32, 24);
    game.set_snekdir(SnekDirection::East);
    do_game_steps(&mut game, 32);
    assert_eq!(game.game_over, true);

    let mut game = SnekGame::new(32, 24);
    game.set_snekdir(SnekDirection::West);
    do_game_steps(&mut game, 32);

    let mut game = SnekGame::new(32, 24);
    game.set_snekdir(SnekDirection::South);
    do_game_steps(&mut game, 24);
}

#[test]
fn test_snek_diagonal() {
    let mut game = SnekGame::new(32, 24);
    game.set_snekdir(SnekDirection::North);
    do_game_steps(&mut game, 1);
    game.set_snekdir(SnekDirection::East);
    do_game_steps(&mut game, 1);
    game.set_snekdir(SnekDirection::South);
    do_game_steps(&mut game, 2);
    game.set_snekdir(SnekDirection::West);
    do_game_steps(&mut game, 32);
    assert_eq!(game.game_over, true);
}

#[test]
fn test_snek_self_collision() {
    // A 32x24 board: the head starts at (10, 10) heading East with three
    // segments owed. Three ticks later the body trails the head exactly.
    let mut game = SnekGame::new(32, 24);
    do_game_steps(&mut game, 3);
    assert_eq!(game.snek_head_pos, SnekPosition { x: 13, y: 10 });
    assert_eq!(game.snek_segments_pending, 0);
    assert_eq!(
        game.snek_segments,
        vec![
            SnekPosition { x: 12, y: 10 },
            SnekPosition { x: 11, y: 10 },
            SnekPosition { x: 10, y: 10 },
        ]
    );
    for p in [
        SnekPosition { x: 12, y: 10 },
        SnekPosition { x: 11, y: 10 },
        SnekPosition { x: 10, y: 10 },
    ] {
        assert_eq!(game.get_cell(&p), SnekObject::Segment);
    }
    // A tight turn back into the trailing body is fatal.
    game.set_snekdir(SnekDirection::North);
    do_game_steps(&mut game, 1);
    game.set_snekdir(SnekDirection::West);
    do_game_steps(&mut game, 1);
    game.set_snekdir(SnekDirection::South);
    do_game_steps(&mut game, 1);
    assert_eq!(game.game_over, true);
    assert_eq!(game.snek_head_pos, SnekPosition { x: 12, y: 9 });
}

#[test]
fn test_reverse_direction_is_noop() {
    let mut game = SnekGame::new(32, 24);
    assert_eq!(game.snek_head_dir, SnekDirection::East);
    game.set_snekdir(SnekDirection::West);
    assert_eq!(game.snek_head_dir, SnekDirection::East);
    game.set_snekdir(SnekDirection::North);
    assert_eq!(game.snek_head_dir, SnekDirection::North);
    game.set_snekdir(SnekDirection::South);
    assert_eq!(game.snek_head_dir, SnekDirection::North);
    game.set_snekdir(SnekDirection::West);
    assert_eq!(game.snek_head_dir, SnekDirection::West);
    game.set_snekdir(SnekDirection::East);
    assert_eq!(game.snek_head_dir, SnekDirection::West);
    game.set_snekdir(SnekDirection::South);
    assert_eq!(game.snek_head_dir, SnekDirection::South);
    game.set_snekdir(SnekDirection::North);
    assert_eq!(game.snek_head_dir, SnekDirection::South);
}

#[test]
fn test_outside_cells_read_as_wall() {
    let game = SnekGame::new(32, 24);
    for p in [
        SnekPosition { x: -1, y: 0 },
        SnekPosition { x: 0, y: -1 },
        SnekPosition { x: 32, y: 0 },
        SnekPosition { x: 0, y: 24 },
        SnekPosition { x: -5, y: -7 },
        SnekPosition { x: 1000, y: 1000 },
    ] {
        assert_eq!(game.get_cell(&p), SnekObject::Wall);
    }
}

#[test]
fn test_set_cell_out_of_bounds_is_noop() {
    let mut game = SnekGame::new(32, 24);
    let before = game.board.clone();
    game.set_cell(&SnekPosition { x: -1, y: 5 }, SnekObject::Rock);
    game.set_cell(&SnekPosition { x: 5, y: -1 }, SnekObject::Rock);
    game.set_cell(&SnekPosition { x: 32, y: 5 }, SnekObject::Rock);
    game.set_cell(&SnekPosition { x: 5, y: 24 }, SnekObject::Rock);
    assert_eq!(game.board, before);
}

#[test]
fn test_set_cell_in_bounds() {
    let mut game = SnekGame::new(32, 24);
    let p = SnekPosition { x: 3, y: 7 };
    assert_eq!(game.get_cell(&p), SnekObject::Empty);
    game.set_cell(&p, SnekObject::Rock);
    assert_eq!(game.get_cell(&p), SnekObject::Rock);
}

#[test]
fn test_game_over_is_permanent() {
    // Drive straight into the northern wall: eleven deterministic ticks.
    let mut game = SnekGame::new(32, 24);
    game.set_snekdir(SnekDirection::North);
    for _ in 0..11 {
        game.step();
    }
    assert_eq!(game.game_over, true);
    let board = game.board.clone();
    let head = game.snek_head_pos;
    let dir = game.snek_head_dir;
    let segments = game.snek_segments.clone();
    let pending = game.snek_segments_pending;
    for _ in 0..5 {
        game.step();
    }
    assert_eq!(game.game_over, true);
    assert_eq!(game.board, board);
    assert_eq!(game.snek_head_pos, head);
    assert_eq!(game.snek_head_dir, dir);
    assert_eq!(game.snek_segments, segments);
    assert_eq!(game.snek_segments_pending, pending);
}

#[test]
fn test_fatal_tick_changes_nothing_but_game_over() {
    let mut game = SnekGame::new(32, 24);
    game.set_snekdir(SnekDirection::North);
    for _ in 0..10 {
        game.step();
    }
    assert_eq!(game.game_over, false);
    assert_eq!(game.snek_head_pos, SnekPosition { x: 10, y: 0 });
    let board = game.board.clone();
    let segments = game.snek_segments.clone();
    game.step();
    assert_eq!(game.game_over, true);
    assert_eq!(game.snek_head_pos, SnekPosition { x: 10, y: 0 });
    assert_eq!(game.board, board);
    assert_eq!(game.snek_segments, segments);
}

fn count_cells(game: &SnekGame, obj: SnekObject) -> usize {
    let mut n = 0;
    for y in 0..24 {
        for x in 0..32 {
            if game.get_cell(&SnekPosition { x, y }) == obj {
                n += 1;
            }
        }
    }
    n
}

#[test]
fn test_berry_grows_snake_and_respawns() {
    let mut game = SnekGame::new(32, 24);
    assert_eq!(count_cells(&game, SnekObject::Berry), 1);
    assert_eq!(count_cells(&game, SnekObject::Rock), 1);
    // Four ticks East from (10, 10) eat the berry at (14, 10).
    do_game_steps(&mut game, 3);
    assert_eq!(game.snek_segments.len(), 3);
    game.step();
    assert_eq!(game.game_over, false);
    assert_eq!(game.snek_head_pos, SnekPosition { x: 14, y: 10 });
    // The body is one segment longer, with no growth left pending.
    assert_eq!(game.snek_segments.len(), 4);
    assert_eq!(game.snek_segments_pending, 0);
    // Exactly one berry and one fresh rock reappeared elsewhere.
    assert_eq!(count_cells(&game, SnekObject::Berry), 1);
    assert_eq!(count_cells(&game, SnekObject::Rock), 2);
    assert_eq!(count_cells(&game, SnekObject::Head), 1);
    assert_eq!(count_cells(&game, SnekObject::Segment), 4);
    assert_eq!(game.get_cell(&SnekPosition { x: 14, y: 10 }), SnekObject::Head);
}

#[test]
fn test_count_empty() {
    let game = SnekGame::new(32, 24);
    // Everything is free except the head, one berry and one rock.
    assert_eq!(game.count_empty(), 32 * 24 - 3);
}
