use twenty48::{
    Game, GameState, MovingDirection, Position, Score, Tile, TileEntry, TurnState,
    STARTING_TILES,
};

fn entry(row: usize, col: usize, level: u32) -> Option<TileEntry> {
    Some(TileEntry {
        tile: Tile { level },
        pos: Position { row, col },
        moving: false,
        merged: false,
    })
}

fn game_with(tiles: Vec<Option<TileEntry>>) -> Game {
    Game {
        tiles,
        turn_state: TurnState::Idle,
        game_state: GameState::Play,
        direction: MovingDirection::Left,
        score: Score(0),
    }
}

/// The level of the tile at (row, col), or None for a free cell.
fn level_at(game: &Game, row: usize, col: usize) -> Option<u32> {
    let mut found = None;
    for e in game.tiles.iter().flatten() {
        if e.pos.row == row && e.pos.col == col {
            assert!(found.is_none(), "two tiles on one cell");
            found = Some(e.tile.level);
        }
    }
    found
}

fn live_count(game: &Game) -> usize {
    game.tiles.iter().flatten().count()
}

/// A full checkerboard of 2s and 4s: no equal neighbors anywhere.
fn checkerboard() -> Vec<Option<TileEntry>> {
    let mut tiles = Vec::new();
    for row in 0..4 {
        for col in 0..4 {
            // Values [[2,4,2,4],[4,2,4,2],...] i.e. levels 0 and 1.
            let level = ((row + col) % 2) as u32;
            tiles.push(entry(row, col, level));
        }
    }
    tiles
}

#[test]
fn checkerboard_full_board_is_game_over() {
    let mut game = game_with(checkerboard());
    game.check_moveable();
    assert_eq!(game.game_state, GameState::GameOver);
}

#[test]
fn full_board_with_equal_pair_stays_in_play() {
    let mut tiles = checkerboard();
    // Make (0,0) and (0,1) equal: a legal move remains.
    tiles[1] = entry(0, 1, 0);
    let mut game = game_with(tiles);
    game.check_moveable();
    assert_eq!(game.game_state, GameState::Play);
}

#[test]
fn partial_board_stays_in_play() {
    let mut tiles = checkerboard();
    tiles[5] = None;
    let mut game = game_with(tiles);
    game.check_moveable();
    assert_eq!(game.game_state, GameState::Play);
}

#[test]
fn detector_runs_only_between_turns() {
    let mut game = game_with(checkerboard());
    game.turn_state = TurnState::Animating;
    game.check_moveable();
    assert_eq!(game.game_state, GameState::Play);
}

#[test]
fn left_on_adjacent_pair_merges_for_four_points() {
    // Row [_, 2, 2, _] and a Left press: the pair meets at the wall.
    let mut game = game_with(vec![entry(0, 1, 0), entry(0, 2, 0)]);
    game.moving_input(MovingDirection::Left);
    assert_eq!(game.turn_state, TurnState::CheckMovable { starting: true });
    let cycles = game.resolve_turn();
    assert!(cycles <= 3);
    assert_eq!(game.turn_state, TurnState::Finishing { moved: true });
    assert_eq!(level_at(&game, 0, 0), Some(1));
    assert_eq!(level_at(&game, 0, 1), None);
    assert_eq!(level_at(&game, 0, 2), None);
    assert_eq!(level_at(&game, 0, 3), None);
    assert_eq!(game.score.0, 4);
    assert_eq!(live_count(&game), 1);
}

#[test]
fn left_on_split_pair_slides_then_merges_in_one_press() {
    // Row [2, _, _, 2]: the far tile slides across and merges, all
    // within one key press.
    let mut game = game_with(vec![entry(0, 0, 0), entry(0, 3, 0)]);
    game.moving_input(MovingDirection::Left);
    let cycles = game.resolve_turn();
    assert!(cycles <= 3);
    assert_eq!(level_at(&game, 0, 0), Some(1));
    assert_eq!(level_at(&game, 0, 1), None);
    assert_eq!(level_at(&game, 0, 2), None);
    assert_eq!(level_at(&game, 0, 3), None);
    assert_eq!(game.score.0, 4);
    assert_eq!(live_count(&game), 1);
}

#[test]
fn four_equal_tiles_merge_pairwise_not_into_one() {
    // Row [2, 2, 2, 2] collapses to [4, 4, _, _]: each tile merges at
    // most once per press, so no 8 appears.
    let mut game = game_with(vec![
        entry(0, 0, 0),
        entry(0, 1, 0),
        entry(0, 2, 0),
        entry(0, 3, 0),
    ]);
    game.moving_input(MovingDirection::Left);
    let cycles = game.resolve_turn();
    assert!(cycles <= 3);
    assert_eq!(level_at(&game, 0, 0), Some(1));
    assert_eq!(level_at(&game, 0, 1), Some(1));
    assert_eq!(level_at(&game, 0, 2), None);
    assert_eq!(level_at(&game, 0, 3), None);
    assert_eq!(game.score.0, 8);
    assert_eq!(live_count(&game), 2);
}

#[test]
fn merged_tile_does_not_merge_again_within_press() {
    // Row [4, 2, 2, _]: the 2s merge into a 4 beside the old 4, but the
    // two 4s must not merge in the same press.
    let mut game = game_with(vec![entry(0, 0, 1), entry(0, 1, 0), entry(0, 2, 0)]);
    game.moving_input(MovingDirection::Left);
    game.resolve_turn();
    assert_eq!(level_at(&game, 0, 0), Some(1));
    assert_eq!(level_at(&game, 0, 1), Some(1));
    assert_eq!(game.score.0, 4);
    assert_eq!(live_count(&game), 2);
}

#[test]
fn press_against_wall_moves_nothing_and_spawns_nothing() {
    let mut game = game_with(vec![entry(0, 0, 0), entry(1, 0, 2)]);
    game.moving_input(MovingDirection::Left);
    let cycles = game.resolve_turn();
    assert_eq!(cycles, 0);
    assert_eq!(game.turn_state, TurnState::Finishing { moved: false });
    let spawn = game.finish_moving();
    assert_eq!(spawn, 0);
    assert_eq!(game.turn_state, TurnState::Idle);
    assert_eq!(level_at(&game, 0, 0), Some(0));
    assert_eq!(level_at(&game, 1, 0), Some(2));
}

#[test]
fn a_turn_that_moved_spawns_one_tile() {
    let mut game = game_with(vec![entry(0, 3, 0)]);
    game.moving_input(MovingDirection::Left);
    let cycles = game.resolve_turn();
    assert_eq!(cycles, 3);
    assert_eq!(level_at(&game, 0, 0), Some(0));
    let spawn = game.finish_moving();
    assert_eq!(spawn, 1);
    assert_eq!(game.turn_state, TurnState::Idle);
}

#[test]
fn upward_press_moves_toward_top_row() {
    let mut game = game_with(vec![entry(0, 2, 3)]);
    game.moving_input(MovingDirection::Up);
    game.resolve_turn();
    assert_eq!(level_at(&game, 3, 2), Some(3));
    assert_eq!(live_count(&game), 1);
}

#[test]
fn input_is_ignored_mid_turn_and_after_game_over() {
    let mut game = game_with(vec![entry(0, 1, 0)]);
    game.turn_state = TurnState::Animating;
    game.moving_input(MovingDirection::Right);
    assert_eq!(game.turn_state, TurnState::Animating);
    assert_eq!(game.direction, MovingDirection::Left);

    let mut over = game_with(vec![entry(0, 1, 0)]);
    over.game_state = GameState::GameOver;
    over.moving_input(MovingDirection::Right);
    assert_eq!(over.turn_state, TurnState::Idle);
}

#[test]
fn spawn_two_on_empty_board_gives_two_fresh_tiles() {
    let mut game = Game::new();
    game.spawn_tiles(2, &vec![(11, 0), (7, 5)]);
    assert_eq!(live_count(&game), 2);
    let tiles: Vec<&TileEntry> = game.tiles.iter().flatten().collect();
    assert_ne!(
        (tiles[0].pos.row, tiles[0].pos.col),
        (tiles[1].pos.row, tiles[1].pos.col)
    );
    for t in tiles {
        assert!(t.tile.level < 2);
        assert!(!t.moving && !t.merged);
    }
}

#[test]
fn spawner_fills_only_free_cells() {
    // One free cell left; whatever the draw, the new tile lands there.
    let mut tiles = checkerboard();
    tiles[6] = None; // (1, 2) free
    let mut game = game_with(tiles);
    game.spawn_tiles(1, &vec![(12345, 1)]);
    assert_eq!(live_count(&game), 16);
    assert_eq!(level_at(&game, 1, 2), Some(1));
}

#[test]
fn spawn_count_adds_to_occupied_cells() {
    let mut game = game_with(vec![entry(2, 2, 4)]);
    game.spawn_tiles(3, &vec![(2, 0), (2, 1), (9, 0)]);
    assert_eq!(live_count(&game), 4);
    // The old tile is untouched.
    assert_eq!(level_at(&game, 2, 2), Some(4));
}

#[test]
fn restart_clears_board_and_score() {
    let mut game = game_with(vec![entry(0, 0, 5), entry(1, 1, 2)]);
    game.score = Score(480);
    game.request_restart();
    assert_eq!(game.game_state, GameState::Restarting);
    let spawn = game.new_game();
    assert_eq!(spawn, STARTING_TILES);
    assert_eq!(live_count(&game), 0);
    assert_eq!(game.score.0, 0);
    assert_eq!(game.game_state, GameState::Play);
    assert_eq!(game.turn_state, TurnState::Idle);
}

#[test]
fn new_game_without_restart_request_changes_nothing() {
    let mut game = game_with(vec![entry(0, 0, 5)]);
    game.score = Score(7);
    let spawn = game.new_game();
    assert_eq!(spawn, 0);
    assert_eq!(live_count(&game), 1);
    assert_eq!(game.score.0, 7);
}

#[test]
fn single_step_phases_match_the_synchronous_turn() {
    // Drive one press through the public per-phase entry points, as the
    // host's tick loop would, and check the same outcome as resolve_turn.
    let mut game = game_with(vec![entry(0, 1, 0), entry(0, 2, 0)]);
    game.moving_input(MovingDirection::Left);
    let mut guard = 0;
    while matches!(game.turn_state, TurnState::CheckMovable { .. }) {
        game.set_moving();
        if game.turn_state == TurnState::Animating {
            game.apply_positions();
            assert_eq!(game.turn_state, TurnState::Merging);
            game.merging();
        }
        guard += 1;
        assert!(guard <= 4, "turn did not settle in at most 3 cycles");
    }
    assert_eq!(game.turn_state, TurnState::Finishing { moved: true });
    assert_eq!(level_at(&game, 0, 0), Some(1));
    assert_eq!(game.score.0, 4);
    assert_eq!(live_count(&game), 1);
}

#[test]
fn full_session_reaches_game_over() {
    // Play a short scripted session: fill the board into the stuck
    // checkerboard, then let the detector end the game.
    let mut game = game_with(checkerboard());
    game.check_moveable();
    assert_eq!(game.game_state, GameState::GameOver);
    // Input is refused now; restarting brings the game back.
    game.moving_input(MovingDirection::Down);
    assert_eq!(game.turn_state, TurnState::Idle);
    game.request_restart();
    let spawn = game.new_game();
    game.spawn_tiles(spawn, &vec![(1, 1), (2, 0)]);
    assert_eq!(game.game_state, GameState::Play);
    assert_eq!(live_count(&game), 2);
}

#[test]
fn score_saturates_instead_of_overflowing() {
    let mut game = game_with(vec![entry(0, 1, 0), entry(0, 2, 0)]);
    game.score = Score(u32::MAX - 1);
    game.moving_input(MovingDirection::Left);
    game.resolve_turn();
    assert_eq!(game.score.0, u32::MAX);
}

#[test]
fn level_cap_holds_merges_at_the_top() {
    // Far beyond any reachable game: two tiles at the level cap merge
    // into one that stays at the cap, still worth its full score.
    let mut game = game_with(vec![entry(0, 0, 29), entry(0, 1, 29)]);
    game.moving_input(MovingDirection::Left);
    game.resolve_turn();
    assert_eq!(live_count(&game), 1);
    assert_eq!(level_at(&game, 0, 0), Some(29));
    assert_eq!(game.score.0, 1u32 << 30);
}
