use twenty48::{MovingDirection, Position, Tile, HighScore, Score, update_highscore};

fn pos(row: usize, col: usize) -> Position {
    Position { row, col }
}

#[test]
fn index_maps_row_major() {
    assert_eq!(pos(0, 0).index(), 0);
    assert_eq!(pos(0, 3).index(), 3);
    assert_eq!(pos(1, 0).index(), 4);
    assert_eq!(pos(3, 3).index(), 15);
}

#[test]
fn scan_order_visits_each_cell_once() {
    for dir in [
        MovingDirection::Left,
        MovingDirection::Up,
        MovingDirection::Right,
        MovingDirection::Down,
    ] {
        let order = dir.scan_order();
        assert_eq!(order.len(), 16);
        let mut seen = [false; 16];
        for p in &order {
            assert!(p.row < 4 && p.col < 4);
            assert!(!seen[p.index()], "cell visited twice");
            seen[p.index()] = true;
        }
        assert!(seen.iter().all(|&s| s));
    }
}

#[test]
fn scan_order_starts_at_destination_edge() {
    assert_eq!(MovingDirection::Left.scan_order()[0], pos(0, 0));
    assert_eq!(MovingDirection::Left.scan_order()[1], pos(0, 1));
    assert_eq!(MovingDirection::Right.scan_order()[0], pos(0, 3));
    assert_eq!(MovingDirection::Right.scan_order()[1], pos(0, 2));
    assert_eq!(MovingDirection::Up.scan_order()[0], pos(3, 0));
    assert_eq!(MovingDirection::Up.scan_order()[1], pos(2, 0));
    assert_eq!(MovingDirection::Down.scan_order()[0], pos(0, 0));
    assert_eq!(MovingDirection::Down.scan_order()[1], pos(1, 0));
}

#[test]
fn neighbor_none_exactly_on_destination_edge() {
    for row in 0..4 {
        for col in 0..4 {
            let p = pos(row, col);
            assert_eq!(MovingDirection::Left.moved_position(&p).is_none(), col == 0);
            assert_eq!(MovingDirection::Right.moved_position(&p).is_none(), col == 3);
            assert_eq!(MovingDirection::Up.moved_position(&p).is_none(), row == 3);
            assert_eq!(MovingDirection::Down.moved_position(&p).is_none(), row == 0);
        }
    }
}

#[test]
fn neighbor_steps_one_cell() {
    assert_eq!(MovingDirection::Left.moved_position(&pos(2, 2)), Some(pos(2, 1)));
    assert_eq!(MovingDirection::Right.moved_position(&pos(2, 2)), Some(pos(2, 3)));
    assert_eq!(MovingDirection::Up.moved_position(&pos(2, 2)), Some(pos(3, 2)));
    assert_eq!(MovingDirection::Down.moved_position(&pos(2, 2)), Some(pos(1, 2)));
}

#[test]
fn tile_score_doubles_per_level() {
    assert_eq!(Tile { level: 0 }.score(), 2);
    assert_eq!(Tile { level: 1 }.score(), 4);
    assert_eq!(Tile { level: 9 }.score(), 1024);
    assert_eq!(Tile { level: 10 }.score(), 2048);
}

#[test]
fn tile_colors_match_table() {
    assert_eq!(Tile { level: 0 }.color(), (255, 255, 0));
    assert_eq!(Tile { level: 1 }.color(), (255, 69, 0));
    assert_eq!(Tile { level: 9 }.color(), (184, 134, 11));
    assert_eq!(Tile { level: 10 }.color(), (0, 0, 0));
    assert_eq!(Tile { level: 25 }.color(), (0, 0, 0));
}

#[test]
fn highscore_rises_only_on_better_score() {
    let mut best = HighScore(100);
    assert!(!update_highscore(&mut best, &Score(40)));
    assert_eq!(best.0, 100);
    assert!(!update_highscore(&mut best, &Score(100)));
    assert_eq!(best.0, 100);
    assert!(update_highscore(&mut best, &Score(132)));
    assert_eq!(best.0, 132);
}

#[test]
fn highscore_default_is_zero() {
    assert_eq!(HighScore::default().0, 0);
}
