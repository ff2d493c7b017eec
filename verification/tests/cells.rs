use maze_gen::cell::{all_directions, choose_candidates, Cell, Direction};

#[test]
fn default_cell_is_empty() {
    assert_eq!(Cell::default(), Cell::Empty);
}

#[test]
fn only_walls_are_walls() {
    assert!(Cell::Wall(Direction::Up).is_wall());
    assert!(!Cell::Empty.is_wall());
    assert!(!Cell::Path(true, Direction::Up).is_wall());
    assert!(!Cell::Path(false, Direction::Up).is_wall());
    assert!(!Cell::Start.is_wall());
    assert!(!Cell::End.is_wall());
    assert!(!Cell::Invalid.is_wall());
}

#[test]
fn only_empty_is_empty() {
    assert!(Cell::Empty.is_empty());
    assert!(!Cell::Wall(Direction::Left).is_empty());
    assert!(!Cell::Path(false, Direction::Left).is_empty());
    assert!(!Cell::Start.is_empty());
    assert!(!Cell::End.is_empty());
    assert!(!Cell::Invalid.is_empty());
}

#[test]
fn everything_but_empty_is_occupied() {
    assert!(!Cell::Empty.is_some());
    assert!(Cell::Wall(Direction::Down).is_some());
    assert!(Cell::Path(true, Direction::Down).is_some());
    assert!(Cell::Path(false, Direction::Down).is_some());
    assert!(Cell::Start.is_some());
    assert!(Cell::End.is_some());
    assert!(Cell::Invalid.is_some());
}

#[test]
fn only_flagged_corridors_are_winning_path() {
    assert!(Cell::Path(true, Direction::Right).is_winning_path());
    assert!(!Cell::Path(false, Direction::Right).is_winning_path());
    assert!(!Cell::Wall(Direction::Right).is_winning_path());
    assert!(!Cell::Empty.is_winning_path());
    assert!(!Cell::Start.is_winning_path());
    assert!(!Cell::End.is_winning_path());
    assert!(!Cell::Invalid.is_winning_path());
}

#[test]
fn a_cell_is_in_exactly_one_state() {
    let cells = [
        Cell::Empty,
        Cell::Wall(Direction::Up),
        Cell::Path(true, Direction::Left),
        Cell::Path(false, Direction::Right),
        Cell::Start,
        Cell::End,
    ];
    for c in cells {
        let states = [
            matches!(c, Cell::Empty),
            matches!(c, Cell::Wall(_)),
            matches!(c, Cell::Path(_, _)),
            matches!(c, Cell::Start),
            matches!(c, Cell::End),
        ];
        assert_eq!(states.iter().filter(|s| **s).count(), 1);
    }
}

#[test]
fn directions_are_unit_steps() {
    assert_eq!(Direction::Up.delta(), (0, -1));
    assert_eq!(Direction::Down.delta(), (0, 1));
    assert_eq!(Direction::Left.delta(), (-1, 0));
    assert_eq!(Direction::Right.delta(), (1, 0));
}

#[test]
fn compass_lists_up_down_left_right() {
    assert_eq!(
        all_directions(),
        vec![Direction::Up, Direction::Down, Direction::Left, Direction::Right]
    );
}

#[test]
fn momentum_keeps_only_the_previous_direction() {
    let shuffled = vec![Direction::Left, Direction::Up, Direction::Right, Direction::Down];
    assert_eq!(choose_candidates(shuffled, true, Some(Direction::Down)), vec![Direction::Down]);
}

#[test]
fn without_momentum_all_shuffled_directions_are_tried() {
    let shuffled = vec![Direction::Left, Direction::Up, Direction::Right, Direction::Down];
    assert_eq!(choose_candidates(shuffled.clone(), false, Some(Direction::Down)), shuffled);
}

#[test]
fn momentum_without_a_previous_direction_changes_nothing() {
    let shuffled = vec![Direction::Right, Direction::Down, Direction::Left, Direction::Up];
    assert_eq!(choose_candidates(shuffled.clone(), true, None), shuffled);
    assert_eq!(choose_candidates(shuffled.clone(), false, None), shuffled);
}

#[test]
fn glyphs_follow_the_cell_state() {
    assert_eq!(Cell::Empty.glyph(false), ' ');
    assert_eq!(Cell::Wall(Direction::Up).glyph(false), '#');
    assert_eq!(Cell::Wall(Direction::Left).glyph(false), '#');
    assert_eq!(Cell::Path(true, Direction::Up).glyph(false), '.');
    assert_eq!(Cell::Path(false, Direction::Up).glyph(false), ',');
    assert_eq!(Cell::Start.glyph(false), 'S');
    assert_eq!(Cell::End.glyph(false), 'E');
    assert_eq!(Cell::Invalid.glyph(false), 'X');
}

#[test]
fn oriented_wall_glyphs_follow_the_direction() {
    assert_eq!(Cell::Wall(Direction::Up).glyph(true), '\u{2588}');
    assert_eq!(Cell::Wall(Direction::Down).glyph(true), '\u{2588}');
    assert_eq!(Cell::Wall(Direction::Left).glyph(true), '\u{25ac}');
    assert_eq!(Cell::Wall(Direction::Right).glyph(true), '\u{25ac}');
    assert_eq!(Cell::Path(true, Direction::Left).glyph(true), '.');
    assert_eq!(Cell::Empty.glyph(true), ' ');
}

#[test]
fn colors_follow_the_cell_state() {
    assert_eq!(Cell::Empty.color(false), (0, 0, 0));
    assert_eq!(Cell::Wall(Direction::Up).color(false), (255, 255, 255));
    assert_eq!(Cell::Start.color(false), (0, 255, 0));
    assert_eq!(Cell::End.color(false), (0, 0, 255));
    assert_eq!(Cell::Invalid.color(false), (255, 255, 0));
    assert_eq!(Cell::Wall(Direction::Up).color(true), (255, 255, 255));
    assert_eq!(Cell::Start.color(true), (0, 255, 0));
}

#[test]
fn winning_path_is_red_only_when_shown() {
    assert_eq!(Cell::Path(true, Direction::Up).color(true), (255, 0, 0));
    assert_eq!(Cell::Path(true, Direction::Up).color(false), (0, 0, 0));
    assert_eq!(Cell::Path(false, Direction::Up).color(true), (0, 0, 0));
    assert_eq!(Cell::Path(false, Direction::Up).color(false), (0, 0, 0));
}
