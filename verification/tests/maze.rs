use maze_gen::cell::{Cell, Direction};
use maze_gen::maze::Maze;

fn cells_of(maze: &Maze) -> Vec<Cell> {
    let mut all = Vec::new();
    for y in 0..maze.height() {
        for x in 0..maze.width() {
            all.push(maze.get(x, y));
        }
    }
    all
}

fn flags_of(maze: &Maze) -> Vec<bool> {
    let mut all = Vec::new();
    for y in 0..maze.height() {
        for x in 0..maze.width() {
            all.push(maze.is_visited(x, y));
        }
    }
    all
}

fn in_bounds_neighbors(maze: &Maze, x: usize, y: usize) -> Vec<(usize, usize)> {
    let mut found = Vec::new();
    for dir in [Direction::Up, Direction::Down, Direction::Left, Direction::Right] {
        if let Some(p) = maze.neighbor(x, y, dir) {
            found.push(p);
        }
    }
    found
}

fn every_wall_is_supported(maze: &Maze) -> bool {
    for y in 0..maze.height() {
        for x in 0..maze.width() {
            if maze.get(x, y).is_wall() {
                let supported = in_bounds_neighbors(maze, x, y).into_iter().any(|(nx, ny)| {
                    let c = maze.get(nx, ny);
                    c.is_some() && !c.is_winning_path()
                });
                if !supported {
                    return false;
                }
            }
        }
    }
    true
}

/// Number of moves of the winning path if it leads from the origin to the
/// destination, following from each cell the direction it remembers.
fn winning_path_moves(maze: &Maze) -> Option<usize> {
    let goal = (maze.width() - 1, maze.height() - 1);
    let mut seen = vec![(0usize, 0usize)];
    let mut at = (0usize, 0usize);
    let mut moves = 0usize;
    loop {
        let cell = maze.get(at.0, at.1);
        if at == goal {
            return if cell == Cell::End { Some(moves) } else { None };
        }
        let next = match cell {
            Cell::Path(true, dir) => maze.neighbor(at.0, at.1, dir),
            Cell::Start if at == (0, 0) => in_bounds_neighbors(maze, 0, 0).into_iter().find(|p| {
                let c = maze.get(p.0, p.1);
                c.is_winning_path() || (c == Cell::End && *p == goal)
            }),
            _ => None,
        };
        match next {
            Some(p) if !seen.contains(&p) => {
                seen.push(p);
                at = p;
                moves += 1;
            }
            _ => return None,
        }
    }
}

#[test]
fn new_maze_is_blank() {
    let maze = Maze::new(4, 3, 50, 1);
    assert_eq!(maze.width(), 4);
    assert_eq!(maze.height(), 3);
    assert_eq!(maze.max_depth(), 50);
    assert!(cells_of(&maze).iter().all(|c| *c == Cell::Empty));
    assert!(flags_of(&maze).iter().all(|f| !*f));
}

#[test]
fn get_outside_is_invalid() {
    let maze = Maze::new(4, 3, 50, 1);
    assert_eq!(maze.get(4, 0), Cell::Invalid);
    assert_eq!(maze.get(0, 3), Cell::Invalid);
    assert_eq!(maze.get(4, 3), Cell::Invalid);
    assert_eq!(maze.get(usize::MAX, usize::MAX), Cell::Invalid);
    assert_eq!(maze.get(3, 2), Cell::Empty);
}

#[test]
fn get_takes_the_column_first() {
    let mut maze = Maze::new(4, 3, 50, 1);
    maze.set(3, 1, Cell::Start);
    assert_eq!(maze.get(3, 1), Cell::Start);
    assert_eq!(maze.get(1, 3), Cell::Invalid);
    assert_eq!(cells_of(&maze).iter().position(|c| *c == Cell::Start), Some(1 * 4 + 3));
}

#[test]
fn maze_set_outside_changes_nothing() {
    let mut maze = Maze::new(4, 3, 50, 1);
    maze.set(4, 0, Cell::Start);
    maze.set(0, 3, Cell::End);
    maze.set(usize::MAX, 1, Cell::Wall(Direction::Up));
    assert!(cells_of(&maze).iter().all(|c| *c == Cell::Empty));
    assert!(flags_of(&maze).iter().all(|f| !*f));
}

#[test]
fn mark_visited_flags_one_position() {
    let mut maze = Maze::new(3, 3, 50, 1);
    maze.mark_visited(2, 1);
    maze.mark_visited(3, 0);
    assert!(maze.is_visited(2, 1));
    assert_eq!(flags_of(&maze).iter().filter(|f| **f).count(), 1);
    assert!(!maze.is_visited(3, 0));
    assert!(cells_of(&maze).iter().all(|c| *c == Cell::Empty));
}

#[test]
fn neighbor_stays_inside_the_grid() {
    let maze = Maze::new(3, 2, 50, 1);
    assert_eq!(maze.neighbor(0, 0, Direction::Up), None);
    assert_eq!(maze.neighbor(0, 0, Direction::Left), None);
    assert_eq!(maze.neighbor(0, 0, Direction::Right), Some((1, 0)));
    assert_eq!(maze.neighbor(0, 0, Direction::Down), Some((0, 1)));
    assert_eq!(maze.neighbor(2, 1, Direction::Down), None);
    assert_eq!(maze.neighbor(2, 1, Direction::Right), None);
    assert_eq!(maze.neighbor(2, 1, Direction::Left), Some((1, 1)));
    assert_eq!(maze.neighbor(2, 1, Direction::Up), Some((2, 0)));
    assert_eq!(maze.neighbor(3, 0, Direction::Left), Some((2, 0)));
    assert_eq!(maze.neighbor(3, 0, Direction::Down), None);
    assert_eq!(maze.neighbor(usize::MAX, 0, Direction::Right), None);
}

#[test]
fn position_from_wraps_into_the_grid() {
    let maze = Maze::new(7, 3, 50, 1);
    assert_eq!(maze.position_from(23, 10), (2, 1));
    assert_eq!(maze.position_from(0, 0), (0, 0));
    assert_eq!(maze.position_from(6, 2), (6, 2));
    assert_eq!(maze.position_from(7, 3), (0, 0));
    assert_eq!(maze.position_from(usize::MAX, usize::MAX), (usize::MAX % 7, usize::MAX % 3));
}

#[test]
fn density_count_looks_at_the_eight_surrounding_cells() {
    let mut maze = Maze::new(3, 3, 50, 1);
    maze.set(0, 0, Cell::Wall(Direction::Up));
    maze.set(1, 0, Cell::Path(true, Direction::Right));
    maze.set(2, 2, Cell::Start);
    maze.set(1, 1, Cell::End);
    assert_eq!(maze.count_surrounding_walls(1, 1, false), 2);
    assert_eq!(maze.count_surrounding_walls(1, 1, true), 3);
    assert_eq!(maze.count_surrounding_walls(0, 0, false), 1);
    assert_eq!(maze.count_surrounding_walls(0, 0, true), 2);
    assert_eq!(maze.count_surrounding_walls(2, 0, false), 1);
    assert_eq!(maze.count_surrounding_walls(2, 0, true), 2);
    assert_eq!(maze.count_surrounding_walls(0, 2, false), 1);
}

#[test]
fn density_count_around_a_position_outside_counts_what_is_inside() {
    let mut maze = Maze::new(3, 3, 50, 1);
    maze.set(2, 2, Cell::Start);
    maze.set(2, 0, Cell::Path(true, Direction::Down));
    assert_eq!(maze.count_surrounding_walls(3, 1, false), 1);
    assert_eq!(maze.count_surrounding_walls(3, 1, true), 2);
    assert_eq!(maze.count_surrounding_walls(5, 5, true), 0);
    assert_eq!(maze.count_surrounding_walls(usize::MAX, usize::MAX, true), 0);
}

#[test]
fn density_count_reaches_eight() {
    let mut maze = Maze::new(3, 3, 50, 1);
    for y in 0..3 {
        for x in 0..3 {
            maze.set(x, y, Cell::Path(false, Direction::Up));
        }
    }
    assert_eq!(maze.count_surrounding_walls(1, 1, false), 8);
    assert_eq!(maze.count_surrounding_walls(0, 0, false), 3);
    assert_eq!(maze.count_surrounding_walls(1, 0, false), 5);
}

#[test]
fn lonely_corridor_stays_a_corridor() {
    let mut maze = Maze::new(3, 3, 50, 1);
    maze.set(0, 0, Cell::Path(false, Direction::Right));
    maze.set(2, 2, Cell::Path(false, Direction::Up));
    maze.generate_walls();
    assert_eq!(maze.get(0, 0), Cell::Path(false, Direction::Right));
    assert_eq!(maze.get(2, 2), Cell::Path(false, Direction::Up));
    assert_eq!(cells_of(&maze).iter().filter(|c| c.is_some()).count(), 2);
}

#[test]
fn touching_corridors_become_walls_and_keep_their_direction() {
    let mut maze = Maze::new(3, 3, 50, 1);
    maze.set(0, 0, Cell::Path(false, Direction::Right));
    maze.set(1, 0, Cell::Path(false, Direction::Down));
    maze.generate_walls();
    assert_eq!(maze.get(0, 0), Cell::Wall(Direction::Right));
    assert_eq!(maze.get(1, 0), Cell::Wall(Direction::Down));
    assert_eq!(cells_of(&maze).iter().filter(|c| c.is_some()).count(), 2);
}

#[test]
fn diagonal_corridors_do_not_touch() {
    let mut maze = Maze::new(3, 3, 50, 1);
    maze.set(0, 0, Cell::Path(false, Direction::Right));
    maze.set(1, 1, Cell::Path(false, Direction::Down));
    maze.generate_walls();
    assert_eq!(maze.get(0, 0), Cell::Path(false, Direction::Right));
    assert_eq!(maze.get(1, 1), Cell::Path(false, Direction::Down));
}

#[test]
fn start_and_end_turn_a_corridor_into_a_wall() {
    let mut maze = Maze::new(3, 3, 50, 1);
    maze.set(1, 0, Cell::Start);
    maze.set(1, 1, Cell::Path(false, Direction::Up));
    maze.set(0, 2, Cell::Path(true, Direction::Left));
    maze.set(1, 2, Cell::End);
    maze.generate_walls();
    assert_eq!(maze.get(1, 1), Cell::Wall(Direction::Up));
    assert_eq!(maze.get(0, 2), Cell::Wall(Direction::Left));
    assert_eq!(maze.get(1, 0), Cell::Start);
    assert_eq!(maze.get(1, 2), Cell::End);
}

#[test]
fn winning_path_neighbor_does_not_make_a_wall() {
    let mut maze = Maze::new(3, 1, 50, 1);
    maze.set(1, 0, Cell::Path(false, Direction::Right));
    maze.set(2, 0, Cell::Path(true, Direction::Right));
    maze.generate_walls();
    assert_eq!(maze.get(1, 0), Cell::Path(false, Direction::Right));
    assert_eq!(maze.get(2, 0), Cell::Wall(Direction::Right));
}

#[test]
fn walls_and_empty_cells_are_left_alone() {
    let mut maze = Maze::new(2, 2, 50, 1);
    maze.set(0, 0, Cell::Wall(Direction::Left));
    maze.generate_walls();
    assert_eq!(
        cells_of(&maze),
        vec![Cell::Wall(Direction::Left), Cell::Empty, Cell::Empty, Cell::Empty]
    );
}

#[test]
fn wall_pass_sees_what_earlier_positions_became() {
    let mut maze = Maze::new(3, 1, 50, 1);
    maze.set(0, 0, Cell::Path(true, Direction::Right));
    maze.set(1, 0, Cell::Path(true, Direction::Right));
    maze.set(2, 0, Cell::Start);
    maze.generate_walls();
    assert_eq!(
        cells_of(&maze),
        vec![Cell::Path(true, Direction::Right), Cell::Wall(Direction::Right), Cell::Start]
    );
    maze.generate_walls();
    assert_eq!(
        cells_of(&maze),
        vec![Cell::Wall(Direction::Right), Cell::Wall(Direction::Right), Cell::Start]
    );
}

#[test]
fn second_wall_pass_changes_nothing_after_scattering() {
    for seed in 0..20u64 {
        let mut maze = Maze::new(9, 7, 100, seed);
        maze.scatter(12, 4);
        maze.generate_walls();
        let once = cells_of(&maze);
        let flags = flags_of(&maze);
        maze.generate_walls();
        assert_eq!(cells_of(&maze), once);
        assert_eq!(flags_of(&maze), flags);
    }
}

#[test]
fn second_wall_pass_changes_nothing_on_a_hand_made_grid() {
    let mut maze = Maze::new(3, 3, 50, 1);
    maze.set(0, 0, Cell::Path(false, Direction::Right));
    maze.set(1, 0, Cell::Path(false, Direction::Right));
    maze.set(2, 0, Cell::Path(false, Direction::Down));
    maze.set(0, 2, Cell::Path(false, Direction::Up));
    maze.generate_walls();
    let once = cells_of(&maze);
    assert_eq!(
        once,
        vec![
            Cell::Wall(Direction::Right),
            Cell::Wall(Direction::Right),
            Cell::Wall(Direction::Down),
            Cell::Empty,
            Cell::Empty,
            Cell::Empty,
            Cell::Path(false, Direction::Up),
            Cell::Empty,
            Cell::Empty,
        ]
    );
    maze.generate_walls();
    assert_eq!(cells_of(&maze), once);
}

#[test]
fn walk_beyond_its_depth_changes_nothing() {
    for seed in 0..10u64 {
        let mut maze = Maze::new(4, 4, 50, seed);
        maze.generate_other_paths(1, 1, None, 1, 0);
        maze.generate_other_paths(2, 2, Some(Direction::Up), 6, 5);
        assert!(cells_of(&maze).iter().all(|c| *c == Cell::Empty));
        assert!(flags_of(&maze).iter().all(|f| !*f));
    }
}

#[test]
fn walk_beyond_the_depth_limit_of_the_maze_changes_nothing() {
    let mut maze = Maze::new(4, 4, 2, 3);
    maze.generate_other_paths(1, 1, None, 3, 10);
    assert!(cells_of(&maze).iter().all(|c| *c == Cell::Empty));
    assert!(flags_of(&maze).iter().all(|f| !*f));
}

#[test]
fn walk_with_depth_bound_zero_changes_nothing() {
    for seed in 0..10u64 {
        let mut maze = Maze::new(3, 3, 50, seed);
        maze.generate_other_paths(1, 1, None, 0, 0);
        assert!(cells_of(&maze).iter().all(|c| *c == Cell::Empty));
        assert!(flags_of(&maze).iter().all(|f| !*f));
        maze.set(0, 0, Cell::Wall(Direction::Up));
        maze.set(2, 1, Cell::Path(false, Direction::Left));
        maze.mark_visited(2, 2);
        let cells = cells_of(&maze);
        let flags = flags_of(&maze);
        for y in 0..3 {
            for x in 0..3 {
                maze.generate_other_paths(x, y, None, 0, 0);
                maze.generate_other_paths(x, y, Some(Direction::Down), 0, 0);
            }
        }
        assert_eq!(cells_of(&maze), cells);
        assert_eq!(flags_of(&maze), flags);
    }
}

#[test]
fn walk_in_a_maze_with_depth_limit_zero_changes_nothing() {
    let mut maze = Maze::new(3, 3, 0, 8);
    maze.generate_other_paths(1, 1, None, 0, 5);
    maze.scatter(9, 5);
    assert!(cells_of(&maze).iter().all(|c| *c == Cell::Empty));
    assert!(flags_of(&maze).iter().all(|f| !*f));
}

#[test]
fn walk_that_has_reached_its_depth_bound_changes_nothing() {
    let mut maze = Maze::new(4, 4, 50, 3);
    maze.generate_other_paths(1, 1, None, 5, 5);
    maze.generate_other_paths(1, 1, None, 1, 1);
    assert!(cells_of(&maze).iter().all(|c| *c == Cell::Empty));
    assert!(flags_of(&maze).iter().all(|f| !*f));
}

#[test]
fn walk_of_a_single_step_touches_only_where_it_starts() {
    for seed in 0..10u64 {
        let mut maze = Maze::new(4, 4, 50, seed);
        maze.generate_other_paths(1, 1, None, 0, 1);
        assert!(maze.is_visited(1, 1));
        assert!(matches!(maze.get(1, 1), Cell::Path(false, _)));
        assert_eq!(flags_of(&maze).iter().filter(|f| **f).count(), 1);
        assert_eq!(cells_of(&maze).iter().filter(|c| c.is_some()).count(), 1);
    }
}

#[test]
fn walk_stays_within_its_reach() {
    for seed in 0..20u64 {
        let mut maze = Maze::new(11, 11, 50, seed);
        maze.generate_other_paths(5, 5, None, 0, 3);
        for y in 0..11usize {
            for x in 0..11usize {
                let far = x.abs_diff(5) + y.abs_diff(5) > 2;
                if far {
                    assert_eq!(maze.get(x, y), Cell::Empty);
                    assert!(!maze.is_visited(x, y));
                }
            }
        }
    }
}

#[test]
fn walk_is_cut_short_by_the_depth_limit_of_the_maze() {
    for seed in 0..20u64 {
        let mut maze = Maze::new(11, 11, 2, seed);
        maze.generate_other_paths(5, 5, None, 0, 5);
        for y in 0..11usize {
            for x in 0..11usize {
                if x.abs_diff(5) + y.abs_diff(5) > 1 {
                    assert_eq!(maze.get(x, y), Cell::Empty);
                    assert!(!maze.is_visited(x, y));
                }
            }
        }
    }
}

#[test]
fn scattering_leaves_decorative_corridors_at_visited_positions() {
    for seed in 0..20u64 {
        let mut maze = Maze::new(10, 10, 100, seed);
        maze.scatter(20, 5);
        let mut occupied = 0;
        for y in 0..10 {
            for x in 0..10 {
                match maze.get(x, y) {
                    Cell::Empty => {}
                    Cell::Path(false, _) => {
                        occupied += 1;
                        assert!(maze.is_visited(x, y));
                    }
                    other => panic!("scattering left {:?} at ({}, {})", other, x, y),
                }
            }
        }
        assert!(occupied > 0);
    }
}

#[test]
fn walk_that_is_hemmed_in_only_flags_where_it_stands() {
    for seed in 0..10u64 {
        let mut maze = Maze::new(3, 3, 50, seed);
        maze.set(0, 0, Cell::Path(false, Direction::Up));
        maze.set(2, 0, Cell::Path(false, Direction::Up));
        maze.set(0, 2, Cell::Path(false, Direction::Up));
        maze.set(2, 2, Cell::Path(false, Direction::Up));
        let before = cells_of(&maze);
        maze.generate_other_paths(1, 1, None, 0, 5);
        assert_eq!(cells_of(&maze), before);
        assert_eq!(
            flags_of(&maze),
            vec![false, false, false, false, true, false, false, false, false]
        );
    }
}

#[test]
fn walk_on_open_ground_leaves_a_corridor_where_it_starts() {
    for seed in 0..20u64 {
        let mut maze = Maze::new(6, 6, 50, seed);
        maze.generate_other_paths(0, 0, None, 0, 3);
        assert!(matches!(
            maze.get(0, 0),
            Cell::Path(false, Direction::Right) | Cell::Path(false, Direction::Down)
        ));
        assert!(maze.is_visited(0, 0));
    }
}

#[test]
fn walk_does_not_step_next_to_two_occupied_cells() {
    for seed in 0..20u64 {
        let mut maze = Maze::new(5, 1, 50, seed);
        maze.set(2, 0, Cell::Wall(Direction::Up));
        maze.set(4, 0, Cell::Wall(Direction::Up));
        assert_eq!(maze.count_surrounding_walls(3, 0, false), 2);
        maze.generate_other_paths(1, 0, None, 0, 5);
        assert!(maze.is_visited(1, 0));
        assert!(!maze.is_visited(3, 0));
        assert!(!maze.is_visited(4, 0));
        assert_eq!(maze.get(3, 0), Cell::Empty);
        assert_eq!(maze.get(4, 0), Cell::Wall(Direction::Up));
    }
}

#[test]
fn scattering_flags_where_a_walk_starts() {
    for seed in 0..20u64 {
        let mut maze = Maze::new(6, 4, 50, seed);
        maze.scatter(1, 1);
        assert_eq!(flags_of(&maze).iter().filter(|f| **f).count(), 1);
        assert_eq!(cells_of(&maze).iter().filter(|c| c.is_some()).count(), 1);
        let at = flags_of(&maze).iter().position(|f| *f);
        let stamped = cells_of(&maze).iter().position(|c| matches!(c, Cell::Path(false, _)));
        assert_eq!(at, stamped);
    }
}

#[test]
fn scattering_starts_walks_all_over_the_grid() {
    let mut starts: Vec<usize> = Vec::new();
    for seed in 0..200u64 {
        let mut maze = Maze::new(3, 2, 50, seed);
        maze.scatter(1, 1);
        if let Some(at) = flags_of(&maze).iter().position(|f| *f) {
            if !starts.contains(&at) {
                starts.push(at);
            }
        }
    }
    assert_eq!(starts.len(), 6);
}

#[test]
fn scattering_with_depth_bound_zero_changes_nothing() {
    let mut maze = Maze::new(5, 5, 50, 9);
    maze.scatter(25, 0);
    assert!(cells_of(&maze).iter().all(|c| *c == Cell::Empty));
    assert!(flags_of(&maze).iter().all(|f| !*f));
}

#[test]
fn walk_goes_on_from_the_first_neighbor_that_beckons() {
    for seed in 0..20u64 {
        let mut maze = Maze::new(5, 5, 50, seed);
        maze.generate_other_paths(2, 2, None, 0, 2);
        let flagged = [(2usize, 1usize), (2, 3), (1, 2), (3, 2)]
            .iter()
            .filter(|p| maze.is_visited(p.0, p.1))
            .count();
        assert!(flagged >= 1);
        assert!(matches!(maze.get(2, 2), Cell::Path(false, _)));
    }
}

#[test]
fn walk_among_no_beckoning_direction_changes_nothing() {
    let mut maze = Maze::new(3, 3, 50, 2);
    maze.mark_visited(0, 0);
    maze.walk_among(0, 0, vec![Direction::Left, Direction::Up], 0, 5);
    maze.walk_among(0, 0, vec![], 0, 5);
    assert!(cells_of(&maze).iter().all(|c| *c == Cell::Empty));
    assert_eq!(flags_of(&maze).iter().filter(|f| **f).count(), 1);
}

#[test]
fn walk_among_one_direction_carves_towards_it() {
    let mut maze = Maze::new(3, 1, 50, 2);
    maze.mark_visited(0, 0);
    maze.walk_among(0, 0, vec![Direction::Right], 0, 1);
    assert_eq!(
        cells_of(&maze),
        vec![Cell::Path(false, Direction::Right), Cell::Empty, Cell::Empty]
    );
    assert_eq!(flags_of(&maze), vec![true, false, false]);
}

#[test]
fn walk_among_one_direction_goes_on_when_it_has_a_step_to_spare() {
    for seed in 0..10u64 {
        let mut maze = Maze::new(3, 1, 50, seed);
        maze.mark_visited(0, 0);
        maze.walk_among(0, 0, vec![Direction::Right], 0, 2);
        assert_eq!(maze.get(0, 0), Cell::Path(false, Direction::Right));
        assert!(maze.is_visited(1, 0));
        assert!(!maze.is_visited(2, 0));
        assert_eq!(maze.get(2, 0), Cell::Empty);
    }
}

#[test]
fn walk_among_does_not_stamp_towards_an_occupied_neighbor() {
    let mut maze = Maze::new(3, 1, 50, 2);
    maze.set(1, 0, Cell::Wall(Direction::Up));
    maze.mark_visited(0, 0);
    maze.walk_among(0, 0, vec![Direction::Right], 0, 2);
    assert_eq!(maze.get(0, 0), Cell::Empty);
    assert!(maze.is_visited(1, 0));
}

#[test]
fn scattering_no_walks_changes_nothing() {
    let mut maze = Maze::new(5, 5, 50, 9);
    maze.scatter(0, 5);
    assert!(cells_of(&maze).iter().all(|c| *c == Cell::Empty));
    assert!(flags_of(&maze).iter().all(|f| !*f));
}

#[test]
fn single_cell_maze_is_solved_at_once() {
    let mut maze = Maze::new(1, 1, 50, 4);
    assert!(maze.generate_winning_path(0, 0, None, 0));
    assert_eq!(maze.get(0, 0), Cell::End);
    assert!(!maze.is_visited(0, 0));
}

#[test]
fn single_cell_maze_needs_no_retry() {
    let mut maze = Maze::new(1, 1, 50, 4);
    assert_eq!(maze.carve_with_retries(10), Some(0));
    assert_eq!(maze.get(0, 0), Cell::End);
    let (generated, retries) = Maze::generate(1, 1, 50, 4, 1, 5, 10);
    assert_eq!(retries, Some(0));
    assert_eq!(generated.get(0, 0), Cell::End);
}

#[test]
fn single_cell_maze_is_solved_even_with_depth_limit_zero() {
    let mut maze = Maze::new(1, 1, 0, 4);
    assert_eq!(maze.carve_with_retries(0), Some(0));
    assert_eq!(maze.get(0, 0), Cell::End);
}

#[test]
fn search_beyond_the_depth_limit_fails_and_changes_nothing() {
    let mut maze = Maze::new(3, 3, 5, 2);
    assert!(!maze.generate_winning_path(0, 0, None, 6));
    assert!(!maze.generate_winning_path(2, 2, None, 6));
    assert!(cells_of(&maze).iter().all(|c| *c == Cell::Empty));
    assert!(flags_of(&maze).iter().all(|f| !*f));
}

#[test]
fn search_at_the_destination_stores_end() {
    let mut maze = Maze::new(3, 3, 5, 2);
    assert!(maze.generate_winning_path(2, 2, Some(Direction::Down), 5));
    assert_eq!(maze.get(2, 2), Cell::End);
    assert!(!maze.is_visited(2, 2));
    assert_eq!(cells_of(&maze).iter().filter(|c| c.is_some()).count(), 1);
}

#[test]
fn search_along_a_single_row_goes_straight() {
    for seed in 0..10u64 {
        let mut maze = Maze::new(4, 1, 10, seed);
        assert!(maze.generate_winning_path(0, 0, None, 0));
        assert_eq!(
            cells_of(&maze),
            vec![
                Cell::Start,
                Cell::Path(true, Direction::Right),
                Cell::Path(true, Direction::Right),
                Cell::End,
            ]
        );
        assert_eq!(flags_of(&maze), vec![true, true, true, false]);
        assert_eq!(winning_path_moves(&maze), Some(3));
    }
}

#[test]
fn search_along_a_single_column_goes_straight() {
    for seed in 0..10u64 {
        let mut maze = Maze::new(1, 3, 10, seed);
        assert!(maze.generate_winning_path(0, 0, None, 0));
        assert_eq!(
            cells_of(&maze),
            vec![Cell::Start, Cell::Path(true, Direction::Down), Cell::End]
        );
    }
}

#[test]
fn search_succeeds_when_the_depth_limit_equals_the_distance() {
    let mut maze = Maze::new(4, 1, 3, 7);
    assert_eq!(maze.carve_with_retries(0), Some(0));
    assert_eq!(winning_path_moves(&maze), Some(3));
}

#[test]
fn failed_search_resets_cells_but_keeps_flags() {
    for seed in 0..10u64 {
        let mut maze = Maze::new(4, 1, 2, seed);
        assert!(!maze.generate_winning_path(0, 0, None, 0));
        assert_eq!(cells_of(&maze), vec![Cell::Start, Cell::Empty, Cell::Empty, Cell::Empty]);
        assert_eq!(flags_of(&maze), vec![true, true, true, false]);
    }
}

#[test]
fn failed_retries_put_the_maze_back() {
    for seed in 0..10u64 {
        let mut maze = Maze::new(4, 1, 2, seed);
        maze.set(2, 0, Cell::Wall(Direction::Up));
        maze.mark_visited(3, 0);
        assert_eq!(maze.carve_with_retries(3), None);
        assert_eq!(
            cells_of(&maze),
            vec![Cell::Empty, Cell::Empty, Cell::Wall(Direction::Up), Cell::Empty]
        );
        assert_eq!(flags_of(&maze), vec![false, false, false, true]);
    }
}

#[test]
fn search_skips_visited_neighbors() {
    let mut maze = Maze::new(3, 1, 10, 5);
    maze.mark_visited(1, 0);
    assert!(!maze.generate_winning_path(0, 0, None, 0));
    assert_eq!(cells_of(&maze), vec![Cell::Empty, Cell::Empty, Cell::Empty]);
    assert_eq!(flags_of(&maze), vec![true, true, false]);
}

#[test]
fn search_that_is_boxed_in_only_flags_where_it_stands() {
    for seed in 0..10u64 {
        let mut maze = Maze::new(3, 3, 10, seed);
        maze.mark_visited(1, 0);
        maze.set(0, 1, Cell::Path(true, Direction::Down));
        let before = cells_of(&maze);
        assert!(!maze.generate_winning_path(0, 0, None, 0));
        assert_eq!(cells_of(&maze), before);
        assert_eq!(
            flags_of(&maze),
            vec![true, true, false, false, false, false, false, false, false]
        );
        assert_eq!(maze.carve_with_retries(5), None);
    }
}

#[test]
fn search_steps_only_on_fresh_positions() {
    for seed in 0..40u64 {
        let mut maze = Maze::new(5, 5, 50, seed);
        maze.mark_visited(2, 0);
        maze.mark_visited(2, 1);
        maze.mark_visited(2, 2);
        maze.mark_visited(2, 3);
        maze.set(1, 1, Cell::Wall(Direction::Left));
        maze.mark_visited(1, 1);
        if maze.carve_with_retries(200).is_some() {
            assert_eq!(maze.get(2, 0), Cell::Empty);
            assert_eq!(maze.get(2, 1), Cell::Empty);
            assert_eq!(maze.get(2, 2), Cell::Empty);
            assert_eq!(maze.get(2, 3), Cell::Empty);
            assert!(maze.get(2, 4).is_winning_path());
            assert_eq!(maze.get(1, 1), Cell::Wall(Direction::Left));
            assert!(winning_path_moves(&maze).is_some());
        } else {
            panic!("seed {} found no way through the gap", seed);
        }
    }
}

#[test]
fn search_from_the_origin_leaves_start_even_when_it_fails() {
    for seed in 0..10u64 {
        let mut maze = Maze::new(3, 3, 3, seed);
        assert!(!maze.generate_winning_path(0, 0, None, 0));
        assert_eq!(maze.get(0, 0), Cell::Start);
        assert_eq!(cells_of(&maze).iter().filter(|c| c.is_some()).count(), 1);
    }
}

#[test]
fn search_among_no_enterable_direction_changes_nothing() {
    let mut maze = Maze::new(3, 3, 10, 5);
    maze.mark_visited(0, 0);
    maze.mark_visited(1, 0);
    assert!(!maze.search_among(0, 0, vec![Direction::Up, Direction::Left, Direction::Right], 0));
    assert!(!maze.search_among(0, 0, vec![], 0));
    assert!(cells_of(&maze).iter().all(|c| *c == Cell::Empty));
    assert_eq!(flags_of(&maze).iter().filter(|f| **f).count(), 2);
}

#[test]
fn search_among_marks_the_departure_towards_the_direction_it_enters() {
    let mut maze = Maze::new(3, 3, 1, 5);
    maze.mark_visited(1, 1);
    assert!(!maze.search_among(1, 1, vec![Direction::Left], 0));
    assert_eq!(maze.get(1, 1), Cell::Path(true, Direction::Left));
    assert_eq!(maze.get(0, 1), Cell::Empty);
    assert!(maze.is_visited(0, 1));
    assert_eq!(cells_of(&maze).iter().filter(|c| c.is_some()).count(), 1);
    assert_eq!(flags_of(&maze).iter().filter(|f| **f).count(), 2);
}

#[test]
fn search_among_enters_the_directions_in_the_order_given() {
    let mut maze = Maze::new(2, 2, 1, 5);
    maze.mark_visited(0, 0);
    assert!(!maze.search_among(0, 0, vec![Direction::Up, Direction::Down, Direction::Right], 0));
    assert_eq!(cells_of(&maze), vec![Cell::Start, Cell::Empty, Cell::Empty, Cell::Empty]);
    assert_eq!(flags_of(&maze), vec![true, true, true, false]);
}

#[test]
fn search_among_stops_at_the_first_direction_that_succeeds() {
    let mut maze = Maze::new(2, 2, 5, 5);
    maze.mark_visited(1, 0);
    assert!(maze.search_among(1, 0, vec![Direction::Down, Direction::Left], 1));
    assert_eq!(
        cells_of(&maze),
        vec![Cell::Empty, Cell::Path(true, Direction::Down), Cell::Empty, Cell::End]
    );
    assert_eq!(flags_of(&maze), vec![false, true, false, false]);
}

#[test]
fn search_with_the_destination_next_door_succeeds_at_once() {
    for seed in 0..20u64 {
        let mut across = Maze::new(2, 1, 1, seed);
        assert_eq!(across.carve_with_retries(0), Some(0));
        assert_eq!(cells_of(&across), vec![Cell::Start, Cell::End]);
        let mut down = Maze::new(1, 2, 1, seed);
        assert_eq!(down.carve_with_retries(0), Some(0));
        assert_eq!(cells_of(&down), vec![Cell::Start, Cell::End]);
        let (generated, retries) = Maze::generate(2, 1, 1, seed, 0, 5, 0);
        assert_eq!(retries, Some(0));
        assert_eq!(cells_of(&generated), vec![Cell::Start, Cell::End]);
    }
}

#[test]
fn search_next_to_the_destination_finds_it_whatever_is_tried_first() {
    for seed in 0..40u64 {
        let mut maze = Maze::new(3, 3, 20, seed);
        assert!(maze.generate_winning_path(1, 2, None, 0));
        assert_eq!(maze.get(2, 2), Cell::End);
        assert!(maze.get(1, 2).is_winning_path());
    }
}

#[test]
fn search_leaves_no_winning_path_cell_off_the_path() {
    for seed in 0..40u64 {
        let mut maze = Maze::new(6, 6, 60, seed);
        if maze.carve_with_retries(1_000).is_some() {
            let moves = winning_path_moves(&maze);
            assert!(moves.is_some());
            let winning = cells_of(&maze).iter().filter(|c| c.is_winning_path()).count();
            assert_eq!(winning + 1, moves.unwrap_or(0));
            assert!(winning + 1 <= 60);
        } else {
            panic!("seed {} found no winning path", seed);
        }
    }
}

#[test]
fn maze_set_outside_takes_any_value() {
    let mut maze = Maze::new(3, 2, 10, 5);
    maze.set(3, 0, Cell::Invalid);
    maze.set(0, 2, Cell::Invalid);
    assert!(cells_of(&maze).iter().all(|c| *c == Cell::Empty));
    assert_eq!(maze.get(3, 0), Cell::Invalid);
}

#[test]
fn search_skips_winning_path_neighbors() {
    let mut maze = Maze::new(3, 1, 10, 5);
    maze.set(1, 0, Cell::Path(true, Direction::Left));
    assert!(!maze.generate_winning_path(0, 0, None, 0));
    assert_eq!(
        cells_of(&maze),
        vec![Cell::Empty, Cell::Path(true, Direction::Left), Cell::Empty]
    );
    assert_eq!(flags_of(&maze), vec![true, false, false]);
}

#[test]
fn search_away_from_the_origin_leaves_path_cells_not_start() {
    for seed in 0..10u64 {
        let mut maze = Maze::new(4, 1, 10, seed);
        maze.mark_visited(0, 0);
        assert!(maze.generate_winning_path(1, 0, None, 0));
        assert_eq!(
            cells_of(&maze),
            vec![
                Cell::Empty,
                Cell::Path(true, Direction::Right),
                Cell::Path(true, Direction::Right),
                Cell::End,
            ]
        );
    }
}

#[test]
fn generation_without_walks_finds_the_winning_path() {
    for seed in 0..8u64 {
        let (maze, retries) = Maze::generate(5, 5, 50, seed, 0, 5, 100_000);
        assert!(retries.is_some(), "seed {} found no winning path", seed);
        assert_eq!(maze.get(0, 0), Cell::Start);
        assert_eq!(maze.get(4, 4), Cell::End);
        let moves = winning_path_moves(&maze);
        assert!(moves.is_some(), "seed {} left a broken path", seed);
        let moves = moves.unwrap_or(0);
        assert!(moves >= 8);
        assert!(moves <= 50);
        let winning = cells_of(&maze).iter().filter(|c| c.is_winning_path()).count();
        assert_eq!(winning + 1, moves);
        let occupied = cells_of(&maze).iter().filter(|c| c.is_some()).count();
        assert_eq!(occupied, moves + 1);
    }
}

#[test]
fn generation_with_walks_keeps_every_wall_supported() {
    let mut solved = 0;
    for seed in 0..40u64 {
        let (maze, retries) = Maze::generate(8, 8, 200, seed, 3, 3, 2_000);
        assert!(every_wall_is_supported(&maze), "seed {}", seed);
        assert!(cells_of(&maze).iter().all(|c| *c != Cell::Invalid));
        if let Some(n) = retries {
            solved += 1;
            assert!(n <= 2_000);
            assert_eq!(maze.get(0, 0), Cell::Start);
            assert_eq!(maze.get(7, 7), Cell::End);
            let moves = winning_path_moves(&maze);
            assert!(moves.is_some(), "seed {} left a broken path", seed);
            assert!(moves.unwrap_or(0) <= 200);
        } else {
            assert!(cells_of(&maze).iter().all(|c| !c.is_winning_path()));
            assert!(cells_of(&maze).iter().all(|c| *c != Cell::Start && *c != Cell::End));
        }
    }
    assert!(solved > 0);
}

#[test]
fn generation_is_reproducible() {
    for seed in [0u64, 1, 2, 3, 42, 1234567] {
        let (first, first_retries) = Maze::generate(5, 5, 50, seed, 3, 2, 500);
        let (second, second_retries) = Maze::generate(5, 5, 50, seed, 3, 2, 500);
        assert_eq!(first_retries, second_retries);
        assert_eq!(cells_of(&first), cells_of(&second));
        assert_eq!(flags_of(&first), flags_of(&second));
    }
}

#[test]
fn different_seeds_give_different_mazes() {
    let mut distinct: Vec<Vec<Cell>> = Vec::new();
    for seed in 0..32u64 {
        let (maze, _) = Maze::generate(5, 5, 50, seed, 0, 5, 100_000);
        let cells = cells_of(&maze);
        if !distinct.contains(&cells) {
            distinct.push(cells);
        }
    }
    assert!(distinct.len() > 1);
}

#[test]
fn directions_are_tried_in_shuffled_order() {
    let mut right_first = false;
    let mut down_first = false;
    for seed in 0..200u64 {
        let mut maze = Maze::new(2, 2, 10, seed);
        if maze.generate_winning_path(0, 0, None, 0) {
            if !maze.is_visited(0, 1) {
                right_first = true;
            }
            if !maze.is_visited(1, 0) {
                down_first = true;
            }
        }
    }
    assert!(right_first);
    assert!(down_first);
}

#[test]
fn certain_momentum_keeps_only_the_previous_direction() {
    for seed in 0..20u64 {
        let mut maze = Maze::new(3, 3, 10, seed);
        assert_eq!(maze.candidates(Some(Direction::Left), 1, 1), vec![Direction::Left]);
        assert_eq!(maze.candidates(Some(Direction::Down), 5, 5), vec![Direction::Down]);
    }
}

#[test]
fn candidates_without_momentum_are_the_whole_compass() {
    for seed in 0..20u64 {
        let mut maze = Maze::new(3, 3, 10, seed);
        for drawn in [
            maze.candidates(Some(Direction::Left), 0, 1),
            maze.candidates(None, 1, 1),
            maze.candidates(None, 1, 2),
        ] {
            assert_eq!(drawn.len(), 4);
            for dir in [Direction::Up, Direction::Down, Direction::Left, Direction::Right] {
                assert_eq!(drawn.iter().filter(|d| **d == dir).count(), 1);
            }
        }
    }
}

#[test]
fn candidates_come_in_changing_order() {
    let mut orders: Vec<Vec<Direction>> = Vec::new();
    let mut maze = Maze::new(3, 3, 10, 17);
    for _ in 0..200 {
        let drawn = maze.candidates(None, 1, 2);
        if !orders.contains(&drawn) {
            orders.push(drawn);
        }
    }
    assert!(orders.len() > 12);
    assert!(orders.len() <= 24);
}

#[test]
fn momentum_draw_goes_both_ways() {
    let mut maze = Maze::new(3, 3, 10, 23);
    let mut kept = 0;
    let mut shuffled = 0;
    for _ in 0..200 {
        let drawn = maze.candidates(Some(Direction::Up), 1, 2);
        if drawn.len() == 1 {
            assert_eq!(drawn, vec![Direction::Up]);
            kept += 1;
        } else {
            assert_eq!(drawn.len(), 4);
            shuffled += 1;
        }
    }
    assert!(kept > 50);
    assert!(shuffled > 50);
}

#[test]
fn drawing_candidates_leaves_the_grid_alone() {
    let mut maze = Maze::new(3, 3, 10, 5);
    maze.set(1, 1, Cell::Start);
    maze.mark_visited(2, 2);
    let cells = cells_of(&maze);
    let flags = flags_of(&maze);
    maze.candidates(None, 4, 5);
    maze.candidates(Some(Direction::Up), 4, 5);
    assert_eq!(cells_of(&maze), cells);
    assert_eq!(flags_of(&maze), flags);
}

#[test]
fn impossible_depth_limit_gives_up_after_the_retries() {
    let (maze, retries) = Maze::generate(3, 3, 3, 11, 0, 5, 50);
    assert_eq!(retries, None);
    assert!(cells_of(&maze).iter().all(|c| *c == Cell::Empty));
    assert!(flags_of(&maze).iter().all(|f| !*f));
}

#[test]
fn glyph_rows_follow_the_grid() {
    let mut maze = Maze::new(3, 2, 50, 1);
    maze.set(0, 0, Cell::Start);
    maze.set(1, 0, Cell::Path(true, Direction::Right));
    maze.set(2, 0, Cell::Path(false, Direction::Down));
    maze.set(0, 1, Cell::Wall(Direction::Up));
    maze.set(1, 1, Cell::Wall(Direction::Left));
    maze.set(2, 1, Cell::End);
    assert_eq!(maze.glyphs(false), vec![vec!['S', '.', ','], vec!['#', '#', 'E']]);
    assert_eq!(
        maze.glyphs(true),
        vec![vec!['S', '.', ','], vec!['\u{2588}', '\u{25ac}', 'E']]
    );
}

#[test]
fn color_rows_follow_the_grid() {
    let mut maze = Maze::new(2, 2, 50, 1);
    maze.set(0, 0, Cell::Start);
    maze.set(1, 0, Cell::Path(true, Direction::Down));
    maze.set(0, 1, Cell::Wall(Direction::Up));
    maze.set(1, 1, Cell::End);
    assert_eq!(
        maze.colors(true),
        vec![vec![(0, 255, 0), (255, 0, 0)], vec![(255, 255, 255), (0, 0, 255)]]
    );
    assert_eq!(
        maze.colors(false),
        vec![vec![(0, 255, 0), (0, 0, 0)], vec![(255, 255, 255), (0, 0, 255)]]
    );
}
