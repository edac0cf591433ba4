use maze_core::maze::maze::Maze;
use maze_core::maze::maze_cell_edge::EdgeType;
use maze_core::maze::maze_direction::MazeDirection;
use maze_core::maze::maze_error::MazeError;
use maze_core::maze::maze_room::MazeRoomSettings;
use maze_core::position::Position;
use maze_core::random::Probability;
use maze_core::random::Random;
use rand::SeedableRng;
use rand_chacha::ChaCha8Rng;

const DIRECTIONS: [MazeDirection; 4] =
    [MazeDirection::NORTH, MazeDirection::EAST, MazeDirection::SOUTH, MazeDirection::WEST];

fn seeded(seed: u64) -> Random {
    Random(ChaCha8Rng::seed_from_u64(seed))
}

fn catalog(names: &[&str]) -> Vec<MazeRoomSettings> {
    names.iter().map(|name| MazeRoomSettings::new(String::from(*name))).collect()
}

fn four_themes() -> Vec<MazeRoomSettings> {
    catalog(&["Basic Room", "Second Basic Room", "Bathroom", "Kitchen"])
}

fn generated(width: i32, height: i32, seed: u64) -> Maze {
    let mut maze = Maze::new(width, height);
    let mut rand = seeded(seed);
    assert_eq!(maze.generate(&mut rand, four_themes()), Ok(()));
    maze
}

fn edge_type(maze: &Maze, x: i32, y: i32, direction: MazeDirection) -> Option<EdgeType> {
    maze.get_cell(&Position::new(x, y))
        .and_then(|cell| cell.get_edge(&direction))
        .map(|edge| edge.get_edge_type())
}

fn is_door(edge_type: Option<EdgeType>) -> bool {
    matches!(edge_type, Some(EdgeType::Door { .. }))
}

/// Everything that generation decides, in a fixed order.
fn snapshot(maze: &Maze) -> Vec<String> {
    let mut lines = Vec::new();
    for y in 0..maze.get_size_y() {
        for x in 0..maze.get_size_x() {
            let cell = maze.get_cell(&Position::new(x, y)).unwrap();
            let edges: Vec<String> =
                DIRECTIONS.iter().map(|d| format!("{:?}", cell.get_edge(d))).collect();
            lines.push(format!("{} {} {} {:?}", x, y, cell.get_room_index(), edges));
        }
    }
    let rooms = maze.get_maze_rooms();
    for index in 0..rooms.get_room_count() {
        let room = rooms.get_room(index);
        lines.push(format!(
            "{} {} {:?} {:?}",
            index,
            room.get_settings_index(),
            room.get_merged_into(),
            room.get_cells()
        ));
    }
    lines
}

#[test]
fn every_position_holds_a_complete_cell() {
    for seed in 0..20u64 {
        for (width, height) in [(1, 1), (1, 4), (3, 2), (5, 5), (8, 6)] {
            let maze = generated(width, height, seed);
            for y in 0..height {
                for x in 0..width {
                    let position = Position::new(x, y);
                    let cell = maze.get_cell(&position).unwrap();
                    assert_eq!(cell.get_position(), position);
                    assert!(cell.is_initialized());
                    assert!(cell.is_edge_complete());
                    assert_eq!(cell.defined_edge_count(), 4);
                }
            }
            assert!(maze.get_cell(&Position::new(width, 0)).is_none());
            assert!(maze.get_cell(&Position::new(0, height)).is_none());
            assert!(maze.get_cell(&Position::new(-1, 0)).is_none());
        }
    }
}

#[test]
fn both_sides_of_a_boundary_agree() {
    for seed in 0..20u64 {
        let (width, height) = (6, 5);
        let maze = generated(width, height, seed);
        for y in 0..height {
            for x in 0..width {
                for direction in DIRECTIONS {
                    let neighbor = direction.get_position(&Position::new(x, y));
                    if maze.contains_position(&neighbor) {
                        assert_eq!(
                            edge_type(&maze, x, y, direction),
                            edge_type(
                                &maze,
                                neighbor.x,
                                neighbor.y,
                                direction.get_opposite_direction()
                            )
                        );
                    }
                }
            }
        }
    }
}

#[test]
fn the_outside_is_walled_off() {
    for seed in 0..20u64 {
        let (width, height) = (4, 7);
        let maze = generated(width, height, seed);
        for y in 0..height {
            for x in 0..width {
                for direction in DIRECTIONS {
                    let neighbor = direction.get_position(&Position::new(x, y));
                    if !maze.contains_position(&neighbor) {
                        assert_eq!(edge_type(&maze, x, y, direction), Some(EdgeType::Wall));
                    }
                }
            }
        }
    }
}

#[test]
fn a_door_changes_the_theme_and_a_passage_keeps_the_room() {
    let mut doors = 0;
    let mut passages = 0;
    for seed in 0..30u64 {
        let (width, height) = (6, 6);
        let maze = generated(width, height, seed);
        for y in 0..height {
            for x in 0..width {
                for direction in DIRECTIONS {
                    let here = Position::new(x, y);
                    let there = direction.get_position(&here);
                    match edge_type(&maze, x, y, direction) {
                        Some(EdgeType::Door { open }) => {
                            doors += 1;
                            assert!(!open);
                            assert_ne!(
                                maze.get_settings_index_for_position(here),
                                maze.get_settings_index_for_position(there)
                            );
                        }
                        Some(EdgeType::Passage) => {
                            passages += 1;
                            assert_eq!(
                                maze.get_room_number_for_position(here),
                                maze.get_room_number_for_position(there)
                            );
                        }
                        Some(EdgeType::Wall) => {}
                        None => panic!("undecided edge"),
                    }
                }
            }
        }
    }
    assert!(doors > 0);
    assert!(passages > 0);
}

#[test]
fn rooms_list_their_cells_once() {
    for seed in 0..30u64 {
        let (width, height) = (6, 6);
        let maze = generated(width, height, seed);
        let rooms = maze.get_maze_rooms();
        let mut listed = 0usize;
        for index in 0..rooms.get_room_count() {
            let room = rooms.get_room(index);
            assert!(room.get_settings_index() < rooms.get_settings_count());
            match room.get_merged_into() {
                Some(target) => {
                    assert!(room.get_cells().is_empty());
                    assert_eq!(rooms.get_room(target).get_merged_into(), None);
                    assert_eq!(rooms.resolve_room_index(index), target);
                }
                None => assert_eq!(rooms.resolve_room_index(index), index),
            }
            for (i, position) in room.get_cells().iter().enumerate() {
                listed += 1;
                assert!(!room.get_cells()[..i].contains(position));
                assert!(room.get_room_has_position(*position));
                assert_eq!(maze.get_room_number_for_position(*position), Some(index));
                let cell = maze.get_cell(position).unwrap();
                assert_eq!(rooms.resolve_room_index(cell.get_room_index()), index);
                assert_eq!(
                    rooms.get_settings_index_from_room_index(cell.get_room_index()),
                    room.get_settings_index()
                );
            }
        }
        assert_eq!(listed, (width * height) as usize);
    }
}

#[test]
fn the_same_seed_gives_the_same_maze() {
    for seed in [0u64, 1, 7, 1234567] {
        let first = generated(7, 5, seed);
        let second = generated(7, 5, seed);
        assert_eq!(snapshot(&first), snapshot(&second));
    }
    assert_ne!(snapshot(&generated(7, 5, 1)), snapshot(&generated(7, 5, 2)));
}

#[test]
fn generation_starts_afresh() {
    let mut maze = Maze::new(4, 4);
    let mut rand = seeded(5);
    assert_eq!(maze.generate(&mut rand, four_themes()), Ok(()));
    let mut rand = seeded(9);
    assert_eq!(maze.generate(&mut rand, four_themes()), Ok(()));
    assert_eq!(snapshot(&maze), snapshot(&generated(4, 4, 9)));
}

#[test]
fn a_single_cell_is_walled_in() {
    for seed in 0..10u64 {
        let maze = generated(1, 1, seed);
        let cell = maze.get_cell(&Position::new(0, 0)).unwrap();
        for direction in DIRECTIONS {
            let edge = cell.get_edge(&direction).unwrap();
            assert_eq!(edge.get_edge_type(), EdgeType::Wall);
            assert_eq!(edge.get_maze_direction(), direction);
            assert!(!edge.is_passable());
        }
        assert_eq!(maze.get_maze_rooms().get_room_count(), 1);
        assert_eq!(maze.get_maze_rooms().get_room(0).get_cells(), &vec![Position::new(0, 0)]);
        assert_eq!(maze.get_room_number_for_position(Position::new(0, 0)), Some(0));
    }
}

#[test]
fn two_cells_are_connected() {
    let mut doors = 0;
    let mut passages = 0;
    for seed in 0..40u64 {
        let maze = generated(2, 1, seed);
        let shared = edge_type(&maze, 0, 0, MazeDirection::EAST);
        assert_eq!(shared, edge_type(&maze, 1, 0, MazeDirection::WEST));
        match shared {
            Some(EdgeType::Passage) => {
                passages += 1;
                assert_eq!(maze.get_maze_rooms().get_room_count(), 1);
            }
            Some(EdgeType::Door { open: false }) => {
                doors += 1;
                assert_eq!(maze.get_maze_rooms().get_room_count(), 2);
            }
            other => panic!("shared edge is {:?}", other),
        }
        for (x, direction) in [
            (0, MazeDirection::NORTH),
            (0, MazeDirection::SOUTH),
            (0, MazeDirection::WEST),
            (1, MazeDirection::NORTH),
            (1, MazeDirection::SOUTH),
            (1, MazeDirection::EAST),
        ] {
            assert_eq!(edge_type(&maze, x, 0, direction), Some(EdgeType::Wall));
        }
    }
    assert!(doors > 0);
    assert!(passages > 0);
}

#[test]
fn without_a_chance_of_doors_the_maze_is_one_room() {
    for seed in 0..20u64 {
        let (width, height) = (5, 4);
        let never = Probability::new(0, 1).unwrap();
        let light = Probability::new(1, 4).unwrap();
        let mut maze = Maze::with_probabilities(width, height, never, light);
        let mut rand = seeded(seed);
        assert_eq!(maze.generate(&mut rand, four_themes()), Ok(()));
        for y in 0..height {
            for x in 0..width {
                for direction in DIRECTIONS {
                    assert!(!is_door(edge_type(&maze, x, y, direction)));
                }
                assert_eq!(maze.get_room_number_for_position(Position::new(x, y)), Some(0));
            }
        }
        let rooms = maze.get_maze_rooms();
        assert_eq!(rooms.get_room_count(), 1);
        assert_eq!(rooms.get_room(0).get_cells().len(), (width * height) as usize);
    }
}

#[test]
fn a_single_theme_leaves_no_room_for_doors() {
    for seed in 0..20u64 {
        let (width, height) = (4, 4);
        let mut maze = Maze::new(width, height);
        let mut rand = seeded(seed);
        assert_eq!(maze.generate(&mut rand, catalog(&["Basic Room"])), Ok(()));
        for y in 0..height {
            for x in 0..width {
                for direction in DIRECTIONS {
                    let edge = edge_type(&maze, x, y, direction);
                    assert!(edge.is_some());
                    assert!(!is_door(edge));
                }
            }
        }
        assert_eq!(maze.get_maze_rooms().get_room_count(), 1);
    }
}

#[test]
fn rooms_joined_by_a_passage_become_one() {
    let mut maze = Maze::new(2, 1);
    assert_eq!(maze.initialize_maze_rooms(four_themes()), Ok(()));
    let left = Position::new(0, 0);
    let right = Position::new(1, 0);
    let first = maze.create_room_with_settings(2);
    let second = maze.create_room_with_settings(2);
    assert_eq!((first, second), (0, 1));
    maze.add_cell(&left, first);
    maze.add_cell(&right, second);
    assert_eq!(maze.get_room_number_for_position(left), Some(0));
    assert_eq!(maze.get_room_number_for_position(right), Some(1));

    maze.merge_rooms(first, second);
    maze.add_passage(&left, &right);

    assert_eq!(edge_type(&maze, 0, 0, MazeDirection::EAST), Some(EdgeType::Passage));
    assert_eq!(edge_type(&maze, 1, 0, MazeDirection::WEST), Some(EdgeType::Passage));
    assert_eq!(maze.get_room_number_for_position(left), Some(0));
    assert_eq!(maze.get_room_number_for_position(right), Some(0));
    assert_eq!(maze.get_settings_index_for_position(left), Some(2));
    assert_eq!(maze.get_settings_index_for_position(right), Some(2));
    // The cells keep the index they were given; it resolves to the kept room.
    assert_eq!(maze.get_cell(&right).unwrap().get_room_index(), 1);
    let rooms = maze.get_maze_rooms();
    assert_eq!(rooms.get_room_count(), 2);
    assert_eq!(rooms.resolve_room_index(1), 0);
    assert_eq!(rooms.get_settings_index_from_room_index(1), 2);
    assert_eq!(rooms.get_room(0).get_cells(), &vec![left, right]);
    assert!(rooms.get_room(1).get_cells().is_empty());
    assert_eq!(rooms.get_room(1).get_merged_into(), Some(0));
}

#[test]
fn a_size_that_is_not_positive_is_refused() {
    for (width, height) in [(0, 3), (3, 0), (-1, 3), (3, -5), (0, 0)] {
        let mut maze = Maze::new(width, height);
        let mut rand = seeded(1);
        assert_eq!(maze.generate(&mut rand, four_themes()), Err(MazeError::InvalidSize));
        assert!(!maze.is_ready());
        assert!(maze.get_cell(&Position::new(0, 0)).is_none());
        assert_eq!(maze.initialize_maze_rooms(four_themes()), Err(MazeError::InvalidSize));
    }
}

#[test]
fn an_empty_catalog_is_refused() {
    let mut maze = Maze::new(3, 3);
    let mut rand = seeded(1);
    assert_eq!(maze.generate(&mut rand, Vec::new()), Err(MazeError::EmptySettings));
    assert!(!maze.is_ready());
    // A failed generation leaves an earlier maze as it was.
    let mut maze = generated(3, 3, 4);
    let before = snapshot(&maze);
    assert_eq!(maze.generate(&mut rand, Vec::new()), Err(MazeError::EmptySettings));
    assert_eq!(snapshot(&maze), before);
}

#[test]
fn a_new_maze_has_the_default_chances() {
    let maze = Maze::new(5, 5);
    assert_eq!(maze.get_size_x(), 5);
    assert_eq!(maze.get_size_y(), 5);
    assert_eq!(maze.get_door_probability().numerator(), 3);
    assert_eq!(maze.get_door_probability().denominator(), 10);
    assert_eq!(maze.get_wall_light_probability().numerator(), 1);
    assert_eq!(maze.get_wall_light_probability().denominator(), 4);
    assert!(!maze.is_ready());
    assert!(maze.contains_position(&Position::new(4, 4)));
    assert!(!maze.contains_position(&Position::new(5, 4)));
    assert!(!maze.contains_position(&Position::new(0, -1)));
}

#[test]
fn walls_are_lit_by_the_given_chance() {
    let door = Probability::new(3, 10).unwrap();
    for (chance, expected) in
        [(Probability::new(0, 1).unwrap(), false), (Probability::new(1, 1).unwrap(), true)]
    {
        let (width, height) = (4, 4);
        let mut maze = Maze::with_probabilities(width, height, door, chance);
        let mut rand = seeded(3);
        assert_eq!(maze.generate(&mut rand, four_themes()), Ok(()));
        for y in 0..height {
            for x in 0..width {
                let cell = maze.get_cell(&Position::new(x, y)).unwrap();
                for direction in DIRECTIONS {
                    let edge = cell.get_edge(&direction).unwrap();
                    if edge.is_wall() {
                        assert_eq!(edge.wall_light, expected);
                    } else {
                        assert!(!edge.wall_light);
                    }
                    assert_eq!(edge.painting, None);
                }
            }
        }
    }
}

#[test]
fn carving_by_hand() {
    let mut maze = Maze::new(2, 2);
    assert_eq!(maze.initialize_maze_rooms(four_themes()), Ok(()));
    assert!(maze.is_ready());
    let mut rand = seeded(11);
    let a = Position::new(0, 0);
    let b = Position::new(1, 0);
    let room = maze.create_room_with_settings(0);
    maze.add_cell(&a, room);
    assert!(maze.get_cell(&a).unwrap().is_initialized());
    assert_eq!(maze.get_cell(&a).unwrap().defined_edge_count(), 0);
    // A wall towards the outside touches this cell alone.
    maze.add_wall(&a, &Position::new(0, -1), &mut rand);
    assert_eq!(edge_type(&maze, 0, 0, MazeDirection::NORTH), Some(EdgeType::Wall));
    assert_eq!(maze.get_cell(&a).unwrap().defined_edge_count(), 1);
    // A door leads to a room with other settings.
    let other = maze.create_room_and_return_index(Some(0), &mut rand).unwrap();
    assert_eq!(other, 1);
    assert_ne!(maze.get_maze_rooms().get_settings_index_from_room_index(other), 0);
    maze.add_cell(&b, other);
    maze.add_door(&a, &b);
    assert_eq!(edge_type(&maze, 0, 0, MazeDirection::EAST), Some(EdgeType::Door { open: false }));
    assert_eq!(edge_type(&maze, 1, 0, MazeDirection::WEST), Some(EdgeType::Door { open: false }));
    assert_eq!(edge_type(&maze, 1, 0, MazeDirection::EAST), None);
}

#[test]
fn a_large_maze_is_covered() {
    let (width, height) = (60, 45);
    let maze = generated(width, height, 99);
    let mut listed = 0;
    let rooms = maze.get_maze_rooms();
    for index in 0..rooms.get_room_count() {
        listed += rooms.get_room(index).get_cells().len();
    }
    assert_eq!(listed, (width * height) as usize);
    for y in 0..height {
        for x in 0..width {
            assert!(maze.get_cell(&Position::new(x, y)).unwrap().is_edge_complete());
        }
    }
}

#[test]
fn every_cell_can_be_reached_from_every_other() {
    // Passages and doors join the cells of a maze into one piece.
    for seed in 0..20u64 {
        let (width, height) = (7, 6);
        let maze = generated(width, height, seed);
        let mut reached = vec![false; (width * height) as usize];
        let mut frontier = vec![Position::new(0, 0)];
        reached[0] = true;
        while let Some(here) = frontier.pop() {
            for direction in DIRECTIONS {
                match edge_type(&maze, here.x, here.y, direction) {
                    Some(EdgeType::Passage) | Some(EdgeType::Door { .. }) => {
                        let there = direction.get_position(&here);
                        let index = (there.y * width + there.x) as usize;
                        if !reached[index] {
                            reached[index] = true;
                            frontier.push(there);
                        }
                    }
                    _ => {}
                }
            }
        }
        assert!(reached.iter().all(|cell| *cell));
    }
}

#[test]
fn neighbours_share_a_room_exactly_when_a_passage_joins_them() {
    for seed in 0..30u64 {
        let (width, height) = (6, 6);
        let maze = generated(width, height, seed);
        for y in 0..height {
            for x in 0..width {
                for direction in DIRECTIONS {
                    let here = Position::new(x, y);
                    let there = direction.get_position(&here);
                    if !maze.contains_position(&there) {
                        continue;
                    }
                    let same_room = maze.get_room_number_for_position(here)
                        == maze.get_room_number_for_position(there);
                    let same_settings = maze.get_settings_index_for_position(here)
                        == maze.get_settings_index_for_position(there);
                    let passage = edge_type(&maze, x, y, direction) == Some(EdgeType::Passage);
                    assert_eq!(same_room, passage);
                    assert_eq!(same_settings, passage);
                }
            }
        }
    }
}
