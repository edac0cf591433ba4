use maze_core::maze::maze::Maze;
use maze_core::maze::maze_cell_edge::EdgeType;
use maze_core::maze::maze_direction::MazeDirection;
use maze_core::maze::maze_room::MazeRoomSettings;
use maze_core::position::Position;
use maze_core::random::Probability;
use maze_core::random::Random;
use rand::SeedableRng;
use rand_chacha::ChaCha8Rng;

fn seeded(seed: u64) -> Random {
    Random(ChaCha8Rng::seed_from_u64(seed))
}

fn laid_out(width: i32, height: i32, themes: usize) -> Maze {
    let mut maze = Maze::new(width, height);
    let settings =
        (0..themes).map(|index| MazeRoomSettings::new(format!("Theme {}", index))).collect();
    assert_eq!(maze.initialize_maze_rooms(settings), Ok(()));
    maze
}

fn edge_type(maze: &Maze, position: Position, direction: MazeDirection) -> Option<EdgeType> {
    maze.get_cell(&position)
        .and_then(|cell| cell.get_edge(&direction))
        .map(|edge| edge.get_edge_type())
}

#[test]
fn a_drawn_door_opens_a_new_room_with_other_settings() {
    for seed in 0..20u64 {
        let mut rand = seeded(seed);
        let mut maze = laid_out(3, 1, 4);
        let here = Position::new(0, 0);
        let there = Position::new(1, 0);
        let room = maze.create_room_with_settings(2);
        maze.add_cell(&here, room);
        let mut stack = Vec::new();
        maze.carve_new_cell(&mut stack, here, there, true, &mut rand);

        let rooms = maze.get_maze_rooms();
        assert_eq!(rooms.get_room_count(), 2);
        assert_eq!(maze.get_cell(&there).unwrap().get_room_index(), 1);
        assert_eq!(maze.get_room_number_for_position(there), Some(1));
        assert_eq!(rooms.get_room(1).get_cells(), &vec![there]);
        assert_eq!(rooms.get_room(0).get_cells(), &vec![here]);
        assert_ne!(rooms.get_settings_index_from_room_index(1), 2);
        let door = Some(EdgeType::Door { open: false });
        assert_eq!(edge_type(&maze, here, MazeDirection::EAST), door);
        assert_eq!(edge_type(&maze, there, MazeDirection::WEST), door);
        assert_eq!(maze.get_cell(&there).unwrap().defined_edge_count(), 1);
        assert_eq!(stack, vec![here, there]);
    }
}

#[test]
fn a_drawn_passage_keeps_the_room() {
    let mut rand = seeded(3);
    let mut untouched = seeded(3);
    let mut maze = laid_out(1, 3, 4);
    let here = Position::new(0, 1);
    let there = Position::new(0, 2);
    let room = maze.create_room_with_settings(1);
    maze.add_cell(&here, room);
    let mut stack = vec![Position::new(0, 1)];
    maze.carve_new_cell(&mut stack, here, there, false, &mut rand);

    let rooms = maze.get_maze_rooms();
    assert_eq!(rooms.get_room_count(), 1);
    assert_eq!(maze.get_cell(&there).unwrap().get_room_index(), 0);
    assert_eq!(maze.get_room_number_for_position(there), Some(0));
    assert_eq!(rooms.get_room(0).get_cells(), &vec![here, there]);
    assert_eq!(edge_type(&maze, here, MazeDirection::SOUTH), Some(EdgeType::Passage));
    assert_eq!(edge_type(&maze, there, MazeDirection::NORTH), Some(EdgeType::Passage));
    assert_eq!(stack, vec![here, here, there]);
    // Nothing was drawn from the stream.
    assert_eq!(
        MazeDirection::get_random_direction(&mut rand),
        MazeDirection::get_random_direction(&mut untouched)
    );
}

#[test]
fn a_drawn_door_without_other_settings_is_a_passage() {
    let mut rand = seeded(5);
    let mut maze = laid_out(2, 1, 1);
    let here = Position::new(0, 0);
    let there = Position::new(1, 0);
    let room = maze.create_room_with_settings(0);
    maze.add_cell(&here, room);
    let mut stack = Vec::new();
    maze.carve_new_cell(&mut stack, here, there, true, &mut rand);
    assert_eq!(maze.get_maze_rooms().get_room_count(), 1);
    assert_eq!(edge_type(&maze, here, MazeDirection::EAST), Some(EdgeType::Passage));
    assert_eq!(edge_type(&maze, there, MazeDirection::WEST), Some(EdgeType::Passage));
    assert_eq!(maze.get_room_number_for_position(there), Some(0));
    assert_eq!(stack, vec![here, there]);
}

#[test]
fn a_new_cell_joins_the_room_that_owns_its_neighbour() {
    // The neighbour was put into a room that has since been merged away.
    let mut rand = seeded(5);
    let mut maze = laid_out(3, 1, 2);
    let left = Position::new(0, 0);
    let middle = Position::new(1, 0);
    let right = Position::new(2, 0);
    let kept = maze.create_room_with_settings(1);
    let absorbed = maze.create_room_with_settings(1);
    maze.add_cell(&left, kept);
    maze.add_cell(&middle, absorbed);
    let mut stack = Vec::new();
    maze.expand_room(&mut stack, left, middle);
    maze.carve_new_cell(&mut stack, middle, right, false, &mut rand);
    assert_eq!(maze.get_cell(&middle).unwrap().get_room_index(), absorbed);
    assert_eq!(maze.get_cell(&right).unwrap().get_room_index(), kept);
    assert_eq!(maze.get_room_number_for_position(right), Some(kept));
    assert_eq!(maze.get_maze_rooms().get_room(kept).get_cells(), &vec![left, middle, right]);
    assert_eq!(stack, vec![left, middle, right]);
}

fn two_rooms_side_by_side() -> (Maze, Random) {
    let mut rand = seeded(8);
    let mut maze = laid_out(2, 1, 4);
    let left = Position::new(0, 0);
    let right = Position::new(1, 0);
    let first = maze.create_room_with_settings(0);
    let second = maze.create_room_with_settings(0);
    maze.add_cell(&left, first);
    maze.add_cell(&right, second);
    for outside in [Position::new(0, -1), Position::new(0, 1), Position::new(-1, 0)] {
        maze.add_wall(&left, &outside, &mut rand);
    }
    for outside in [Position::new(1, -1), Position::new(2, 0), Position::new(1, 1)] {
        maze.add_wall(&right, &outside, &mut rand);
    }
    (maze, rand)
}

#[test]
fn a_turn_joins_two_rooms_with_the_same_settings() {
    let (mut maze, mut rand) = two_rooms_side_by_side();
    let left = Position::new(0, 0);
    let right = Position::new(1, 0);
    let mut stack = vec![left];

    maze.do_next_generation_step(&mut stack, &mut rand);

    assert_eq!(edge_type(&maze, left, MazeDirection::EAST), Some(EdgeType::Passage));
    assert_eq!(edge_type(&maze, right, MazeDirection::WEST), Some(EdgeType::Passage));
    assert_eq!(maze.get_room_number_for_position(left), Some(0));
    assert_eq!(maze.get_room_number_for_position(right), Some(0));
    assert_eq!(stack, vec![left]);
    let rooms = maze.get_maze_rooms();
    assert_eq!(rooms.get_room_count(), 2);
    assert_eq!(rooms.get_room(0).get_cells(), &vec![left, right]);
    assert!(rooms.get_room(1).get_cells().is_empty());
    assert_eq!(rooms.get_room(1).get_merged_into(), Some(0));

    // The cell is complete now: its next turn takes it off the stack.
    let before = format!("{:?}", maze);
    maze.do_next_generation_step(&mut stack, &mut rand);
    assert!(stack.is_empty());
    assert_eq!(format!("{:?}", maze), before);
}

#[test]
fn a_wall_stands_between_rooms_with_different_settings() {
    let mut rand = seeded(2);
    let mut maze = laid_out(2, 1, 4);
    let left = Position::new(0, 0);
    let right = Position::new(1, 0);
    let first = maze.create_room_with_settings(0);
    let second = maze.create_room_with_settings(3);
    maze.add_cell(&left, first);
    maze.add_cell(&right, second);
    let mut stack = Vec::new();
    maze.create_edges_for_direction(&mut stack, left, MazeDirection::EAST, &mut rand);
    assert_eq!(edge_type(&maze, left, MazeDirection::EAST), Some(EdgeType::Wall));
    assert_eq!(edge_type(&maze, right, MazeDirection::WEST), Some(EdgeType::Wall));
    assert_eq!(maze.get_room_number_for_position(left), Some(0));
    assert_eq!(maze.get_room_number_for_position(right), Some(1));
    assert_eq!(stack, vec![left]);
    // Towards the outside there is a wall on this side alone, and no cell.
    maze.create_edges_for_direction(&mut stack, left, MazeDirection::NORTH, &mut rand);
    assert_eq!(edge_type(&maze, left, MazeDirection::NORTH), Some(EdgeType::Wall));
    assert!(maze.get_cell(&Position::new(0, -1)).is_none());
    assert_eq!(stack, vec![left, left]);
    maze.add_wall_to_position(&mut stack, right, Position::new(2, 0), &mut rand);
    assert_eq!(edge_type(&maze, right, MazeDirection::EAST), Some(EdgeType::Wall));
    assert_eq!(stack, vec![left, left, right]);
}

#[test]
fn a_step_towards_a_free_place_carves_a_cell() {
    let mut doors = 0;
    let mut passages = 0;
    for seed in 0..60u64 {
        let mut rand = seeded(seed);
        let mut maze = laid_out(2, 2, 4);
        let here = Position::new(1, 1);
        let there = Position::new(1, 0);
        let room = maze.create_room_with_settings(3);
        maze.add_cell(&here, room);
        let mut stack = Vec::new();
        maze.create_edges_for_direction(&mut stack, here, MazeDirection::NORTH, &mut rand);
        assert_eq!(stack, vec![here, there]);
        let edge = edge_type(&maze, here, MazeDirection::NORTH);
        assert_eq!(edge, edge_type(&maze, there, MazeDirection::SOUTH));
        match edge {
            Some(EdgeType::Door { open: false }) => {
                doors += 1;
                assert_eq!(maze.get_room_number_for_position(there), Some(1));
                assert_ne!(maze.get_settings_index_for_position(there), Some(3));
            }
            Some(EdgeType::Passage) => {
                passages += 1;
                assert_eq!(maze.get_room_number_for_position(there), Some(0));
                assert_eq!(maze.get_maze_rooms().get_room_count(), 1);
            }
            other => panic!("the new cell lies behind {:?}", other),
        }
    }
    assert!(doors > 5 && passages > 20, "{} doors, {} passages", doors, passages);
}

#[test]
fn the_door_chance_decides_the_connection() {
    let light = Probability::new(1, 4).unwrap();
    for (chance, expected) in [
        (Probability::new(0, 1).unwrap(), EdgeType::Passage),
        (Probability::new(1, 1).unwrap(), EdgeType::Door { open: false }),
    ] {
        for seed in 0..10u64 {
            let mut rand = seeded(seed);
            let mut maze = Maze::with_probabilities(2, 1, chance, light);
            let settings = vec![
                MazeRoomSettings::new(String::from("Bathroom")),
                MazeRoomSettings::new(String::from("Kitchen")),
            ];
            assert_eq!(maze.initialize_maze_rooms(settings), Ok(()));
            let here = Position::new(0, 0);
            let there = Position::new(1, 0);
            let room = maze.create_room_with_settings(0);
            maze.add_cell(&here, room);
            let mut stack = Vec::new();
            maze.generate_passage_to_new_cell(&mut stack, here, there, &mut rand);
            assert_eq!(edge_type(&maze, here, MazeDirection::EAST), Some(expected));
            assert_eq!(edge_type(&maze, there, MazeDirection::WEST), Some(expected));
            assert_eq!(stack, vec![here, there]);
        }
    }
}

#[test]
fn turns_by_hand_complete_the_maze() {
    let mut rand = seeded(13);
    let (width, height) = (4, 3);
    let mut maze = laid_out(width, height, 4);
    let start = Position::new(2, 1);
    let room = maze.create_room_with_settings(0);
    maze.add_cell(&start, room);
    let mut stack = vec![start];
    let mut turns = 0;
    while !stack.is_empty() {
        maze.do_next_generation_step(&mut stack, &mut rand);
        turns += 1;
        assert!(turns <= 8 * width * height + 1);
    }
    for y in 0..height {
        for x in 0..width {
            assert!(maze.get_cell(&Position::new(x, y)).unwrap().is_edge_complete());
        }
    }
}

#[test]
fn without_doors_no_wall_stands_between_two_cells() {
    let never = Probability::new(0, 1).unwrap();
    let light = Probability::new(1, 4).unwrap();
    for seed in 0..20u64 {
        let (width, height) = (5, 4);
        let mut maze = Maze::with_probabilities(width, height, never, light);
        let mut rand = seeded(seed);
        let settings = (0..4).map(|i| MazeRoomSettings::new(format!("Theme {}", i))).collect();
        assert_eq!(maze.generate(&mut rand, settings), Ok(()));
        for y in 0..height {
            for x in 0..width {
                let here = Position::new(x, y);
                for direction in [
                    MazeDirection::NORTH,
                    MazeDirection::EAST,
                    MazeDirection::SOUTH,
                    MazeDirection::WEST,
                ] {
                    let expected = if maze.contains_position(&direction.get_position(&here)) {
                        EdgeType::Passage
                    } else {
                        EdgeType::Wall
                    };
                    assert_eq!(edge_type(&maze, here, direction), Some(expected));
                }
            }
        }
    }
}
