use maze_core::consts;
use maze_core::game_states::GameState;
use maze_core::maze::maze_cell::MazeCell;
use maze_core::maze::maze_cell_edge::EdgeType;
use maze_core::maze::maze_cell_edge::MazeCellEdge;
use maze_core::maze::maze_direction::MazeDirection;
use maze_core::maze::paintings::Painting;
use maze_core::maze::paintings::PaintingColor;
use maze_core::maze::paintings::PaintingType;
use maze_core::pathfinding_node::PathfindingNode;
use maze_core::position::Position;
use maze_core::random::Probability;
use maze_core::random::Random;
use rand::SeedableRng;
use rand_chacha::ChaCha8Rng;

const DIRECTIONS: [MazeDirection; 4] =
    [MazeDirection::NORTH, MazeDirection::EAST, MazeDirection::SOUTH, MazeDirection::WEST];

fn seeded(seed: u64) -> Random {
    Random(ChaCha8Rng::seed_from_u64(seed))
}

#[test]
fn pathfinding_node_keeps_what_it_was_given() {
    let here = Position::new(2, 3);
    let before = Position::new(2, 2);
    let node = PathfindingNode::new(&here, 4, 7, &before);
    assert_eq!(*node.get_node(), here);
    assert_eq!(node.get_g(), 4);
    assert_eq!(node.get_h(), 7);
    assert_eq!(*node.get_previous(), before);
}

#[test]
fn game_states_are_told_apart() {
    assert_eq!(GameState::InGame, GameState::InGame);
    assert_ne!(GameState::Won, GameState::Lost);
    assert_ne!(GameState::LoadingScreen, GameState::LoadingAssets);
    assert_ne!(GameState::MainMenu, GameState::Initialize);
}

#[test]
fn default_configuration() {
    assert_eq!((consts::MAZE_X, consts::MAZE_Y), (5, 5));
    assert_eq!(consts::door_probability().numerator(), 3);
    assert_eq!(consts::door_probability().denominator(), 10);
    assert_eq!(consts::wall_light_probability().numerator(), 1);
    assert_eq!(consts::wall_light_probability().denominator(), 4);
    assert_eq!(consts::painting_probability().numerator(), 1);
    assert_eq!(consts::painting_probability().denominator(), 4);
}

#[test]
fn position_arithmetic() {
    let a = Position::new(3, -2);
    let b = Position::new_from_i32(-1, 5);
    assert_eq!(a + b, Position::new(2, 3));
    assert_eq!(a - b, Position::new(4, -7));
    assert_eq!(a * 3, Position::new(9, -6));
    assert_eq!(Position::new_from_usize(7, 0), Position::new(7, 0));
    assert_eq!(a.get_as_tuple(), (3, -2));
}

#[test]
fn position_distance() {
    assert_eq!(Position::new(0, 0).get_distance_to_position(Position::new(0, 0)), 0);
    assert_eq!(Position::new(1, 2).get_distance_to_position(Position::new(4, 6)), 7);
    assert_eq!(Position::new(4, 6).get_distance_to_position(Position::new(1, 2)), 7);
    assert_eq!(Position::new(-3, 2).get_distance_to_position(Position::new(2, -2)), 9);
    assert_eq!(
        Position::new(i32::MIN, i32::MIN).get_distance_to_position(Position::new(i32::MAX, i32::MAX)),
        2 * (u32::MAX as u64)
    );
}

#[test]
fn direction_index_round_trip() {
    for index in 0..4u32 {
        let direction = MazeDirection::get_direction_from_index(index);
        assert_eq!(direction.get_index(), index);
        assert_eq!(MazeDirection::direction_for_draw(index as usize), direction);
    }
    assert_eq!(MazeDirection::get_direction_from_index(0), MazeDirection::NORTH);
    assert_eq!(MazeDirection::get_direction_from_index(1), MazeDirection::EAST);
    assert_eq!(MazeDirection::get_direction_from_index(2), MazeDirection::SOUTH);
    assert_eq!(MazeDirection::get_direction_from_index(3), MazeDirection::WEST);
}

#[test]
fn direction_steps() {
    let origin = Position::new(4, 4);
    assert_eq!(MazeDirection::NORTH.get_position(&origin), Position::new(4, 3));
    assert_eq!(MazeDirection::EAST.get_position(&origin), Position::new(5, 4));
    assert_eq!(MazeDirection::SOUTH.get_position(&origin), Position::new(4, 5));
    assert_eq!(MazeDirection::WEST.get_position(&origin), Position::new(3, 4));
    assert_eq!(MazeDirection::NORTH.to_position_modifier(), Position::new(0, -1));
    assert_eq!(MazeDirection::EAST.to_position_modifier(), Position::new(1, 0));
    assert_eq!(MazeDirection::SOUTH.to_position_modifier(), Position::new(0, 1));
    assert_eq!(MazeDirection::WEST.to_position_modifier(), Position::new(-1, 0));
    // The neighbour of a border cell can be named; it is not tested against bounds.
    assert_eq!(MazeDirection::WEST.get_position(&Position::new(0, 0)), Position::new(-1, 0));
}

#[test]
fn direction_opposites() {
    assert_eq!(MazeDirection::NORTH.get_opposite_direction(), MazeDirection::SOUTH);
    assert_eq!(MazeDirection::EAST.get_opposite_direction(), MazeDirection::WEST);
    assert_eq!(MazeDirection::SOUTH.get_opposite_direction(), MazeDirection::NORTH);
    assert_eq!(MazeDirection::WEST.get_opposite_direction(), MazeDirection::EAST);
    let origin = Position::new(2, 2);
    for direction in DIRECTIONS {
        let opposite = direction.get_opposite_direction();
        assert_eq!(opposite.get_opposite_direction(), direction);
        assert_eq!(opposite.get_position(&direction.get_position(&origin)), origin);
    }
}

#[test]
fn direction_between_neighbours() {
    let origin = Position::new(2, 2);
    for direction in DIRECTIONS {
        let neighbor = direction.get_position(&origin);
        assert_eq!(
            MazeDirection::get_direction_position_from_positions(&origin, &neighbor),
            direction
        );
    }
}

#[test]
fn random_directions_cover_all_four() {
    let mut rand = seeded(3);
    let mut seen = [false; 4];
    for _ in 0..200 {
        seen[MazeDirection::get_random_direction(&mut rand).get_index() as usize] = true;
    }
    assert_eq!(seen, [true; 4]);
}

#[test]
fn edges() {
    let wall = MazeCellEdge::new(&MazeDirection::EAST, EdgeType::Wall);
    assert_eq!(wall.get_edge_type(), EdgeType::Wall);
    assert_eq!(wall.get_maze_direction(), MazeDirection::EAST);
    assert_eq!(wall.painting, None);
    assert!(!wall.wall_light);
    assert!(wall.is_wall());
    assert!(!wall.is_door());
    assert!(!wall.is_passable());
    assert!(MazeCellEdge::new(&MazeDirection::EAST, EdgeType::Passage).is_passable());
    assert!(MazeCellEdge::new(&MazeDirection::EAST, EdgeType::Door { open: true }).is_passable());
    assert!(!MazeCellEdge::new(&MazeDirection::EAST, EdgeType::Door { open: false }).is_passable());
    assert!(MazeCellEdge::new(&MazeDirection::EAST, EdgeType::Door { open: false }).is_door());
}

#[test]
fn only_walls_take_a_light() {
    for edge_type in [EdgeType::Wall, EdgeType::Passage, EdgeType::Door { open: false }] {
        let plain = MazeCellEdge::new(&MazeDirection::NORTH, edge_type);
        let mut dark = plain;
        dark.furnish(false);
        assert_eq!(dark, plain);
        let mut lit = plain;
        lit.furnish(true);
        assert_eq!(lit.wall_light, edge_type == EdgeType::Wall);
        assert_eq!(lit.get_edge_type(), edge_type);
        assert_eq!(lit.get_maze_direction(), MazeDirection::NORTH);
    }
}

#[test]
fn furniture_follows_the_chance() {
    let mut rand = seeded(8);
    let never = Probability::new(0, 5).unwrap();
    let always = Probability::new(5, 5).unwrap();
    for _ in 0..50 {
        let mut wall = MazeCellEdge::new(&MazeDirection::WEST, EdgeType::Wall);
        wall.generate_furniture_with(&mut rand, &never);
        assert!(!wall.wall_light);
        wall.generate_furniture_with(&mut rand, &always);
        assert!(wall.wall_light);
        let mut passage = MazeCellEdge::new(&MazeDirection::WEST, EdgeType::Passage);
        passage.generate_furniture_with(&mut rand, &always);
        assert!(!passage.wall_light);
    }
    let mut lit = 0;
    for _ in 0..4000 {
        let mut wall = MazeCellEdge::new(&MazeDirection::WEST, EdgeType::Wall);
        wall.generate_furniture(&mut rand);
        if wall.wall_light {
            lit += 1;
        }
    }
    assert!(lit > 800 && lit < 1200, "{} of 4000 walls are lit", lit);
}

#[test]
fn nothing_is_drawn_for_an_edge_that_is_no_wall() {
    let mut touched = seeded(21);
    let mut untouched = seeded(21);
    let mut door = MazeCellEdge::new(&MazeDirection::WEST, EdgeType::Door { open: false });
    door.generate_furniture(&mut touched);
    assert_eq!(
        MazeDirection::get_random_direction(&mut touched),
        MazeDirection::get_random_direction(&mut untouched)
    );
}

#[test]
fn doors_open_and_close() {
    let mut door = MazeCellEdge::new(&MazeDirection::SOUTH, EdgeType::Door { open: false });
    door.set_door_open(true);
    assert_eq!(door.get_edge_type(), EdgeType::Door { open: true });
    door.set_door_open(false);
    assert_eq!(door.get_edge_type(), EdgeType::Door { open: false });
    let mut wall = MazeCellEdge::new(&MazeDirection::SOUTH, EdgeType::Wall);
    wall.set_door_open(true);
    assert_eq!(wall.get_edge_type(), EdgeType::Wall);
}

#[test]
fn a_new_cell_has_no_edges() {
    let cell = MazeCell::new(3, 4, 7);
    assert_eq!(cell.get_position(), Position::new(3, 4));
    assert_eq!(cell.get_room_index(), 7);
    assert!(!cell.is_initialized());
    assert!(!cell.is_edge_complete());
    assert_eq!(cell.defined_edge_count(), 0);
    for direction in DIRECTIONS {
        assert!(!cell.has_edge(&direction));
        assert_eq!(cell.get_edge(&direction), None);
    }
}

#[test]
fn a_cell_is_complete_with_four_edges() {
    let mut cell = MazeCell::new(0, 0, 0);
    cell.initialized();
    assert!(cell.is_initialized());
    for (count, direction) in DIRECTIONS.iter().enumerate() {
        assert!(!cell.is_edge_complete());
        assert_eq!(cell.defined_edge_count(), count);
        let edge = MazeCellEdge::new(direction, EdgeType::Passage);
        cell.set_edge(*direction, edge);
        assert!(cell.has_edge(direction));
        assert_eq!(cell.get_edge(direction), Some(edge));
    }
    assert!(cell.is_edge_complete());
    cell.set_room_index(9);
    assert_eq!(cell.get_room_index(), 9);
}

#[test]
fn skipping_counts_undecided_directions_only() {
    // East is decided: the undecided directions are North, South, West.
    let mut cell = MazeCell::new(0, 0, 0);
    cell.set_edge(MazeDirection::EAST, MazeCellEdge::new(&MazeDirection::EAST, EdgeType::Wall));
    assert_eq!(cell.unused_direction(0), MazeDirection::NORTH);
    assert_eq!(cell.unused_direction(1), MazeDirection::SOUTH);
    assert_eq!(cell.unused_direction(2), MazeDirection::WEST);
    // North is decided too: South, West remain.
    cell.set_edge(MazeDirection::NORTH, MazeCellEdge::new(&MazeDirection::NORTH, EdgeType::Wall));
    assert_eq!(cell.unused_direction(0), MazeDirection::SOUTH);
    assert_eq!(cell.unused_direction(1), MazeDirection::WEST);
    cell.set_edge(MazeDirection::WEST, MazeCellEdge::new(&MazeDirection::WEST, EdgeType::Wall));
    assert_eq!(cell.unused_direction(0), MazeDirection::SOUTH);
}

#[test]
fn skipping_is_picking_from_the_list_of_undecided_directions() {
    for decided in 0..15u32 {
        let mut cell = MazeCell::new(0, 0, 0);
        let mut undecided = Vec::new();
        for direction in DIRECTIONS {
            if decided & (1 << direction.get_index()) != 0 {
                cell.set_edge(direction, MazeCellEdge::new(&direction, EdgeType::Wall));
            } else {
                undecided.push(direction);
            }
        }
        for (place, direction) in undecided.iter().enumerate() {
            assert_eq!(cell.unused_direction(place), *direction);
        }
    }
}

#[test]
fn a_random_direction_is_undecided_and_every_undecided_one_is_drawn() {
    let mut rand = seeded(17);
    let mut cell = MazeCell::new(0, 0, 0);
    cell.set_edge(MazeDirection::SOUTH, MazeCellEdge::new(&MazeDirection::SOUTH, EdgeType::Wall));
    let mut seen = [false; 4];
    for _ in 0..300 {
        let direction = cell.get_random_unused_direction_for_cell(&mut rand);
        assert!(!cell.has_edge(&direction));
        seen[direction.get_index() as usize] = true;
    }
    assert_eq!(seen, [true, true, false, true]);
}

#[test]
fn add_edge_decides_the_edge() {
    let mut rand = seeded(2);
    let mut cell = MazeCell::new(1, 1, 0);
    cell.add_edge(&MazeDirection::NORTH, EdgeType::Wall, &mut rand);
    cell.add_edge(&MazeDirection::EAST, EdgeType::Door { open: false }, &mut rand);
    let wall = cell.get_edge(&MazeDirection::NORTH).unwrap();
    assert_eq!(wall.get_edge_type(), EdgeType::Wall);
    assert_eq!(wall.get_maze_direction(), MazeDirection::NORTH);
    let door = cell.get_edge(&MazeDirection::EAST).unwrap();
    assert_eq!(door, MazeCellEdge::new(&MazeDirection::EAST, EdgeType::Door { open: false }));
    assert_eq!(cell.defined_edge_count(), 2);
    cell.set_door_open(MazeDirection::EAST, true);
    assert_eq!(
        cell.get_edge(&MazeDirection::EAST).unwrap().get_edge_type(),
        EdgeType::Door { open: true }
    );
    cell.set_door_open(MazeDirection::NORTH, true);
    assert_eq!(cell.get_edge(&MazeDirection::NORTH), Some(wall));
    cell.set_door_open(MazeDirection::WEST, true);
    assert_eq!(cell.get_edge(&MazeDirection::WEST), None);
}

#[test]
fn probabilities() {
    assert!(Probability::new(1, 0).is_none());
    assert!(Probability::new(0, 0).is_none());
    assert!(Probability::new(3, 2).is_none());
    let chance = Probability::new(2, 3).unwrap();
    assert_eq!((chance.numerator(), chance.denominator()), (2, 3));
    let chance = Probability::ratio(1, 8);
    assert_eq!((chance.numerator(), chance.denominator()), (1, 8));
}

#[test]
fn sampling_follows_the_chance() {
    let mut rand = seeded(5);
    let never = Probability::new(0, 7).unwrap();
    let always = Probability::new(7, 7).unwrap();
    let half = Probability::new(1, 2).unwrap();
    let mut hits = 0;
    for _ in 0..2000 {
        assert!(!never.sample(&mut rand));
        assert!(always.sample(&mut rand));
        if half.sample(&mut rand) {
            hits += 1;
        }
    }
    assert!(hits > 800 && hits < 1200, "{} hits of 2000", hits);
}

#[test]
fn choosing_draws_every_option() {
    let mut rand = seeded(12);
    let options = vec![10u32, 20, 30];
    let mut seen = [false; 3];
    for _ in 0..200 {
        let chosen = rand.choose_from(&options);
        seen[options.iter().position(|option| *option == chosen).unwrap()] = true;
    }
    assert_eq!(seen, [true; 3]);
    assert_eq!(rand.choose_from(&vec![5u8]), 5);
}

#[test]
fn paintings() {
    assert_eq!(PaintingType::get_painting_type_from_index(0), PaintingType::Square);
    assert_eq!(PaintingType::get_painting_type_from_index(1), PaintingType::LongHorizontal);
    assert_eq!(PaintingType::get_painting_type_from_index(2), PaintingType::Portrait);
    assert_eq!(PaintingType::Square.get_dimensions(), (2, 2));
    assert_eq!(PaintingType::LongHorizontal.get_dimensions(), (3, 1));
    assert_eq!(PaintingType::Portrait.get_dimensions(), (2, 3));
    assert_eq!(PaintingColor::get_painting_color_from_index(0), PaintingColor::Red);
    assert_eq!(PaintingColor::get_painting_color_from_index(1), PaintingColor::Yellow);
    assert_eq!(PaintingColor::get_painting_color_from_index(2), PaintingColor::Blue);
    assert_eq!(PaintingColor::Red.get_color(), (255, 0, 0));
    assert_eq!(PaintingColor::Yellow.get_color(), (255, 255, 0));
    assert_eq!(PaintingColor::Blue.get_color(), (0, 0, 255));
    assert_eq!(
        Painting::from_draws(1, 2, true),
        Painting {
            painting_type: PaintingType::LongHorizontal,
            painting_color: PaintingColor::Blue,
            is_north_west: true
        }
    );
}

#[test]
fn random_paintings() {
    let mut rand = seeded(4);
    let mut hung = 0;
    let mut types = [false; 3];
    let mut colors = [false; 3];
    let mut sides = [false; 2];
    for _ in 0..4000 {
        if let Some(painting) = Painting::generate_random_painting(&mut rand) {
            hung += 1;
            types[painting.painting_type as usize] = true;
            colors[painting.painting_color as usize] = true;
            sides[painting.is_north_west as usize] = true;
        }
    }
    assert!(hung > 800 && hung < 1200, "{} of 4000 walls got a painting", hung);
    assert_eq!(types, [true; 3]);
    assert_eq!(colors, [true; 3]);
    assert_eq!(sides, [true; 2]);
    let mut types = [false; 3];
    let mut colors = [false; 3];
    for _ in 0..100 {
        types[PaintingType::get_random_painting_type(&mut rand) as usize] = true;
        colors[PaintingColor::get_random_painting_color(&mut rand) as usize] = true;
    }
    assert_eq!(types, [true; 3]);
    assert_eq!(colors, [true; 3]);
}
