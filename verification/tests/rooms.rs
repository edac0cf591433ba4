use maze_core::maze::maze_error::MazeError;
use maze_core::maze::maze_room::MazeRoomSettings;
use maze_core::maze::maze_room::MazeRooms;
use maze_core::position::Position;
use maze_core::random::Random;
use rand::SeedableRng;
use rand_chacha::ChaCha8Rng;

fn seeded(seed: u64) -> Random {
    Random(ChaCha8Rng::seed_from_u64(seed))
}

fn registry(themes: usize) -> MazeRooms {
    let mut rooms = MazeRooms::new();
    let settings =
        (0..themes).map(|index| MazeRoomSettings::new(format!("Theme {}", index))).collect();
    rooms.initialize_maze_rooms(settings);
    rooms
}

#[test]
fn a_new_registry_is_empty() {
    let rooms = MazeRooms::new();
    assert_eq!(rooms.get_room_count(), 0);
    assert_eq!(rooms.get_settings_count(), 0);
    assert!(rooms.get_room_by_position(Position::new(0, 0)).is_none());
}

#[test]
fn settings_are_registered_in_order() {
    let mut rooms = registry(3);
    assert_eq!(rooms.get_settings_count(), 3);
    assert_eq!(rooms.get_settings(0).name, "Theme 0");
    assert_eq!(rooms.get_settings(2).name, "Theme 2");
    rooms.create_room_with_settings(1);
    // Registering again starts without rooms.
    rooms.initialize_maze_rooms(vec![MazeRoomSettings::new(String::from("Kitchen"))]);
    assert_eq!(rooms.get_settings_count(), 1);
    assert_eq!(rooms.get_settings(0).name, "Kitchen");
    assert_eq!(rooms.get_room_count(), 0);
}

#[test]
fn the_draw_counts_through_the_settings_that_remain() {
    assert_eq!(MazeRooms::settings_index_for_draw(0, None), 0);
    assert_eq!(MazeRooms::settings_index_for_draw(3, None), 3);
    assert_eq!(MazeRooms::settings_index_for_draw(0, Some(0)), 1);
    assert_eq!(MazeRooms::settings_index_for_draw(1, Some(0)), 2);
    assert_eq!(MazeRooms::settings_index_for_draw(0, Some(2)), 0);
    assert_eq!(MazeRooms::settings_index_for_draw(1, Some(2)), 1);
    assert_eq!(MazeRooms::settings_index_for_draw(2, Some(2)), 3);
    assert_eq!(MazeRooms::settings_index_for_draw(2, Some(9)), 2);
}

#[test]
fn rooms_get_dense_indices() {
    let mut rooms = registry(4);
    let mut rand = seeded(1);
    for expected in 0..10 {
        assert_eq!(rooms.create_room_and_return_index(None, &mut rand), Ok(expected));
        assert_eq!(rooms.get_room_count(), expected + 1);
        let room = rooms.get_room(expected);
        assert!(room.get_settings_index() < 4);
        assert!(room.get_cells().is_empty());
        assert_eq!(room.get_merged_into(), None);
        assert_eq!(rooms.resolve_room_index(expected), expected);
    }
}

#[test]
fn the_excluded_settings_are_never_drawn_and_the_others_all_are() {
    let mut rand = seeded(6);
    for excluded in 0..4 {
        let mut rooms = registry(4);
        let mut seen = [false; 4];
        for _ in 0..200 {
            let index = rooms.create_room_and_return_index(Some(excluded), &mut rand).unwrap();
            seen[rooms.get_settings_index_from_room_index(index)] = true;
        }
        for theme in 0..4 {
            assert_eq!(seen[theme], theme != excluded);
        }
    }
    let mut rooms = registry(4);
    let mut seen = [false; 4];
    for _ in 0..200 {
        let index = rooms.create_room_and_return_index(None, &mut rand).unwrap();
        seen[rooms.get_settings_index_from_room_index(index)] = true;
    }
    assert_eq!(seen, [true; 4]);
    // Excluding an index that names no settings excludes nothing.
    let mut rooms = registry(2);
    let mut seen = [false; 2];
    for _ in 0..100 {
        let index = rooms.create_room_and_return_index(Some(usize::MAX), &mut rand).unwrap();
        seen[rooms.get_settings_index_from_room_index(index)] = true;
    }
    assert_eq!(seen, [true; 2]);
}

#[test]
fn no_room_without_settings() {
    let mut rand = seeded(1);
    let mut rooms = MazeRooms::new();
    assert_eq!(rooms.create_room_and_return_index(None, &mut rand), Err(MazeError::EmptySettings));
    assert_eq!(
        rooms.create_room_and_return_index(Some(0), &mut rand),
        Err(MazeError::EmptySettings)
    );
    assert_eq!(rooms.get_room_count(), 0);
}

#[test]
fn no_room_where_all_settings_are_excluded() {
    let mut rand = seeded(1);
    let mut rooms = registry(1);
    assert_eq!(
        rooms.create_room_and_return_index(Some(0), &mut rand),
        Err(MazeError::NoOtherSettings)
    );
    assert_eq!(rooms.get_room_count(), 0);
    assert_eq!(rooms.create_room_and_return_index(None, &mut rand), Ok(0));
    assert_eq!(rooms.create_room_and_return_index(Some(1), &mut rand), Ok(1));
    assert_eq!(rooms.get_room(1).get_settings_index(), 0);
}

#[test]
fn cells_join_a_room_in_order() {
    let mut rooms = registry(2);
    let first = rooms.create_room_with_settings(1);
    let second = rooms.create_room_with_settings(0);
    rooms.add_cell_to_room(Position::new(0, 0), first);
    rooms.add_cell_to_room(Position::new(5, 5), second);
    rooms.add_cell_to_room(Position::new(0, 1), first);
    assert_eq!(rooms.get_room(first).get_cells(), &vec![Position::new(0, 0), Position::new(0, 1)]);
    assert_eq!(rooms.get_room(second).get_cells(), &vec![Position::new(5, 5)]);
    assert!(rooms.get_room(first).get_room_has_position(Position::new(0, 1)));
    assert!(!rooms.get_room(first).get_room_has_position(Position::new(5, 5)));
    let found = rooms.get_room_by_position(Position::new(5, 5)).unwrap();
    assert_eq!(found.get_settings_index(), 0);
    assert_eq!(found.get_cells(), &vec![Position::new(5, 5)]);
    assert!(rooms.get_room_by_position(Position::new(9, 9)).is_none());
    assert_eq!(rooms.get_settings_index_from_room_index(first), 1);
    assert_eq!(rooms.get_settings_index_from_room_index(second), 0);
}

#[test]
fn a_merge_moves_the_cells_and_redirects_the_index() {
    let mut rooms = registry(3);
    let kept = rooms.create_room_with_settings(2);
    let absorbed = rooms.create_room_with_settings(1);
    let other = rooms.create_room_with_settings(0);
    rooms.add_cell_to_room(Position::new(0, 0), kept);
    rooms.add_cell_to_room(Position::new(1, 0), absorbed);
    rooms.add_cell_to_room(Position::new(2, 0), absorbed);
    rooms.add_cell_to_room(Position::new(3, 0), other);

    rooms.merge_rooms(kept, absorbed);

    assert_eq!(rooms.get_room_count(), 3);
    assert_eq!(
        rooms.get_room(kept).get_cells(),
        &vec![Position::new(0, 0), Position::new(1, 0), Position::new(2, 0)]
    );
    assert!(rooms.get_room(absorbed).get_cells().is_empty());
    assert_eq!(rooms.get_room(absorbed).get_merged_into(), Some(kept));
    assert_eq!(rooms.get_room(kept).get_merged_into(), None);
    assert_eq!(rooms.resolve_room_index(absorbed), kept);
    assert_eq!(rooms.resolve_room_index(kept), kept);
    assert_eq!(rooms.resolve_room_index(other), other);
    // The absorbed index takes the settings of the kept room.
    assert_eq!(rooms.get_settings_index_from_room_index(absorbed), 2);
    assert_eq!(rooms.get_settings_index_from_room_index(kept), 2);
    assert_eq!(rooms.get_settings_index_from_room_index(other), 0);
    assert_eq!(rooms.get_room(other).get_cells(), &vec![Position::new(3, 0)]);
}

#[test]
fn merges_chain_in_one_step() {
    let mut rooms = registry(1);
    let a = rooms.create_room_with_settings(0);
    let b = rooms.create_room_with_settings(0);
    let c = rooms.create_room_with_settings(0);
    rooms.add_cell_to_room(Position::new(0, 0), a);
    rooms.add_cell_to_room(Position::new(1, 0), b);
    rooms.add_cell_to_room(Position::new(2, 0), c);
    rooms.merge_rooms(b, c);
    assert_eq!(rooms.resolve_room_index(c), b);
    // Merging by an absorbed index merges the room that owns it.
    rooms.merge_rooms(a, c);
    assert_eq!(rooms.resolve_room_index(a), a);
    assert_eq!(rooms.resolve_room_index(b), a);
    assert_eq!(rooms.resolve_room_index(c), a);
    assert_eq!(rooms.get_room(b).get_merged_into(), Some(a));
    assert_eq!(rooms.get_room(c).get_merged_into(), Some(a));
    assert_eq!(
        rooms.get_room(a).get_cells(),
        &vec![Position::new(0, 0), Position::new(1, 0), Position::new(2, 0)]
    );
    // Merging what is one room already changes nothing.
    rooms.merge_rooms(c, b);
    rooms.merge_rooms(a, a);
    assert_eq!(rooms.get_room(a).get_cells().len(), 3);
    assert_eq!(rooms.get_room(a).get_merged_into(), None);
}
