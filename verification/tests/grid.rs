use grid_world::{Action, Direction, State, World, ONE, WHOLE};

fn default_world() -> World {
    let mut world = World::new(4, 3);
    world.add_wall(1, 1);
    world.add_exit(3, 0, ONE);
    world.add_exit(3, 1, -ONE);
    world
}

#[test]
fn state_new_keeps_its_coordinates() {
    let state = State::new(3, 7);
    assert_eq!(state.x, 3);
    assert_eq!(state.y, 7);
    assert_eq!(state, State { x: 3, y: 7 });
    assert_ne!(state, State::new(7, 3));
}

#[test]
fn states_compare_and_hash_by_their_coordinates() {
    let mut seen = std::collections::HashMap::new();
    seen.insert((State::new(2, 1), 3), 720_000);
    seen.insert((State::new(1, 2), 3), 5);
    seen.insert((State::new(2, 1), 3), 784_800);
    assert_eq!(seen.len(), 2);
    assert_eq!(seen[&(State { x: 2, y: 1 }, 3)], 784_800);
    let copy = State::new(2, 1);
    let moved = copy;
    assert_eq!(copy, moved);
}

#[test]
fn new_world_is_open_and_without_exits() {
    let world = World::new(4, 3);
    assert_eq!(world.width, 4);
    assert_eq!(world.height, 3);
    assert_eq!(world.area(), 12);
    assert_eq!(world.board, vec![0; 12]);
    assert_eq!(world.exits, vec![None; 12]);
    for y in 0..3 {
        for x in 0..4 {
            assert!(world.valid_position(&State::new(x, y)));
            assert!(!world.can_exit(&State::new(x, y)));
        }
    }
}

#[test]
fn empty_world_has_no_cells() {
    let world = World::new(0, 5);
    assert_eq!(world.area(), 0);
    assert!(!world.valid_position(&State::new(0, 0)));
    assert!(!world.can_exit(&State::new(0, 0)));
    assert_eq!(world.move_to(&State::new(0, 0), Direction::Down), State::new(0, 0));
}

#[test]
fn add_wall_marks_one_cell() {
    let mut world = World::new(4, 3);
    world.add_wall(1, 1);
    assert_eq!(world.board[5], 1);
    assert_eq!(world.board.iter().filter(|cell| **cell != 0).count(), 1);
    assert!(!world.valid_position(&State::new(1, 1)));
    assert!(world.valid_position(&State::new(1, 0)));
    assert!(world.valid_position(&State::new(0, 1)));
}

#[test]
fn add_wall_off_the_grid_changes_nothing() {
    let mut world = World::new(4, 3);
    world.add_wall(4, 0);
    world.add_wall(0, 3);
    world.add_wall(5, 1);
    world.add_wall(usize::MAX, usize::MAX);
    assert_eq!(world.board, vec![0; 12]);
    assert_eq!(world.exits, vec![None; 12]);
}

#[test]
fn add_exit_stores_the_reward() {
    let mut world = World::new(4, 3);
    world.add_exit(3, 0, ONE);
    world.add_exit(3, 1, -ONE);
    assert_eq!(world.exits[3], Some(ONE));
    assert_eq!(world.exits[7], Some(-ONE));
    assert!(world.can_exit(&State::new(3, 0)));
    assert!(world.can_exit(&State::new(3, 1)));
    assert!(!world.can_exit(&State::new(3, 2)));
    assert_eq!(world.reward(&State::new(3, 0), Action::Exit), ONE);
    assert_eq!(world.reward(&State::new(3, 1), Action::Exit), -ONE);
}

#[test]
fn add_exit_off_the_grid_changes_nothing() {
    let mut world = World::new(4, 3);
    world.add_exit(4, 0, ONE);
    world.add_exit(0, 3, ONE);
    world.add_exit(7, 0, ONE);
    assert_eq!(world.exits, vec![None; 12]);
    assert_eq!(world.board, vec![0; 12]);
}

#[test]
fn positions_off_the_grid_are_neither_valid_nor_exits() {
    let world = default_world();
    assert!(!world.valid_position(&State::new(4, 0)));
    assert!(!world.valid_position(&State::new(0, 3)));
    assert!(!world.valid_position(&State::new(5, 0)));
    assert!(!world.can_exit(&State::new(7, 0)));
    assert!(!world.can_exit(&State::new(3, 3)));
    assert_eq!(world.reward(&State::new(7, 0), Action::Exit), 0);
}

#[test]
fn reward_is_zero_but_for_exit_from_an_exit() {
    let world = default_world();
    assert_eq!(world.reward(&State::new(0, 0), Action::Exit), 0);
    assert_eq!(world.reward(&State::new(3, 0), Action::Move(Direction::Up)), 0);
    assert_eq!(world.reward(&State::new(3, 0), Action::Nothing), 0);
    assert_eq!(world.reward(&State::new(3, 1), Action::Exit), -1_000_000);
}

#[test]
fn move_to_reaches_open_neighbours() {
    let world = default_world();
    let from = State::new(2, 1);
    assert_eq!(world.move_to(&from, Direction::Up), State::new(2, 0));
    assert_eq!(world.move_to(&from, Direction::Down), State::new(2, 2));
    assert_eq!(world.move_to(&from, Direction::Right), State::new(3, 1));
}

#[test]
fn move_to_stays_in_front_of_a_wall() {
    let world = default_world();
    assert_eq!(world.move_to(&State::new(2, 1), Direction::Left), State::new(2, 1));
    assert_eq!(world.move_to(&State::new(0, 1), Direction::Right), State::new(0, 1));
    assert_eq!(world.move_to(&State::new(1, 0), Direction::Down), State::new(1, 0));
    assert_eq!(world.move_to(&State::new(1, 2), Direction::Up), State::new(1, 2));
}

#[test]
fn move_to_stays_at_the_edge() {
    let world = default_world();
    assert_eq!(world.move_to(&State::new(0, 0), Direction::Up), State::new(0, 0));
    assert_eq!(world.move_to(&State::new(0, 0), Direction::Left), State::new(0, 0));
    assert_eq!(world.move_to(&State::new(3, 2), Direction::Down), State::new(3, 2));
    assert_eq!(world.move_to(&State::new(3, 2), Direction::Right), State::new(3, 2));
}

#[test]
fn move_to_repeated_at_a_boundary_stays() {
    let world = default_world();
    let once = world.move_to(&State::new(0, 2), Direction::Left);
    let twice = world.move_to(&once, Direction::Left);
    assert_eq!(once, State::new(0, 2));
    assert_eq!(twice, once);
}

#[test]
fn get_moves_gives_the_direction_and_its_orthogonals() {
    let world = World::new(1, 1);
    assert_eq!(
        world.get_moves(Direction::Up),
        [Direction::Up, Direction::Left, Direction::Right]
    );
    assert_eq!(
        world.get_moves(Direction::Down),
        [Direction::Down, Direction::Left, Direction::Right]
    );
    assert_eq!(
        world.get_moves(Direction::Left),
        [Direction::Left, Direction::Up, Direction::Down]
    );
    assert_eq!(
        world.get_moves(Direction::Right),
        [Direction::Right, Direction::Up, Direction::Down]
    );
}

#[test]
fn get_moves_never_gives_the_opposite() {
    let world = World::new(1, 1);
    let pairs = [
        (Direction::Up, Direction::Down),
        (Direction::Down, Direction::Up),
        (Direction::Left, Direction::Right),
        (Direction::Right, Direction::Left),
    ];
    for (direction, opposite) in pairs {
        let moves = world.get_moves(direction);
        assert_eq!(moves.len(), 3);
        assert!(!moves.contains(&opposite));
    }
}

#[test]
fn direction_from_index_runs_up_right_down_left() {
    assert_eq!(Direction::from_index(0), Direction::Up);
    assert_eq!(Direction::from_index(1), Direction::Right);
    assert_eq!(Direction::from_index(2), Direction::Down);
    assert_eq!(Direction::from_index(3), Direction::Left);
}

#[test]
fn transition_of_a_move_weighs_intended_and_slips() {
    let world = default_world();
    let entries = world
        .transition(&State::new(0, 0), Action::Move(Direction::Right), 800_000)
        .unwrap();
    assert_eq!(
        entries,
        vec![
            (1_600_000, Action::Move(Direction::Right)),
            (200_000, Action::Move(Direction::Up)),
            (200_000, Action::Move(Direction::Down)),
        ]
    );
}

#[test]
fn transition_weights_of_a_move_sum_to_the_whole() {
    let world = default_world();
    for noise in [0, 1, 333_333, 500_000, 800_000, 999_999, ONE] {
        for direction in [Direction::Up, Direction::Right, Direction::Down, Direction::Left] {
            let entries = world
                .transition(&State::new(2, 2), Action::Move(direction), noise)
                .unwrap();
            assert_eq!(entries.len(), 3);
            assert_eq!(entries[0].0 + entries[1].0 + entries[2].0, WHOLE);
            assert_eq!(entries[0].0, 2 * noise);
            assert_eq!(entries[1].0, entries[2].0);
        }
    }
}

#[test]
fn transition_noise_is_the_weight_of_the_intended_direction() {
    let world = default_world();
    let entries = world
        .transition(&State::new(0, 0), Action::Move(Direction::Up), 900_000)
        .unwrap();
    assert_eq!(entries[0], (1_800_000, Action::Move(Direction::Up)));
    assert_eq!(entries[1], (100_000, Action::Move(Direction::Left)));
    assert_eq!(entries[2], (100_000, Action::Move(Direction::Right)));
}

#[test]
fn transition_of_exit_is_certain_from_an_exit() {
    let world = default_world();
    assert_eq!(
        world.transition(&State::new(3, 0), Action::Exit, 800_000),
        Some(vec![(WHOLE, Action::Exit)])
    );
}

#[test]
fn transition_of_exit_from_another_cell_is_absent() {
    let world = default_world();
    assert_eq!(world.transition(&State::new(0, 0), Action::Exit, 800_000), None);
    assert_eq!(world.transition(&State::new(9, 9), Action::Exit, 800_000), None);
}

#[test]
fn transition_of_nothing_is_absent() {
    let world = default_world();
    assert_eq!(world.transition(&State::new(0, 0), Action::Nothing, 800_000), None);
    assert_eq!(world.transition(&State::new(3, 0), Action::Nothing, 800_000), None);
}

#[test]
fn standard_world_has_one_wall_and_two_exits() {
    let world = World::standard();
    assert_eq!(world.width, 4);
    assert_eq!(world.height, 3);
    assert_eq!(world.board, vec![0, 0, 0, 0, 0, 1, 0, 0, 0, 0, 0, 0]);
    let mut exits = vec![None; 12];
    exits[3] = Some(ONE);
    exits[7] = Some(-ONE);
    assert_eq!(world.exits, exits);
    assert_eq!(world.board, default_world().board);
    assert_eq!(world.exits, default_world().exits);
}
