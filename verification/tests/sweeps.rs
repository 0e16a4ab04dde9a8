use grid_world::bellman::best_place;
use grid_world::fixed::{scale, weigh};
use grid_world::solver::has_settled;
use grid_world::{Action, Analysis, Direction, State, World, ONE};

fn default_world() -> World {
    let mut world = World::new(4, 3);
    world.add_wall(1, 1);
    world.add_exit(3, 0, ONE);
    world.add_exit(3, 1, -ONE);
    world
}

const SECOND_SWEEP: [i64; 12] = [0, 0, 720_000, 1_000_000, 0, 0, 0, -1_000_000, 0, 0, 0, 0];

#[test]
fn scale_rounds_toward_zero() {
    assert_eq!(scale(900_000, 1_000_000), 900_000);
    assert_eq!(scale(900_000, 7), 6);
    assert_eq!(scale(900_000, -7), -6);
    assert_eq!(scale(0, 123_456), 0);
    assert_eq!(scale(ONE, -123_456), -123_456);
    assert_eq!(scale(ONE, 1_000_000_000_000), 1_000_000_000_000);
}

#[test]
fn weigh_rounds_toward_zero() {
    assert_eq!(weigh(1_600_000, 900_000), 720_000);
    assert_eq!(weigh(200_000, -6), 0);
    assert_eq!(weigh(1_600_000, -6), -4);
    assert_eq!(weigh(2_000_000, -1_000_000_000_000), -1_000_000_000_000);
    assert_eq!(weigh(666_667, 648_000), 216_000);
}

#[test]
fn best_place_takes_the_first_of_equals() {
    assert_eq!(best_place(&[0, 0, 0, 0]), 0);
    assert_eq!(best_place(&[1, 5, 5, 2]), 1);
    assert_eq!(best_place(&[-3, -2, -1, -1]), 2);
    assert_eq!(best_place(&[0, 1, 2, 3]), 3);
    assert_eq!(best_place(&[7, 1, 7, 7]), 0);
}

#[test]
fn value_of_exit_is_the_reward_undiscounted() {
    let world = default_world();
    let values = vec![123_456; 12];
    assert_eq!(world.value(&State::new(3, 0), Action::Exit, 900_000, 800_000, &values), ONE);
    assert_eq!(world.value(&State::new(3, 1), Action::Exit, 100_000, 800_000, &values), -ONE);
    assert_eq!(world.value(&State::new(0, 0), Action::Exit, 900_000, 800_000, &values), 0);
}

#[test]
fn value_of_nothing_is_zero() {
    let world = default_world();
    let values = vec![123_456; 12];
    assert_eq!(world.value(&State::new(1, 1), Action::Nothing, 900_000, 800_000, &values), 0);
}

#[test]
fn value_of_a_move_is_the_expectation() {
    let world = default_world();
    let values = SECOND_SWEEP.to_vec();
    let state = State::new(2, 0);
    // 0.8 * 0.9 * 1.0 + 0.1 * 0.9 * 0.72 + 0.1 * 0.9 * 0.0
    assert_eq!(
        world.value(&state, Action::Move(Direction::Right), 900_000, 800_000, &values),
        784_800
    );
    // 0.8 * 0.9 * 0.72 + 0.1 * 0.9 * 0.0 + 0.1 * 0.9 * 1.0
    assert_eq!(
        world.value(&state, Action::Move(Direction::Up), 900_000, 800_000, &values),
        608_400
    );
    assert_eq!(
        world.value(&State::new(2, 1), Action::Move(Direction::Right), 900_000, 800_000, &values),
        -655_200
    );
}

#[test]
fn value_of_a_move_with_an_odd_noise() {
    let world = default_world();
    let values = SECOND_SWEEP.to_vec();
    assert_eq!(
        world.value(&State::new(2, 0), Action::Move(Direction::Right), 900_000, 333_333, &values),
        515_999
    );
}

#[test]
fn value_of_a_move_rounds_each_term_toward_zero() {
    let world = default_world();
    let values = vec![-7; 12];
    assert_eq!(
        world.value(&State::new(0, 0), Action::Move(Direction::Up), 900_000, 800_000, &values),
        -4
    );
}

#[test]
fn q_values_of_run_up_right_down_left() {
    let world = default_world();
    let values = vec![0, 0, 0, ONE, 0, 0, 0, -ONE, 0, 0, 0, 0];
    assert_eq!(
        world.q_values_of(&State::new(2, 0), 900_000, 800_000, &values),
        [90_000, 720_000, 90_000, 0]
    );
    assert_eq!(
        world.q_values_of(&State::new(3, 2), 900_000, 800_000, &values),
        [-720_000, -90_000, 0, -90_000]
    );
}

#[test]
fn first_optimality_sweep_brings_the_rewards_in() {
    let world = default_world();
    let values = vec![0; 12];
    let mut q_values = vec![[0; 4]; 12];
    let swept = world.value_bellman_update(900_000, 800_000, &values, &mut q_values);
    assert_eq!(swept, vec![0, 0, 0, ONE, 0, 0, 0, -ONE, 0, 0, 0, 0]);
    assert_eq!(q_values, vec![[0; 4]; 12]);
}

#[test]
fn second_optimality_sweep_reaches_the_neighbours() {
    let world = default_world();
    let values = vec![0, 0, 0, ONE, 0, 0, 0, -ONE, 0, 0, 0, 0];
    let mut q_values = vec![[0; 4]; 12];
    let swept = world.value_bellman_update(900_000, 800_000, &values, &mut q_values);
    assert_eq!(swept, SECOND_SWEEP.to_vec());
    assert_eq!(q_values[2], [90_000, 720_000, 90_000, 0]);
    assert_eq!(q_values[6], [-90_000, -720_000, -90_000, 0]);
    assert_eq!(q_values[11], [-720_000, -90_000, 0, -90_000]);
    assert_eq!(q_values[0], [0; 4]);
}

#[test]
fn optimality_sweep_reads_only_the_previous_values() {
    let world = default_world();
    let values = SECOND_SWEEP.to_vec();
    let mut q_values = vec![[0; 4]; 12];
    let swept = world.value_bellman_update(900_000, 800_000, &values, &mut q_values);
    // An in-place sweep would have let cell (2, 1) see the fresh 0.7848 of
    // cell (2, 0) above it.
    assert_eq!(
        swept,
        vec![0, 518_400, 784_800, ONE, 0, 0, 428_400, -ONE, 0, 0, 0, 0]
    );
    assert_eq!(values, SECOND_SWEEP.to_vec());
}

#[test]
fn optimality_sweep_leaves_rows_of_walls_and_exits() {
    let world = default_world();
    let values = SECOND_SWEEP.to_vec();
    let mut q_values = vec![[7; 4]; 12];
    world.value_bellman_update(900_000, 800_000, &values, &mut q_values);
    assert_eq!(q_values[3], [7; 4]);
    assert_eq!(q_values[5], [7; 4]);
    assert_eq!(q_values[7], [7; 4]);
    assert_eq!(q_values[2], [608_400, 784_800, 90_000, 64_800]);
}

#[test]
fn optimality_sweep_gives_a_wall_that_is_also_an_exit_zero() {
    let mut world = World::new(2, 1);
    world.add_wall(1, 0);
    world.add_exit(1, 0, ONE);
    let mut q_values = vec![[0; 4]; 2];
    let swept = world.value_bellman_update(900_000, 800_000, &vec![0; 2], &mut q_values);
    assert_eq!(swept, vec![0, 0]);
    assert_eq!(world.generate_policy(&q_values)[1], Action::Nothing);
}

#[test]
fn generate_policy_is_greedy() {
    let world = default_world();
    let mut q_values = vec![[0; 4]; 12];
    q_values[0] = [1, 2, 3, 4];
    q_values[1] = [5, 5, 1, 1];
    q_values[2] = [90_000, 720_000, 90_000, 0];
    q_values[4] = [-1, -1, 9, -1];
    q_values[3] = [0, 9, 0, 0];
    q_values[5] = [0, 9, 0, 0];
    let policy = world.generate_policy(&q_values);
    assert_eq!(policy[0], Action::Move(Direction::Left));
    assert_eq!(policy[1], Action::Move(Direction::Up));
    assert_eq!(policy[2], Action::Move(Direction::Right));
    assert_eq!(policy[4], Action::Move(Direction::Down));
    assert_eq!(policy[3], Action::Exit);
    assert_eq!(policy[7], Action::Exit);
    assert_eq!(policy[5], Action::Nothing);
    assert_eq!(policy[8], Action::Move(Direction::Up));
}

#[test]
fn generate_random_policy_is_the_fixed_default() {
    let world = default_world();
    let up = Action::Move(Direction::Up);
    let expected = vec![
        up,
        up,
        up,
        Action::Exit,
        up,
        Action::Nothing,
        up,
        Action::Exit,
        up,
        up,
        up,
        up,
    ];
    assert_eq!(world.generate_random_policy(), expected);
    assert_eq!(world.generate_random_policy(), expected);
}

#[test]
fn expectation_sweep_follows_the_policy() {
    let mut world = default_world();
    let policy = world.generate_random_policy();
    let values = vec![0, 0, 0, ONE, 0, 0, 0, -ONE, 0, 0, 0, 0];
    let swept = world.policy_bellman_update(900_000, 800_000, &policy, &values);
    assert_eq!(
        swept,
        vec![0, 0, 90_000, ONE, 0, 0, -90_000, -ONE, 0, 0, 0, -720_000]
    );
}

#[test]
fn expectation_sweep_takes_exit_and_nothing_as_the_policy_says() {
    let mut world = default_world();
    let mut policy = vec![Action::Nothing; 12];
    policy[0] = Action::Exit;
    policy[3] = Action::Exit;
    let values = vec![ONE; 12];
    let swept = world.policy_bellman_update(900_000, 800_000, &policy, &values);
    assert_eq!(swept, vec![0, 0, 0, ONE, 0, 0, 0, 0, 0, 0, 0, 0]);
}

#[test]
fn policy_improvement_picks_the_best_move() {
    let world = default_world();
    let policy = world.generate_random_policy();
    let values = SECOND_SWEEP.to_vec();
    let mut q_values = vec![[7; 4]; 12];
    let (improved, stable) =
        world.policy_improvement(900_000, 800_000, &policy, &values, &mut q_values);
    let up = Action::Move(Direction::Up);
    let right = Action::Move(Direction::Right);
    assert_eq!(
        improved,
        vec![
            up,
            right,
            right,
            Action::Exit,
            up,
            Action::Nothing,
            up,
            Action::Exit,
            up,
            up,
            up,
            Action::Move(Direction::Down),
        ]
    );
    assert!(!stable);
    assert_eq!(q_values[2], [608_400, 784_800, 90_000, 64_800]);
    assert_eq!(q_values[3], [7; 4]);
    assert_eq!(q_values[5], [7; 4]);
}

#[test]
fn policy_improvement_is_stable_when_nothing_changes() {
    let world = default_world();
    let policy = world.generate_random_policy();
    let values = vec![0; 12];
    let mut q_values = vec![[0; 4]; 12];
    let (improved, stable) =
        world.policy_improvement(900_000, 800_000, &policy, &values, &mut q_values);
    assert_eq!(improved, policy);
    assert!(stable);
}

#[test]
fn policy_improvement_of_no_cells_is_stable() {
    let world = World::new(0, 0);
    let mut q_values = vec![];
    let (improved, stable) =
        world.policy_improvement(900_000, 800_000, &vec![], &vec![], &mut q_values);
    assert!(improved.is_empty());
    assert!(stable);
}

#[test]
fn policy_improvement_is_unstable_when_only_the_last_cell_changes() {
    let mut world = World::new(2, 1);
    world.add_exit(0, 0, ONE);
    // From (1, 0) a move left reaches the exit; the default is a move up.
    let policy = world.generate_random_policy();
    let values = vec![ONE, 0];
    let mut q_values = vec![[0; 4]; 2];
    let (improved, stable) =
        world.policy_improvement(900_000, 800_000, &policy, &values, &mut q_values);
    assert_eq!(improved, vec![Action::Exit, Action::Move(Direction::Left)]);
    assert!(!stable);
}

#[test]
fn has_settled_takes_the_largest_signed_change() {
    let before = vec![500_000, 500_000, 500_000];
    // Two cells fell by a lot, one by very little: the largest signed change
    // is the small fall.
    let after = vec![100_000, 499_990, 200_000];
    assert!(has_settled(&after, &before, 100));
    // One cell rose by a lot.
    let after = vec![500_000, 900_000, 500_000];
    assert!(!has_settled(&after, &before, 100));
    // Every cell fell by a lot.
    let after = vec![100_000, 100_000, 100_000];
    assert!(!has_settled(&after, &before, 100));
}

#[test]
fn has_settled_compares_strictly_with_epsilon() {
    let before = vec![0, 0];
    assert!(has_settled(&vec![99, -5], &before, 100));
    assert!(!has_settled(&vec![100, -5], &before, 100));
    assert!(has_settled(&vec![-99, -500], &before, 100));
    assert!(!has_settled(&vec![-100, -500], &before, 100));
    assert!(!has_settled(&vec![0, 0], &before, 0));
    assert!(!has_settled(&vec![0, 0], &before, -1));
    assert!(has_settled(&vec![0, 0], &before, 1));
}

#[test]
fn has_settled_is_false_without_cells() {
    assert!(!has_settled(&vec![], &vec![], 100));
    assert!(!has_settled(&vec![], &vec![], i64::MAX));
}

#[test]
fn analysis_min_and_max() {
    let values = vec![644_962, -1_000_000, 0, 1_000_000, 277_265];
    assert_eq!(Analysis::min(&values), -1_000_000);
    assert_eq!(Analysis::max(&values), 1_000_000);
    assert_eq!(Analysis::min(&vec![5]), 5);
    assert_eq!(Analysis::max(&vec![5]), 5);
    assert_eq!(Analysis::min(&vec![]), i64::MAX);
    assert_eq!(Analysis::max(&vec![]), i64::MIN);
}
