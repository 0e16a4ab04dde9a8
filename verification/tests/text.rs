use grid_world::decimal::parse_scalar;
use grid_world::format::{parse, parse_index, Description, LoadError};
use grid_world::{Action, State, World, ONE};

fn default_world() -> World {
    let mut world = World::new(4, 3);
    world.add_wall(1, 1);
    world.add_exit(3, 0, ONE);
    world.add_exit(3, 1, -ONE);
    world
}

fn same_cells(a: &World, b: &World) -> bool {
    if a.width != b.width || a.height != b.height {
        return false;
    }
    for y in 0..a.height {
        for x in 0..a.width {
            let state = State::new(x, y);
            if a.valid_position(&state) != b.valid_position(&state)
                || a.can_exit(&state) != b.can_exit(&state)
                || a.reward(&state, Action::Exit) != b.reward(&state, Action::Exit)
            {
                return false;
            }
        }
    }
    true
}

fn error_of(text: &str) -> LoadError {
    match World::load(text.as_bytes()) {
        Ok(_) => panic!("the text was read"),
        Err(error) => error,
    }
}

#[test]
fn load_reads_the_default_world() {
    let text = "# The default world\nDimension 4,3\nWall 1,1\nExit 3,0,1.0\nExit 3,1,-1.0\n";
    let world = World::load(text.as_bytes()).unwrap();
    assert_eq!(world.width, 4);
    assert_eq!(world.height, 3);
    assert_eq!(world.board, default_world().board);
    assert_eq!(world.exits, default_world().exits);
    assert!(same_cells(&world, &default_world()));
}

#[test]
fn load_of_an_empty_text_is_an_empty_world() {
    let world = World::load(b"").unwrap();
    assert_eq!(world.width, 0);
    assert_eq!(world.height, 0);
    assert_eq!(world.area(), 0);
}

#[test]
fn load_passes_over_comments_and_other_lines() {
    let text = "#Wall 0,0\n   # Dimension 9,9\n\nhello world\nDimension 2,2\nwall 0,0\n  \t\nexit 1,1,1.0\n";
    let world = World::load(text.as_bytes()).unwrap();
    assert_eq!(world.width, 2);
    assert_eq!(world.height, 2);
    assert_eq!(world.board, vec![0; 4]);
    assert_eq!(world.exits, vec![None; 4]);
}

#[test]
fn load_takes_the_last_dimension() {
    let text = "Dimension 9,9\nWall 1,1\nDimension 4,3";
    let world = World::load(text.as_bytes()).unwrap();
    assert_eq!(world.width, 4);
    assert_eq!(world.height, 3);
    assert_eq!(world.board[5], 1);
}

#[test]
fn load_places_walls_and_exits_once_the_size_is_known() {
    let text = "Wall 1,1\nExit 3,0,1\nDimension 4,3\n";
    let world = World::load(text.as_bytes()).unwrap();
    assert!(!world.valid_position(&State::new(1, 1)));
    assert_eq!(world.reward(&State::new(3, 0), Action::Exit), ONE);
}

#[test]
fn load_passes_over_walls_and_exits_off_the_grid() {
    let text = "Dimension 2,2\nWall 2,0\nWall 0,2\nExit 5,5,1.0\nWall 3,0\n";
    let world = World::load(text.as_bytes()).unwrap();
    assert_eq!(world.board, vec![0; 4]);
    assert_eq!(world.exits, vec![None; 4]);
}

#[test]
fn load_lets_a_later_exit_replace_an_earlier_one() {
    let text = "Dimension 2,1\nExit 1,0,0.25\nExit 1,0,-0.5\n";
    let world = World::load(text.as_bytes()).unwrap();
    assert_eq!(world.exits, vec![None, Some(-500_000)]);
}

#[test]
fn load_trims_blanks_and_reads_carriage_returns() {
    let text = "  Dimension   3,1  \r\n\tWall\t1,0\r\nExit 2,0,+2.5\r\n";
    let world = World::load(text.as_bytes()).unwrap();
    assert_eq!(world.width, 3);
    assert_eq!(world.height, 1);
    assert_eq!(world.board, vec![0, 1, 0]);
    assert_eq!(world.exits, vec![None, None, Some(2_500_000)]);
}

#[test]
fn load_reads_only_the_entry_after_the_keyword() {
    let text = "Dimension 3,1 9,9\nWall 1,0,7 ignored\nExit 2,0,1,5\n";
    let world = World::load(text.as_bytes()).unwrap();
    assert_eq!(world.width, 3);
    assert_eq!(world.height, 1);
    assert_eq!(world.board, vec![0, 1, 0]);
    assert_eq!(world.exits, vec![None, None, Some(ONE)]);
}

#[test]
fn load_knows_a_line_by_its_whole_keyword() {
    let text = "Dimension 2,2\nWallpaper 0,0\nWalls 1,1\nExits 0,1,1.0\nDimension4,3 1,2\nDimensions 9,9\n";
    let world = World::load(text.as_bytes()).unwrap();
    assert_eq!(world.width, 2);
    assert_eq!(world.height, 2);
    assert_eq!(world.board, vec![0; 4]);
    assert_eq!(world.exits, vec![None; 4]);
    assert!(World::load(b"Wallpaper\n").is_ok());
    assert!(World::load(b"Exits\n").is_ok());
    assert!(World::load(b"Dimension4,3\n").is_ok());
    assert!(World::load(b"wall\nEXIT\ndimension\n").is_ok());
}

#[test]
fn load_passes_over_a_comment_that_names_a_keyword() {
    let text = "Dimension 2,1\n#Wall 0,0\n# Wall 0,0\n#\n  #Exit\n";
    let world = World::load(text.as_bytes()).unwrap();
    assert_eq!(world.board, vec![0, 0]);
    assert_eq!(world.exits, vec![None; 2]);
}

#[test]
fn load_reads_rewards_with_an_exponent() {
    let text = "Dimension 4,1\nExit 0,0,1e3\nExit 1,0,-2.5E-1\nExit 2,0,1e-7\nExit 3,0,+.5e+1\n";
    let world = World::load(text.as_bytes()).unwrap();
    assert_eq!(
        world.exits,
        vec![Some(1_000_000_000), Some(-250_000), Some(0), Some(5_000_000)]
    );
    assert_eq!(error_of("Exit 0,0,1e7"), LoadError::InvalidReward);
    assert_eq!(error_of("Exit 0,0,1e"), LoadError::InvalidReward);
    assert_eq!(error_of("Exit 0,0,inf"), LoadError::InvalidReward);
    assert_eq!(error_of("Exit 0,0,NaN"), LoadError::InvalidReward);
}

#[test]
fn load_fails_on_a_keyword_without_entry() {
    assert_eq!(error_of("Dimension"), LoadError::MissingEntry);
    assert_eq!(error_of("Dimension 2,2\nWall   \n"), LoadError::MissingEntry);
    assert_eq!(error_of("Exit\n"), LoadError::MissingEntry);
}

#[test]
fn load_fails_on_a_malformed_dimension() {
    assert_eq!(error_of("Dimension x,3"), LoadError::InvalidWidth);
    assert_eq!(error_of("Dimension ,3"), LoadError::InvalidWidth);
    assert_eq!(error_of("Dimension -4,3"), LoadError::InvalidWidth);
    assert_eq!(error_of("Dimension 4"), LoadError::MissingHeight);
    assert_eq!(error_of("Dimension 4,"), LoadError::InvalidHeight);
    assert_eq!(error_of("Dimension 4, 3"), LoadError::InvalidHeight);
    assert_eq!(error_of("Dimension 4,3.0"), LoadError::InvalidHeight);
}

#[test]
fn load_fails_on_a_malformed_wall() {
    assert_eq!(error_of("Wall a,1"), LoadError::InvalidX);
    assert_eq!(error_of("Wall 1"), LoadError::MissingY);
    assert_eq!(error_of("Wall 1,b"), LoadError::InvalidY);
    assert_eq!(error_of("Wall 1,99999999999999999999999999"), LoadError::InvalidY);
}

#[test]
fn load_fails_on_a_malformed_exit() {
    assert_eq!(error_of("Exit a,1,1.0"), LoadError::InvalidX);
    assert_eq!(error_of("Exit 1"), LoadError::MissingY);
    assert_eq!(error_of("Exit 1,b,1.0"), LoadError::InvalidY);
    assert_eq!(error_of("Exit 1,1"), LoadError::MissingReward);
    assert_eq!(error_of("Exit 1,1,"), LoadError::InvalidReward);
    assert_eq!(error_of("Exit 1,1,one"), LoadError::InvalidReward);
    assert_eq!(error_of("Exit 1,1,1.0.0"), LoadError::InvalidReward);
    assert_eq!(error_of("Exit 1,1,1000000.000001"), LoadError::InvalidReward);
}

#[test]
fn load_reports_the_first_line_that_fails() {
    assert_eq!(error_of("Wall 1\nDimension x,y\n"), LoadError::MissingY);
    assert_eq!(error_of("Dimension 2,2\nExit 0,0,?\nWall"), LoadError::InvalidReward);
}

#[test]
fn load_fails_on_a_grid_beyond_counting() {
    let text = format!("Dimension {},{}\n", usize::MAX, 2);
    assert_eq!(error_of(&text), LoadError::TooLarge);
}

#[test]
fn parse_keeps_the_order_of_the_lines() {
    let description = parse(b"Wall 3,4\nExit 1,2,0.5\nWall 0,0\nDimension 7,8\n").unwrap();
    assert_eq!(description.width, 7);
    assert_eq!(description.height, 8);
    assert_eq!(description.walls, vec![(3, 4), (0, 0)]);
    assert_eq!(description.exits, vec![(1, 2, 500_000)]);
}

#[test]
fn parse_index_reads_digits_after_an_optional_plus() {
    assert_eq!(parse_index(b"0"), Some(0));
    assert_eq!(parse_index(b"42"), Some(42));
    assert_eq!(parse_index(b"+42"), Some(42));
    assert_eq!(parse_index(b"007"), Some(7));
    assert_eq!(parse_index(usize::MAX.to_string().as_bytes()), Some(usize::MAX));
    assert_eq!(parse_index(b""), None);
    assert_eq!(parse_index(b"+"), None);
    assert_eq!(parse_index(b"-1"), None);
    assert_eq!(parse_index(b"4 "), None);
    assert_eq!(parse_index(b"4x"), None);
    assert_eq!(parse_index(b"++4"), None);
    assert_eq!(parse_index(b"18446744073709551616"), None);
    assert_eq!(parse_index(b"99999999999999999999x"), None);
}

#[test]
fn parse_scalar_reads_decimals() {
    assert_eq!(parse_scalar(b"1.0"), Some(1_000_000));
    assert_eq!(parse_scalar(b"-1.0"), Some(-1_000_000));
    assert_eq!(parse_scalar(b"+1.5"), Some(1_500_000));
    assert_eq!(parse_scalar(b"0.04"), Some(40_000));
    assert_eq!(parse_scalar(b"3"), Some(3_000_000));
    assert_eq!(parse_scalar(b"3."), Some(3_000_000));
    assert_eq!(parse_scalar(b".5"), Some(500_000));
    assert_eq!(parse_scalar(b"-.000001"), Some(-1));
    assert_eq!(parse_scalar(b"0.1234567"), Some(123_456));
    assert_eq!(parse_scalar(b"-0.9999999"), Some(-999_999));
    assert_eq!(parse_scalar(b"-0"), Some(0));
    assert_eq!(parse_scalar(b"000012.340000000000000000000000"), Some(12_340_000));
    assert_eq!(parse_scalar(b"1000000"), Some(1_000_000_000_000));
    assert_eq!(parse_scalar(b"-1000000.0000009"), Some(-1_000_000_000_000));
}

#[test]
fn parse_scalar_refuses_what_is_no_decimal_in_range() {
    assert_eq!(parse_scalar(b""), None);
    assert_eq!(parse_scalar(b"."), None);
    assert_eq!(parse_scalar(b"-"), None);
    assert_eq!(parse_scalar(b"+."), None);
    assert_eq!(parse_scalar(b"1.2.3"), None);
    assert_eq!(parse_scalar(b"--1"), None);
    assert_eq!(parse_scalar(b"1,5"), None);
    assert_eq!(parse_scalar(b"inf"), None);
    assert_eq!(parse_scalar(b"-inf"), None);
    assert_eq!(parse_scalar(b"infinity"), None);
    assert_eq!(parse_scalar(b"nan"), None);
    assert_eq!(parse_scalar(b"NaN"), None);
    assert_eq!(parse_scalar(b"1e"), None);
    assert_eq!(parse_scalar(b"1e+"), None);
    assert_eq!(parse_scalar(b"e5"), None);
    assert_eq!(parse_scalar(b".e5"), None);
    assert_eq!(parse_scalar(b"1e2.5"), None);
    assert_eq!(parse_scalar(b"1e2e3"), None);
    assert_eq!(parse_scalar(b"1e 3"), None);
    assert_eq!(parse_scalar(b"1e7"), None);
    assert_eq!(parse_scalar(b"0.1e8"), None);
    assert_eq!(parse_scalar(b"1e99999999999999999999999999999999999999999"), None);
    assert_eq!(parse_scalar(b"abc"), None);
    assert_eq!(parse_scalar(b"1.5x"), None);
    assert_eq!(parse_scalar(b"1000001"), None);
    assert_eq!(parse_scalar(b"1000000.000001"), None);
    assert_eq!(parse_scalar(b"99999999999999999999999999999"), None);
}

#[test]
fn save_writes_the_default_world() {
    let text = default_world().save();
    assert_eq!(
        String::from_utf8(text).unwrap(),
        "Dimension 4,3\nWall 1,1\nExit 3,0,1.000000\nExit 3,1,-1.000000\n"
    );
}

#[test]
fn save_writes_walls_before_exits_in_the_order_of_the_cells() {
    let mut world = World::new(3, 2);
    world.add_exit(2, 1, 250_000);
    world.add_wall(1, 1);
    world.add_exit(0, 0, -5);
    world.add_wall(2, 0);
    assert_eq!(
        String::from_utf8(world.save()).unwrap(),
        "Dimension 3,2\nWall 2,0\nWall 1,1\nExit 0,0,-0.000005\nExit 2,1,0.250000\n"
    );
}

#[test]
fn save_of_a_world_without_cells_is_its_size() {
    assert_eq!(String::from_utf8(World::new(0, 0).save()).unwrap(), "Dimension 0,0\n");
    assert_eq!(String::from_utf8(World::new(0, 12).save()).unwrap(), "Dimension 0,12\n");
}

#[test]
fn save_writes_rewards_with_six_digits() {
    let mut world = World::new(5, 1);
    world.add_exit(0, 0, 0);
    world.add_exit(1, 0, 1_000_000_000_000);
    world.add_exit(2, 0, -1_000_000_000_000);
    world.add_exit(3, 0, 123_456_789);
    world.add_exit(4, 0, -1);
    assert_eq!(
        String::from_utf8(world.save()).unwrap(),
        "Dimension 5,1\nExit 0,0,0.000000\nExit 1,0,1000000.000000\nExit 2,0,-1000000.000000\nExit 3,0,123.456789\nExit 4,0,-0.000001\n"
    );
}

#[test]
fn save_then_load_gives_the_same_cells() {
    let mut busy = World::new(5, 4);
    busy.add_wall(1, 1);
    busy.add_wall(3, 1);
    busy.add_wall(4, 3);
    busy.add_exit(4, 0, 2 * ONE);
    busy.add_exit(0, 3, -3 * ONE - 7);
    busy.add_exit(3, 1, 1);
    busy.add_exit(2, 2, 0);
    let mut edge = World::new(2, 1);
    edge.add_exit(0, 0, 1_000_000_000_000);
    edge.add_exit(1, 0, -1_000_000_000_000);
    for world in [default_world(), busy, edge, World::new(1, 1), World::new(0, 0), World::new(7, 0)] {
        let loaded = World::load(&world.save()).unwrap();
        assert!(same_cells(&world, &loaded));
        assert_eq!(loaded.exits, world.exits);
        assert_eq!(loaded.save(), world.save());
    }
}

#[test]
fn save_then_load_turns_every_wall_into_a_plain_wall() {
    let mut world = World::new(2, 2);
    world.board[3] = 7;
    let loaded = World::load(&world.save()).unwrap();
    assert_eq!(loaded.board, vec![0, 0, 0, 1]);
    assert!(same_cells(&world, &loaded));
}

#[test]
fn load_then_solve() {
    let text = "Dimension 4,3\nWall 1,1\nExit 3,0,1.0\nExit 3,1,-1.0\n";
    let mut world = World::load(text.as_bytes()).unwrap();
    let found = world.value_iteration(900_000, 800_000, 100, 1000).unwrap();
    assert_eq!(found.iterations, 19);
    assert_eq!(found.values[0], 644_962);
}

#[test]
fn build_places_walls_then_exits() {
    let description = Description {
        width: 3,
        height: 2,
        walls: vec![(1, 0), (9, 9), (2, 1)],
        exits: vec![(0, 0, 5), (0, 0, -7), (3, 0, 1), (2, 1, ONE)],
    };
    let world = match World::build(&description) {
        Ok(world) => world,
        Err(_) => panic!("the description was refused"),
    };
    assert_eq!(world.width, 3);
    assert_eq!(world.height, 2);
    assert_eq!(world.board, vec![0, 1, 0, 0, 0, 1]);
    assert_eq!(world.exits, vec![Some(-7), None, None, None, None, Some(ONE)]);
}

#[test]
fn build_fails_on_a_grid_beyond_counting() {
    let description = Description {
        width: usize::MAX,
        height: 2,
        walls: vec![],
        exits: vec![],
    };
    assert!(matches!(World::build(&description), Err(LoadError::TooLarge)));
}

#[test]
fn parse_scalar_reads_exponents() {
    assert_eq!(parse_scalar(b"1e3"), Some(1_000_000_000));
    assert_eq!(parse_scalar(b"1E3"), Some(1_000_000_000));
    assert_eq!(parse_scalar(b"1e+2"), Some(100_000_000));
    assert_eq!(parse_scalar(b"+1E+0"), Some(1_000_000));
    assert_eq!(parse_scalar(b"1.5e-3"), Some(1_500));
    assert_eq!(parse_scalar(b"-2.5e1"), Some(-25_000_000));
    assert_eq!(parse_scalar(b".5e1"), Some(5_000_000));
    assert_eq!(parse_scalar(b"5.e-1"), Some(500_000));
    assert_eq!(parse_scalar(b"1e6"), Some(1_000_000_000_000));
    assert_eq!(parse_scalar(b"-1e6"), Some(-1_000_000_000_000));
    assert_eq!(parse_scalar(b"1e-6"), Some(1));
    assert_eq!(parse_scalar(b"1e-7"), Some(0));
    assert_eq!(parse_scalar(b"9.99e-7"), Some(0));
    assert_eq!(parse_scalar(b"1234567e-12"), Some(1));
    assert_eq!(parse_scalar(b"0.0000009e1"), Some(9));
    assert_eq!(parse_scalar(b"00000.00000123e8"), Some(123_000_000));
    assert_eq!(parse_scalar(b"123456789e-3"), Some(123_456_789_000));
    assert_eq!(parse_scalar(b"1e007"), None);
    assert_eq!(parse_scalar(b"1e-007"), Some(0));
    assert_eq!(parse_scalar(b"0e99999999999999999999999999999999999999999"), Some(0));
    assert_eq!(parse_scalar(b"0.000e99999999999999999999999999999999999999"), Some(0));
    assert_eq!(parse_scalar(b"7e-99999999999999999999999999999999999999999"), Some(0));
}

#[test]
fn load_takes_the_white_space_of_unicode_for_blanks() {
    let text = "\u{3000}Dimension\u{a0}3,1\u{2003}\nWall\u{85}\u{1680}1,0\u{2028}\n\u{205f}Exit\u{202f}\u{2009} 2,0,1.5\u{2029}ignored\n";
    let world = World::load(text.as_bytes()).unwrap();
    assert_eq!(world.width, 3);
    assert_eq!(world.height, 1);
    assert_eq!(world.board, vec![0, 1, 0]);
    assert_eq!(world.exits, vec![None, None, Some(1_500_000)]);
}

#[test]
fn load_takes_other_bytes_beyond_ascii_for_part_of_a_run() {
    assert!(World::load("Wall\u{e9} 1,1\n".as_bytes()).is_ok());
    assert_eq!(error_of("Wall \u{e9}1,1\n"), LoadError::InvalidX);
    assert_eq!(error_of("Wall 1,1\u{200b}\n"), LoadError::InvalidY);
    assert_eq!(error_of("Wall\u{a0}\n"), LoadError::MissingEntry);
    assert!(World::load(b"Wall\xc2\n").is_ok());
    assert_eq!(World::load(b"Wall \xe2\x80\n").err(), Some(LoadError::InvalidX));
}
