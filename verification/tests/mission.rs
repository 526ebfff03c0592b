use martian_robots_verify::contract::Contract;
use martian_robots_verify::mission::{Mission, Robot};
use martian_robots_verify::rng::Rng;

#[test]
fn a_canonical_mission_reads_back_as_itself() {
    let mission = Mission {
        max_x: 5,
        max_y: 3,
        robots: vec![
            Robot { x: 1, y: 1, facing: 'E', instructions: "RFRFRFRF".to_string() },
            Robot { x: 0, y: 3, facing: 'W', instructions: String::new() },
        ],
    };
    assert_eq!(Mission::read_back(&mission.canonical()).unwrap(), mission);
}

#[test]
fn a_mission_with_no_robots_reads_back() {
    let mission = Mission { max_x: 0, max_y: 0, robots: Vec::new() };
    assert_eq!(Mission::read_back(b"0 0\n").unwrap(), mission);
}

#[test]
fn blank_lines_are_separators_and_an_empty_instruction_line_is_not() {
    let read = Mission::read_back(b"\n \n5 3\n1 1 E\n\n\n0 3 W\nLF\n").unwrap();
    assert_eq!(read.robots.len(), 2);
    assert_eq!(read.robots[0].instructions, "");
    assert_eq!(read.robots[1].instructions, "LF");
}

#[test]
fn every_drawn_mission_reads_back_as_itself() {
    let contract = Contract::load().unwrap();
    let mut rng = Rng::from_seed(20_260_922);
    for _ in 0..500 {
        let mission = Mission::draw(&mut rng, &contract);
        assert_eq!(Mission::read_back(&mission.canonical()).unwrap(), mission, "{mission:?}");
    }
}

#[test]
fn drawn_missions_stay_on_their_own_grid() {
    let contract = Contract::load().unwrap();
    let mut rng = Rng::from_seed(7);
    for _ in 0..500 {
        let mission = Mission::draw(&mut rng, &contract);
        for robot in &mission.robots {
            assert!(robot.x <= mission.max_x && robot.y <= mission.max_y);
        }
    }
}

#[test]
fn the_canonical_spelling_is_exact() {
    let mission = Mission {
        max_x: 12,
        max_y: 3,
        robots: vec![Robot { x: 10, y: 0, facing: 'N', instructions: "LF".to_string() }],
    };
    assert_eq!(mission.canonical(), b"12 3\n10 0 N\nLF\n");
}

#[test]
fn every_reading_failure_says_why() {
    assert_eq!(Mission::read_back(b"").unwrap_err(), "no grid line");
    assert_eq!(Mission::read_back(b" \n\t\n").unwrap_err(), "no grid line");
    assert_eq!(Mission::read_back(b"5\n").unwrap_err(), "grid line is not two numbers: \"5\"");
    assert_eq!(Mission::read_back(b"5 x\n").unwrap_err(), "not a number: \"x\"");
    assert_eq!(Mission::read_back(b"5 3\n1 1 E\n").unwrap_err(), "no instruction line");
    assert_eq!(
        Mission::read_back(b"5 3\n1 1\nF\n").unwrap_err(),
        "position line is malformed: \"1 1\""
    );
    assert_eq!(
        Mission::read_back(b"5 3\n1 1 EE\nF\n").unwrap_err(),
        "position line is malformed: \"1 1 EE\""
    );
    assert!(Mission::read_back(b"5 3\n\xff\n").is_err());
}

/// The suite's own reader is lenient where `str::parse` is: it takes a plus
/// sign, which the grammar does not admit and no generator ever writes.
#[test]
fn the_suites_reader_takes_separators_crlf_and_a_plus_sign() {
    let read = Mission::read_back(b"\t5  \t+3 \r\n 1\t1\tE  \r\n RF \t\r\n").unwrap();
    assert_eq!(
        read,
        Mission {
            max_x: 5,
            max_y: 3,
            robots: vec![Robot { x: 1, y: 1, facing: 'E', instructions: "RF".to_string() }],
        }
    );
}

#[test]
fn validity_checks_every_limit() {
    let mut mission = Mission {
        max_x: 5,
        max_y: 3,
        robots: vec![Robot { x: 1, y: 1, facing: 'E', instructions: "LRF".to_string() }],
    };
    assert!(mission.every_robot_starts_on_the_grid());
    assert!(mission.is_valid(50, 99));
    assert!(!mission.is_valid(4, 99));
    assert!(!mission.is_valid(50, 2));
    mission.robots[0].instructions = "LRX".to_string();
    assert!(!mission.is_valid(50, 99));
    mission.robots[0].instructions = "L".to_string();
    mission.robots[0].facing = 'Q';
    assert!(!mission.is_valid(50, 99));
    mission.robots[0].facing = 'N';
    mission.robots[0].y = 4;
    assert!(!mission.every_robot_starts_on_the_grid());
    assert!(!mission.is_valid(50, 99));
}

#[test]
fn a_duplicate_is_equal() {
    let mission = Mission {
        max_x: 2,
        max_y: 2,
        robots: vec![Robot { x: 1, y: 2, facing: 'S', instructions: "FF".to_string() }],
    };
    assert_eq!(mission.duplicate(), mission);
}

#[test]
fn shaped_and_busy_missions_stay_on_their_world() {
    let contract = Contract::load().unwrap();
    let mut rng = Rng::from_seed(31);
    for _ in 0..200 {
        let shaped = Mission::draw_shaped(&mut rng, &contract);
        assert!(shaped.every_robot_starts_on_the_grid());
        assert!(shaped.robots.len() <= 3);
        let busy = Mission::draw_busy(&mut rng, &contract);
        assert!(busy.is_valid(50, 99));
        assert!((1..=3).contains(&busy.robots.len()));
        let longer = shaped.with_another_robot(&mut rng, &contract);
        assert_eq!(longer.robots.len(), shaped.robots.len() + 1);
        assert_eq!(longer.robots[..shaped.robots.len()], shaped.robots[..]);
        assert!(longer.every_robot_starts_on_the_grid());
    }
}
