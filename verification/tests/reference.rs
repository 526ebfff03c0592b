use martian_robots_verify::data::{SAMPLE_INPUT, SAMPLE_OUTPUT};
use martian_robots_verify::mission::{Mission, Robot};
use martian_robots_verify::reference::run;

#[test]
fn the_briefs_sample_comes_out_as_the_brief_says() {
    let mission = Mission::read_back(&SAMPLE_INPUT).expect("the sample is a valid mission");
    assert_eq!(run(&mission), SAMPLE_OUTPUT);
}

fn answer(input: &str) -> String {
    let mission = Mission::read_back(input.as_bytes()).expect("a valid mission");
    String::from_utf8(run(&mission)).expect("text")
}

#[test]
fn a_robot_with_nothing_to_do_reports_where_it_stands() {
    assert_eq!(answer("5 3\n1 1 E\n\n"), "1 1 E\n");
}

#[test]
fn turning_does_not_move_anything() {
    assert_eq!(answer("5 3\n1 1 N\nLL\n"), "1 1 S\n");
    assert_eq!(answer("5 3\n1 1 N\nRRR\n"), "1 1 W\n");
}

#[test]
fn a_robot_that_walks_off_is_lost_where_it_last_stood() {
    assert_eq!(answer("1 1\n1 1 N\nF\n"), "1 1 N LOST\n");
}

#[test]
fn a_scent_blocks_a_departure_by_any_edge() {
    assert_eq!(answer("1 1\n1 1 N\nF\n1 1 E\nF\n"), "1 1 N LOST\n1 1 E\n");
}

#[test]
fn a_scent_is_not_used_up() {
    assert_eq!(answer("1 1\n1 1 N\nF\n1 1 N\nF\n1 1 N\nF\n"), "1 1 N LOST\n1 1 N\n1 1 N\n");
}

#[test]
fn a_scent_marks_the_cell_and_not_the_robot() {
    assert_eq!(answer("2 0\n0 0 W\nF\n0 0 E\nFFF\n"), "0 0 W LOST\n2 0 E LOST\n");
}

#[test]
fn an_ignored_move_does_not_end_the_run() {
    assert_eq!(answer("2 1\n2 1 N\nF\n2 1 N\nFLF\n"), "2 1 N LOST\n1 1 W\n");
}

#[test]
fn a_mission_with_no_robots_says_nothing() {
    assert_eq!(answer("5 3\n"), "");
}

#[test]
fn appending_a_robot_keeps_the_answers_before_it() {
    let mut mission = Mission {
        max_x: 3,
        max_y: 3,
        robots: vec![Robot { x: 3, y: 3, facing: 'N', instructions: "FRF".to_string() }],
    };
    let before = run(&mission);
    mission.robots.push(Robot { x: 0, y: 0, facing: 'S', instructions: "F".to_string() });
    let after = run(&mission);
    assert!(after.starts_with(&before));
    assert_eq!(after, b"3 3 N LOST\n0 0 S LOST\n");
}

#[test]
fn a_letter_that_is_not_an_instruction_does_nothing() {
    assert_eq!(answer("5 3\n1 1 E\nFXF\n"), "3 1 E\n");
}
