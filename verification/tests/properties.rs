use martian_robots_verify::mission::{Mission, Robot};
use martian_robots_verify::properties::{check, Verdict, NAMES};
use martian_robots_verify::reference::run;

fn mission(max_x: u32, max_y: u32, robots: &[(u32, u32, char, &str)]) -> Mission {
    Mission {
        max_x,
        max_y,
        robots: robots
            .iter()
            .map(|&(x, y, facing, instructions)| Robot { x, y, facing, instructions: instructions.to_string() })
            .collect(),
    }
}

fn violations(mission: &Mission, stdout: &[u8]) -> Vec<String> {
    check(mission, stdout)
        .into_iter()
        .zip(NAMES)
        .filter_map(|(verdict, name)| match verdict {
            Verdict::Violated(_) => Some(name.to_string()),
            _ => None,
        })
        .collect()
}

#[test]
fn a_correct_answer_violates_nothing() {
    let mission = mission(5, 3, &[(1, 1, 'E', "RFRFRFRF"), (0, 3, 'W', "LL")]);
    assert!(violations(&mission, b"1 1 E\n0 3 E\n").is_empty());
}

#[test]
fn a_missing_line_is_caught() {
    let mission = mission(5, 3, &[(1, 1, 'E', "RFRFRFRF"), (0, 3, 'W', "LL")]);
    assert_eq!(violations(&mission, b"1 1 E\n"), ["one line per robot, in input order"]);
}

#[test]
fn a_non_canonical_number_is_caught() {
    let mission = mission(5, 3, &[(1, 1, 'E', "")]);
    let caught = violations(&mission, b"01 1 E\n");
    assert!(caught.contains(&"every line is canonical".to_string()), "{caught:?}");
}

#[test]
fn a_missing_final_line_ending_is_caught() {
    let mission = mission(5, 3, &[(1, 1, 'E', "")]);
    assert!(!violations(&mission, b"1 1 E").is_empty());
}

#[test]
fn a_position_off_the_grid_is_caught() {
    let mission = mission(5, 3, &[(1, 1, 'E', "")]);
    let caught = violations(&mission, b"9 9 E\n");
    assert!(caught.contains(&"every reported position is on the grid".to_string()), "{caught:?}");
}

#[test]
fn a_robot_that_cannot_move_and_moved_is_caught() {
    let mission = mission(5, 3, &[(1, 1, 'N', "LR")]);
    let caught = violations(&mission, b"1 2 N\n");
    assert!(
        caught.contains(&"a robot that cannot move reports where it started".to_string()),
        "{caught:?}"
    );
}

#[test]
fn a_robot_that_cannot_move_keeps_turning() {
    let mission = mission(5, 3, &[(1, 1, 'N', "RR")]);
    assert!(violations(&mission, b"1 1 S\n").is_empty());
    assert!(!violations(&mission, b"1 1 N\n").is_empty());
}

#[test]
fn walking_off_the_edge_is_pinned_without_simulating_anything() {
    let mission = mission(5, 3, &[(1, 1, 'N', "FFF")]);
    assert!(violations(&mission, b"1 3 N LOST\n").is_empty());
    let caught = violations(&mission, b"1 3 N\n");
    assert!(
        caught.contains(&"a robot that only moves forward stops where the world stops it".to_string()),
        "{caught:?}"
    );
}

#[test]
fn staying_on_the_grid_is_pinned_the_same_way() {
    let mission = mission(5, 3, &[(1, 1, 'E', "FF")]);
    assert!(violations(&mission, b"3 1 E\n").is_empty());
    assert!(!violations(&mission, b"4 1 E\n").is_empty());
}

#[test]
fn two_losses_on_one_cell_are_impossible() {
    let mission = mission(1, 1, &[(1, 1, 'N', "F"), (1, 1, 'N', "F")]);
    let caught = violations(&mission, b"1 1 N LOST\n1 1 N LOST\n");
    assert!(caught.contains(&"no two robots are lost on the same cell".to_string()), "{caught:?}");
}

#[test]
fn a_property_a_mission_says_nothing_about_does_not_count_as_passing() {
    let mission = mission(5, 3, &[(1, 1, 'E', "RFRFRFRF")]);
    let verdicts = check(&mission, b"1 1 E\n");
    assert_eq!(verdicts[5], Verdict::NotApplicable, "nothing was lost");
    assert_eq!(verdicts[3], Verdict::NotApplicable, "the robot could move");
}

#[test]
fn the_reference_answer_violates_nothing() {
    let missions = [
        mission(5, 3, &[(1, 1, 'E', "RFRFRFRF"), (3, 2, 'N', "FRRFLLFFRRFLL"), (0, 3, 'W', "LLFFFLFLFL")]),
        mission(1, 1, &[(1, 1, 'N', "F"), (1, 1, 'N', "F"), (0, 0, 'S', "LRLR")]),
        mission(2, 0, &[(0, 0, 'W', "FFFF"), (0, 0, 'E', "FFF")]),
        mission(0, 0, &[]),
    ];
    for m in &missions {
        let answer = run(m);
        assert!(violations(m, &answer).is_empty(), "{m:?}");
    }
}

#[test]
fn an_unreadable_answer_violates_the_shape_properties_only() {
    let mission = mission(5, 3, &[(1, 1, 'E', "")]);
    let verdicts = check(&mission, b"1 1 E LOST!\n");
    assert_eq!(
        verdicts[0],
        Verdict::Violated("line is not `x y orientation`: \"1 1 E LOST!\"".to_string())
    );
    assert_eq!(verdicts[1], verdicts[0]);
    assert!(verdicts[2..].iter().all(|v| *v == Verdict::NotApplicable));
    let verdicts = check(&mission, b"1 1 Q\n");
    assert_eq!(verdicts[0], Verdict::Violated("not an orientation: \"Q\"".to_string()));
    let verdicts = check(&mission, b"1 1 E");
    assert_eq!(verdicts[0], Verdict::Violated("output does not end with a line ending".to_string()));
    let verdicts = check(&mission, b"\xff\n");
    assert_eq!(verdicts[0], Verdict::Violated("output is not UTF-8".to_string()));
}

#[test]
fn violations_are_worded_exactly() {
    let m = mission(5, 3, &[(1, 1, 'E', "RFRFRFRF"), (0, 3, 'W', "LL")]);
    assert_eq!(check(&m, b"1 1 E\n")[0], Verdict::Violated("2 robot(s), 1 line(s)".to_string()));
    assert_eq!(
        check(&m, b"6 1 E\n0 3 E\n")[2],
        Verdict::Violated("(6, 1) is outside 5 3".to_string())
    );
    assert_eq!(
        check(&m, b"1 1 E\n0 2 E LOST\n")[3],
        Verdict::Violated("a robot at (0, 3) facing W with \"LL\" reported (0, 2) facing E LOST".to_string())
    );
    let f = mission(5, 3, &[(1, 1, 'N', "FFF")]);
    assert_eq!(
        check(&f, b"1 3 N\n")[4],
        Verdict::Violated(
            "1 1 N with 3 step(s) forward on 5 3: expected Reported { x: 1, y: 3, facing: 'N', lost: true }, got Reported { x: 1, y: 3, facing: 'N', lost: false }"
                .to_string()
        )
    );
    let two = mission(1, 1, &[(1, 1, 'N', "F"), (1, 1, 'N', "F")]);
    assert_eq!(
        check(&two, b"1 1 N LOST\n1 1 N LOST\n")[5],
        Verdict::Violated("two robots lost on (1, 1)".to_string())
    );
}

#[test]
fn an_empty_answer_reads_as_no_lines() {
    let m = mission(5, 3, &[]);
    let verdicts = check(&m, b"");
    assert_eq!(verdicts[0], Verdict::Held);
    assert_eq!(verdicts[2], Verdict::NotApplicable);
}

#[test]
fn a_plus_sign_is_not_canonical() {
    let mission = mission(5, 3, &[(1, 1, 'E', "")]);
    let verdicts = check(&mission, b"+1 1 E\n");
    assert_eq!(verdicts[1], Verdict::Violated("number is not canonical: \"+1\"".to_string()));
    assert_eq!(verdicts[0], Verdict::Violated("number is not canonical: \"+1\"".to_string()));
    assert!(violations(&mission, b"1 1 E\n").is_empty());
}
