//! A second implementation of the simulation, written from the contract.
//!
//! What agreement with it proves is agreement: a divergence is a defect in the
//! program under test, or a place where the contract admits two readings.

use vstd::prelude::*;
use vstd::utf8::*;

use crate::mission::{Mission, MissionModel, Robot, RobotModel};
use crate::text::{bytes_of, chars_of, decimal, push_decimal};

verus! {

/// Where a robot ended and whether it was lost doing so.
pub struct Outcome {
    pub x: u32,
    pub y: u32,
    pub facing: char,
    pub lost: bool,
}

/// The compass, clockwise from north.
pub open spec fn compass(at: int) -> char {
    if at == 0 { 'N' } else if at == 1 { 'E' } else if at == 2 { 'S' } else { 'W' }
}

/// Where a letter stands on the compass; a letter that is not on it counts as
/// north.
pub open spec fn compass_index(facing: char) -> int {
    if facing == 'N' { 0 } else if facing == 'E' { 1 } else if facing == 'S' { 2 }
    else if facing == 'W' { 3 } else { 0 }
}

/// The orientation after `quarters` quarter-turns to the right.
pub open spec fn turned(facing: char, quarters: int) -> char {
    compass((compass_index(facing) + quarters) % 4)
}

/// Whether one step forward would leave the world.
pub open spec fn leaves(max_x: u32, max_y: u32, at: Outcome) -> bool {
    if at.facing == 'N' { at.y >= max_y }
    else if at.facing == 'E' { at.x >= max_x }
    else if at.facing == 'S' { at.y == 0 }
    else { at.x == 0 }
}

/// One step forward, which must stay on the world.
pub open spec fn advanced(at: Outcome) -> Outcome {
    if at.facing == 'N' { Outcome { y: (at.y + 1) as u32, ..at } }
    else if at.facing == 'E' { Outcome { x: (at.x + 1) as u32, ..at } }
    else if at.facing == 'S' { Outcome { y: (at.y - 1) as u32, ..at } }
    else { Outcome { x: (at.x - 1) as u32, ..at } }
}

/// One instruction, under the scents already left on the world. A lost robot
/// does nothing more; a move off the world from a scented cell is ignored.
pub open spec fn step(max_x: u32, max_y: u32, scents: Seq<(u32, u32)>, at: Outcome, instruction: char) -> Outcome {
    if at.lost {
        at
    } else if instruction == 'L' {
        Outcome { facing: turned(at.facing, 3), ..at }
    } else if instruction == 'R' {
        Outcome { facing: turned(at.facing, 1), ..at }
    } else if instruction == 'F' {
        if leaves(max_x, max_y, at) {
            if scents.contains((at.x, at.y)) { at } else { Outcome { lost: true, ..at } }
        } else {
            advanced(at)
        }
    } else {
        at
    }
}

/// A robot's instructions, executed in order.
pub open spec fn walk(max_x: u32, max_y: u32, scents: Seq<(u32, u32)>, start: Outcome, steps: Seq<char>) -> Outcome
    decreases steps.len(),
{
    if steps.len() == 0 {
        start
    } else {
        step(max_x, max_y, scents, walk(max_x, max_y, scents, start, steps.drop_last()), steps.last())
    }
}

/// Where a robot stands before its first instruction.
pub open spec fn start_of(robot: RobotModel) -> Outcome {
    Outcome { x: robot.x, y: robot.y, facing: robot.facing, lost: false }
}

/// The scents after an outcome: a loss scents the cell it happened on.
pub open spec fn scented_after(scents: Seq<(u32, u32)>, outcome: Outcome) -> Seq<(u32, u32)> {
    if outcome.lost { scents.push((outcome.x, outcome.y)) } else { scents }
}

/// Every robot run in order, each under the scents its predecessors left:
/// the outcomes, and the scents left at the end.
pub open spec fn run_robots(max_x: u32, max_y: u32, robots: Seq<RobotModel>) -> (Seq<Outcome>, Seq<(u32, u32)>)
    decreases robots.len(),
{
    if robots.len() == 0 {
        (seq![], seq![])
    } else {
        let (before, scents) = run_robots(max_x, max_y, robots.drop_last());
        let outcome = walk(max_x, max_y, scents, start_of(robots.last()), robots.last().steps);
        (before.push(outcome), scented_after(scents, outcome))
    }
}

/// The outcome of every robot of a mission, in input order.
pub open spec fn outcomes(mission: MissionModel) -> Seq<Outcome> {
    run_robots(mission.max_x, mission.max_y, mission.robots).0
}

/// One line of output: `x y facing`, with ` LOST` when the robot was lost.
pub open spec fn report_line(outcome: Outcome) -> Seq<char> {
    decimal(outcome.x as nat) + seq![' '] + decimal(outcome.y as nat) + seq![' ', outcome.facing]
        + (if outcome.lost { seq![' ', 'L', 'O', 'S', 'T'] } else { seq![] }) + seq!['\n']
}

/// The lines of several outcomes, one after another.
pub open spec fn report(outcomes: Seq<Outcome>) -> Seq<char>
    decreases outcomes.len(),
{
    if outcomes.len() == 0 {
        seq![]
    } else {
        report(outcomes.drop_last()) + report_line(outcomes.last())
    }
}

/// The answer §2.3 prescribes for a mission, as text.
pub open spec fn answer_text(mission: MissionModel) -> Seq<char> {
    report(outcomes(mission))
}

fn turn(facing: char, quarters: usize) -> (r: char)
    requires
        quarters < 4,
    ensures
        r == turned(facing, quarters as int),
{
    let at: usize = if facing == 'N' { 0 } else if facing == 'E' { 1 } else if facing == 'S' { 2 }
        else if facing == 'W' { 3 } else { 0 };
    let next = (at + quarters) % 4;
    if next == 0 { 'N' } else if next == 1 { 'E' } else if next == 2 { 'S' } else { 'W' }
}

fn is_scented(scented: &Vec<(u32, u32)>, x: u32, y: u32) -> (r: bool)
    ensures
        r == scented@.contains((x, y)),
{
    let mut i: usize = 0;
    while i < scented.len()
        invariant
            i <= scented.len(),
            forall|j: int| 0 <= j < i ==> scented@[j] != (x, y),
        decreases scented.len() - i,
    {
        if scented[i].0 == x && scented[i].1 == y {
            proof {
                assert(scented@[i as int] == (x, y));
            }
            return true;
        }
        i = i + 1;
    }
    false
}

/// Executes one robot's instructions under the given scents.
fn walk_robot(max_x: u32, max_y: u32, scented: &Vec<(u32, u32)>, robot: &Robot) -> (r: Outcome)
    ensures
        r == walk(max_x, max_y, scented@, start_of(robot@), robot@.steps),
{
    let steps = chars_of(robot.instructions.as_str());
    let mut at = Outcome { x: robot.x, y: robot.y, facing: robot.facing, lost: false };
    let mut i: usize = 0;
    while i < steps.len()
        invariant
            i <= steps.len(),
            steps@ == robot@.steps,
            at == walk(max_x, max_y, scented@, start_of(robot@), steps@.take(i as int)),
        decreases steps.len() - i,
    {
        let instruction = steps[i];
        proof {
            assert(steps@.take(i + 1).drop_last() =~= steps@.take(i as int));
        }
        if !at.lost {
            if instruction == 'L' {
                at = Outcome { facing: turn(at.facing, 3), ..at };
            } else if instruction == 'R' {
                at = Outcome { facing: turn(at.facing, 1), ..at };
            } else if instruction == 'F' {
                let leaving = if at.facing == 'N' { at.y >= max_y }
                    else if at.facing == 'E' { at.x >= max_x }
                    else if at.facing == 'S' { at.y == 0 }
                    else { at.x == 0 };
                if leaving {
                    // The scent is a property of the cell, not of the direction
                    // the robot that left it was facing.
                    if !is_scented(scented, at.x, at.y) {
                        at = Outcome { lost: true, ..at };
                    }
                } else if at.facing == 'N' {
                    at = Outcome { y: at.y + 1, ..at };
                } else if at.facing == 'E' {
                    at = Outcome { x: at.x + 1, ..at };
                } else if at.facing == 'S' {
                    at = Outcome { y: at.y - 1, ..at };
                } else {
                    at = Outcome { x: at.x - 1, ..at };
                }
            }
        }
        i = i + 1;
    }
    proof {
        assert(steps@.take(steps.len() as int) =~= steps@);
    }
    at
}

fn push_report_line(text: &mut Vec<char>, outcome: &Outcome)
    ensures
        final(text)@ == old(text)@ + report_line(*outcome),
{
    push_decimal(text, outcome.x);
    text.push(' ');
    push_decimal(text, outcome.y);
    text.push(' ');
    text.push(outcome.facing);
    if outcome.lost {
        text.push(' ');
        text.push('L');
        text.push('O');
        text.push('S');
        text.push('T');
    }
    text.push('\n');
    proof {
        assert(text@ =~= old(text)@ + report_line(*outcome));
    }
}

/// Runs a mission the way §2.2 describes it and writes the answer the way
/// §2.3 does. Nothing here diagnoses anything: what comes in is run.
pub fn run(mission: &Mission) -> (answer: Vec<u8>)
    ensures
        answer@ == encode_utf8(answer_text(mission@)),
{
    let mut scented: Vec<(u32, u32)> = Vec::new();
    let mut text: Vec<char> = Vec::new();
    let ghost robots = mission@.robots;
    let mut i: usize = 0;
    while i < mission.robots.len()
        invariant
            i <= mission.robots.len(),
            robots == mission@.robots,
            robots.len() == mission.robots.len(),
            scented@ == run_robots(mission.max_x, mission.max_y, robots.take(i as int)).1,
            text@ == report(run_robots(mission.max_x, mission.max_y, robots.take(i as int)).0),
        decreases mission.robots.len() - i,
    {
        let robot = &mission.robots[i];
        proof {
            assert(robots.take(i + 1).drop_last() =~= robots.take(i as int));
            assert(robots.take(i + 1).last() == robot@);
        }
        let outcome = walk_robot(mission.max_x, mission.max_y, &scented, robot);
        if outcome.lost {
            scented.push((outcome.x, outcome.y));
        }
        push_report_line(&mut text, &outcome);
        proof {
            let before = run_robots(mission.max_x, mission.max_y, robots.take(i as int));
            let after = run_robots(mission.max_x, mission.max_y, robots.take(i + 1));
            assert(after.0 == before.0.push(outcome));
            assert(after.0.drop_last() =~= before.0);
        }
        i = i + 1;
    }
    proof {
        assert(robots.take(mission.robots.len() as int) =~= robots);
    }
    bytes_of(&text)
}

} // verus!

verus! {

/// The orientation after every turn in `steps`, ignoring everything else.
pub open spec fn spun(facing: char, steps: Seq<char>) -> char
    decreases steps.len(),
{
    if steps.len() == 0 {
        facing
    } else {
        let before = spun(facing, steps.drop_last());
        if steps.last() == 'L' {
            turned(before, 3)
        } else if steps.last() == 'R' {
            turned(before, 1)
        } else {
            before
        }
    }
}

/// Whether a robot starts inside its world.
pub open spec fn starts_on(max_x: u32, max_y: u32, robot: RobotModel) -> bool {
    robot.x <= max_x && robot.y <= max_y
}

/// How many cells a robot can walk straight ahead before the world ends.
pub open spec fn room(max_x: u32, max_y: u32, robot: RobotModel) -> int {
    if robot.facing == 'N' { max_y - robot.y }
    else if robot.facing == 'S' { robot.y as int }
    else if robot.facing == 'E' { max_x - robot.x }
    else { robot.x as int }
}

/// Where a robot stands after `n` steps straight ahead.
pub open spec fn ahead_by(robot: RobotModel, n: int) -> (int, int) {
    if robot.facing == 'N' { (robot.x as int, robot.y + n) }
    else if robot.facing == 'S' { (robot.x as int, robot.y - n) }
    else if robot.facing == 'E' { (robot.x + n, robot.y as int) }
    else { (robot.x - n, robot.y as int) }
}

pub(crate) proof fn lemma_run_robots_len(max_x: u32, max_y: u32, robots: Seq<RobotModel>)
    ensures
        run_robots(max_x, max_y, robots).0.len() == robots.len(),
    decreases robots.len(),
{
    if robots.len() > 0 {
        lemma_run_robots_len(max_x, max_y, robots.drop_last());
    }
}

/// The outcome of robot `i` is its walk under the scents its predecessors
/// left.
pub(crate) proof fn lemma_run_robots_index(max_x: u32, max_y: u32, robots: Seq<RobotModel>, i: int)
    requires
        0 <= i < robots.len(),
    ensures
        run_robots(max_x, max_y, robots).0[i] == walk(max_x, max_y, run_robots(max_x, max_y, robots.take(i)).1, start_of(robots[i]), robots[i].steps),
        run_robots(max_x, max_y, robots.take(i + 1)).0 == run_robots(max_x, max_y, robots).0.take(i + 1),
    decreases robots.len(),
{
    lemma_run_robots_len(max_x, max_y, robots.drop_last());
    if i == robots.len() - 1 {
        assert(robots.take(i) =~= robots.drop_last());
        assert(robots.take(i + 1) =~= robots);
        lemma_run_robots_len(max_x, max_y, robots);
        assert(run_robots(max_x, max_y, robots).0.take(i + 1) =~= run_robots(max_x, max_y, robots).0);
    } else {
        lemma_run_robots_index(max_x, max_y, robots.drop_last(), i);
        assert(robots.drop_last().take(i) =~= robots.take(i));
        assert(robots.drop_last().take(i + 1) =~= robots.take(i + 1));
        assert(robots.drop_last()[i] == robots[i]);
        let whole = run_robots(max_x, max_y, robots).0;
        assert(whole.take(i + 1) =~= run_robots(max_x, max_y, robots.drop_last()).0.take(i + 1));
    }
}

/// Every robot gets exactly one outcome, so the answer has one line per robot.
pub proof fn law_one_line_per_robot(mission: MissionModel)
    ensures
        outcomes(mission).len() == mission.robots.len(),
{
    lemma_run_robots_len(mission.max_x, mission.max_y, mission.robots);
}

proof fn lemma_walk_stays_on(max_x: u32, max_y: u32, scents: Seq<(u32, u32)>, start: Outcome, steps: Seq<char>)
    requires
        start.x <= max_x && start.y <= max_y,
    ensures
        walk(max_x, max_y, scents, start, steps).x <= max_x,
        walk(max_x, max_y, scents, start, steps).y <= max_y,
    decreases steps.len(),
{
    if steps.len() > 0 {
        lemma_walk_stays_on(max_x, max_y, scents, start, steps.drop_last());
    }
}

/// A robot that starts on the world is reported on the world: a loss reports
/// the last cell it stood on.
pub proof fn law_every_reported_position_is_on_the_grid(mission: MissionModel, i: int)
    requires
        0 <= i < mission.robots.len(),
        starts_on(mission.max_x, mission.max_y, mission.robots[i]),
    ensures
        outcomes(mission)[i].x <= mission.max_x,
        outcomes(mission)[i].y <= mission.max_y,
{
    lemma_run_robots_index(mission.max_x, mission.max_y, mission.robots, i);
    lemma_walk_stays_on(mission.max_x, mission.max_y, run_robots(mission.max_x, mission.max_y, mission.robots.take(i)).1, start_of(mission.robots[i]), mission.robots[i].steps);
}

proof fn lemma_walk_without_forward(max_x: u32, max_y: u32, scents: Seq<(u32, u32)>, start: Outcome, steps: Seq<char>)
    requires
        !start.lost,
        !steps.contains('F'),
    ensures
        walk(max_x, max_y, scents, start, steps) == (Outcome { facing: spun(start.facing, steps), ..start }),
    decreases steps.len(),
{
    if steps.len() > 0 {
        assert(!steps.drop_last().contains('F')) by {
            if steps.drop_last().contains('F') {
                let k = choose|k: int| 0 <= k < steps.drop_last().len() && steps.drop_last()[k] == 'F';
                assert(steps[k] == 'F');
            }
        }
        assert(steps.last() != 'F') by {
            assert(steps[steps.len() - 1] == steps.last());
        }
        lemma_walk_without_forward(max_x, max_y, scents, start, steps.drop_last());
    }
}

/// A robot whose instructions contain no `F` cannot have moved: it reports
/// where it started, turned through whatever its turns say, and is not lost.
pub proof fn law_a_robot_that_cannot_move_reports_where_it_started(mission: MissionModel, i: int)
    requires
        0 <= i < mission.robots.len(),
        !mission.robots[i].steps.contains('F'),
    ensures
        outcomes(mission)[i] == (Outcome {
            x: mission.robots[i].x,
            y: mission.robots[i].y,
            facing: spun(mission.robots[i].facing, mission.robots[i].steps),
            lost: false,
        }),
{
    lemma_run_robots_index(mission.max_x, mission.max_y, mission.robots, i);
    lemma_walk_without_forward(mission.max_x, mission.max_y, run_robots(mission.max_x, mission.max_y, mission.robots.take(i)).1, start_of(mission.robots[i]), mission.robots[i].steps);
}

proof fn lemma_walk_forward(max_x: u32, max_y: u32, robot: RobotModel, steps: Seq<char>)
    requires
        starts_on(max_x, max_y, robot),
        forall|k: int| 0 <= k < steps.len() ==> steps[k] == 'F',
    ensures
        ({
            let end = walk(max_x, max_y, seq![], start_of(robot), steps);
            let travelled = if steps.len() <= room(max_x, max_y, robot) { steps.len() as int } else { room(max_x, max_y, robot) };
            &&& end.x == ahead_by(robot, travelled).0
            &&& end.y == ahead_by(robot, travelled).1
            &&& end.facing == robot.facing
            &&& end.lost == (steps.len() > room(max_x, max_y, robot))
        }),
    decreases steps.len(),
{
    if steps.len() > 0 {
        assert forall|k: int| 0 <= k < steps.drop_last().len() implies steps.drop_last()[k] == 'F' by {
            assert(steps.drop_last()[k] == steps[k]);
        }
        assert(steps.last() == steps[steps.len() - 1]);
        lemma_walk_forward(max_x, max_y, robot, steps.drop_last());
        let empty: Seq<(u32, u32)> = seq![];
        assert(!empty.contains((robot.x, robot.y)));
    }
}

/// The first robot runs on a world with no scents, so a string of nothing but
/// `F` has one answer: it walks until the world stops it and is lost on the
/// step after that.
pub proof fn law_a_robot_that_only_moves_forward_stops_where_the_world_stops_it(mission: MissionModel)
    requires
        mission.robots.len() > 0,
        starts_on(mission.max_x, mission.max_y, mission.robots[0]),
        forall|k: int| 0 <= k < mission.robots[0].steps.len() ==> mission.robots[0].steps[k] == 'F',
    ensures
        ({
            let robot = mission.robots[0];
            let end = outcomes(mission)[0];
            let steps = robot.steps.len() as int;
            let room = room(mission.max_x, mission.max_y, robot);
            let travelled = if steps <= room { steps } else { room };
            &&& end.x == ahead_by(robot, travelled).0
            &&& end.y == ahead_by(robot, travelled).1
            &&& end.facing == robot.facing
            &&& end.lost == (steps > room)
        }),
{
    lemma_run_robots_index(mission.max_x, mission.max_y, mission.robots, 0);
    assert(mission.robots.take(0) =~= Seq::<RobotModel>::empty());
    lemma_walk_forward(mission.max_x, mission.max_y, mission.robots[0], mission.robots[0].steps);
}

proof fn lemma_loss_is_on_an_unscented_cell(max_x: u32, max_y: u32, scents: Seq<(u32, u32)>, start: Outcome, steps: Seq<char>)
    requires
        !start.lost,
    ensures
        walk(max_x, max_y, scents, start, steps).lost ==> !scents.contains((walk(max_x, max_y, scents, start, steps).x, walk(max_x, max_y, scents, start, steps).y)),
    decreases steps.len(),
{
    if steps.len() > 0 {
        lemma_loss_is_on_an_unscented_cell(max_x, max_y, scents, start, steps.drop_last());
    }
}

/// The scents on the world are exactly the cells where robots were lost.
proof fn lemma_scents_are_losses(max_x: u32, max_y: u32, robots: Seq<RobotModel>)
    ensures
        forall|i: int| 0 <= i < robots.len() && (#[trigger] run_robots(max_x, max_y, robots).0[i]).lost
            ==> run_robots(max_x, max_y, robots).1.contains((run_robots(max_x, max_y, robots).0[i].x, run_robots(max_x, max_y, robots).0[i].y)),
        forall|c: (u32, u32)| #[trigger] run_robots(max_x, max_y, robots).1.contains(c) ==>
            exists|i: int| 0 <= i < robots.len() && run_robots(max_x, max_y, robots).0[i].lost
                && (#[trigger] run_robots(max_x, max_y, robots).0[i]).x == c.0 && run_robots(max_x, max_y, robots).0[i].y == c.1,
    decreases robots.len(),
{
    lemma_run_robots_len(max_x, max_y, robots);
    if robots.len() > 0 {
        let prev = robots.drop_last();
        lemma_scents_are_losses(max_x, max_y, prev);
        lemma_run_robots_len(max_x, max_y, prev);
        let (before, scents) = run_robots(max_x, max_y, prev);
        let all = run_robots(max_x, max_y, robots);
        assert forall|i: int| 0 <= i < robots.len() && (#[trigger] all.0[i]).lost implies all.1.contains((all.0[i].x, all.0[i].y)) by {
            if i < robots.len() - 1 {
                assert(all.0[i] == before[i]);
                assert(scents.contains((before[i].x, before[i].y)));
                let k = choose|k: int| 0 <= k < scents.len() && scents[k] == (before[i].x, before[i].y);
                assert(all.1[k] == scents[k]);
            } else {
                assert(all.1.last() == (all.0[i].x, all.0[i].y));
                assert(all.1[all.1.len() - 1] == all.1.last());
            }
        }
        assert forall|c: (u32, u32)| #[trigger] all.1.contains(c) implies
            exists|i: int| 0 <= i < robots.len() && all.0[i].lost && (#[trigger] all.0[i]).x == c.0 && all.0[i].y == c.1 by {
            let k = choose|k: int| 0 <= k < all.1.len() && all.1[k] == c;
            if k < scents.len() {
                assert(all.1[k] == scents[k]);
                assert(scents.contains(c));
                let i = choose|i: int| 0 <= i < prev.len() && before[i].lost && (#[trigger] before[i]).x == c.0 && before[i].y == c.1;
                assert(all.0[i] == before[i]);
            } else {
                let i = robots.len() - 1;
                assert(all.0[i] == all.0.last());
            }
        }
    }
}

/// A loss scents the cell it happened on, and a world-leaving move from a
/// scented cell is ignored, so no two robots are ever lost on the same cell.
pub proof fn law_no_two_robots_are_lost_on_the_same_cell(mission: MissionModel, i: int, j: int)
    requires
        0 <= i < j < mission.robots.len(),
        outcomes(mission)[i].lost,
        outcomes(mission)[j].lost,
    ensures
        (outcomes(mission)[i].x, outcomes(mission)[i].y) != (outcomes(mission)[j].x, outcomes(mission)[j].y),
{
    let robots = mission.robots;
    let (mx, my) = (mission.max_x, mission.max_y);
    lemma_run_robots_index(mx, my, robots, j);
    lemma_run_robots_index(mx, my, robots, i);
    let earlier = robots.take(j);
    let scents = run_robots(mx, my, earlier).1;
    lemma_loss_is_on_an_unscented_cell(mx, my, scents, start_of(robots[j]), robots[j].steps);
    lemma_run_robots_index(mx, my, earlier, i);
    assert(earlier.take(i) =~= robots.take(i));
    assert(earlier[i] == robots[i]);
    lemma_run_robots_len(mx, my, earlier);
    lemma_scents_are_losses(mx, my, earlier);
    assert(run_robots(mx, my, earlier).0[i] == outcomes(mission)[i]);
}

/// Robots run strictly in order, so appending a robot changes nothing about
/// the robots before it: the answer only gains a line.
pub proof fn law_appending_a_robot_does_not_change_the_robots_before_it(mission: MissionModel, robot: RobotModel)
    ensures
        ({
            let longer = MissionModel { robots: mission.robots.push(robot), ..mission };
            &&& outcomes(longer).take(mission.robots.len() as int) == outcomes(mission)
            &&& answer_text(longer) == answer_text(mission) + report_line(outcomes(longer).last())
        }),
{
    let longer = MissionModel { robots: mission.robots.push(robot), ..mission };
    assert(longer.robots.drop_last() =~= mission.robots);
    lemma_run_robots_len(mission.max_x, mission.max_y, mission.robots);
    assert(outcomes(longer).drop_last() =~= outcomes(mission));
    assert(outcomes(longer).take(mission.robots.len() as int) =~= outcomes(mission));
}

} // verus!
