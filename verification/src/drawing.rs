//! Missions drawn from a seeded stream, so that every mission a run used can
//! be drawn again from its seed.

use vstd::prelude::*;
use vstd::utf8::*;

use crate::contract::Contract;
use crate::grammar::{grammar_of, GrammarModel};
use crate::mission::{Mission, MissionModel, Robot, RobotModel, robot_views};
use crate::rng::{below_state, below_value, pick_bound, Rng};
use crate::text::string_of;

verus! {

/// Whether a grammar gives a generator what it draws from: an orientation, an
/// instruction, and an instruction that turns rather than moves.
pub open spec fn drawable(grammar: GrammarModel) -> bool {
    &&& grammar.orientations.len() > 0
    &&& grammar.instructions.len() > 0
    &&& turns_of(grammar.instructions).len() > 0
}

/// `n` steps forward.
pub open spec fn forwards(n: nat) -> Seq<char>
    decreases n,
{
    if n == 0 { seq![] } else { forwards((n - 1) as nat).push('F') }
}

/// The instructions that turn: all but forward.
pub open spec fn turns_of(instructions: Seq<char>) -> Seq<char>
    decreases instructions.len(),
{
    if instructions.len() == 0 {
        seq![]
    } else {
        let kept = turns_of(instructions.drop_last());
        if instructions.last() != 'F' { kept.push(instructions.last()) } else { kept }
    }
}

/// `n` items picked one after another from `pool`, and the stream after.
pub open spec fn picks<T>(state: u64, pool: Seq<T>, n: nat) -> (Seq<T>, u64)
    decreases n,
{
    if n == 0 {
        (seq![], state)
    } else {
        let (done, at) = picks(state, pool, (n - 1) as nat);
        let bound = pick_bound(pool.len());
        (done.push(pool[below_value(at, bound) as int]), below_state(at, bound))
    }
}

/// One robot drawn on a world: up to six instructions, a start anywhere on
/// the world, and letters from the grammar.
pub open spec fn drawn_robot(state: u64, max_x: u32, max_y: u32, grammar: GrammarModel) -> (RobotModel, u64) {
    let length = below_value(state, 7);
    let s1 = below_state(state, 7);
    let x = below_value(s1, (max_x + 1) as u32);
    let s2 = below_state(s1, (max_x + 1) as u32);
    let y = below_value(s2, (max_y + 1) as u32);
    let s3 = below_state(s2, (max_y + 1) as u32);
    let bound = pick_bound(grammar.orientations.len());
    let facing = grammar.orientations[below_value(s3, bound) as int];
    let s4 = below_state(s3, bound);
    let (steps, s5) = picks(s4, grammar.instructions, length as nat);
    (RobotModel { x, y, facing, steps }, s5)
}

/// `n` robots drawn one after another.
pub open spec fn drawn_robots(state: u64, n: nat, max_x: u32, max_y: u32, grammar: GrammarModel) -> (Seq<RobotModel>, u64)
    decreases n,
{
    if n == 0 {
        (seq![], state)
    } else {
        let (done, at) = drawn_robots(state, (n - 1) as nat, max_x, max_y, grammar);
        let (robot, after) = drawn_robot(at, max_x, max_y, grammar);
        (done.push(robot), after)
    }
}

/// A world of at most six by six, never past the limit.
pub open spec fn drawn_world(state: u64, max_coordinate: u32) -> (u32, u32, u64) {
    let a = below_value(state, 6);
    let s1 = below_state(state, 6);
    let b = below_value(s1, 6);
    let s2 = below_state(s1, 6);
    (if a <= max_coordinate { a } else { max_coordinate }, if b <= max_coordinate { b } else { max_coordinate }, s2)
}

/// A small mission: a small world and up to three robots.
pub open spec fn drawn_mission(state: u64, max_coordinate: u32, grammar: GrammarModel) -> (MissionModel, u64) {
    let (max_x, max_y, s1) = drawn_world(state, max_coordinate);
    let count = below_value(s1, 4);
    let s2 = below_state(s1, 4);
    let (robots, s3) = drawn_robots(s2, count as nat, max_x, max_y, grammar);
    (MissionModel { max_x, max_y, robots }, s3)
}

/// One robot of a busy mission: drawn, then given up to fifteen instructions.
pub open spec fn busy_robot(state: u64, max_x: u32, max_y: u32, grammar: GrammarModel) -> (RobotModel, u64) {
    let (robot, s1) = drawn_robot(state, max_x, max_y, grammar);
    let length = below_value(s1, 16);
    let s2 = below_state(s1, 16);
    let (steps, s3) = picks(s2, grammar.instructions, length as nat);
    (RobotModel { steps, ..robot }, s3)
}

pub open spec fn busy_robots(state: u64, n: nat, max_x: u32, max_y: u32, grammar: GrammarModel) -> (Seq<RobotModel>, u64)
    decreases n,
{
    if n == 0 {
        (seq![], state)
    } else {
        let (done, at) = busy_robots(state, (n - 1) as nat, max_x, max_y, grammar);
        let (robot, after) = busy_robot(at, max_x, max_y, grammar);
        (done.push(robot), after)
    }
}

/// A busy mission: a small world and one to three robots with long
/// instruction strings.
pub open spec fn busy_mission(state: u64, max_coordinate: u32, grammar: GrammarModel) -> (MissionModel, u64) {
    let (max_x, max_y, s1) = drawn_world(state, max_coordinate);
    let count = below_value(s1, 3) + 1;
    let s2 = below_state(s1, 3);
    let (robots, s3) = busy_robots(s2, count as nat, max_x, max_y, grammar);
    (MissionModel { max_x, max_y, robots }, s3)
}

/// The length of an instruction string in bytes, as `str::len` gives it.
pub open spec fn byte_len(steps: Seq<char>) -> usize {
    encode_utf8(steps).len() as usize
}

/// A robot's instructions reshaped into one of the degenerate shapes: all
/// forward, all turns, none, or left as they were. The length kept is the
/// byte length of the instruction string.
pub open spec fn shaped(robot: RobotModel, state: u64, grammar: GrammarModel) -> (RobotModel, u64) {
    let length = byte_len(robot.steps) as nat;
    let s1 = below_state(state, 4);
    let (steps, s2) = match below_value(state, 4) {
        0 => (forwards(length), s1),
        1 => picks(s1, turns_of(grammar.instructions), length),
        2 => (Seq::<char>::empty(), s1),
        _ => (robot.steps, s1),
    };
    (RobotModel { steps, ..robot }, s2)
}

pub open spec fn shaped_robots(robots: Seq<RobotModel>, state: u64, grammar: GrammarModel) -> (Seq<RobotModel>, u64)
    decreases robots.len(),
{
    if robots.len() == 0 {
        (seq![], state)
    } else {
        let (done, at) = shaped_robots(robots.drop_last(), state, grammar);
        let (robot, after) = shaped(robots.last(), at, grammar);
        (done.push(robot), after)
    }
}

/// A small mission whose robots were then reshaped.
pub open spec fn shaped_mission(state: u64, max_coordinate: u32, grammar: GrammarModel) -> (MissionModel, u64) {
    let (mission, s1) = drawn_mission(state, max_coordinate, grammar);
    let (robots, s2) = shaped_robots(mission.robots, s1, grammar);
    (MissionModel { robots, ..mission }, s2)
}

/// A mission with one more robot, drawn on its world and reshaped.
pub open spec fn extended(mission: MissionModel, state: u64, grammar: GrammarModel) -> (MissionModel, u64) {
    let (robot, s1) = drawn_robot(state, mission.max_x, mission.max_y, grammar);
    let (robot, s2) = shaped(robot, s1, grammar);
    (MissionModel { robots: mission.robots.push(robot), ..mission }, s2)
}

/// Drawing `n` robots draws `n` robots, each on its world.
pub proof fn lemma_drawn_robots(state: u64, n: nat, max_x: u32, max_y: u32, grammar: GrammarModel)
    requires
        max_x < u32::MAX,
        max_y < u32::MAX,
    ensures
        drawn_robots(state, n, max_x, max_y, grammar).0.len() == n,
        forall|i: int| 0 <= i < n ==> {
            let r = #[trigger] drawn_robots(state, n, max_x, max_y, grammar).0[i];
            r.x <= max_x && r.y <= max_y
        },
    decreases n,
{
    if n > 0 {
        lemma_drawn_robots(state, (n - 1) as nat, max_x, max_y, grammar);
    }
}

/// Reshaping keeps every robot where it was, and their number.
pub proof fn lemma_shaped_robots(robots: Seq<RobotModel>, state: u64, grammar: GrammarModel)
    ensures
        shaped_robots(robots, state, grammar).0.len() == robots.len(),
        forall|i: int| 0 <= i < robots.len() ==> {
            let r = #[trigger] shaped_robots(robots, state, grammar).0[i];
            r.x == robots[i].x && r.y == robots[i].y && r.facing == robots[i].facing
        },
    decreases robots.len(),
{
    if robots.len() > 0 {
        lemma_shaped_robots(robots.drop_last(), state, grammar);
    }
}

/// A small mission is at most six by six, with at most three robots, each on
/// its world.
pub proof fn law_drawn_missions_stay_on_their_own_grid(state: u64, max_coordinate: u32, grammar: GrammarModel)
    ensures
        ({
            let m = drawn_mission(state, max_coordinate, grammar).0;
            &&& m.max_x <= 5 && m.max_y <= 5
            &&& m.robots.len() <= 3
            &&& forall|i: int| 0 <= i < m.robots.len() ==> (#[trigger] m.robots[i]).x <= m.max_x && m.robots[i].y <= m.max_y
        }),
{
    let (max_x, max_y, s1) = drawn_world(state, max_coordinate);
    let count = below_value(s1, 4);
    lemma_drawn_robots(below_state(s1, 4), count as nat, max_x, max_y, grammar);
}

/// A reshaped small mission keeps the same world and robots' starts.
pub proof fn lemma_shaped_mission(state: u64, max_coordinate: u32, grammar: GrammarModel)
    ensures
        ({
            let m = shaped_mission(state, max_coordinate, grammar).0;
            &&& m.max_x <= 5 && m.max_y <= 5
            &&& m.robots.len() <= 3
            &&& forall|i: int| 0 <= i < m.robots.len() ==> (#[trigger] m.robots[i]).x <= m.max_x && m.robots[i].y <= m.max_y
        }),
{
    law_drawn_missions_stay_on_their_own_grid(state, max_coordinate, grammar);
    let (mission, s1) = drawn_mission(state, max_coordinate, grammar);
    lemma_shaped_robots(mission.robots, s1, grammar);
    let m = shaped_mission(state, max_coordinate, grammar).0;
    assert forall|i: int| 0 <= i < m.robots.len() implies (#[trigger] m.robots[i]).x <= m.max_x && m.robots[i].y <= m.max_y by {
        assert(m.robots[i] == shaped_robots(mission.robots, s1, grammar).0[i]);
        assert(mission.robots[i].x <= mission.max_x);
    }
}

/// A grammar the contract's reader accepts always has an orientation and an
/// instruction to draw.
pub proof fn lemma_parsed_grammar_has_letters(text: Seq<char>)
    requires
        grammar_of(text) is Ok,
    ensures
        grammar_of(text)->Ok_0.orientations.len() > 0,
        grammar_of(text)->Ok_0.instructions.len() > 0,
{
}

/// Whether a robot speaks a grammar: it faces one of its orientations and
/// every instruction is one of its instructions.
pub open spec fn speaks(robot: RobotModel, grammar: GrammarModel) -> bool {
    &&& grammar.orientations.contains(robot.facing)
    &&& forall|i: int| 0 <= i < robot.steps.len() ==> grammar.instructions.contains(#[trigger] robot.steps[i])
}

/// Whether a robot stands on a world of the given size.
pub open spec fn on_world(robot: RobotModel, max_x: u32, max_y: u32) -> bool {
    robot.x <= max_x && robot.y <= max_y
}

/// `n` picks from a non-empty pool are `n` items of the pool.
proof fn lemma_picks_spoken(state: u64, pool: Seq<char>, n: nat)
    requires
        pool.len() > 0,
    ensures
        picks(state, pool, n).0.len() == n,
        forall|i: int| 0 <= i < n ==> pool.contains(#[trigger] picks(state, pool, n).0[i]),
{
    crate::reading::lemma_picks_from_pool(state, pool, n);
}

/// A drawn robot stands on its world, speaks the grammar, and has at most
/// six instructions.
pub(crate) proof fn lemma_drawn_robot_speaks(state: u64, max_x: u32, max_y: u32, grammar: GrammarModel)
    requires
        grammar.orientations.len() > 0,
        grammar.instructions.len() > 0,
        max_x < u32::MAX,
        max_y < u32::MAX,
    ensures
        ({
            let r = drawn_robot(state, max_x, max_y, grammar).0;
            &&& on_world(r, max_x, max_y)
            &&& speaks(r, grammar)
            &&& r.steps.len() <= 6
        }),
{
    let length = below_value(state, 7);
    let s1 = below_state(state, 7);
    let s2 = below_state(s1, (max_x + 1) as u32);
    let s3 = below_state(s2, (max_y + 1) as u32);
    let bound = pick_bound(grammar.orientations.len());
    let k = below_value(s3, bound) as int;
    assert(0 <= k < grammar.orientations.len());
    assert(grammar.orientations.contains(grammar.orientations[k]));
    lemma_picks_spoken(below_state(s3, bound), grammar.instructions, length as nat);
}

proof fn lemma_drawn_robots_speak(state: u64, n: nat, max_x: u32, max_y: u32, grammar: GrammarModel)
    requires
        grammar.orientations.len() > 0,
        grammar.instructions.len() > 0,
        max_x < u32::MAX,
        max_y < u32::MAX,
    ensures
        ({
            let rs = drawn_robots(state, n, max_x, max_y, grammar).0;
            &&& rs.len() == n
            &&& forall|i: int| 0 <= i < rs.len() ==> {
                let r = #[trigger] rs[i];
                on_world(r, max_x, max_y) && speaks(r, grammar) && r.steps.len() <= 6
            }
        }),
    decreases n,
{
    if n > 0 {
        lemma_drawn_robots_speak(state, (n - 1) as nat, max_x, max_y, grammar);
        let (done, at) = drawn_robots(state, (n - 1) as nat, max_x, max_y, grammar);
        lemma_drawn_robot_speaks(at, max_x, max_y, grammar);
        let rs = drawn_robots(state, n, max_x, max_y, grammar).0;
        assert(rs == done.push(drawn_robot(at, max_x, max_y, grammar).0));
        assert forall|i: int| 0 <= i < rs.len() implies {
            let r = #[trigger] rs[i];
            on_world(r, max_x, max_y) && speaks(r, grammar) && r.steps.len() <= 6
        } by {
            if i < done.len() {
                assert(rs[i] == done[i]);
            }
        }
    }
}

/// A drawn mission is small and speaks its grammar: a world of at most six by
/// six that never passes the limit, at most three robots, each on the world,
/// facing one of the grammar's orientations, with at most six instructions,
/// each one of the grammar's.
pub proof fn law_a_drawn_mission_is_small_and_speaks_its_grammar(state: u64, max_coordinate: u32, grammar: GrammarModel)
    requires
        grammar.orientations.len() > 0,
        grammar.instructions.len() > 0,
    ensures
        ({
            let m = drawn_mission(state, max_coordinate, grammar).0;
            &&& m.max_x <= 5 && m.max_x <= max_coordinate
            &&& m.max_y <= 5 && m.max_y <= max_coordinate
            &&& m.robots.len() <= 3
            &&& forall|i: int| 0 <= i < m.robots.len() ==> {
                let r = #[trigger] m.robots[i];
                on_world(r, m.max_x, m.max_y) && speaks(r, grammar) && r.steps.len() <= 6
            }
        }),
{
    let (max_x, max_y, s1) = drawn_world(state, max_coordinate);
    let count = below_value(s1, 4);
    lemma_drawn_robots_speak(below_state(s1, 4), count as nat, max_x, max_y, grammar);
}

proof fn lemma_busy_robots_speak(state: u64, n: nat, max_x: u32, max_y: u32, grammar: GrammarModel)
    requires
        grammar.orientations.len() > 0,
        grammar.instructions.len() > 0,
        max_x < u32::MAX,
        max_y < u32::MAX,
    ensures
        ({
            let rs = busy_robots(state, n, max_x, max_y, grammar).0;
            &&& rs.len() == n
            &&& forall|i: int| 0 <= i < rs.len() ==> {
                let r = #[trigger] rs[i];
                on_world(r, max_x, max_y) && speaks(r, grammar) && r.steps.len() <= 15
            }
        }),
    decreases n,
{
    if n > 0 {
        lemma_busy_robots_speak(state, (n - 1) as nat, max_x, max_y, grammar);
        let (done, at) = busy_robots(state, (n - 1) as nat, max_x, max_y, grammar);
        lemma_drawn_robot_speaks(at, max_x, max_y, grammar);
        let (drawn, s1) = drawn_robot(at, max_x, max_y, grammar);
        let length = below_value(s1, 16);
        lemma_picks_spoken(below_state(s1, 16), grammar.instructions, length as nat);
        let robot = busy_robot(at, max_x, max_y, grammar).0;
        let rs = busy_robots(state, n, max_x, max_y, grammar).0;
        assert(rs == done.push(robot));
        assert(robot.facing == drawn.facing);
        assert forall|i: int| 0 <= i < rs.len() implies {
            let r = #[trigger] rs[i];
            on_world(r, max_x, max_y) && speaks(r, grammar) && r.steps.len() <= 15
        } by {
            if i < done.len() {
                assert(rs[i] == done[i]);
            }
        }
    }
}

/// A busy mission is small and speaks its grammar: a world of at most six by
/// six that never passes the limit, one to three robots, each on the world,
/// facing one of the grammar's orientations, with at most fifteen
/// instructions, each one of the grammar's.
pub proof fn law_a_busy_mission_is_small_and_speaks_its_grammar(state: u64, max_coordinate: u32, grammar: GrammarModel)
    requires
        grammar.orientations.len() > 0,
        grammar.instructions.len() > 0,
    ensures
        ({
            let m = busy_mission(state, max_coordinate, grammar).0;
            &&& m.max_x <= 5 && m.max_x <= max_coordinate
            &&& m.max_y <= 5 && m.max_y <= max_coordinate
            &&& 1 <= m.robots.len() <= 3
            &&& forall|i: int| 0 <= i < m.robots.len() ==> {
                let r = #[trigger] m.robots[i];
                on_world(r, m.max_x, m.max_y) && speaks(r, grammar) && r.steps.len() <= 15
            }
        }),
{
    let (max_x, max_y, s1) = drawn_world(state, max_coordinate);
    let count = below_value(s1, 3) + 1;
    lemma_busy_robots_speak(below_state(s1, 3), count as nat, max_x, max_y, grammar);
}

/// A busy mission drawn from a grammar whose orientations are compass letters
/// and whose instructions are `L`, `R` and `F` is a mission the contract
/// accepts, whenever the limit on instructions allows fifteen.
pub proof fn law_a_busy_mission_from_the_contracts_letters_is_valid(
    state: u64,
    max_coordinate: u32,
    max_instructions: u32,
    grammar: GrammarModel,
)
    requires
        grammar.orientations.len() > 0,
        grammar.instructions.len() > 0,
        forall|i: int| 0 <= i < grammar.orientations.len() ==> {
            let c = #[trigger] grammar.orientations[i];
            c == 'N' || c == 'E' || c == 'S' || c == 'W'
        },
        forall|i: int| 0 <= i < grammar.instructions.len() ==> {
            let c = #[trigger] grammar.instructions[i];
            c == 'L' || c == 'R' || c == 'F'
        },
        max_instructions >= 15,
    ensures
        crate::mission::mission_valid(busy_mission(state, max_coordinate, grammar).0, max_coordinate, max_instructions),
{
    law_a_busy_mission_is_small_and_speaks_its_grammar(state, max_coordinate, grammar);
    let m = busy_mission(state, max_coordinate, grammar).0;
    assert forall|i: int| 0 <= i < m.robots.len() implies crate::mission::robot_valid(#[trigger] m.robots[i], max_instructions) by {
        let r = m.robots[i];
        assert(speaks(r, grammar));
        let j = choose|j: int| 0 <= j < grammar.orientations.len() && grammar.orientations[j] == r.facing;
        assert forall|k: int| 0 <= k < r.steps.len() implies (#[trigger] r.steps[k] == 'L' || r.steps[k] == 'R' || r.steps[k] == 'F') by {
            assert(grammar.instructions.contains(r.steps[k]));
            let q = choose|q: int| 0 <= q < grammar.instructions.len() && grammar.instructions[q] == r.steps[k];
        }
    }
    assert(crate::mission::all_start_on(m)) by {
        assert forall|i: int| #![trigger m.robots[i]] 0 <= i < m.robots.len() implies m.robots[i].x <= m.max_x && m.robots[i].y <= m.max_y by {
            assert(on_world(m.robots[i], m.max_x, m.max_y));
        }
    }
}

/// Whether `steps` is one of the shapes a reshaping leaves of `before`: all
/// forward, turns only, none, or unchanged; the first two as long as `before`
/// is in bytes.
pub open spec fn one_of_the_shapes(steps: Seq<char>, before: Seq<char>, grammar: GrammarModel) -> bool {
    ||| steps == forwards(byte_len(before) as nat)
    ||| (steps.len() == byte_len(before) as nat
        && forall|i: int| 0 <= i < steps.len() ==> turns_of(grammar.instructions).contains(#[trigger] steps[i]))
    ||| steps.len() == 0
    ||| steps == before
}

proof fn lemma_shaped_shape(robot: RobotModel, state: u64, grammar: GrammarModel)
    requires
        turns_of(grammar.instructions).len() > 0,
    ensures
        ({
            let r = shaped(robot, state, grammar).0;
            &&& r.x == robot.x && r.y == robot.y && r.facing == robot.facing
            &&& one_of_the_shapes(r.steps, robot.steps, grammar)
        }),
{
    let length = byte_len(robot.steps) as nat;
    lemma_picks_spoken(below_state(state, 4), turns_of(grammar.instructions), length);
}

proof fn lemma_shaped_robots_shape(robots: Seq<RobotModel>, state: u64, grammar: GrammarModel)
    requires
        turns_of(grammar.instructions).len() > 0,
    ensures
        shaped_robots(robots, state, grammar).0.len() == robots.len(),
        forall|i: int| 0 <= i < robots.len() ==> {
            let r = #[trigger] shaped_robots(robots, state, grammar).0[i];
            &&& r.x == robots[i].x && r.y == robots[i].y && r.facing == robots[i].facing
            &&& one_of_the_shapes(r.steps, robots[i].steps, grammar)
        },
    decreases robots.len(),
{
    if robots.len() > 0 {
        let front = robots.drop_last();
        lemma_shaped_robots_shape(front, state, grammar);
        let (done, at) = shaped_robots(front, state, grammar);
        lemma_shaped_shape(robots.last(), at, grammar);
        let rs = shaped_robots(robots, state, grammar).0;
        assert(rs == done.push(shaped(robots.last(), at, grammar).0));
        assert forall|i: int| 0 <= i < robots.len() implies {
            let r = #[trigger] shaped_robots(robots, state, grammar).0[i];
            &&& r.x == robots[i].x && r.y == robots[i].y && r.facing == robots[i].facing
            &&& one_of_the_shapes(r.steps, robots[i].steps, grammar)
        } by {
            if i < done.len() {
                assert(rs[i] == done[i]);
                assert(front[i] == robots[i]);
            } else {
                assert(robots.last() == robots[i]);
            }
        }
    }
}

/// A reshaped mission is the drawn mission with each robot's instructions
/// reshaped: the same world, the same robots at the same starts facing the
/// same way, each with all-forward, turns-only, no instructions, or the ones
/// it was drawn with.
pub proof fn law_reshaping_keeps_the_world_and_the_starts(state: u64, max_coordinate: u32, grammar: GrammarModel)
    requires
        turns_of(grammar.instructions).len() > 0,
    ensures
        ({
            let d = drawn_mission(state, max_coordinate, grammar).0;
            let m = shaped_mission(state, max_coordinate, grammar).0;
            &&& m.max_x == d.max_x && m.max_y == d.max_y
            &&& m.robots.len() == d.robots.len()
            &&& forall|i: int| 0 <= i < m.robots.len() ==> {
                let r = #[trigger] m.robots[i];
                &&& r.x == d.robots[i].x && r.y == d.robots[i].y && r.facing == d.robots[i].facing
                &&& one_of_the_shapes(r.steps, d.robots[i].steps, grammar)
            }
        }),
{
    let (d, s1) = drawn_mission(state, max_coordinate, grammar);
    lemma_shaped_robots_shape(d.robots, s1, grammar);
}

/// Another robot leaves the mission as it was and adds one robot on its
/// world, facing one of the grammar's orientations, with its instructions in
/// one of the shapes.
pub proof fn law_another_robot_keeps_the_mission_before_it(mission: MissionModel, state: u64, grammar: GrammarModel)
    requires
        mission.max_x < u32::MAX,
        mission.max_y < u32::MAX,
        drawable(grammar),
    ensures
        ({
            let l = extended(mission, state, grammar).0;
            let n = mission.robots.len();
            let drawn = drawn_robot(state, mission.max_x, mission.max_y, grammar).0;
            &&& l.max_x == mission.max_x && l.max_y == mission.max_y
            &&& l.robots.len() == n + 1
            &&& l.robots.take(n as int) == mission.robots
            &&& on_world(l.robots[n as int], mission.max_x, mission.max_y)
            &&& grammar.orientations.contains(l.robots[n as int].facing)
            &&& l.robots[n as int].facing == drawn.facing
            &&& one_of_the_shapes(l.robots[n as int].steps, drawn.steps, grammar)
        }),
{
    let (robot, s1) = drawn_robot(state, mission.max_x, mission.max_y, grammar);
    lemma_drawn_robot_speaks(state, mission.max_x, mission.max_y, grammar);
    lemma_shaped_shape(robot, s1, grammar);
    let l = extended(mission, state, grammar).0;
    assert(l.robots.take(mission.robots.len() as int) =~= mission.robots);
}

/// `n` items picked from `pool`, and the stream moved on as `picks` says.
pub(crate) fn pick_many<T: Copy>(rng: &mut Rng, pool: &[T], n: usize) -> (r: Vec<T>)
    requires
        n > 0 ==> pool@.len() > 0,
    ensures
        r@ == picks(old(rng)@, pool@, n as nat).0,
        final(rng)@ == picks(old(rng)@, pool@, n as nat).1,
{
    let mut items: Vec<T> = Vec::new();
    let mut i: usize = 0;
    while i < n
        invariant
            i <= n,
            n > 0 ==> pool@.len() > 0,
            items@ == picks(old(rng)@, pool@, i as nat).0,
            rng@ == picks(old(rng)@, pool@, i as nat).1,
        decreases n - i,
    {
        let item = *rng.pick(pool);
        items.push(item);
        i = i + 1;
    }
    items
}

impl Robot {
    /// A robot anywhere on a world of `(0..=max_x, 0..=max_y)`, facing and
    /// carrying letters of the grammar. The letters come from the grammar: a
    /// vocabulary written down here would be a second copy of one the
    /// contract already states.
    fn draw_on(rng: &mut Rng, max_x: u32, max_y: u32, contract: &Contract) -> (r: Self)
        requires
            max_x < u32::MAX,
            max_y < u32::MAX,
            contract@.grammar.orientations.len() > 0,
            contract@.grammar.instructions.len() > 0,
        ensures
            r@ == drawn_robot(old(rng)@, max_x, max_y, contract@.grammar).0,
            final(rng)@ == drawn_robot(old(rng)@, max_x, max_y, contract@.grammar).1,
    {
        let length = rng.below(7) as usize;
        let x = rng.below(max_x + 1);
        let y = rng.below(max_y + 1);
        let facing = *rng.pick(contract.grammar.orientations.as_slice());
        let steps = pick_many(rng, contract.grammar.instructions.as_slice(), length);
        Robot { x, y, facing, instructions: string_of(&steps) }
    }

    /// Reshapes the instructions into one of the degenerate shapes, keeping
    /// the length. Forward is the instruction that moves, so it is the one
    /// the degenerate shapes are built from; the rest turn.
    fn shape(&mut self, rng: &mut Rng, contract: &Contract)
        requires
            turns_of(contract@.grammar.instructions).len() > 0,
        ensures
            final(self)@ == shaped(old(self)@, old(rng)@, contract@.grammar).0,
            final(rng)@ == shaped(old(self)@, old(rng)@, contract@.grammar).1,
    {
        let length = self.instructions.as_str().len();
        let forward = 'F';
        let mut turns: Vec<char> = Vec::new();
        let mut i: usize = 0;
        let ghost instructions = contract@.grammar.instructions;
        while i < contract.grammar.instructions.len()
            invariant
                i <= instructions.len(),
                instructions == contract.grammar.instructions@,
                forward == 'F',
                rng@ == old(rng)@,
                self@ == old(self)@,
                turns@ == turns_of(instructions.take(i as int)),
            decreases instructions.len() - i,
        {
            let step = contract.grammar.instructions[i];
            proof {
                assert(instructions.take(i + 1).drop_last() =~= instructions.take(i as int));
                assert(instructions.take(i + 1).last() == step);
            }
            if step != forward {
                turns.push(step);
            }
            i = i + 1;
        }
        proof {
            assert(instructions.take(i as int) =~= instructions);
        }
        let ghost before = self@;
        let choice = rng.below(4);
        if choice == 0 {
            let mut steps: Vec<char> = Vec::new();
            let mut k: usize = 0;
            while k < length
                invariant
                    k <= length,
                    forward == 'F',
                    rng@ == below_state(old(rng)@, 4),
                    steps@ == forwards(k as nat),
                decreases length - k,
            {
                steps.push(forward);
                k = k + 1;
                proof {
                    assert(steps@ =~= forwards(k as nat));
                }
            }
            self.instructions = string_of(&steps);
            proof {
            }
        } else if choice == 1 {
            let steps = pick_many(rng, turns.as_slice(), length);
            self.instructions = string_of(&steps);
        } else if choice == 2 {
            self.instructions = String::new();
        }
        proof {
            assert(self@.steps == shaped(before, old(rng)@, contract@.grammar).0.steps);
        }
    }
}

impl Mission {
    /// A small mission on a small world: at most six by six, never past the
    /// limit, with up to three robots.
    pub fn draw(rng: &mut Rng, contract: &Contract) -> (r: Self)
        requires
            contract@.grammar.orientations.len() > 0,
            contract@.grammar.instructions.len() > 0,
        ensures
            r@ == drawn_mission(old(rng)@, contract@.limits.max_coordinate, contract@.grammar).0,
            final(rng)@ == drawn_mission(old(rng)@, contract@.limits.max_coordinate, contract@.grammar).1,
    {
        let max_coordinate = contract.limits.max_coordinate;
        let a = rng.below(6);
        let max_x = if a <= max_coordinate { a } else { max_coordinate };
        let b = rng.below(6);
        let max_y = if b <= max_coordinate { b } else { max_coordinate };
        let count = rng.below(4);
        let ghost start = rng@;
        let mut robots: Vec<Robot> = Vec::new();
        let mut i: u32 = 0;
        while i < count
            invariant
                i <= count,
                max_x <= 5,
                max_y <= 5,
                contract@.grammar.orientations.len() > 0,
                contract@.grammar.instructions.len() > 0,
                robot_views(robots@) == drawn_robots(start, i as nat, max_x, max_y, contract@.grammar).0,
                rng@ == drawn_robots(start, i as nat, max_x, max_y, contract@.grammar).1,
            decreases count - i,
        {
            let robot = Robot::draw_on(rng, max_x, max_y, contract);
            let ghost before = robots@;
            robots.push(robot);
            proof {
                assert(robot_views(robots@) =~= robot_views(before).push(robot@));
            }
            i = i + 1;
        }
        Mission { max_x, max_y, robots }
    }

    /// A mission for comparing answers: a small world and one to three robots
    /// with up to fifteen instructions each.
    pub fn draw_busy(rng: &mut Rng, contract: &Contract) -> (r: Self)
        requires
            contract@.grammar.orientations.len() > 0,
            contract@.grammar.instructions.len() > 0,
        ensures
            r@ == busy_mission(old(rng)@, contract@.limits.max_coordinate, contract@.grammar).0,
            final(rng)@ == busy_mission(old(rng)@, contract@.limits.max_coordinate, contract@.grammar).1,
    {
        let max_coordinate = contract.limits.max_coordinate;
        let a = rng.below(6);
        let max_x = if a <= max_coordinate { a } else { max_coordinate };
        let b = rng.below(6);
        let max_y = if b <= max_coordinate { b } else { max_coordinate };
        let count = rng.below(3) + 1;
        let ghost start = rng@;
        let mut robots: Vec<Robot> = Vec::new();
        let mut i: u32 = 0;
        while i < count
            invariant
                i <= count,
                max_x <= 5,
                max_y <= 5,
                contract@.grammar.orientations.len() > 0,
                contract@.grammar.instructions.len() > 0,
                robot_views(robots@) == busy_robots(start, i as nat, max_x, max_y, contract@.grammar).0,
                rng@ == busy_robots(start, i as nat, max_x, max_y, contract@.grammar).1,
            decreases count - i,
        {
            let mut robot = Robot::draw_on(rng, max_x, max_y, contract);
            let length = rng.below(16) as usize;
            let steps = pick_many(rng, contract.grammar.instructions.as_slice(), length);
            robot.instructions = string_of(&steps);
            let ghost before = robots@;
            robots.push(robot);
            proof {
                assert(robot_views(robots@) =~= robot_views(before).push(robot@));
            }
            i = i + 1;
        }
        Mission { max_x, max_y, robots }
    }

    /// A small mission whose robots' instructions were then reshaped into
    /// the degenerate shapes the properties speak of.
    pub fn draw_shaped(rng: &mut Rng, contract: &Contract) -> (r: Self)
        requires
            drawable(contract@.grammar),
        ensures
            r@ == shaped_mission(old(rng)@, contract@.limits.max_coordinate, contract@.grammar).0,
            final(rng)@ == shaped_mission(old(rng)@, contract@.limits.max_coordinate, contract@.grammar).1,
    {
        let mut mission = Self::draw(rng, contract);
        let ghost drawn = mission@;
        let ghost start = rng@;
        let mut robots: Vec<Robot> = Vec::new();
        let mut i: usize = 0;
        let count = mission.robots.len();
        while i < count
            invariant
                i <= count,
                count == drawn.robots.len(),
                drawable(contract@.grammar),
                mission.max_x == drawn.max_x,
                mission.max_y == drawn.max_y,
                mission.robots.len() == count - i,
                robot_views(mission.robots@) == drawn.robots.skip(i as int),
                robot_views(robots@) == shaped_robots(drawn.robots.take(i as int), start, contract@.grammar).0,
                rng@ == shaped_robots(drawn.robots.take(i as int), start, contract@.grammar).1,
            decreases count - i,
        {
            let ghost rest = mission.robots@;
            let mut robot = mission.robots.remove(0);
            proof {
                assert(robot_views(rest)[0] == rest[0]@);
                assert(robot@ == drawn.robots[i as int]);
                assert(robot_views(mission.robots@) =~= robot_views(rest).skip(1));
                assert(drawn.robots.skip(i as int).skip(1) =~= drawn.robots.skip(i + 1));
                assert(drawn.robots.take(i + 1).drop_last() =~= drawn.robots.take(i as int));
                assert(drawn.robots.take(i + 1).last() == drawn.robots[i as int]);
            }
            robot.shape(rng, contract);
            let ghost before = robots@;
            robots.push(robot);
            proof {
                assert(robot_views(robots@) =~= robot_views(before).push(robot@));
            }
            i = i + 1;
        }
        proof {
            assert(drawn.robots.take(i as int) =~= drawn.robots);
        }
        mission.robots = robots;
        mission
    }

    /// This mission with one more robot, drawn on its world and reshaped.
    pub fn with_another_robot(&self, rng: &mut Rng, contract: &Contract) -> (r: Self)
        requires
            self.max_x < u32::MAX,
            self.max_y < u32::MAX,
            drawable(contract@.grammar),
        ensures
            r@ == extended(self@, old(rng)@, contract@.grammar).0,
            final(rng)@ == extended(self@, old(rng)@, contract@.grammar).1,
    {
        let mut longer = self.duplicate();
        let mut robot = Robot::draw_on(rng, self.max_x, self.max_y, contract);
        robot.shape(rng, contract);
        let ghost before = longer.robots@;
        longer.robots.push(robot);
        proof {
            assert(robot_views(longer.robots@) =~= robot_views(before).push(robot@));
        }
        longer
    }
}

} // verus!
