//! The missions of the hand-written cases, worked through the reference: a
//! case that expects output expects what the reference answers for the
//! mission its input states.

use vstd::prelude::*;
use vstd::utf8::*;

use crate::cases::{catalogue_model, CaseModel};
use crate::expect::ExpectModel;
use crate::mission::{canonical_text, read_mission, MissionModel, RobotModel};
use crate::spelling::{blank_lines, blocks, ending_of, grid_line, instruction_line, number_text, position_line, repeated, terminated, SpellingModel};
use crate::text::{decimal, is_blank, is_blank_char, lemma_split_nonempty, split, strip_cr};
use crate::mission::{read_lines, robots_from, skip_blank};
use crate::reference::{answer_text, report, report_line, run_robots, scented_after, start_of, step, walk, Outcome};

verus! {

/// One robot, as values.
pub open spec fn robot_at(x: u32, y: u32, facing: char, steps: Seq<char>) -> RobotModel {
    RobotModel { x, y, facing, steps }
}

/// Whether a case that expects output expects exactly what the reference
/// simulation answers for the mission its input states.
pub open spec fn answered_as_the_reference(c: CaseModel) -> bool {
    c.expect matches ExpectModel::Output(expected) ==> (read_mission(c.stdin) matches Ok(m) && expected == encode_utf8(answer_text(m)))
}

proof fn lemma_walk_pushed(max_x: u32, max_y: u32, scents: Seq<(u32, u32)>, start: Outcome, steps: Seq<char>, c: char)
    ensures
        walk(max_x, max_y, scents, start, steps.push(c)) == step(max_x, max_y, scents, walk(max_x, max_y, scents, start, steps), c),
{
    assert(steps.push(c).drop_last() =~= steps);
}

proof fn lemma_run_pushed(max_x: u32, max_y: u32, robots: Seq<RobotModel>, r: RobotModel)
    ensures
        run_robots(max_x, max_y, robots.push(r)) == ({
            let (before, scents) = run_robots(max_x, max_y, robots);
            let o = walk(max_x, max_y, scents, start_of(r), r.steps);
            (before.push(o), scented_after(scents, o))
        }),
{
    assert(robots.push(r).drop_last() =~= robots);
}

proof fn lemma_report_pushed(os: Seq<Outcome>, o: Outcome)
    ensures
        report(os.push(o)) == report(os) + report_line(o),
{
    assert(os.push(o).drop_last() =~= os);
}

/// The reference's answer to one of the catalogue's missions, worked step by step.
#[verifier::rlimit(80)]
#[verifier::spinoff_prover]
proof fn lemma_answer_the_sample()
    ensures
        answer_text(sample_mission()) == seq!['1', ' ', '1', ' ', 'E', '\n', '3', ' ', '3', ' ', 'N', ' ', 'L', 'O', 'S', 'T', '\n', '2', ' ', '3', ' ', 'S', '\n'],
{
    let st0 = seq!['R', 'F', 'R', 'F', 'R', 'F', 'R', 'F'];
    let s0 = start_of(robot_at(1, 1, 'E', seq!['R', 'F', 'R', 'F', 'R', 'F', 'R', 'F']));
    let sc0: Seq<(u32, u32)> = Seq::<(u32, u32)>::empty();
    assert(st0.take(0) =~= Seq::<char>::empty());
    lemma_walk_pushed(5, 3, sc0, s0, st0.take(0), st0[0]);
    assert(st0.take(0).push(st0[0]) =~= st0.take(1));
    assert(walk(5, 3, sc0, s0, st0.take(1)) == Outcome { x: 1, y: 1, facing: 'S', lost: false });
    lemma_walk_pushed(5, 3, sc0, s0, st0.take(1), st0[1]);
    assert(st0.take(1).push(st0[1]) =~= st0.take(2));
    assert(walk(5, 3, sc0, s0, st0.take(2)) == Outcome { x: 1, y: 0, facing: 'S', lost: false });
    lemma_walk_pushed(5, 3, sc0, s0, st0.take(2), st0[2]);
    assert(st0.take(2).push(st0[2]) =~= st0.take(3));
    assert(walk(5, 3, sc0, s0, st0.take(3)) == Outcome { x: 1, y: 0, facing: 'W', lost: false });
    lemma_walk_pushed(5, 3, sc0, s0, st0.take(3), st0[3]);
    assert(st0.take(3).push(st0[3]) =~= st0.take(4));
    assert(walk(5, 3, sc0, s0, st0.take(4)) == Outcome { x: 0, y: 0, facing: 'W', lost: false });
    lemma_walk_pushed(5, 3, sc0, s0, st0.take(4), st0[4]);
    assert(st0.take(4).push(st0[4]) =~= st0.take(5));
    assert(walk(5, 3, sc0, s0, st0.take(5)) == Outcome { x: 0, y: 0, facing: 'N', lost: false });
    lemma_walk_pushed(5, 3, sc0, s0, st0.take(5), st0[5]);
    assert(st0.take(5).push(st0[5]) =~= st0.take(6));
    assert(walk(5, 3, sc0, s0, st0.take(6)) == Outcome { x: 0, y: 1, facing: 'N', lost: false });
    lemma_walk_pushed(5, 3, sc0, s0, st0.take(6), st0[6]);
    assert(st0.take(6).push(st0[6]) =~= st0.take(7));
    assert(walk(5, 3, sc0, s0, st0.take(7)) == Outcome { x: 0, y: 1, facing: 'E', lost: false });
    lemma_walk_pushed(5, 3, sc0, s0, st0.take(7), st0[7]);
    assert(st0.take(7).push(st0[7]) =~= st0.take(8));
    assert(walk(5, 3, sc0, s0, st0.take(8)) == Outcome { x: 1, y: 1, facing: 'E', lost: false });
    assert(st0.take(8) =~= st0);
    let st1 = seq!['F', 'R', 'R', 'F', 'L', 'L', 'F', 'F', 'R', 'R', 'F', 'L', 'L'];
    let s1 = start_of(robot_at(3, 2, 'N', seq!['F', 'R', 'R', 'F', 'L', 'L', 'F', 'F', 'R', 'R', 'F', 'L', 'L']));
    let sc1: Seq<(u32, u32)> = Seq::<(u32, u32)>::empty();
    assert(st1.take(0) =~= Seq::<char>::empty());
    lemma_walk_pushed(5, 3, sc1, s1, st1.take(0), st1[0]);
    assert(st1.take(0).push(st1[0]) =~= st1.take(1));
    assert(walk(5, 3, sc1, s1, st1.take(1)) == Outcome { x: 3, y: 3, facing: 'N', lost: false });
    lemma_walk_pushed(5, 3, sc1, s1, st1.take(1), st1[1]);
    assert(st1.take(1).push(st1[1]) =~= st1.take(2));
    assert(walk(5, 3, sc1, s1, st1.take(2)) == Outcome { x: 3, y: 3, facing: 'E', lost: false });
    lemma_walk_pushed(5, 3, sc1, s1, st1.take(2), st1[2]);
    assert(st1.take(2).push(st1[2]) =~= st1.take(3));
    assert(walk(5, 3, sc1, s1, st1.take(3)) == Outcome { x: 3, y: 3, facing: 'S', lost: false });
    lemma_walk_pushed(5, 3, sc1, s1, st1.take(3), st1[3]);
    assert(st1.take(3).push(st1[3]) =~= st1.take(4));
    assert(walk(5, 3, sc1, s1, st1.take(4)) == Outcome { x: 3, y: 2, facing: 'S', lost: false });
    lemma_walk_pushed(5, 3, sc1, s1, st1.take(4), st1[4]);
    assert(st1.take(4).push(st1[4]) =~= st1.take(5));
    assert(walk(5, 3, sc1, s1, st1.take(5)) == Outcome { x: 3, y: 2, facing: 'E', lost: false });
    lemma_walk_pushed(5, 3, sc1, s1, st1.take(5), st1[5]);
    assert(st1.take(5).push(st1[5]) =~= st1.take(6));
    assert(walk(5, 3, sc1, s1, st1.take(6)) == Outcome { x: 3, y: 2, facing: 'N', lost: false });
    lemma_walk_pushed(5, 3, sc1, s1, st1.take(6), st1[6]);
    assert(st1.take(6).push(st1[6]) =~= st1.take(7));
    assert(walk(5, 3, sc1, s1, st1.take(7)) == Outcome { x: 3, y: 3, facing: 'N', lost: false });
    lemma_walk_pushed(5, 3, sc1, s1, st1.take(7), st1[7]);
    assert(st1.take(7).push(st1[7]) =~= st1.take(8));
    assert(!sc1.contains((3u32, 3u32))) by { assert forall|j: int| 0 <= j < sc1.len() implies sc1[j] != (3u32, 3u32) by {} }
    assert(walk(5, 3, sc1, s1, st1.take(8)) == Outcome { x: 3, y: 3, facing: 'N', lost: true });
    lemma_walk_pushed(5, 3, sc1, s1, st1.take(8), st1[8]);
    assert(st1.take(8).push(st1[8]) =~= st1.take(9));
    assert(walk(5, 3, sc1, s1, st1.take(9)) == Outcome { x: 3, y: 3, facing: 'N', lost: true });
    lemma_walk_pushed(5, 3, sc1, s1, st1.take(9), st1[9]);
    assert(st1.take(9).push(st1[9]) =~= st1.take(10));
    assert(walk(5, 3, sc1, s1, st1.take(10)) == Outcome { x: 3, y: 3, facing: 'N', lost: true });
    lemma_walk_pushed(5, 3, sc1, s1, st1.take(10), st1[10]);
    assert(st1.take(10).push(st1[10]) =~= st1.take(11));
    assert(walk(5, 3, sc1, s1, st1.take(11)) == Outcome { x: 3, y: 3, facing: 'N', lost: true });
    lemma_walk_pushed(5, 3, sc1, s1, st1.take(11), st1[11]);
    assert(st1.take(11).push(st1[11]) =~= st1.take(12));
    assert(walk(5, 3, sc1, s1, st1.take(12)) == Outcome { x: 3, y: 3, facing: 'N', lost: true });
    lemma_walk_pushed(5, 3, sc1, s1, st1.take(12), st1[12]);
    assert(st1.take(12).push(st1[12]) =~= st1.take(13));
    assert(walk(5, 3, sc1, s1, st1.take(13)) == Outcome { x: 3, y: 3, facing: 'N', lost: true });
    assert(st1.take(13) =~= st1);
    let st2 = seq!['L', 'L', 'F', 'F', 'F', 'L', 'F', 'L', 'F', 'L'];
    let s2 = start_of(robot_at(0, 3, 'W', seq!['L', 'L', 'F', 'F', 'F', 'L', 'F', 'L', 'F', 'L']));
    let sc2: Seq<(u32, u32)> = seq![(3u32, 3u32)];
    assert(st2.take(0) =~= Seq::<char>::empty());
    assert(sc2.contains((3u32, 3u32))) by { assert(sc2[0] == (3u32, 3u32)); }
    lemma_walk_pushed(5, 3, sc2, s2, st2.take(0), st2[0]);
    assert(st2.take(0).push(st2[0]) =~= st2.take(1));
    assert(walk(5, 3, sc2, s2, st2.take(1)) == Outcome { x: 0, y: 3, facing: 'S', lost: false });
    lemma_walk_pushed(5, 3, sc2, s2, st2.take(1), st2[1]);
    assert(st2.take(1).push(st2[1]) =~= st2.take(2));
    assert(walk(5, 3, sc2, s2, st2.take(2)) == Outcome { x: 0, y: 3, facing: 'E', lost: false });
    lemma_walk_pushed(5, 3, sc2, s2, st2.take(2), st2[2]);
    assert(st2.take(2).push(st2[2]) =~= st2.take(3));
    assert(walk(5, 3, sc2, s2, st2.take(3)) == Outcome { x: 1, y: 3, facing: 'E', lost: false });
    lemma_walk_pushed(5, 3, sc2, s2, st2.take(3), st2[3]);
    assert(st2.take(3).push(st2[3]) =~= st2.take(4));
    assert(walk(5, 3, sc2, s2, st2.take(4)) == Outcome { x: 2, y: 3, facing: 'E', lost: false });
    lemma_walk_pushed(5, 3, sc2, s2, st2.take(4), st2[4]);
    assert(st2.take(4).push(st2[4]) =~= st2.take(5));
    assert(walk(5, 3, sc2, s2, st2.take(5)) == Outcome { x: 3, y: 3, facing: 'E', lost: false });
    lemma_walk_pushed(5, 3, sc2, s2, st2.take(5), st2[5]);
    assert(st2.take(5).push(st2[5]) =~= st2.take(6));
    assert(walk(5, 3, sc2, s2, st2.take(6)) == Outcome { x: 3, y: 3, facing: 'N', lost: false });
    lemma_walk_pushed(5, 3, sc2, s2, st2.take(6), st2[6]);
    assert(st2.take(6).push(st2[6]) =~= st2.take(7));
    assert(walk(5, 3, sc2, s2, st2.take(7)) == Outcome { x: 3, y: 3, facing: 'N', lost: false });
    lemma_walk_pushed(5, 3, sc2, s2, st2.take(7), st2[7]);
    assert(st2.take(7).push(st2[7]) =~= st2.take(8));
    assert(walk(5, 3, sc2, s2, st2.take(8)) == Outcome { x: 3, y: 3, facing: 'W', lost: false });
    lemma_walk_pushed(5, 3, sc2, s2, st2.take(8), st2[8]);
    assert(st2.take(8).push(st2[8]) =~= st2.take(9));
    assert(walk(5, 3, sc2, s2, st2.take(9)) == Outcome { x: 2, y: 3, facing: 'W', lost: false });
    lemma_walk_pushed(5, 3, sc2, s2, st2.take(9), st2[9]);
    assert(st2.take(9).push(st2[9]) =~= st2.take(10));
    assert(walk(5, 3, sc2, s2, st2.take(10)) == Outcome { x: 2, y: 3, facing: 'S', lost: false });
    assert(st2.take(10) =~= st2);
    let e: Seq<RobotModel> = seq![];
    lemma_run_pushed(5, 3, e, robot_at(1, 1, 'E', seq!['R', 'F', 'R', 'F', 'R', 'F', 'R', 'F']));
    assert(e.push(robot_at(1, 1, 'E', seq!['R', 'F', 'R', 'F', 'R', 'F', 'R', 'F'])) =~= seq![robot_at(1, 1, 'E', seq!['R', 'F', 'R', 'F', 'R', 'F', 'R', 'F'])]);
    assert(run_robots(5, 3, seq![robot_at(1, 1, 'E', seq!['R', 'F', 'R', 'F', 'R', 'F', 'R', 'F'])]) == (seq![Outcome { x: 1, y: 1, facing: 'E', lost: false }], Seq::<(u32, u32)>::empty()));
    lemma_run_pushed(5, 3, seq![robot_at(1, 1, 'E', seq!['R', 'F', 'R', 'F', 'R', 'F', 'R', 'F'])], robot_at(3, 2, 'N', seq!['F', 'R', 'R', 'F', 'L', 'L', 'F', 'F', 'R', 'R', 'F', 'L', 'L']));
    assert(seq![robot_at(1, 1, 'E', seq!['R', 'F', 'R', 'F', 'R', 'F', 'R', 'F'])].push(robot_at(3, 2, 'N', seq!['F', 'R', 'R', 'F', 'L', 'L', 'F', 'F', 'R', 'R', 'F', 'L', 'L'])) =~= seq![robot_at(1, 1, 'E', seq!['R', 'F', 'R', 'F', 'R', 'F', 'R', 'F']), robot_at(3, 2, 'N', seq!['F', 'R', 'R', 'F', 'L', 'L', 'F', 'F', 'R', 'R', 'F', 'L', 'L'])]);
    assert(run_robots(5, 3, seq![robot_at(1, 1, 'E', seq!['R', 'F', 'R', 'F', 'R', 'F', 'R', 'F']), robot_at(3, 2, 'N', seq!['F', 'R', 'R', 'F', 'L', 'L', 'F', 'F', 'R', 'R', 'F', 'L', 'L'])]) == (seq![Outcome { x: 1, y: 1, facing: 'E', lost: false }, Outcome { x: 3, y: 3, facing: 'N', lost: true }], seq![(3u32, 3u32)]));
    lemma_run_pushed(5, 3, seq![robot_at(1, 1, 'E', seq!['R', 'F', 'R', 'F', 'R', 'F', 'R', 'F']), robot_at(3, 2, 'N', seq!['F', 'R', 'R', 'F', 'L', 'L', 'F', 'F', 'R', 'R', 'F', 'L', 'L'])], robot_at(0, 3, 'W', seq!['L', 'L', 'F', 'F', 'F', 'L', 'F', 'L', 'F', 'L']));
    assert(seq![robot_at(1, 1, 'E', seq!['R', 'F', 'R', 'F', 'R', 'F', 'R', 'F']), robot_at(3, 2, 'N', seq!['F', 'R', 'R', 'F', 'L', 'L', 'F', 'F', 'R', 'R', 'F', 'L', 'L'])].push(robot_at(0, 3, 'W', seq!['L', 'L', 'F', 'F', 'F', 'L', 'F', 'L', 'F', 'L'])) =~= seq![robot_at(1, 1, 'E', seq!['R', 'F', 'R', 'F', 'R', 'F', 'R', 'F']), robot_at(3, 2, 'N', seq!['F', 'R', 'R', 'F', 'L', 'L', 'F', 'F', 'R', 'R', 'F', 'L', 'L']), robot_at(0, 3, 'W', seq!['L', 'L', 'F', 'F', 'F', 'L', 'F', 'L', 'F', 'L'])]);
    assert(run_robots(5, 3, seq![robot_at(1, 1, 'E', seq!['R', 'F', 'R', 'F', 'R', 'F', 'R', 'F']), robot_at(3, 2, 'N', seq!['F', 'R', 'R', 'F', 'L', 'L', 'F', 'F', 'R', 'R', 'F', 'L', 'L']), robot_at(0, 3, 'W', seq!['L', 'L', 'F', 'F', 'F', 'L', 'F', 'L', 'F', 'L'])]) == (seq![Outcome { x: 1, y: 1, facing: 'E', lost: false }, Outcome { x: 3, y: 3, facing: 'N', lost: true }, Outcome { x: 2, y: 3, facing: 'S', lost: false }], seq![(3u32, 3u32)]));
    let eo: Seq<Outcome> = seq![];
    lemma_report_pushed(eo, Outcome { x: 1, y: 1, facing: 'E', lost: false });
    assert(eo.push(Outcome { x: 1, y: 1, facing: 'E', lost: false }) =~= seq![Outcome { x: 1, y: 1, facing: 'E', lost: false }]);
    lemma_report_pushed(seq![Outcome { x: 1, y: 1, facing: 'E', lost: false }], Outcome { x: 3, y: 3, facing: 'N', lost: true });
    assert(seq![Outcome { x: 1, y: 1, facing: 'E', lost: false }].push(Outcome { x: 3, y: 3, facing: 'N', lost: true }) =~= seq![Outcome { x: 1, y: 1, facing: 'E', lost: false }, Outcome { x: 3, y: 3, facing: 'N', lost: true }]);
    lemma_report_pushed(seq![Outcome { x: 1, y: 1, facing: 'E', lost: false }, Outcome { x: 3, y: 3, facing: 'N', lost: true }], Outcome { x: 2, y: 3, facing: 'S', lost: false });
    assert(seq![Outcome { x: 1, y: 1, facing: 'E', lost: false }, Outcome { x: 3, y: 3, facing: 'N', lost: true }].push(Outcome { x: 2, y: 3, facing: 'S', lost: false }) =~= seq![Outcome { x: 1, y: 1, facing: 'E', lost: false }, Outcome { x: 3, y: 3, facing: 'N', lost: true }, Outcome { x: 2, y: 3, facing: 'S', lost: false }]);
    assert(answer_text(MissionModel { max_x: 5, max_y: 3, robots: seq![robot_at(1, 1, 'E', seq!['R', 'F', 'R', 'F', 'R', 'F', 'R', 'F']), robot_at(3, 2, 'N', seq!['F', 'R', 'R', 'F', 'L', 'L', 'F', 'F', 'R', 'R', 'F', 'L', 'L']), robot_at(0, 3, 'W', seq!['L', 'L', 'F', 'F', 'F', 'L', 'F', 'L', 'F', 'L'])] }) =~= seq!['1', ' ', '1', ' ', 'E', '\n', '3', ' ', '3', ' ', 'N', ' ', 'L', 'O', 'S', 'T', '\n', '2', ' ', '3', ' ', 'S', '\n']);
}

/// The reference's answer to one of the catalogue's missions, worked step by step.
#[verifier::rlimit(80)]
#[verifier::spinoff_prover]
proof fn lemma_answer_the_first_robot()
    ensures
        answer_text(first_robot_mission()) == seq!['1', ' ', '1', ' ', 'E', '\n'],
{
    let st0 = seq!['R', 'F', 'R', 'F', 'R', 'F', 'R', 'F'];
    let s0 = start_of(robot_at(1, 1, 'E', seq!['R', 'F', 'R', 'F', 'R', 'F', 'R', 'F']));
    let sc0: Seq<(u32, u32)> = Seq::<(u32, u32)>::empty();
    assert(st0.take(0) =~= Seq::<char>::empty());
    lemma_walk_pushed(5, 3, sc0, s0, st0.take(0), st0[0]);
    assert(st0.take(0).push(st0[0]) =~= st0.take(1));
    assert(walk(5, 3, sc0, s0, st0.take(1)) == Outcome { x: 1, y: 1, facing: 'S', lost: false });
    lemma_walk_pushed(5, 3, sc0, s0, st0.take(1), st0[1]);
    assert(st0.take(1).push(st0[1]) =~= st0.take(2));
    assert(walk(5, 3, sc0, s0, st0.take(2)) == Outcome { x: 1, y: 0, facing: 'S', lost: false });
    lemma_walk_pushed(5, 3, sc0, s0, st0.take(2), st0[2]);
    assert(st0.take(2).push(st0[2]) =~= st0.take(3));
    assert(walk(5, 3, sc0, s0, st0.take(3)) == Outcome { x: 1, y: 0, facing: 'W', lost: false });
    lemma_walk_pushed(5, 3, sc0, s0, st0.take(3), st0[3]);
    assert(st0.take(3).push(st0[3]) =~= st0.take(4));
    assert(walk(5, 3, sc0, s0, st0.take(4)) == Outcome { x: 0, y: 0, facing: 'W', lost: false });
    lemma_walk_pushed(5, 3, sc0, s0, st0.take(4), st0[4]);
    assert(st0.take(4).push(st0[4]) =~= st0.take(5));
    assert(walk(5, 3, sc0, s0, st0.take(5)) == Outcome { x: 0, y: 0, facing: 'N', lost: false });
    lemma_walk_pushed(5, 3, sc0, s0, st0.take(5), st0[5]);
    assert(st0.take(5).push(st0[5]) =~= st0.take(6));
    assert(walk(5, 3, sc0, s0, st0.take(6)) == Outcome { x: 0, y: 1, facing: 'N', lost: false });
    lemma_walk_pushed(5, 3, sc0, s0, st0.take(6), st0[6]);
    assert(st0.take(6).push(st0[6]) =~= st0.take(7));
    assert(walk(5, 3, sc0, s0, st0.take(7)) == Outcome { x: 0, y: 1, facing: 'E', lost: false });
    lemma_walk_pushed(5, 3, sc0, s0, st0.take(7), st0[7]);
    assert(st0.take(7).push(st0[7]) =~= st0.take(8));
    assert(walk(5, 3, sc0, s0, st0.take(8)) == Outcome { x: 1, y: 1, facing: 'E', lost: false });
    assert(st0.take(8) =~= st0);
    let e: Seq<RobotModel> = seq![];
    lemma_run_pushed(5, 3, e, robot_at(1, 1, 'E', seq!['R', 'F', 'R', 'F', 'R', 'F', 'R', 'F']));
    assert(e.push(robot_at(1, 1, 'E', seq!['R', 'F', 'R', 'F', 'R', 'F', 'R', 'F'])) =~= seq![robot_at(1, 1, 'E', seq!['R', 'F', 'R', 'F', 'R', 'F', 'R', 'F'])]);
    assert(run_robots(5, 3, seq![robot_at(1, 1, 'E', seq!['R', 'F', 'R', 'F', 'R', 'F', 'R', 'F'])]) == (seq![Outcome { x: 1, y: 1, facing: 'E', lost: false }], Seq::<(u32, u32)>::empty()));
    let eo: Seq<Outcome> = seq![];
    lemma_report_pushed(eo, Outcome { x: 1, y: 1, facing: 'E', lost: false });
    assert(eo.push(Outcome { x: 1, y: 1, facing: 'E', lost: false }) =~= seq![Outcome { x: 1, y: 1, facing: 'E', lost: false }]);
    assert(answer_text(MissionModel { max_x: 5, max_y: 3, robots: seq![robot_at(1, 1, 'E', seq!['R', 'F', 'R', 'F', 'R', 'F', 'R', 'F'])] }) =~= seq!['1', ' ', '1', ' ', 'E', '\n']);
}

/// The reference's answer to one of the catalogue's missions, worked step by step.
#[verifier::rlimit(80)]
#[verifier::spinoff_prover]
proof fn lemma_answer_an_idle_robot()
    ensures
        answer_text(MissionModel { max_x: 5, max_y: 3, robots: seq![robot_at(1, 1, 'E', Seq::<char>::empty())] }) == seq!['1', ' ', '1', ' ', 'E', '\n'],
{
    let st0 = Seq::<char>::empty();
    let s0 = start_of(robot_at(1, 1, 'E', Seq::<char>::empty()));
    let sc0: Seq<(u32, u32)> = Seq::<(u32, u32)>::empty();
    assert(st0.take(0) =~= Seq::<char>::empty());
    assert(st0.take(0) =~= st0);
    let e: Seq<RobotModel> = seq![];
    lemma_run_pushed(5, 3, e, robot_at(1, 1, 'E', Seq::<char>::empty()));
    assert(e.push(robot_at(1, 1, 'E', Seq::<char>::empty())) =~= seq![robot_at(1, 1, 'E', Seq::<char>::empty())]);
    assert(run_robots(5, 3, seq![robot_at(1, 1, 'E', Seq::<char>::empty())]) == (seq![Outcome { x: 1, y: 1, facing: 'E', lost: false }], Seq::<(u32, u32)>::empty()));
    let eo: Seq<Outcome> = seq![];
    lemma_report_pushed(eo, Outcome { x: 1, y: 1, facing: 'E', lost: false });
    assert(eo.push(Outcome { x: 1, y: 1, facing: 'E', lost: false }) =~= seq![Outcome { x: 1, y: 1, facing: 'E', lost: false }]);
    assert(answer_text(MissionModel { max_x: 5, max_y: 3, robots: seq![robot_at(1, 1, 'E', Seq::<char>::empty())] }) =~= seq!['1', ' ', '1', ' ', 'E', '\n']);
}

/// The reference's answer to one of the catalogue's missions, worked step by step.
#[verifier::rlimit(80)]
#[verifier::spinoff_prover]
proof fn lemma_answer_no_robots()
    ensures
        answer_text(MissionModel { max_x: 5, max_y: 3, robots: seq![] }) == Seq::<char>::empty(),
{
    let e: Seq<RobotModel> = seq![];
    let eo: Seq<Outcome> = seq![];
    assert(answer_text(MissionModel { max_x: 5, max_y: 3, robots: seq![] }) =~= Seq::<char>::empty());
}

/// The reference's answer to one of the catalogue's missions, worked step by step.
#[verifier::rlimit(80)]
#[verifier::spinoff_prover]
proof fn lemma_answer_one_cell()
    ensures
        answer_text(MissionModel { max_x: 0, max_y: 0, robots: seq![robot_at(0, 0, 'N', Seq::<char>::empty())] }) == seq!['0', ' ', '0', ' ', 'N', '\n'],
{
    let st0 = Seq::<char>::empty();
    let s0 = start_of(robot_at(0, 0, 'N', Seq::<char>::empty()));
    let sc0: Seq<(u32, u32)> = Seq::<(u32, u32)>::empty();
    assert(st0.take(0) =~= Seq::<char>::empty());
    assert(st0.take(0) =~= st0);
    let e: Seq<RobotModel> = seq![];
    lemma_run_pushed(0, 0, e, robot_at(0, 0, 'N', Seq::<char>::empty()));
    assert(e.push(robot_at(0, 0, 'N', Seq::<char>::empty())) =~= seq![robot_at(0, 0, 'N', Seq::<char>::empty())]);
    assert(run_robots(0, 0, seq![robot_at(0, 0, 'N', Seq::<char>::empty())]) == (seq![Outcome { x: 0, y: 0, facing: 'N', lost: false }], Seq::<(u32, u32)>::empty()));
    let eo: Seq<Outcome> = seq![];
    lemma_report_pushed(eo, Outcome { x: 0, y: 0, facing: 'N', lost: false });
    assert(eo.push(Outcome { x: 0, y: 0, facing: 'N', lost: false }) =~= seq![Outcome { x: 0, y: 0, facing: 'N', lost: false }]);
    assert(answer_text(MissionModel { max_x: 0, max_y: 0, robots: seq![robot_at(0, 0, 'N', Seq::<char>::empty())] }) =~= seq!['0', ' ', '0', ' ', 'N', '\n']);
}

/// The reference's answer to one of the catalogue's missions, worked step by step.
#[verifier::rlimit(80)]
#[verifier::spinoff_prover]
proof fn lemma_answer_a_scent_saves_another_direction()
    ensures
        answer_text(MissionModel { max_x: 1, max_y: 1, robots: seq![robot_at(1, 1, 'N', seq!['F']), robot_at(1, 1, 'E', seq!['F'])] }) == seq!['1', ' ', '1', ' ', 'N', ' ', 'L', 'O', 'S', 'T', '\n', '1', ' ', '1', ' ', 'E', '\n'],
{
    let st0 = seq!['F'];
    let s0 = start_of(robot_at(1, 1, 'N', seq!['F']));
    let sc0: Seq<(u32, u32)> = Seq::<(u32, u32)>::empty();
    assert(st0.take(0) =~= Seq::<char>::empty());
    lemma_walk_pushed(1, 1, sc0, s0, st0.take(0), st0[0]);
    assert(st0.take(0).push(st0[0]) =~= st0.take(1));
    assert(!sc0.contains((1u32, 1u32))) by { assert forall|j: int| 0 <= j < sc0.len() implies sc0[j] != (1u32, 1u32) by {} }
    assert(walk(1, 1, sc0, s0, st0.take(1)) == Outcome { x: 1, y: 1, facing: 'N', lost: true });
    assert(st0.take(1) =~= st0);
    let st1 = seq!['F'];
    let s1 = start_of(robot_at(1, 1, 'E', seq!['F']));
    let sc1: Seq<(u32, u32)> = seq![(1u32, 1u32)];
    assert(st1.take(0) =~= Seq::<char>::empty());
    assert(sc1.contains((1u32, 1u32))) by { assert(sc1[0] == (1u32, 1u32)); }
    lemma_walk_pushed(1, 1, sc1, s1, st1.take(0), st1[0]);
    assert(st1.take(0).push(st1[0]) =~= st1.take(1));
    assert(walk(1, 1, sc1, s1, st1.take(1)) == Outcome { x: 1, y: 1, facing: 'E', lost: false });
    assert(st1.take(1) =~= st1);
    let e: Seq<RobotModel> = seq![];
    lemma_run_pushed(1, 1, e, robot_at(1, 1, 'N', seq!['F']));
    assert(e.push(robot_at(1, 1, 'N', seq!['F'])) =~= seq![robot_at(1, 1, 'N', seq!['F'])]);
    assert(run_robots(1, 1, seq![robot_at(1, 1, 'N', seq!['F'])]) == (seq![Outcome { x: 1, y: 1, facing: 'N', lost: true }], seq![(1u32, 1u32)]));
    lemma_run_pushed(1, 1, seq![robot_at(1, 1, 'N', seq!['F'])], robot_at(1, 1, 'E', seq!['F']));
    assert(seq![robot_at(1, 1, 'N', seq!['F'])].push(robot_at(1, 1, 'E', seq!['F'])) =~= seq![robot_at(1, 1, 'N', seq!['F']), robot_at(1, 1, 'E', seq!['F'])]);
    assert(run_robots(1, 1, seq![robot_at(1, 1, 'N', seq!['F']), robot_at(1, 1, 'E', seq!['F'])]) == (seq![Outcome { x: 1, y: 1, facing: 'N', lost: true }, Outcome { x: 1, y: 1, facing: 'E', lost: false }], seq![(1u32, 1u32)]));
    let eo: Seq<Outcome> = seq![];
    lemma_report_pushed(eo, Outcome { x: 1, y: 1, facing: 'N', lost: true });
    assert(eo.push(Outcome { x: 1, y: 1, facing: 'N', lost: true }) =~= seq![Outcome { x: 1, y: 1, facing: 'N', lost: true }]);
    lemma_report_pushed(seq![Outcome { x: 1, y: 1, facing: 'N', lost: true }], Outcome { x: 1, y: 1, facing: 'E', lost: false });
    assert(seq![Outcome { x: 1, y: 1, facing: 'N', lost: true }].push(Outcome { x: 1, y: 1, facing: 'E', lost: false }) =~= seq![Outcome { x: 1, y: 1, facing: 'N', lost: true }, Outcome { x: 1, y: 1, facing: 'E', lost: false }]);
    assert(answer_text(MissionModel { max_x: 1, max_y: 1, robots: seq![robot_at(1, 1, 'N', seq!['F']), robot_at(1, 1, 'E', seq!['F'])] }) =~= seq!['1', ' ', '1', ' ', 'N', ' ', 'L', 'O', 'S', 'T', '\n', '1', ' ', '1', ' ', 'E', '\n']);
}

/// The reference's answer to one of the catalogue's missions, worked step by step.
#[verifier::rlimit(80)]
#[verifier::spinoff_prover]
proof fn lemma_answer_a_scent_saves_twice()
    ensures
        answer_text(MissionModel { max_x: 1, max_y: 1, robots: seq![robot_at(1, 1, 'N', seq!['F']), robot_at(1, 1, 'N', seq!['F']), robot_at(1, 1, 'N', seq!['F'])] }) == seq!['1', ' ', '1', ' ', 'N', ' ', 'L', 'O', 'S', 'T', '\n', '1', ' ', '1', ' ', 'N', '\n', '1', ' ', '1', ' ', 'N', '\n'],
{
    let st0 = seq!['F'];
    let s0 = start_of(robot_at(1, 1, 'N', seq!['F']));
    let sc0: Seq<(u32, u32)> = Seq::<(u32, u32)>::empty();
    assert(st0.take(0) =~= Seq::<char>::empty());
    lemma_walk_pushed(1, 1, sc0, s0, st0.take(0), st0[0]);
    assert(st0.take(0).push(st0[0]) =~= st0.take(1));
    assert(!sc0.contains((1u32, 1u32))) by { assert forall|j: int| 0 <= j < sc0.len() implies sc0[j] != (1u32, 1u32) by {} }
    assert(walk(1, 1, sc0, s0, st0.take(1)) == Outcome { x: 1, y: 1, facing: 'N', lost: true });
    assert(st0.take(1) =~= st0);
    let st1 = seq!['F'];
    let s1 = start_of(robot_at(1, 1, 'N', seq!['F']));
    let sc1: Seq<(u32, u32)> = seq![(1u32, 1u32)];
    assert(st1.take(0) =~= Seq::<char>::empty());
    assert(sc1.contains((1u32, 1u32))) by { assert(sc1[0] == (1u32, 1u32)); }
    lemma_walk_pushed(1, 1, sc1, s1, st1.take(0), st1[0]);
    assert(st1.take(0).push(st1[0]) =~= st1.take(1));
    assert(walk(1, 1, sc1, s1, st1.take(1)) == Outcome { x: 1, y: 1, facing: 'N', lost: false });
    assert(st1.take(1) =~= st1);
    let st2 = seq!['F'];
    let s2 = start_of(robot_at(1, 1, 'N', seq!['F']));
    let sc2: Seq<(u32, u32)> = seq![(1u32, 1u32)];
    assert(st2.take(0) =~= Seq::<char>::empty());
    assert(sc2.contains((1u32, 1u32))) by { assert(sc2[0] == (1u32, 1u32)); }
    lemma_walk_pushed(1, 1, sc2, s2, st2.take(0), st2[0]);
    assert(st2.take(0).push(st2[0]) =~= st2.take(1));
    assert(walk(1, 1, sc2, s2, st2.take(1)) == Outcome { x: 1, y: 1, facing: 'N', lost: false });
    assert(st2.take(1) =~= st2);
    let e: Seq<RobotModel> = seq![];
    lemma_run_pushed(1, 1, e, robot_at(1, 1, 'N', seq!['F']));
    assert(e.push(robot_at(1, 1, 'N', seq!['F'])) =~= seq![robot_at(1, 1, 'N', seq!['F'])]);
    assert(run_robots(1, 1, seq![robot_at(1, 1, 'N', seq!['F'])]) == (seq![Outcome { x: 1, y: 1, facing: 'N', lost: true }], seq![(1u32, 1u32)]));
    lemma_run_pushed(1, 1, seq![robot_at(1, 1, 'N', seq!['F'])], robot_at(1, 1, 'N', seq!['F']));
    assert(seq![robot_at(1, 1, 'N', seq!['F'])].push(robot_at(1, 1, 'N', seq!['F'])) =~= seq![robot_at(1, 1, 'N', seq!['F']), robot_at(1, 1, 'N', seq!['F'])]);
    assert(run_robots(1, 1, seq![robot_at(1, 1, 'N', seq!['F']), robot_at(1, 1, 'N', seq!['F'])]) == (seq![Outcome { x: 1, y: 1, facing: 'N', lost: true }, Outcome { x: 1, y: 1, facing: 'N', lost: false }], seq![(1u32, 1u32)]));
    lemma_run_pushed(1, 1, seq![robot_at(1, 1, 'N', seq!['F']), robot_at(1, 1, 'N', seq!['F'])], robot_at(1, 1, 'N', seq!['F']));
    assert(seq![robot_at(1, 1, 'N', seq!['F']), robot_at(1, 1, 'N', seq!['F'])].push(robot_at(1, 1, 'N', seq!['F'])) =~= seq![robot_at(1, 1, 'N', seq!['F']), robot_at(1, 1, 'N', seq!['F']), robot_at(1, 1, 'N', seq!['F'])]);
    assert(run_robots(1, 1, seq![robot_at(1, 1, 'N', seq!['F']), robot_at(1, 1, 'N', seq!['F']), robot_at(1, 1, 'N', seq!['F'])]) == (seq![Outcome { x: 1, y: 1, facing: 'N', lost: true }, Outcome { x: 1, y: 1, facing: 'N', lost: false }, Outcome { x: 1, y: 1, facing: 'N', lost: false }], seq![(1u32, 1u32)]));
    let eo: Seq<Outcome> = seq![];
    lemma_report_pushed(eo, Outcome { x: 1, y: 1, facing: 'N', lost: true });
    assert(eo.push(Outcome { x: 1, y: 1, facing: 'N', lost: true }) =~= seq![Outcome { x: 1, y: 1, facing: 'N', lost: true }]);
    lemma_report_pushed(seq![Outcome { x: 1, y: 1, facing: 'N', lost: true }], Outcome { x: 1, y: 1, facing: 'N', lost: false });
    assert(seq![Outcome { x: 1, y: 1, facing: 'N', lost: true }].push(Outcome { x: 1, y: 1, facing: 'N', lost: false }) =~= seq![Outcome { x: 1, y: 1, facing: 'N', lost: true }, Outcome { x: 1, y: 1, facing: 'N', lost: false }]);
    lemma_report_pushed(seq![Outcome { x: 1, y: 1, facing: 'N', lost: true }, Outcome { x: 1, y: 1, facing: 'N', lost: false }], Outcome { x: 1, y: 1, facing: 'N', lost: false });
    assert(seq![Outcome { x: 1, y: 1, facing: 'N', lost: true }, Outcome { x: 1, y: 1, facing: 'N', lost: false }].push(Outcome { x: 1, y: 1, facing: 'N', lost: false }) =~= seq![Outcome { x: 1, y: 1, facing: 'N', lost: true }, Outcome { x: 1, y: 1, facing: 'N', lost: false }, Outcome { x: 1, y: 1, facing: 'N', lost: false }]);
    assert(answer_text(MissionModel { max_x: 1, max_y: 1, robots: seq![robot_at(1, 1, 'N', seq!['F']), robot_at(1, 1, 'N', seq!['F']), robot_at(1, 1, 'N', seq!['F'])] }) =~= seq!['1', ' ', '1', ' ', 'N', ' ', 'L', 'O', 'S', 'T', '\n', '1', ' ', '1', ' ', 'N', '\n', '1', ' ', '1', ' ', 'N', '\n']);
}

/// The reference's answer to one of the catalogue's missions, worked step by step.
#[verifier::rlimit(80)]
#[verifier::spinoff_prover]
proof fn lemma_answer_a_scent_stays_on_its_cell()
    ensures
        answer_text(MissionModel { max_x: 2, max_y: 0, robots: seq![robot_at(0, 0, 'W', seq!['F']), robot_at(0, 0, 'E', seq!['F', 'F', 'F'])] }) == seq!['0', ' ', '0', ' ', 'W', ' ', 'L', 'O', 'S', 'T', '\n', '2', ' ', '0', ' ', 'E', ' ', 'L', 'O', 'S', 'T', '\n'],
{
    let st0 = seq!['F'];
    let s0 = start_of(robot_at(0, 0, 'W', seq!['F']));
    let sc0: Seq<(u32, u32)> = Seq::<(u32, u32)>::empty();
    assert(st0.take(0) =~= Seq::<char>::empty());
    lemma_walk_pushed(2, 0, sc0, s0, st0.take(0), st0[0]);
    assert(st0.take(0).push(st0[0]) =~= st0.take(1));
    assert(!sc0.contains((0u32, 0u32))) by { assert forall|j: int| 0 <= j < sc0.len() implies sc0[j] != (0u32, 0u32) by {} }
    assert(walk(2, 0, sc0, s0, st0.take(1)) == Outcome { x: 0, y: 0, facing: 'W', lost: true });
    assert(st0.take(1) =~= st0);
    let st1 = seq!['F', 'F', 'F'];
    let s1 = start_of(robot_at(0, 0, 'E', seq!['F', 'F', 'F']));
    let sc1: Seq<(u32, u32)> = seq![(0u32, 0u32)];
    assert(st1.take(0) =~= Seq::<char>::empty());
    assert(sc1.contains((0u32, 0u32))) by { assert(sc1[0] == (0u32, 0u32)); }
    lemma_walk_pushed(2, 0, sc1, s1, st1.take(0), st1[0]);
    assert(st1.take(0).push(st1[0]) =~= st1.take(1));
    assert(walk(2, 0, sc1, s1, st1.take(1)) == Outcome { x: 1, y: 0, facing: 'E', lost: false });
    lemma_walk_pushed(2, 0, sc1, s1, st1.take(1), st1[1]);
    assert(st1.take(1).push(st1[1]) =~= st1.take(2));
    assert(walk(2, 0, sc1, s1, st1.take(2)) == Outcome { x: 2, y: 0, facing: 'E', lost: false });
    lemma_walk_pushed(2, 0, sc1, s1, st1.take(2), st1[2]);
    assert(st1.take(2).push(st1[2]) =~= st1.take(3));
    assert(!sc1.contains((2u32, 0u32))) by { assert forall|j: int| 0 <= j < sc1.len() implies sc1[j] != (2u32, 0u32) by {} }
    assert(walk(2, 0, sc1, s1, st1.take(3)) == Outcome { x: 2, y: 0, facing: 'E', lost: true });
    assert(st1.take(3) =~= st1);
    let e: Seq<RobotModel> = seq![];
    lemma_run_pushed(2, 0, e, robot_at(0, 0, 'W', seq!['F']));
    assert(e.push(robot_at(0, 0, 'W', seq!['F'])) =~= seq![robot_at(0, 0, 'W', seq!['F'])]);
    assert(run_robots(2, 0, seq![robot_at(0, 0, 'W', seq!['F'])]) == (seq![Outcome { x: 0, y: 0, facing: 'W', lost: true }], seq![(0u32, 0u32)]));
    lemma_run_pushed(2, 0, seq![robot_at(0, 0, 'W', seq!['F'])], robot_at(0, 0, 'E', seq!['F', 'F', 'F']));
    assert(seq![robot_at(0, 0, 'W', seq!['F'])].push(robot_at(0, 0, 'E', seq!['F', 'F', 'F'])) =~= seq![robot_at(0, 0, 'W', seq!['F']), robot_at(0, 0, 'E', seq!['F', 'F', 'F'])]);
    assert(run_robots(2, 0, seq![robot_at(0, 0, 'W', seq!['F']), robot_at(0, 0, 'E', seq!['F', 'F', 'F'])]) == (seq![Outcome { x: 0, y: 0, facing: 'W', lost: true }, Outcome { x: 2, y: 0, facing: 'E', lost: true }], seq![(0u32, 0u32), (2u32, 0u32)]));
    let eo: Seq<Outcome> = seq![];
    lemma_report_pushed(eo, Outcome { x: 0, y: 0, facing: 'W', lost: true });
    assert(eo.push(Outcome { x: 0, y: 0, facing: 'W', lost: true }) =~= seq![Outcome { x: 0, y: 0, facing: 'W', lost: true }]);
    lemma_report_pushed(seq![Outcome { x: 0, y: 0, facing: 'W', lost: true }], Outcome { x: 2, y: 0, facing: 'E', lost: true });
    assert(seq![Outcome { x: 0, y: 0, facing: 'W', lost: true }].push(Outcome { x: 2, y: 0, facing: 'E', lost: true }) =~= seq![Outcome { x: 0, y: 0, facing: 'W', lost: true }, Outcome { x: 2, y: 0, facing: 'E', lost: true }]);
    assert(answer_text(MissionModel { max_x: 2, max_y: 0, robots: seq![robot_at(0, 0, 'W', seq!['F']), robot_at(0, 0, 'E', seq!['F', 'F', 'F'])] }) =~= seq!['0', ' ', '0', ' ', 'W', ' ', 'L', 'O', 'S', 'T', '\n', '2', ' ', '0', ' ', 'E', ' ', 'L', 'O', 'S', 'T', '\n']);
}

/// A case whose input is a mission written in a spelling the contract
/// admits, and whose expected output is the reference's answer for it, is
/// answered as the reference answers.
#[verifier::rlimit(80)]
#[verifier::spinoff_prover]
proof fn lemma_spelled_case(c: CaseModel, m: MissionModel, sp: SpellingModel, answer: Seq<char>)
    requires
        crate::reading::plain_mission(m),
        crate::reading::legal_spelling(sp),
        c.stdin == encode_utf8(crate::spelling::rendered_text(m, sp)),
        c.expect == ExpectModel::Output(encode_utf8(answer)),
        answer == answer_text(m),
    ensures
        answered_as_the_reference(c),
{
    crate::reading::law_every_legal_spelling_says_the_same_mission(m, sp);
}

/// The three lines of a one-robot mission in a spelling with no blank
/// lines before its grid line, each ended as the spelling ends lines.
proof fn lemma_rendered_one_robot(m: MissionModel, sp: SpellingModel)
    requires
        m.robots.len() == 1,
        sp.blanks_before_grid == 0,
    ensures
        ({
            let g = grid_line(sp, m);
            let p = position_line(sp, m.robots[0], 1);
            let i = instruction_line(sp, m.robots[0], 2);
            let e = ending_of(sp);
            crate::spelling::rendered_text(m, sp) == g + e + p + e + i + (if sp.omit_final_eol && !crate::text::is_blank(i) { seq![] } else { e })
        }),
{
    let g = grid_line(sp, m);
    let p = position_line(sp, m.robots[0], 1);
    let i = instruction_line(sp, m.robots[0], 2);
    let e = ending_of(sp);
    assert(blank_lines(sp, 0) =~= Seq::<Seq<char>>::empty());
    assert(blocks(sp, m.robots, 0) =~= Seq::<Seq<char>>::empty());
    assert(blocks(sp, m.robots, 1) =~= seq![p, i]);
    let lines = crate::spelling::spelled_lines(m, sp);
    assert(lines =~= seq![g, p, i]);
    reveal_with_fuel(terminated, 4);
    assert(terminated(lines, e, sp.omit_final_eol, 0) =~= Seq::<char>::empty());
    assert(terminated(lines, e, sp.omit_final_eol, 1) =~= g + e);
    assert(terminated(lines, e, sp.omit_final_eol, 2) =~= g + e + p + e);
}

/// A number as a line spells it, when the line asks for no leading zeros.
proof fn lemma_number_without_zeros(sp: SpellingModel, line: nat, value: u32)
    requires
        sp.zeros.len() > 0,
        sp.zeros[(line % sp.zeros.len()) as int] == 0,
    ensures
        number_text(sp, line, value) == decimal(value as nat),
{
    assert(repeated('0', 0) =~= Seq::<char>::empty());
    assert(number_text(sp, line, value) =~= decimal(value as nat));
}

/// The brief's first robot, on its world.
pub open spec fn first_robot_mission() -> MissionModel {
    MissionModel { max_x: 5, max_y: 3, robots: seq![robot_at(1, 1, 'E', seq!['R', 'F', 'R', 'F', 'R', 'F', 'R', 'F'])] }
}

proof fn lemma_first_robot_mission_is_plain()
    ensures
        crate::reading::plain_mission(first_robot_mission()),
        answer_text(first_robot_mission()) == "1 1 E\n"@,
{
    reveal_strlit("1 1 E\n");
    lemma_answer_the_first_robot();
    let m = first_robot_mission();
    assert(m.robots[0].steps.last() == 'F');
    assert(crate::reading::plain_robot(m.robots[0]));
}

/// Whether every separator run of a spelling is some spaces and tabs, and
/// every edge is spaces and tabs or nothing.
proof fn lemma_legal(sp: SpellingModel)
    requires
        crate::spelling::cycles(sp),
        forall|i: int, j: int| 0 <= i < sp.runs.len() && 0 <= j < sp.runs[i].len() ==> crate::text::is_blank_char(#[trigger] sp.runs[i][j]),
        forall|i: int| 0 <= i < sp.runs.len() ==> (#[trigger] sp.runs[i]).len() > 0,
        forall|i: int, j: int| 0 <= i < sp.leading.len() && 0 <= j < sp.leading[i].len() ==> crate::text::is_blank_char(#[trigger] sp.leading[i][j]),
        forall|i: int, j: int| 0 <= i < sp.trailing.len() && 0 <= j < sp.trailing[i].len() ==> crate::text::is_blank_char(#[trigger] sp.trailing[i][j]),
    ensures
        crate::reading::legal_spelling(sp),
{
}

#[verifier::rlimit(80)]
#[verifier::spinoff_prover]
proof fn lemma_whitespace_case()
    ensures
        answered_as_the_reference(crate::cases::whitespace_cases()[0]),
{
    reveal_strlit("\t5  \t3 \n \t1\t1\tE  \n RFRFRFRF \t\n");
    reveal_strlit("\n");
    let m = first_robot_mission();
    let sp = SpellingModel {
        crlf: false,
        omit_final_eol: false,
        blanks_before_grid: 0,
        runs: seq![seq![' ', ' ', '\t'], seq!['\t'], seq![' ']],
        leading: seq![seq!['\t'], seq![' ', '\t'], seq![' ']],
        trailing: seq![seq![' '], seq![' ', ' '], seq![' ', '\t']],
        zeros: seq![0usize],
        blanks_after_block: seq![0u32],
        blank_is_whitespace: false,
    };
    assert(0nat % 3 == 0 && 1nat % 3 == 1 && 2nat % 3 == 2 && 0nat % 1 == 0 && 1nat % 1 == 0);
    lemma_number_without_zeros(sp, 0, 5);
    lemma_number_without_zeros(sp, 0, 3);
    lemma_number_without_zeros(sp, 1, 1);
    let g = grid_line(sp, m);
    assert(g =~= seq!['\t', '5', ' ', ' ', '\t', '3', ' ']);
    let p = position_line(sp, m.robots[0], 1);
    assert(p =~= seq![' ', '\t', '1', '\t', '1', '\t', 'E', ' ', ' ']);
    let i = instruction_line(sp, m.robots[0], 2);
    assert(i =~= seq![' ', 'R', 'F', 'R', 'F', 'R', 'F', 'R', 'F', ' ', '\t']);
    lemma_rendered_one_robot(m, sp);
    assert(crate::spelling::rendered_text(m, sp) =~= "\t5  \t3 \n \t1\t1\tE  \n RFRFRFRF \t\n"@);
    lemma_legal(sp);
    lemma_first_robot_mission_is_plain();
    lemma_spelled_case(crate::cases::whitespace_cases()[0], m, sp, "1 1 E\n"@);
}

/// Single spaces between tokens, nothing at the edges, `zeros` leading zeros
/// before every number, and the line ending and final line ending given.
pub open spec fn simple_spelling(crlf: bool, omit_final_eol: bool, zeros: usize) -> SpellingModel {
    SpellingModel {
        crlf,
        omit_final_eol,
        blanks_before_grid: 0,
        runs: seq![seq![' ']],
        leading: seq![Seq::<char>::empty()],
        trailing: seq![Seq::<char>::empty()],
        zeros: seq![zeros],
        blanks_after_block: seq![0u32],
        blank_is_whitespace: false,
    }
}

#[verifier::rlimit(50)]
#[verifier::spinoff_prover]
proof fn lemma_first_robot_simply_spelled(crlf: bool, omit_final_eol: bool, zeros: usize)
    ensures
        ({
            let z = repeated('0', zeros as nat);
            let e = if crlf { seq!['\r', '\n'] } else { seq!['\n'] };
            crate::spelling::rendered_text(first_robot_mission(), simple_spelling(crlf, omit_final_eol, zeros))
                == z + seq!['5', ' '] + z + seq!['3'] + e + z + seq!['1', ' '] + z + seq!['1', ' ', 'E'] + e
                    + seq!['R', 'F', 'R', 'F', 'R', 'F', 'R', 'F'] + (if omit_final_eol { seq![] } else { e })
        }),
        crate::reading::legal_spelling(simple_spelling(crlf, omit_final_eol, zeros)),
{
    reveal_strlit("\n");
    reveal_strlit("\r\n");
    let m = first_robot_mission();
    let sp = simple_spelling(crlf, omit_final_eol, zeros);
    let z = repeated('0', zeros as nat);
    let e = if crlf { seq!['\r', '\n'] } else { seq!['\n'] };
    assert(ending_of(sp) =~= e);
    assert(0nat % 1 == 0 && 1nat % 1 == 0 && 2nat % 1 == 0);
    assert(grid_line(sp, m) =~= z + seq!['5', ' '] + z + seq!['3']);
    assert(position_line(sp, m.robots[0], 1) =~= z + seq!['1', ' '] + z + seq!['1', ' ', 'E']);
    let i = instruction_line(sp, m.robots[0], 2);
    assert(i =~= seq!['R', 'F', 'R', 'F', 'R', 'F', 'R', 'F']);
    assert(!crate::text::is_blank(i)) by { assert(i[0] == 'R'); }
    lemma_rendered_one_robot(m, sp);
    assert(crate::spelling::rendered_text(m, sp) =~= z + seq!['5', ' '] + z + seq!['3'] + e + z + seq!['1', ' '] + z + seq!['1', ' ', 'E'] + e
        + seq!['R', 'F', 'R', 'F', 'R', 'F', 'R', 'F'] + (if omit_final_eol { seq![] } else { e }));
    lemma_legal(sp);
}

#[verifier::rlimit(80)]
#[verifier::spinoff_prover]
proof fn lemma_leading_zeros_case()
    ensures
        answered_as_the_reference(crate::cases::vocabulary_cases()[5]),
{
    reveal_strlit("05 03\n01 01 E\nRFRFRFRF\n");
    lemma_first_robot_simply_spelled(false, false, 1);
    assert(repeated('0', 0) =~= Seq::<char>::empty());
    assert(repeated('0', 1) =~= seq!['0']);
    assert(crate::spelling::rendered_text(first_robot_mission(), simple_spelling(false, false, 1)) =~= "05 03\n01 01 E\nRFRFRFRF\n"@);
    lemma_first_robot_mission_is_plain();
    lemma_spelled_case(crate::cases::vocabulary_cases()[5], first_robot_mission(), simple_spelling(false, false, 1), "1 1 E\n"@);
}

#[verifier::rlimit(80)]
#[verifier::spinoff_prover]
proof fn lemma_unterminated_case()
    ensures
        answered_as_the_reference(crate::cases::framing_cases()[1]),
{
    reveal_strlit("5 3\n1 1 E\nRFRFRFRF");
    lemma_first_robot_simply_spelled(false, true, 0);
    assert(repeated('0', 0) =~= Seq::<char>::empty());
    assert(crate::spelling::rendered_text(first_robot_mission(), simple_spelling(false, true, 0)) =~= "5 3\n1 1 E\nRFRFRFRF"@);
    lemma_first_robot_mission_is_plain();
    lemma_spelled_case(crate::cases::framing_cases()[1], first_robot_mission(), simple_spelling(false, true, 0), "1 1 E\n"@);
}

#[verifier::rlimit(80)]
#[verifier::spinoff_prover]
proof fn lemma_crlf_case()
    ensures
        answered_as_the_reference(crate::cases::framing_cases()[2]),
{
    reveal_strlit("5 3\r\n1 1 E\r\nRFRFRFRF\r\n");
    lemma_first_robot_simply_spelled(true, false, 0);
    assert(repeated('0', 0) =~= Seq::<char>::empty());
    assert(crate::spelling::rendered_text(first_robot_mission(), simple_spelling(true, false, 0)) =~= "5 3\r\n1 1 E\r\nRFRFRFRF\r\n"@);
    lemma_first_robot_mission_is_plain();
    lemma_spelled_case(crate::cases::framing_cases()[2], first_robot_mission(), simple_spelling(true, false, 0), "1 1 E\n"@);
}

/// A case whose input is a mission written the canonical way, and whose
/// expected output is the reference's answer for it, is answered as the
/// reference answers.
#[verifier::rlimit(80)]
#[verifier::spinoff_prover]
proof fn lemma_canonical_case(c: CaseModel, m: MissionModel, answer: Seq<char>)
    requires
        crate::reading::plain_mission(m),
        c.stdin == encode_utf8(canonical_text(m)),
        c.expect == ExpectModel::Output(encode_utf8(answer)),
        answer == answer_text(m),
    ensures
        answered_as_the_reference(c),
{
    crate::reading::law_a_canonical_mission_reads_back_as_itself(m);
}


#[verifier::rlimit(80)]
#[verifier::spinoff_prover]
proof fn lemma_idle_robot_case()
    ensures
        answered_as_the_reference(crate::cases::mission_cases()[1]),
{
    reveal_with_fuel(crate::mission::robots_text, 4);
    reveal_strlit("5 3\n1 1 E\n\n");
    reveal_strlit("1 1 E\n");
    let m = MissionModel { max_x: 5, max_y: 3, robots: seq![robot_at(1, 1, 'E', Seq::<char>::empty())] };
    lemma_answer_an_idle_robot();
    assert(canonical_text(m) =~= "5 3\n1 1 E\n\n"@);
    assert(crate::reading::plain_mission(m));
    assert(answer_text(m) =~= "1 1 E\n"@);
    lemma_canonical_case(crate::cases::mission_cases()[1], m, "1 1 E\n"@);
}

#[verifier::rlimit(80)]
#[verifier::spinoff_prover]
proof fn lemma_no_robots_case()
    ensures
        answered_as_the_reference(crate::cases::mission_cases()[2]),
{
    reveal_with_fuel(crate::mission::robots_text, 4);
    reveal_strlit("5 3\n");
    let m = MissionModel { max_x: 5, max_y: 3, robots: seq![] };
    lemma_answer_no_robots();
    assert(canonical_text(m) =~= "5 3\n"@);
    assert(crate::reading::plain_mission(m));
    assert(encode_utf8(Seq::<char>::empty()) =~= Seq::<u8>::empty());
    lemma_canonical_case(crate::cases::mission_cases()[2], m, Seq::<char>::empty());
}

#[verifier::rlimit(80)]
#[verifier::spinoff_prover]
proof fn lemma_one_cell_case()
    ensures
        answered_as_the_reference(crate::cases::mission_cases()[3]),
{
    reveal_with_fuel(crate::mission::robots_text, 4);
    reveal_strlit("0 0\n0 0 N\n\n");
    reveal_strlit("0 0 N\n");
    let m = MissionModel { max_x: 0, max_y: 0, robots: seq![robot_at(0, 0, 'N', Seq::<char>::empty())] };
    lemma_answer_one_cell();
    assert(canonical_text(m) =~= "0 0\n0 0 N\n\n"@);
    assert(crate::reading::plain_mission(m));
    assert(answer_text(m) =~= "0 0 N\n"@);
    lemma_canonical_case(crate::cases::mission_cases()[3], m, "0 0 N\n"@);
}

#[verifier::rlimit(80)]
#[verifier::spinoff_prover]
proof fn lemma_scent_saves_another_direction_case()
    ensures
        answered_as_the_reference(crate::cases::scent_cases()[0]),
{
    reveal_with_fuel(crate::mission::robots_text, 4);
    reveal_strlit("1 1\n1 1 N\nF\n1 1 E\nF\n");
    reveal_strlit("1 1 N LOST\n1 1 E\n");
    let m = MissionModel { max_x: 1, max_y: 1, robots: seq![robot_at(1, 1, 'N', seq!['F']), robot_at(1, 1, 'E', seq!['F'])] };
    lemma_answer_a_scent_saves_another_direction();
    assert(canonical_text(m) =~= "1 1\n1 1 N\nF\n1 1 E\nF\n"@);
    assert(crate::reading::plain_mission(m));
    assert(answer_text(m) =~= "1 1 N LOST\n1 1 E\n"@);
    lemma_canonical_case(crate::cases::scent_cases()[0], m, "1 1 N LOST\n1 1 E\n"@);
}

#[verifier::rlimit(60)]
#[verifier::spinoff_prover]
proof fn lemma_scent_saves_twice_case()
    ensures
        answered_as_the_reference(crate::cases::scent_cases()[1]),
{
    reveal_with_fuel(crate::mission::robots_text, 4);
    reveal_strlit("1 1\n1 1 N\nF\n1 1 N\nF\n1 1 N\nF\n");
    reveal_strlit("1 1 N LOST\n1 1 N\n1 1 N\n");
    let m = MissionModel { max_x: 1, max_y: 1, robots: seq![robot_at(1, 1, 'N', seq!['F']), robot_at(1, 1, 'N', seq!['F']), robot_at(1, 1, 'N', seq!['F'])] };
    lemma_answer_a_scent_saves_twice();
    assert(canonical_text(m) =~= "1 1\n1 1 N\nF\n1 1 N\nF\n1 1 N\nF\n"@);
    assert(crate::reading::plain_mission(m));
    assert(answer_text(m) =~= "1 1 N LOST\n1 1 N\n1 1 N\n"@);
    lemma_canonical_case(crate::cases::scent_cases()[1], m, "1 1 N LOST\n1 1 N\n1 1 N\n"@);
}

#[verifier::rlimit(80)]
#[verifier::spinoff_prover]
proof fn lemma_scent_stays_on_its_cell_case()
    ensures
        answered_as_the_reference(crate::cases::scent_cases()[2]),
{
    reveal_with_fuel(crate::mission::robots_text, 4);
    reveal_strlit("2 0\n0 0 W\nF\n0 0 E\nFFF\n");
    reveal_strlit("0 0 W LOST\n2 0 E LOST\n");
    let m = MissionModel { max_x: 2, max_y: 0, robots: seq![robot_at(0, 0, 'W', seq!['F']), robot_at(0, 0, 'E', seq!['F', 'F', 'F'])] };
    lemma_answer_a_scent_stays_on_its_cell();
    assert(canonical_text(m) =~= "2 0\n0 0 W\nF\n0 0 E\nFFF\n"@);
    assert(crate::reading::plain_mission(m));
    assert(answer_text(m) =~= "0 0 W LOST\n2 0 E LOST\n"@);
    lemma_canonical_case(crate::cases::scent_cases()[2], m, "0 0 W LOST\n2 0 E LOST\n"@);
}

/// The brief's sample mission.
pub open spec fn sample_mission() -> MissionModel {
    MissionModel { max_x: 5, max_y: 3, robots: seq![robot_at(1, 1, 'E', seq!['R', 'F', 'R', 'F', 'R', 'F', 'R', 'F']), robot_at(3, 2, 'N', seq!['F', 'R', 'R', 'F', 'L', 'L', 'F', 'F', 'R', 'R', 'F', 'L', 'L']), robot_at(0, 3, 'W', seq!['L', 'L', 'F', 'F', 'F', 'L', 'F', 'L', 'F', 'L'])] }
}

/// The brief's sample spelling: a blank line after each block but the last.
pub open spec fn sample_spelling() -> SpellingModel {
    SpellingModel { blanks_after_block: seq![1u32], ..simple_spelling(false, false, 0) }
}

pub open spec fn sample_lines() -> Seq<Seq<char>> {
    seq![seq!['5', ' ', '3'], seq!['1', ' ', '1', ' ', 'E'], seq!['R', 'F', 'R', 'F', 'R', 'F', 'R', 'F'], Seq::<char>::empty(), seq!['3', ' ', '2', ' ', 'N'], seq!['F', 'R', 'R', 'F', 'L', 'L', 'F', 'F', 'R', 'R', 'F', 'L', 'L'], Seq::<char>::empty(), seq!['0', ' ', '3', ' ', 'W'], seq!['L', 'L', 'F', 'F', 'F', 'L', 'F', 'L', 'F', 'L']]
}

pub open spec fn sample_text() -> Seq<char> {
    seq!['5', ' ', '3', '\n', '1', ' ', '1', ' ', 'E', '\n', 'R', 'F', 'R', 'F', 'R', 'F', 'R', 'F', '\n', '\n', '3', ' ', '2', ' ', 'N', '\n', 'F', 'R', 'R', 'F', 'L', 'L', 'F', 'F', 'R', 'R', 'F', 'L', 'L', '\n', '\n', '0', ' ', '3', ' ', 'W', '\n', 'L', 'L', 'F', 'F', 'F', 'L', 'F', 'L', 'F', 'L', '\n']
}

#[verifier::rlimit(80)]
#[verifier::spinoff_prover]
proof fn lemma_sample_lines()
    ensures
        crate::spelling::spelled_lines(sample_mission(), sample_spelling()) == sample_lines(),
{
    let m = sample_mission();
    let sp = sample_spelling();
    assert(0nat % 1 == 0 && 1nat % 1 == 0 && 2nat % 1 == 0 && 3nat % 1 == 0 && 4nat % 1 == 0 && 5nat % 1 == 0 && 6nat % 1 == 0);
    lemma_number_without_zeros(sp, 0, 5);
    lemma_number_without_zeros(sp, 0, 3);
    lemma_number_without_zeros(sp, 1, 1);
    lemma_number_without_zeros(sp, 3, 3);
    lemma_number_without_zeros(sp, 3, 2);
    lemma_number_without_zeros(sp, 5, 0);
    lemma_number_without_zeros(sp, 5, 3);
    assert(m.robots[0] == robot_at(1, 1, 'E', seq!['R', 'F', 'R', 'F', 'R', 'F', 'R', 'F']));
    assert(m.robots[1] == robot_at(3, 2, 'N', seq!['F', 'R', 'R', 'F', 'L', 'L', 'F', 'F', 'R', 'R', 'F', 'L', 'L']));
    assert(m.robots[2] == robot_at(0, 3, 'W', seq!['L', 'L', 'F', 'F', 'F', 'L', 'F', 'L', 'F', 'L']));
    let g = grid_line(sp, m);
    assert(g =~= seq!['5', ' ', '3']);
    let p0 = position_line(sp, m.robots[0], 1);
    assert(p0 =~= seq!['1', ' ', '1', ' ', 'E']);
    let i0 = instruction_line(sp, m.robots[0], 2);
    assert(i0 =~= seq!['R', 'F', 'R', 'F', 'R', 'F', 'R', 'F']);
    let p1 = position_line(sp, m.robots[1], 3);
    assert(p1 =~= seq!['3', ' ', '2', ' ', 'N']);
    let i1 = instruction_line(sp, m.robots[1], 4);
    assert(i1 =~= seq!['F', 'R', 'R', 'F', 'L', 'L', 'F', 'F', 'R', 'R', 'F', 'L', 'L']);
    let p2 = position_line(sp, m.robots[2], 5);
    assert(p2 =~= seq!['0', ' ', '3', ' ', 'W']);
    let i2 = instruction_line(sp, m.robots[2], 6);
    assert(i2 =~= seq!['L', 'L', 'F', 'F', 'F', 'L', 'F', 'L', 'F', 'L']);
    assert(crate::spelling::blank_line(sp) =~= Seq::<char>::empty());
    assert(blank_lines(sp, 0) =~= Seq::<Seq<char>>::empty());
    assert(blank_lines(sp, 1) =~= seq![Seq::<char>::empty()]);
    assert(sp.blanks_after_block[0] == 1u32);
    assert(blocks(sp, m.robots, 0) =~= Seq::<Seq<char>>::empty());
    assert(blocks(sp, m.robots, 1) =~= seq![p0, i0, Seq::<char>::empty()]);
    assert(blocks(sp, m.robots, 2) =~= seq![p0, i0, Seq::<char>::empty(), p1, i1, Seq::<char>::empty()]);
    assert(blocks(sp, m.robots, 3) =~= seq![p0, i0, Seq::<char>::empty(), p1, i1, Seq::<char>::empty(), p2, i2]);
    assert(crate::spelling::spelled_lines(m, sp) =~= sample_lines());
}

#[verifier::rlimit(80)]
#[verifier::spinoff_prover]
proof fn lemma_sample_rendered()
    ensures
        crate::spelling::rendered_text(sample_mission(), sample_spelling()) == sample_text(),
{
    reveal_strlit("\n");
    lemma_sample_lines();
    let lines = sample_lines();
    let e = seq!['\n'];
    assert(ending_of(sample_spelling()) =~= e);
    assert(terminated(lines, e, false, 0) =~= Seq::<char>::empty());
    assert(terminated(lines, e, false, 1) =~= seq!['5', ' ', '3', '\n']);
    assert(terminated(lines, e, false, 2) =~= seq!['5', ' ', '3', '\n', '1', ' ', '1', ' ', 'E', '\n']);
    assert(terminated(lines, e, false, 3) =~= seq!['5', ' ', '3', '\n', '1', ' ', '1', ' ', 'E', '\n', 'R', 'F', 'R', 'F', 'R', 'F', 'R', 'F', '\n']);
    assert(terminated(lines, e, false, 4) =~= seq!['5', ' ', '3', '\n', '1', ' ', '1', ' ', 'E', '\n', 'R', 'F', 'R', 'F', 'R', 'F', 'R', 'F', '\n', '\n']);
    assert(terminated(lines, e, false, 5) =~= seq!['5', ' ', '3', '\n', '1', ' ', '1', ' ', 'E', '\n', 'R', 'F', 'R', 'F', 'R', 'F', 'R', 'F', '\n', '\n', '3', ' ', '2', ' ', 'N', '\n']);
    assert(terminated(lines, e, false, 6) =~= seq!['5', ' ', '3', '\n', '1', ' ', '1', ' ', 'E', '\n', 'R', 'F', 'R', 'F', 'R', 'F', 'R', 'F', '\n', '\n', '3', ' ', '2', ' ', 'N', '\n', 'F', 'R', 'R', 'F', 'L', 'L', 'F', 'F', 'R', 'R', 'F', 'L', 'L', '\n']);
    assert(terminated(lines, e, false, 7) =~= seq!['5', ' ', '3', '\n', '1', ' ', '1', ' ', 'E', '\n', 'R', 'F', 'R', 'F', 'R', 'F', 'R', 'F', '\n', '\n', '3', ' ', '2', ' ', 'N', '\n', 'F', 'R', 'R', 'F', 'L', 'L', 'F', 'F', 'R', 'R', 'F', 'L', 'L', '\n', '\n']);
    assert(terminated(lines, e, false, 8) =~= seq!['5', ' ', '3', '\n', '1', ' ', '1', ' ', 'E', '\n', 'R', 'F', 'R', 'F', 'R', 'F', 'R', 'F', '\n', '\n', '3', ' ', '2', ' ', 'N', '\n', 'F', 'R', 'R', 'F', 'L', 'L', 'F', 'F', 'R', 'R', 'F', 'L', 'L', '\n', '\n', '0', ' ', '3', ' ', 'W', '\n']);
    assert(terminated(lines, e, false, 9) =~= seq!['5', ' ', '3', '\n', '1', ' ', '1', ' ', 'E', '\n', 'R', 'F', 'R', 'F', 'R', 'F', 'R', 'F', '\n', '\n', '3', ' ', '2', ' ', 'N', '\n', 'F', 'R', 'R', 'F', 'L', 'L', 'F', 'F', 'R', 'R', 'F', 'L', 'L', '\n', '\n', '0', ' ', '3', ' ', 'W', '\n', 'L', 'L', 'F', 'F', 'F', 'L', 'F', 'L', 'F', 'L', '\n']);
    assert(terminated(lines, e, false, 9) =~= sample_text());
}

#[verifier::rlimit(80)]
#[verifier::spinoff_prover]
proof fn lemma_sample_bytes()
    ensures
        crate::data::SAMPLE_INPUT@ == encode_utf8(sample_text()),
        crate::data::SAMPLE_OUTPUT@ == encode_utf8(seq!['1', ' ', '1', ' ', 'E', '\n', '3', ' ', '3', ' ', 'N', ' ', 'L', 'O', 'S', 'T', '\n', '2', ' ', '3', ' ', 'S', '\n']),
{
    let text = sample_text();
    assert(is_ascii_chars(text));
    is_ascii_chars_encode_utf8(text);
    assert(crate::data::SAMPLE_INPUT@ =~= encode_utf8(text));
    let answer = seq!['1', ' ', '1', ' ', 'E', '\n', '3', ' ', '3', ' ', 'N', ' ', 'L', 'O', 'S', 'T', '\n', '2', ' ', '3', ' ', 'S', '\n'];
    assert(is_ascii_chars(answer));
    is_ascii_chars_encode_utf8(answer);
    assert(crate::data::SAMPLE_OUTPUT@ =~= encode_utf8(answer));
}

#[verifier::rlimit(80)]
#[verifier::spinoff_prover]
proof fn lemma_sample_case()
    ensures
        answered_as_the_reference(crate::cases::mission_cases()[0]),
{
    let m = sample_mission();
    let sp = sample_spelling();
    lemma_sample_rendered();
    lemma_sample_bytes();
    lemma_answer_the_sample();
    assert(crate::reading::plain_mission(m)) by {
        assert(crate::reading::plain_robot(m.robots[0]));
        assert(crate::reading::plain_robot(m.robots[1]));
        assert(crate::reading::plain_robot(m.robots[2]));
    }
    lemma_legal(sp);
    lemma_spelled_case(crate::cases::mission_cases()[0], m, sp, seq!['1', ' ', '1', ' ', 'E', '\n', '3', ' ', '3', ' ', 'N', ' ', 'L', 'O', 'S', 'T', '\n', '2', ' ', '3', ' ', 'S', '\n']);
}

/// A blank line put in front of the lines changes nothing about where the
/// next line that is not blank stands but its number.
proof fn lemma_skip_blank_shifted(b: Seq<char>, lines: Seq<Seq<char>>, k: int)
    requires
        0 <= k,
    ensures
        skip_blank(seq![b] + lines, k + 1) == skip_blank(lines, k) + 1,
    decreases lines.len() - k,
{
    let shifted = seq![b] + lines;
    if k < lines.len() {
        assert(shifted[k + 1] == lines[k]);
        if is_blank(lines[k]) {
            lemma_skip_blank_shifted(b, lines, k + 1);
        }
    }
}

/// Robots read after a blank line put in front are the robots read without it.
proof fn lemma_robots_from_shifted(b: Seq<char>, lines: Seq<Seq<char>>, k: int)
    requires
        0 <= k,
    ensures
        robots_from(seq![b] + lines, k + 1) == robots_from(lines, k),
    decreases lines.len() - k,
{
    let shifted = seq![b] + lines;
    lemma_skip_blank_shifted(b, lines, k);
    crate::mission::lemma_skip_blank(lines, k);
    let start = skip_blank(lines, k);
    if start < lines.len() && k <= lines.len() && start + 1 < lines.len() {
        assert(shifted[start + 1] == lines[start]);
        assert(shifted[start + 2] == lines[start + 1]);
        lemma_robots_from_shifted(b, lines, start + 2);
    }
}

/// A line of spaces and tabs, ended, put in front of a mission's text does
/// not change what it reads as.
#[verifier::rlimit(80)]
#[verifier::spinoff_prover]
proof fn lemma_blank_line_in_front(b: Seq<char>, t: Seq<char>)
    requires
        is_blank(b),
        t.len() > 0,
    ensures
        read_mission(encode_utf8(b + seq!['\n'] + t)) == read_mission(encode_utf8(t)),
{
    let whole = b + seq!['\n'] + t;
    encode_utf8_valid_utf8(whole);
    encode_utf8_decode_utf8(whole);
    encode_utf8_valid_utf8(t);
    encode_utf8_decode_utf8(t);
    assert(!b.contains('\n')) by {
        if b.contains('\n') {
            let i = choose|i: int| 0 <= i < b.len() && b[i] == '\n';
            assert(is_blank_char(b[i]));
        }
    }
    crate::reading::lemma_split_single(b, '\n');
    crate::reading::lemma_split_concat(b, t, '\n');
    lemma_split_nonempty(t, '\n');
    let pt = split(t, '\n');
    let pieces = split(whole, '\n').map_values(|piece: Seq<char>| strip_cr(piece));
    let tail = pt.map_values(|piece: Seq<char>| strip_cr(piece));
    assert(strip_cr(b) == b) by {
        if b.len() > 0 {
            assert(is_blank_char(b[b.len() - 1]));
        }
    }
    assert(pieces =~= seq![b] + tail);
    let lines = read_lines(t);
    assert(read_lines(whole) =~= seq![b] + lines) by {
        if tail.last().len() == 0 {
            assert((seq![b] + tail).drop_last() =~= seq![b] + tail.drop_last());
        }
    }
    let shifted = seq![b] + lines;
    assert(skip_blank(shifted, 0) == skip_blank(shifted, 1));
    lemma_skip_blank_shifted(b, lines, 0);
    let at = skip_blank(lines, 0);
    crate::mission::lemma_skip_blank(lines, 0);
    if at < lines.len() {
        assert(shifted[at + 1] == lines[at]);
        lemma_robots_from_shifted(b, lines, at + 1);
    }
}

/// A carriage return after an unterminated final line that does not end in
/// one already is dropped with it: the text reads as it does without.
#[verifier::rlimit(80)]
#[verifier::spinoff_prover]
proof fn lemma_bare_cr_at_the_end(t: Seq<char>)
    requires
        t.len() > 0,
        t.last() != '\n',
        t.last() != '\r',
    ensures
        read_mission(encode_utf8(t.push('\r'))) == read_mission(encode_utf8(t)),
{
    let whole = t.push('\r');
    encode_utf8_valid_utf8(whole);
    encode_utf8_decode_utf8(whole);
    encode_utf8_valid_utf8(t);
    encode_utf8_decode_utf8(t);
    assert(whole.drop_last() =~= t);
    lemma_split_nonempty(t, '\n');
    lemma_split_nonempty(t.drop_last(), '\n');
    let a = split(t, '\n');
    let before = split(t.drop_last(), '\n');
    assert(a == before.update(before.len() - 1, before.last().push(t.last())));
    let last = a.last();
    assert(last == before.last().push(t.last()));
    assert(last.len() > 0 && last.last() != '\r');
    let a2 = split(whole, '\n');
    assert(a2 == a.update(a.len() - 1, last.push('\r')));
    assert(last.push('\r').drop_last() =~= last);
    let p = a.map_values(|piece: Seq<char>| strip_cr(piece));
    let p2 = a2.map_values(|piece: Seq<char>| strip_cr(piece));
    assert(p2 =~= p);
    assert(p.last() == last);
    assert(read_lines(whole) == read_lines(t));
}

#[verifier::rlimit(80)]
#[verifier::spinoff_prover]
proof fn lemma_blank_lines_before_the_grid_case()
    ensures
        answered_as_the_reference(crate::cases::framing_cases()[0]),
{
    reveal_strlit("   \n\n5 3\n1 1 E\nRFRFRFRF\n");
    reveal_strlit("1 1 E\n");
    reveal_with_fuel(crate::mission::robots_text, 2);
    let m = first_robot_mission();
    let t = canonical_text(m);
    assert(t =~= seq!['5', ' ', '3', '\n', '1', ' ', '1', ' ', 'E', '\n', 'R', 'F', 'R', 'F', 'R', 'F', 'R', 'F', '\n']);
    lemma_first_robot_mission_is_plain();
    crate::reading::law_a_canonical_mission_reads_back_as_itself(m);
    let empty = Seq::<char>::empty();
    let spaces = seq![' ', ' ', ' '];
    lemma_blank_line_in_front(empty, t);
    lemma_blank_line_in_front(spaces, empty + seq!['\n'] + t);
    assert(spaces + seq!['\n'] + (empty + seq!['\n'] + t) =~= "   \n\n5 3\n1 1 E\nRFRFRFRF\n"@);
}

#[verifier::rlimit(80)]
#[verifier::spinoff_prover]
proof fn lemma_bare_cr_case()
    ensures
        answered_as_the_reference(crate::cases::framing_cases()[3]),
{
    reveal_strlit("5 3\n1 1 E\nRFRFRFRF\r");
    reveal_strlit("1 1 E\n");
    let m = first_robot_mission();
    let sp = simple_spelling(false, true, 0);
    lemma_first_robot_simply_spelled(false, true, 0);
    assert(repeated('0', 0) =~= Seq::<char>::empty());
    let t = crate::spelling::rendered_text(m, sp);
    assert(t =~= seq!['5', ' ', '3', '\n', '1', ' ', '1', ' ', 'E', '\n', 'R', 'F', 'R', 'F', 'R', 'F', 'R', 'F']);
    lemma_first_robot_mission_is_plain();
    crate::reading::law_every_legal_spelling_says_the_same_mission(m, sp);
    lemma_bare_cr_at_the_end(t);
    assert(t.push('\r') =~= "5 3\n1 1 E\nRFRFRFRF\r"@);
}

#[verifier::rlimit(80)]
#[verifier::spinoff_prover]
proof fn lemma_a_coordinate_at_the_maximum_case(max_coordinate: u32, max_instructions: u32)
    ensures
        answered_as_the_reference(crate::cases::boundary_cases(max_coordinate, max_instructions)[1]),
{
    reveal_strlit(" ");
    reveal_strlit("\n");
    reveal_strlit(" N\n\n");
    reveal_strlit(" N\n");
    reveal_with_fuel(crate::mission::robots_text, 2);
    let d = decimal(max_coordinate as nat);
    let r = robot_at(max_coordinate, max_coordinate, 'N', Seq::<char>::empty());
    let m = MissionModel { max_x: max_coordinate, max_y: max_coordinate, robots: seq![r] };
    assert(canonical_text(m) =~= d + " "@ + d + "\n"@ + d + " "@ + d + " N\n\n"@);
    assert(crate::reading::plain_robot(r));
    assert(crate::reading::plain_mission(m));
    let e: Seq<RobotModel> = seq![];
    lemma_run_pushed(max_coordinate, max_coordinate, e, r);
    assert(e.push(r) =~= m.robots);
    let o = Outcome { x: max_coordinate, y: max_coordinate, facing: 'N', lost: false };
    assert(walk(max_coordinate, max_coordinate, seq![], start_of(r), r.steps) == o);
    let eo: Seq<Outcome> = seq![];
    lemma_report_pushed(eo, o);
    assert(eo.push(o) =~= seq![o]);
    assert(answer_text(m) =~= d + " "@ + d + " N\n"@);
    lemma_canonical_case(crate::cases::boundary_cases(max_coordinate, max_instructions)[1], m, d + " "@ + d + " N\n"@);
}

/// Left turns alone, from north, end where `after_left_turns_of` says.
proof fn lemma_left_turns(n: nat)
    ensures
        crate::reference::spun('N', repeated('L', n)) == (if n % 4 == 0 { 'N' } else if n % 4 == 1 { 'W' } else if n % 4 == 2 { 'S' } else { 'E' }),
        repeated('L', n).len() == n,
        forall|i: int| 0 <= i < n ==> #[trigger] repeated('L', n)[i] == 'L',
    decreases n,
{
    if n > 0 {
        lemma_left_turns((n - 1) as nat);
        assert(repeated('L', n).drop_last() =~= repeated('L', (n - 1) as nat));
        assert(repeated('L', n).last() == 'L');
    }
}

#[verifier::rlimit(80)]
#[verifier::spinoff_prover]
proof fn lemma_instructions_at_the_maximum_case(max_coordinate: u32, max_instructions: u32)
    ensures
        answered_as_the_reference(crate::cases::boundary_cases(max_coordinate, max_instructions)[5]),
{
    reveal_strlit("5 3\n1 1 N\n");
    reveal_strlit("\n");
    reveal_strlit("1 1 ");
    reveal_strlit("N");
    reveal_strlit("W");
    reveal_strlit("S");
    reveal_strlit("E");
    reveal_with_fuel(crate::mission::robots_text, 2);
    let steps = repeated('L', max_instructions as nat);
    lemma_left_turns(max_instructions as nat);
    let r = robot_at(1, 1, 'N', steps);
    let m = MissionModel { max_x: 5, max_y: 3, robots: seq![r] };
    assert(canonical_text(m) =~= "5 3\n1 1 N\n"@ + steps + "\n"@);
    assert(!steps.contains('\n'));
    assert(!steps.contains('F'));
    assert(crate::reading::plain_robot(r)) by {
        if steps.len() > 0 {
            assert(steps[0] == 'L');
            assert(steps.last() == 'L');
        }
    }
    assert(crate::reading::plain_mission(m));
    crate::reference::law_a_robot_that_cannot_move_reports_where_it_started(m, 0);
    let o = crate::reference::outcomes(m)[0];
    let e: Seq<RobotModel> = seq![];
    lemma_run_pushed(5, 3, e, r);
    assert(e.push(r) =~= m.robots);
    assert(crate::reference::outcomes(m) =~= seq![o]);
    let eo: Seq<Outcome> = seq![];
    lemma_report_pushed(eo, o);
    assert(eo.push(o) =~= seq![o]);
    let expected = "1 1 "@ + crate::cases::after_left_turns_of(max_instructions) + "\n"@;
    assert(answer_text(m) =~= expected);
    lemma_canonical_case(crate::cases::boundary_cases(max_coordinate, max_instructions)[5], m, expected);
}

/// Whether every case of a list that expects output expects the reference's
/// answer.
pub open spec fn all_answered_as_the_reference(cases: Seq<CaseModel>) -> bool {
    forall|i: int| 0 <= i < cases.len() ==> answered_as_the_reference(#[trigger] cases[i])
}

proof fn lemma_all_answered_concat(a: Seq<CaseModel>, b: Seq<CaseModel>)
    requires
        all_answered_as_the_reference(a),
        all_answered_as_the_reference(b),
    ensures
        all_answered_as_the_reference(a + b),
{
    assert forall|i: int| 0 <= i < (a + b).len() implies answered_as_the_reference(#[trigger] (a + b)[i]) by {
        if i < a.len() {
            assert((a + b)[i] == a[i]);
        } else {
            assert((a + b)[i] == b[i - a.len()]);
        }
    }
}

#[verifier::rlimit(80)]
#[verifier::spinoff_prover]
proof fn lemma_mission_section()
    ensures
        all_answered_as_the_reference(crate::cases::mission_cases()),
{
    lemma_sample_case();
    lemma_idle_robot_case();
    lemma_no_robots_case();
    lemma_one_cell_case();
    let cs = crate::cases::mission_cases();
    assert(cs.len() == 4);
    assert forall|i: int| 0 <= i < cs.len() implies answered_as_the_reference(#[trigger] cs[i]) by {
    }
}

#[verifier::rlimit(80)]
#[verifier::spinoff_prover]
proof fn lemma_scent_section()
    ensures
        all_answered_as_the_reference(crate::cases::scent_cases()),
{
    lemma_scent_saves_another_direction_case();
    lemma_scent_saves_twice_case();
    lemma_scent_stays_on_its_cell_case();
    let cs = crate::cases::scent_cases();
    assert(cs.len() == 3);
    assert forall|i: int| 0 <= i < cs.len() implies answered_as_the_reference(#[trigger] cs[i]) by {
    }
}

#[verifier::rlimit(80)]
#[verifier::spinoff_prover]
proof fn lemma_whitespace_section()
    ensures
        all_answered_as_the_reference(crate::cases::whitespace_cases()),
{
    lemma_whitespace_case();
    let cs = crate::cases::whitespace_cases();
    assert(cs.len() == 4);
    assert forall|i: int| 0 <= i < cs.len() implies answered_as_the_reference(#[trigger] cs[i]) by {
        if i == 1 {
            assert(!(cs[1].expect is Output));
        }
        if i == 2 {
            assert(!(cs[2].expect is Output));
        }
        if i == 3 {
            assert(!(cs[3].expect is Output));
        }
    }
}

#[verifier::rlimit(80)]
#[verifier::spinoff_prover]
proof fn lemma_vocabulary_section()
    ensures
        all_answered_as_the_reference(crate::cases::vocabulary_cases()),
{
    lemma_leading_zeros_case();
    let cs = crate::cases::vocabulary_cases();
    assert(cs.len() == 6);
    assert forall|i: int| 0 <= i < cs.len() implies answered_as_the_reference(#[trigger] cs[i]) by {
        if i == 0 {
            assert(!(cs[0].expect is Output));
        }
        if i == 1 {
            assert(!(cs[1].expect is Output));
        }
        if i == 2 {
            assert(!(cs[2].expect is Output));
        }
        if i == 3 {
            assert(!(cs[3].expect is Output));
        }
        if i == 4 {
            assert(!(cs[4].expect is Output));
        }
    }
}

#[verifier::rlimit(80)]
#[verifier::spinoff_prover]
proof fn lemma_framing_section()
    ensures
        all_answered_as_the_reference(crate::cases::framing_cases()),
{
    lemma_blank_lines_before_the_grid_case();
    lemma_unterminated_case();
    lemma_crlf_case();
    lemma_bare_cr_case();
    let cs = crate::cases::framing_cases();
    assert(cs.len() == 7);
    assert forall|i: int| 0 <= i < cs.len() implies answered_as_the_reference(#[trigger] cs[i]) by {
        if i == 4 {
            assert(!(cs[4].expect is Output));
        }
        if i == 5 {
            assert(!(cs[5].expect is Output));
        }
        if i == 6 {
            assert(!(cs[6].expect is Output));
        }
    }
}

#[verifier::rlimit(80)]
#[verifier::spinoff_prover]
proof fn lemma_diagnostic_section(max_coordinate: u32)
    ensures
        all_answered_as_the_reference(crate::cases::diagnostic_cases(max_coordinate)),
{
    let cs = crate::cases::diagnostic_cases(max_coordinate);
    assert(cs.len() == 1);
    assert forall|i: int| 0 <= i < cs.len() implies answered_as_the_reference(#[trigger] cs[i]) by {
        if i == 0 {
            assert(!(cs[0].expect is Output));
        }
    }
}

#[verifier::rlimit(80)]
#[verifier::spinoff_prover]
proof fn lemma_byte_section()
    ensures
        all_answered_as_the_reference(crate::cases::byte_cases()),
{
    let cs = crate::cases::byte_cases();
    assert(cs.len() == 2);
    assert forall|i: int| 0 <= i < cs.len() implies answered_as_the_reference(#[trigger] cs[i]) by {
        if i == 0 {
            assert(!(cs[0].expect is Output));
        }
        if i == 1 {
            assert(!(cs[1].expect is Output));
        }
    }
}

#[verifier::rlimit(80)]
#[verifier::spinoff_prover]
proof fn lemma_boundary_section(max_coordinate: u32, max_instructions: u32)
    ensures
        all_answered_as_the_reference(crate::cases::boundary_cases(max_coordinate, max_instructions)),
{
    lemma_a_coordinate_at_the_maximum_case(max_coordinate, max_instructions);
    lemma_instructions_at_the_maximum_case(max_coordinate, max_instructions);
    let cs = crate::cases::boundary_cases(max_coordinate, max_instructions);
    assert(cs.len() == 8);
    assert forall|i: int| 0 <= i < cs.len() implies answered_as_the_reference(#[trigger] cs[i]) by {
        if i == 0 {
            assert(!(cs[0].expect is Output));
        }
        if i == 2 {
            assert(!(cs[2].expect is Output));
        }
        if i == 3 {
            assert(!(cs[3].expect is Output));
        }
        if i == 4 {
            assert(!(cs[4].expect is Output));
        }
        if i == 6 {
            assert(!(cs[6].expect is Output));
        }
        if i == 7 {
            assert(!(cs[7].expect is Output));
        }
    }
}

#[verifier::rlimit(80)]
#[verifier::spinoff_prover]
proof fn lemma_invocation_section()
    ensures
        all_answered_as_the_reference(crate::cases::invocation_cases()),
{
    let cs = crate::cases::invocation_cases();
    assert(cs.len() == 6);
    assert forall|i: int| 0 <= i < cs.len() implies answered_as_the_reference(#[trigger] cs[i]) by {
        if i == 0 {
            assert(!(cs[0].expect is Output));
        }
        if i == 1 {
            assert(!(cs[1].expect is Output));
        }
        if i == 2 {
            assert(!(cs[2].expect is Output));
        }
        if i == 3 {
            assert(!(cs[3].expect is Output));
        }
        if i == 4 {
            assert(!(cs[4].expect is Output));
        }
        if i == 5 {
            assert(!(cs[5].expect is Output));
        }
    }
}

/// Every case of the catalogue that expects output expects exactly the
/// reference simulation's answer for the mission its input states: the
/// input reads as a mission, and the expected bytes are the reference's
/// answer to it, for any limits. A case can therefore never demand an answer
/// the contract's own simulation does not give, such as one where a scent
/// fails to save a robot leaving its cell by another edge.
pub proof fn law_every_expected_output_is_the_reference_answer(max_coordinate: u32, max_instructions: u32)
    ensures
        forall|i: int| 0 <= i < catalogue_model(max_coordinate, max_instructions).len() ==> {
            let c = #[trigger] catalogue_model(max_coordinate, max_instructions)[i];
            c.expect matches ExpectModel::Output(expected) ==> (read_mission(c.stdin) matches Ok(m) && expected
                == encode_utf8(answer_text(m)))
        },
{
    lemma_mission_section();
    lemma_scent_section();
    lemma_whitespace_section();
    lemma_vocabulary_section();
    lemma_framing_section();
    lemma_diagnostic_section(max_coordinate);
    lemma_byte_section();
    lemma_boundary_section(max_coordinate, max_instructions);
    lemma_invocation_section();
    let a = crate::cases::mission_cases() + crate::cases::scent_cases();
    lemma_all_answered_concat(crate::cases::mission_cases(), crate::cases::scent_cases());
    let b = a + crate::cases::whitespace_cases();
    lemma_all_answered_concat(a, crate::cases::whitespace_cases());
    let c = b + crate::cases::vocabulary_cases();
    lemma_all_answered_concat(b, crate::cases::vocabulary_cases());
    let d = c + crate::cases::framing_cases();
    lemma_all_answered_concat(c, crate::cases::framing_cases());
    let e = d + crate::cases::diagnostic_cases(max_coordinate);
    lemma_all_answered_concat(d, crate::cases::diagnostic_cases(max_coordinate));
    let f = e + crate::cases::byte_cases();
    lemma_all_answered_concat(e, crate::cases::byte_cases());
    let g = f + crate::cases::boundary_cases(max_coordinate, max_instructions);
    lemma_all_answered_concat(f, crate::cases::boundary_cases(max_coordinate, max_instructions));
    lemma_all_answered_concat(g, crate::cases::invocation_cases());
    assert(g + crate::cases::invocation_cases() == catalogue_model(max_coordinate, max_instructions));
    assert forall|i: int| 0 <= i < catalogue_model(max_coordinate, max_instructions).len() implies ({
        let c = #[trigger] catalogue_model(max_coordinate, max_instructions)[i];
        c.expect matches ExpectModel::Output(expected) ==> (read_mission(c.stdin) matches Ok(m) && expected
            == encode_utf8(answer_text(m)))
    }) by {
        assert(answered_as_the_reference(catalogue_model(max_coordinate, max_instructions)[i]));
    }
}

/// Whether a case that expects a rejection is given input the contract
/// refuses: input that does not read as a mission, or a mission outside the
/// limits.
pub open spec fn refused_under(c: CaseModel, max_coordinate: u32, max_instructions: u32) -> bool {
    c.expect is Rejection ==> match read_mission(c.stdin) {
        Ok(m) => !crate::mission::mission_valid(m, max_coordinate, max_instructions),
        Err(_) => true,
    }
}

proof fn lemma_nothing_reads_as_no_mission()
    ensures
        read_mission(encode_utf8(""@)) is Err,
{
    reveal_strlit("");
    let t = ""@;
    assert(t =~= Seq::<char>::empty());
    encode_utf8_valid_utf8(t);
    encode_utf8_decode_utf8(t);
    let lines = read_lines(t);
    assert(split(t, '\n') =~= seq![Seq::<char>::empty()]);
    assert(split(t, '\n').map_values(|piece: Seq<char>| strip_cr(piece)) =~= seq![Seq::<char>::empty()]);
    assert(lines =~= Seq::<Seq<char>>::empty());
}

#[verifier::rlimit(60)]
#[verifier::spinoff_prover]
proof fn lemma_limit_cases_refused(max_coordinate: u32, max_instructions: u32)
    requires
        max_coordinate < u32::MAX,
        max_instructions < u32::MAX,
    ensures
        forall|i: int| 0 <= i < crate::cases::boundary_cases(max_coordinate, max_instructions).len() && i != 7
            ==> refused_under(#[trigger] crate::cases::boundary_cases(max_coordinate, max_instructions)[i], max_coordinate, max_instructions),
{
    reveal_strlit("");
    reveal_strlit(" 3\n");
    reveal_strlit("5 3\n");
    reveal_strlit(" 1 E\n\n");
    reveal_strlit("5 3\n6 1 E\n\n");
    reveal_strlit("5 3\n1 1 N\n");
    reveal_strlit("\n");
    reveal_with_fuel(crate::mission::robots_text, 2);
    let cs = crate::cases::boundary_cases(max_coordinate, max_instructions);
    let past = (max_coordinate + 1) as u32;
    let d = decimal(past as nat);
    // Empty input.
    lemma_nothing_reads_as_no_mission();
    // A grid coordinate past the maximum.
    let m2 = MissionModel { max_x: past, max_y: 3, robots: seq![] };
    assert(canonical_text(m2) =~= ""@ + d + " 3\n"@);
    crate::reading::law_a_canonical_mission_reads_back_as_itself(m2);
    // A robot coordinate past the maximum.
    let r3 = robot_at(past, 1, 'E', Seq::<char>::empty());
    let m3 = MissionModel { max_x: 5, max_y: 3, robots: seq![r3] };
    assert(canonical_text(m3) =~= "5 3\n"@ + d + " 1 E\n\n"@);
    assert(crate::reading::plain_robot(r3));
    assert(crate::reading::plain_mission(m3));
    crate::reading::law_a_canonical_mission_reads_back_as_itself(m3);
    assert(m3.robots[0] == r3);
    // A start off the world under the maximum.
    let r4 = robot_at(6, 1, 'E', Seq::<char>::empty());
    let m4 = MissionModel { max_x: 5, max_y: 3, robots: seq![r4] };
    assert(canonical_text(m4) =~= "5 3\n6 1 E\n\n"@);
    assert(crate::reading::plain_robot(r4));
    assert(crate::reading::plain_mission(m4));
    crate::reading::law_a_canonical_mission_reads_back_as_itself(m4);
    assert(m4.robots[0] == r4);
    // An instruction string past the maximum.
    let steps = repeated('L', (max_instructions + 1) as nat);
    lemma_left_turns((max_instructions + 1) as nat);
    let r6 = robot_at(1, 1, 'N', steps);
    let m6 = MissionModel { max_x: 5, max_y: 3, robots: seq![r6] };
    assert(canonical_text(m6) =~= "5 3\n1 1 N\n"@ + steps + "\n"@);
    assert(!steps.contains('\n'));
    assert(crate::reading::plain_robot(r6)) by {
        assert(steps[0] == 'L');
        assert(steps.last() == 'L');
    }
    assert(crate::reading::plain_mission(m6));
    crate::reading::law_a_canonical_mission_reads_back_as_itself(m6);
    assert(m6.robots[0] == r6);
    assert forall|i: int| 0 <= i < cs.len() && i != 7 implies refused_under(#[trigger] cs[i], max_coordinate, max_instructions) by {
        if i == 0 {
            assert(cs[0].stdin == encode_utf8(""@));
        } else if i == 2 {
            assert(cs[2].stdin == encode_utf8(canonical_text(m2)));
        } else if i == 3 {
            assert(cs[3].stdin == encode_utf8(canonical_text(m3)));
        } else if i == 4 {
            assert(cs[4].stdin == encode_utf8(canonical_text(m4)));
        } else if i == 6 {
            assert(cs[6].stdin == encode_utf8(canonical_text(m6)));
        }
    }
}

/// Idle robots written one block after another with a blank line between
/// blocks: the lines of the position of each, its empty instruction line,
/// and the blank line after all but the last.
#[verifier::rlimit(80)]
#[verifier::spinoff_prover]
proof fn lemma_idle_robots_spelled(m: MissionModel)
    requires
        2 <= m.robots.len() <= 3,
        forall|i: int| 0 <= i < m.robots.len() ==> (#[trigger] m.robots[i]).steps.len() == 0,
    ensures
        ({
            let sp = sample_spelling();
            let g = decimal(m.max_x as nat) + seq![' '] + decimal(m.max_y as nat);
            let pos = |r: RobotModel| decimal(r.x as nat) + seq![' '] + decimal(r.y as nat) + seq![' ', r.facing];
            let e = Seq::<char>::empty();
            &&& m.robots.len() == 2 ==> crate::spelling::spelled_lines(m, sp) == seq![g, pos(m.robots[0]), e, e, pos(m.robots[1]), e]
            &&& m.robots.len() == 3 ==> crate::spelling::spelled_lines(m, sp)
                == seq![g, pos(m.robots[0]), e, e, pos(m.robots[1]), e, e, pos(m.robots[2]), e]
        }),
{
    let sp = sample_spelling();
    let e = Seq::<char>::empty();
    assert(0nat % 1 == 0 && 1nat % 1 == 0 && 2nat % 1 == 0 && 3nat % 1 == 0 && 4nat % 1 == 0 && 5nat % 1 == 0 && 6nat % 1 == 0);
    assert(repeated('0', 0) =~= e);
    assert(grid_line(sp, m) =~= decimal(m.max_x as nat) + seq![' '] + decimal(m.max_y as nat));
    assert forall|k: nat| k < m.robots.len() implies
        position_line(sp, #[trigger] m.robots[k as int], 1 + 2 * k) =~= decimal(m.robots[k as int].x as nat) + seq![' ']
            + decimal(m.robots[k as int].y as nat) + seq![' ', m.robots[k as int].facing]
        && instruction_line(sp, m.robots[k as int], 2 + 2 * k) =~= e by {
        assert((1 + 2 * k) % 1 == 0 && (2 + 2 * k) % 1 == 0);
    }
    assert(crate::spelling::blank_line(sp) =~= e);
    assert(blank_lines(sp, 0) =~= Seq::<Seq<char>>::empty());
    assert(blank_lines(sp, 1) =~= seq![e]);
    assert(sp.blanks_after_block[0] == 1u32);
    reveal_with_fuel(blocks, 4);
    assert(blocks(sp, m.robots, 0) =~= Seq::<Seq<char>>::empty());
}

/// Lines, each ended by a line feed.
pub open spec fn ended(lines: Seq<Seq<char>>) -> Seq<char>
    decreases lines.len(),
{
    if lines.len() == 0 { seq![] } else { ended(lines.drop_last()) + lines.last() + seq!['\n'] }
}

proof fn lemma_terminated_is_ended(lines: Seq<Seq<char>>, n: nat)
    requires
        n <= lines.len(),
    ensures
        terminated(lines, seq!['\n'], false, n) == ended(lines.take(n as int)),
    decreases n,
{
    if n > 0 {
        lemma_terminated_is_ended(lines, (n - 1) as nat);
        assert(lines.take(n as int).drop_last() =~= lines.take(n - 1));
        assert(lines.take(n as int).last() == lines[n - 1]);
    } else {
        assert(lines.take(0) =~= Seq::<Seq<char>>::empty());
    }
}

proof fn lemma_ended_pushed(lines: Seq<Seq<char>>, line: Seq<char>)
    ensures
        ended(lines.push(line)) == ended(lines) + line + seq!['\n'],
{
    assert(lines.push(line).drop_last() =~= lines);
}

/// Three idle robots in three blocks, the last at `x`, read back.
#[verifier::rlimit(60)]
#[verifier::spinoff_prover]
proof fn lemma_three_blocks(x: u32)
    ensures
        read_mission(encode_utf8("5 3\n1 1 E\n\n\n1 1 E\n\n\n"@ + decimal(x as nat) + " 1 E\n\n"@))
            == Ok::<MissionModel, Seq<char>>(MissionModel {
                max_x: 5,
                max_y: 3,
                robots: seq![robot_at(1, 1, 'E', Seq::<char>::empty()), robot_at(1, 1, 'E', Seq::<char>::empty()), robot_at(x, 1, 'E', Seq::<char>::empty())],
            }),
{
    reveal_strlit("5 3\n1 1 E\n\n\n1 1 E\n\n\n");
    reveal_strlit(" 1 E\n\n");
    let sp = sample_spelling();
    let e = Seq::<char>::empty();
    let nl = seq!['\n'];
    assert(ending_of(sp) =~= nl) by { reveal_strlit("\n"); }
    let r0 = robot_at(1, 1, 'E', e);
    let r2 = robot_at(x, 1, 'E', e);
    let m = MissionModel { max_x: 5, max_y: 3, robots: seq![r0, r0, r2] };
    assert(m.robots.len() == 3);
    assert(m.robots[0] == r0 && m.robots[1] == r0 && m.robots[2] == r2);
    lemma_idle_robots_spelled(m);
    assert(decimal(5) =~= seq!['5'] && decimal(3) =~= seq!['3'] && decimal(1) =~= seq!['1']);
    let g = seq!['5', ' ', '3'];
    let p0 = seq!['1', ' ', '1', ' ', 'E'];
    let p2 = decimal(x as nat) + seq![' '] + seq!['1'] + seq![' ', 'E'];
    assert(decimal(5 as nat) + seq![' '] + decimal(3 as nat) =~= g);
    assert(decimal(1 as nat) + seq![' '] + decimal(1 as nat) + seq![' ', 'E'] =~= p0);
    let l = seq![g, p0, e, e, p0, e, e, p2, e];
    assert(crate::spelling::spelled_lines(m, sp) =~= l);
    lemma_terminated_is_ended(l, 9);
    assert(l.take(9) =~= l);
    assert(l.take(0) =~= Seq::<Seq<char>>::empty());
    assert(l.take(1) =~= l.take(0).push(l[0]));
    lemma_ended_pushed(l.take(0), l[0]);
    assert(l.take(2) =~= l.take(1).push(l[1]));
    lemma_ended_pushed(l.take(1), l[1]);
    assert(l.take(3) =~= l.take(2).push(l[2]));
    lemma_ended_pushed(l.take(2), l[2]);
    assert(l.take(4) =~= l.take(3).push(l[3]));
    lemma_ended_pushed(l.take(3), l[3]);
    assert(l.take(5) =~= l.take(4).push(l[4]));
    lemma_ended_pushed(l.take(4), l[4]);
    assert(l.take(6) =~= l.take(5).push(l[5]));
    lemma_ended_pushed(l.take(5), l[5]);
    assert(l.take(7) =~= l.take(6).push(l[6]));
    lemma_ended_pushed(l.take(6), l[6]);
    assert(l.take(8) =~= l.take(7).push(l[7]));
    lemma_ended_pushed(l.take(7), l[7]);
    assert(l.take(9) =~= l.take(8).push(l[8]));
    lemma_ended_pushed(l.take(8), l[8]);
    assert(ended(l) =~= "5 3\n1 1 E\n\n\n1 1 E\n\n\n"@ + decimal(x as nat) + " 1 E\n\n"@);
    assert(crate::spelling::rendered_text(m, sp) == ended(l));
    lemma_legal(sp);
    assert(crate::reading::plain_mission(m));
    crate::reading::law_every_legal_spelling_says_the_same_mission(m, sp);
}

/// Two idle robots in two blocks, the first facing `e` and the last at `x`,
/// read back.
#[verifier::rlimit(60)]
#[verifier::spinoff_prover]
proof fn lemma_two_blocks(x: u32)
    ensures
        read_mission(encode_utf8("5 3\n1 1 e\n\n\n"@ + decimal(x as nat) + " 1 E\n\n"@))
            == Ok::<MissionModel, Seq<char>>(MissionModel {
                max_x: 5,
                max_y: 3,
                robots: seq![robot_at(1, 1, 'e', Seq::<char>::empty()), robot_at(x, 1, 'E', Seq::<char>::empty())],
            }),
{
    reveal_strlit("5 3\n1 1 e\n\n\n");
    reveal_strlit(" 1 E\n\n");
    let sp = sample_spelling();
    let e = Seq::<char>::empty();
    let nl = seq!['\n'];
    assert(ending_of(sp) =~= nl) by { reveal_strlit("\n"); }
    let r0 = robot_at(1, 1, 'e', e);
    let r1 = robot_at(x, 1, 'E', e);
    let m = MissionModel { max_x: 5, max_y: 3, robots: seq![r0, r1] };
    assert(m.robots.len() == 2);
    assert(m.robots[0] == r0 && m.robots[1] == r1);
    lemma_idle_robots_spelled(m);
    assert(decimal(5) =~= seq!['5'] && decimal(3) =~= seq!['3'] && decimal(1) =~= seq!['1']);
    let g = seq!['5', ' ', '3'];
    let p0 = seq!['1', ' ', '1', ' ', 'e'];
    let p1 = decimal(x as nat) + seq![' '] + seq!['1'] + seq![' ', 'E'];
    assert(decimal(5 as nat) + seq![' '] + decimal(3 as nat) =~= g);
    assert(decimal(1 as nat) + seq![' '] + decimal(1 as nat) + seq![' ', 'e'] =~= p0);
    let l = seq![g, p0, e, e, p1, e];
    assert(crate::spelling::spelled_lines(m, sp) =~= l);
    lemma_terminated_is_ended(l, 6);
    assert(l.take(6) =~= l);
    assert(l.take(0) =~= Seq::<Seq<char>>::empty());
    assert(l.take(1) =~= l.take(0).push(l[0]));
    lemma_ended_pushed(l.take(0), l[0]);
    assert(l.take(2) =~= l.take(1).push(l[1]));
    lemma_ended_pushed(l.take(1), l[1]);
    assert(l.take(3) =~= l.take(2).push(l[2]));
    lemma_ended_pushed(l.take(2), l[2]);
    assert(l.take(4) =~= l.take(3).push(l[3]));
    lemma_ended_pushed(l.take(3), l[3]);
    assert(l.take(5) =~= l.take(4).push(l[4]));
    lemma_ended_pushed(l.take(4), l[4]);
    assert(l.take(6) =~= l.take(5).push(l[5]));
    lemma_ended_pushed(l.take(5), l[5]);
    assert(ended(l) =~= "5 3\n1 1 e\n\n\n"@ + decimal(x as nat) + " 1 E\n\n"@);
    assert(crate::spelling::rendered_text(m, sp) == ended(l));
    lemma_legal(sp);
    assert(crate::reading::plain_mission(m));
    crate::reading::law_every_legal_spelling_says_the_same_mission(m, sp);
}

proof fn lemma_blocks_cases_refused(max_coordinate: u32, max_instructions: u32)
    requires
        max_coordinate < u32::MAX,
    ensures
        refused_under(crate::cases::boundary_cases(max_coordinate, max_instructions)[7], max_coordinate, max_instructions),
        refused_under(crate::cases::diagnostic_cases(max_coordinate)[0], max_coordinate, max_instructions),
{
    let past = (max_coordinate + 1) as u32;
    lemma_three_blocks(past);
    lemma_two_blocks(past);
    let e = Seq::<char>::empty();
    let m7 = MissionModel { max_x: 5, max_y: 3, robots: seq![robot_at(1, 1, 'E', e), robot_at(1, 1, 'E', e), robot_at(past, 1, 'E', e)] };
    assert(m7.robots[2] == robot_at(past, 1, 'E', e));
    let md = MissionModel { max_x: 5, max_y: 3, robots: seq![robot_at(1, 1, 'e', e), robot_at(past, 1, 'E', e)] };
    assert(md.robots[0] == robot_at(1, 1, 'e', e));
}

/// Every case at or past the limits that expects a rejection is given input
/// the contract refuses under those limits: input that reads as no mission,
/// or a mission with a coordinate or an instruction string past its maximum,
/// a start off the world, or an orientation off the compass. So no such case
/// asks a conforming program to reject input the contract accepts.
pub proof fn law_every_limit_case_that_demands_a_rejection_is_refused_input(max_coordinate: u32, max_instructions: u32)
    requires
        max_coordinate < u32::MAX,
        max_instructions < u32::MAX,
    ensures
        forall|i: int| 0 <= i < crate::cases::boundary_cases(max_coordinate, max_instructions).len() ==> {
            let c = #[trigger] crate::cases::boundary_cases(max_coordinate, max_instructions)[i];
            c.expect is Rejection ==> match read_mission(c.stdin) {
                Ok(m) => !crate::mission::mission_valid(m, max_coordinate, max_instructions),
                Err(_) => true,
            }
        },
        ({
            let c = crate::cases::diagnostic_cases(max_coordinate)[0];
            &&& c.expect is Rejection
            &&& match read_mission(c.stdin) {
                Ok(m) => !crate::mission::mission_valid(m, max_coordinate, max_instructions),
                Err(_) => true,
            }
        }),
{
    lemma_limit_cases_refused(max_coordinate, max_instructions);
    lemma_blocks_cases_refused(max_coordinate, max_instructions);
    let cs = crate::cases::boundary_cases(max_coordinate, max_instructions);
    assert forall|i: int| 0 <= i < cs.len() implies refused_under(#[trigger] cs[i], max_coordinate, max_instructions) by {}
}

} // verus!
