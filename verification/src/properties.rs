//! Statements about a program's own output that are true or false without
//! asking anybody else.
//!
//! Every differential check proves that two implementations agree; these
//! predicates restate sentences of the contract as something observable in
//! the answer itself. Two need no simulation at all: a robot whose
//! instructions hold no `F` cannot move, and no two robots can be lost on the
//! same cell.

use vstd::prelude::*;
use vstd::utf8::*;

use crate::mission::{Mission, MissionModel, Robot, RobotModel};
use crate::reference::{compass, compass_index, Outcome};
use crate::text::{
    char_debug_text, chars_of, debug_text, decimal, decode, has_char, parse_u32, parse_u32_of, push_char_debug,
    push_count, push_debug, push_decimal, push_str, slice_chars, split, split_chars, string_of, views,
};

verus! {

/// The properties, in the order `check` judges them.
pub const NAMES: [&'static str; 6] = [
    "one line per robot, in input order",
    "every line is canonical",
    "every reported position is on the grid",
    "a robot that cannot move reports where it started",
    "a robot that only moves forward stops where the world stops it",
    "no two robots are lost on the same cell",
];

/// What one property makes of one answer.
#[derive(Debug, PartialEq, Eq)]
pub enum Verdict {
    /// The mission says nothing about this property, which is not a pass.
    NotApplicable,
    Held,
    Violated(String),
}

pub enum VerdictModel {
    NotApplicable,
    Held,
    Violated(Seq<char>),
}

impl View for Verdict {
    type V = VerdictModel;

    open spec fn view(&self) -> VerdictModel {
        match self {
            Verdict::NotApplicable => VerdictModel::NotApplicable,
            Verdict::Held => VerdictModel::Held,
            Verdict::Violated(why) => VerdictModel::Violated(why@),
        }
    }
}

/// The views of several verdicts.
pub open spec fn verdict_views(verdicts: Seq<Verdict>) -> Seq<VerdictModel> {
    verdicts.map_values(|v: Verdict| v@)
}

/// A number as an answer must write it: no leading zero, no sign, digits that
/// fit; or why not.
pub open spec fn canonical_number_of(token: Seq<char>) -> Result<u32, Seq<char>> {
    if token.len() > 1 && token[0] == '0' {
        Err("number is not canonical: "@ + debug_text(token))
    } else if token.len() > 0 && token[0] == '+' {
        Err("number is not canonical: "@ + debug_text(token))
    } else {
        match parse_u32(token) {
            Some(n) => Ok(n),
            None => Err("not a number: "@ + debug_text(token)),
        }
    }
}

/// Whether `line` ends with `suffix`.
pub open spec fn ends_with(line: Seq<char>, suffix: Seq<char>) -> bool {
    line.len() >= suffix.len() && line.subrange(line.len() - suffix.len(), line.len() as int) == suffix
}

/// Whether a token is one of the four compass letters.
pub open spec fn is_compass_token(token: Seq<char>) -> bool {
    token == "N"@ || token == "E"@ || token == "S"@ || token == "W"@
}

/// One line of an answer, read strictly: `x y orientation`, single spaces,
/// canonical numbers, and ` LOST` at the end of a lost robot's line.
pub open spec fn report_of(line: Seq<char>) -> Result<Outcome, Seq<char>> {
    let lost = ends_with(line, " LOST"@);
    let position = if lost { line.take(line.len() - 5) } else { line };
    let t = split(position, ' ');
    if t.len() != 3 {
        Err("line is not `x y orientation`: "@ + debug_text(line))
    } else {
        match canonical_number_of(t[0]) {
            Err(why) => Err(why),
            Ok(x) => match canonical_number_of(t[1]) {
                Err(why) => Err(why),
                Ok(y) => if is_compass_token(t[2]) {
                    Ok(Outcome { x, y, facing: t[2][0], lost })
                } else {
                    Err("not an orientation: "@ + debug_text(t[2]))
                },
            },
        }
    }
}

/// The lines of an answer read in order, or the first one that does not read.
pub open spec fn reports_of(lines: Seq<Seq<char>>) -> Result<Seq<Outcome>, Seq<char>>
    decreases lines.len(),
{
    if lines.len() == 0 {
        Ok(seq![])
    } else {
        match reports_of(lines.drop_last()) {
            Err(why) => Err(why),
            Ok(done) => match report_of(lines.last()) {
                Err(why) => Err(why),
                Ok(report) => Ok(done.push(report)),
            },
        }
    }
}

/// An answer read strictly: UTF-8, nothing at all or lines each ended by LF.
pub open spec fn parse_reports(stdout: Seq<u8>) -> Result<Seq<Outcome>, Seq<char>> {
    if !valid_utf8(stdout) {
        Err("output is not UTF-8"@)
    } else {
        let text = decode_utf8(stdout);
        if text.len() == 0 {
            Ok(seq![])
        } else if text.last() != '\n' {
            Err("output does not end with a line ending"@)
        } else {
            reports_of(split(text.drop_last(), '\n'))
        }
    }
}

/// `(x, y)`.
pub open spec fn pair_text(x: u32, y: u32) -> Seq<char> {
    "("@ + decimal(x as nat) + ", "@ + decimal(y as nat) + ")"@
}

pub open spec fn one_line_verdict(mission: MissionModel, reports: Seq<Outcome>) -> VerdictModel {
    if reports.len() == mission.robots.len() {
        VerdictModel::Held
    } else {
        VerdictModel::Violated(decimal(mission.robots.len()) + " robot(s), "@ + decimal(reports.len()) + " line(s)"@)
    }
}

pub open spec fn off_grid(mission: MissionModel, report: Outcome) -> bool {
    report.x > mission.max_x || report.y > mission.max_y
}

/// The first report off the world, if any.
pub open spec fn first_off_grid(mission: MissionModel, reports: Seq<Outcome>) -> Option<Outcome>
    decreases reports.len(),
{
    if reports.len() == 0 {
        None
    } else if off_grid(mission, reports[0]) {
        Some(reports[0])
    } else {
        first_off_grid(mission, reports.skip(1))
    }
}

pub open spec fn on_grid_verdict(mission: MissionModel, reports: Seq<Outcome>) -> VerdictModel {
    if reports.len() == 0 {
        VerdictModel::NotApplicable
    } else {
        match first_off_grid(mission, reports) {
            Some(r) => VerdictModel::Violated(
                pair_text(r.x, r.y) + " is outside "@ + decimal(mission.max_x as nat) + " "@ + decimal(mission.max_y as nat),
            ),
            None => VerdictModel::Held,
        }
    }
}

/// The compass position after the turns in `steps`, from `start`.
pub open spec fn turn_index(start: int, steps: Seq<char>) -> int
    decreases steps.len(),
{
    if steps.len() == 0 {
        start
    } else {
        let before = turn_index(start, steps.drop_last());
        if steps.last() == 'R' {
            (before + 1) % 4
        } else if steps.last() == 'L' {
            (before + 3) % 4
        } else {
            before
        }
    }
}

/// Where a robot that cannot move ends up facing: its turns applied to its
/// start, a letter off the compass counting as north.
pub open spec fn turned_robot(robot: RobotModel) -> char {
    compass(turn_index(compass_index(robot.facing), robot.steps))
}

pub open spec fn stayed(robot: RobotModel, report: Outcome) -> bool {
    !report.lost && report.x == robot.x && report.y == robot.y && report.facing == turned_robot(robot)
}

pub open spec fn moved_text(robot: RobotModel, report: Outcome) -> Seq<char> {
    "a robot at "@ + pair_text(robot.x, robot.y) + " facing "@ + seq![robot.facing] + " with "@ + debug_text(robot.steps)
        + " reported "@ + pair_text(report.x, report.y) + " facing "@ + seq![report.facing]
        + (if report.lost { " LOST"@ } else { seq![] })
}

/// The robots that cannot move, paired with their lines, judged in order.
pub open spec fn cannot_move_from(robots: Seq<RobotModel>, reports: Seq<Outcome>, applied: bool) -> VerdictModel
    decreases robots.len(),
{
    if robots.len() == 0 || reports.len() == 0 {
        if applied { VerdictModel::Held } else { VerdictModel::NotApplicable }
    } else if robots[0].steps.contains('F') {
        cannot_move_from(robots.skip(1), reports.skip(1), applied)
    } else if !stayed(robots[0], reports[0]) {
        VerdictModel::Violated(moved_text(robots[0], reports[0]))
    } else {
        cannot_move_from(robots.skip(1), reports.skip(1), true)
    }
}

/// Whether a robot's instructions are forward steps and nothing else, and at
/// least one.
pub open spec fn only_forward_steps(steps: Seq<char>) -> bool {
    steps.len() > 0 && forall|k: int| 0 <= k < steps.len() ==> #[trigger] steps[k] == 'F'
}

/// The number of forward steps, saturated to what a `u32` holds.
pub open spec fn step_count(steps: Seq<char>) -> u32 {
    if steps.len() <= u32::MAX { steps.len() as u32 } else { u32::MAX }
}

/// How far the world lets a robot walk straight ahead.
pub open spec fn room_ahead(mission: MissionModel, robot: RobotModel) -> u32 {
    if robot.facing == 'N' { (mission.max_y - robot.y) as u32 }
    else if robot.facing == 'S' { robot.y }
    else if robot.facing == 'E' { (mission.max_x - robot.x) as u32 }
    else { robot.x }
}

/// Where the first robot must end when it only moves forward.
pub open spec fn expected_forward(mission: MissionModel, robot: RobotModel) -> Outcome {
    let steps = step_count(robot.steps);
    let room = room_ahead(mission, robot);
    let travelled = if steps <= room { steps } else { room };
    let (x, y) = if robot.facing == 'N' { (robot.x, (robot.y + travelled) as u32) }
        else if robot.facing == 'S' { (robot.x, (robot.y - travelled) as u32) }
        else if robot.facing == 'E' { ((robot.x + travelled) as u32, robot.y) }
        else { ((robot.x - travelled) as u32, robot.y) };
    Outcome { x, y, facing: robot.facing, lost: steps > room }
}

/// How `Debug` writes a report.
pub open spec fn report_debug(o: Outcome) -> Seq<char> {
    "Reported { x: "@ + decimal(o.x as nat) + ", y: "@ + decimal(o.y as nat) + ", facing: "@ + char_debug_text(o.facing)
        + ", lost: "@ + (if o.lost { "true"@ } else { "false"@ }) + " }"@
}

pub open spec fn only_forward_verdict(mission: MissionModel, reports: Seq<Outcome>) -> VerdictModel {
    if mission.robots.len() == 0 || reports.len() == 0 {
        VerdictModel::NotApplicable
    } else {
        let robot = mission.robots[0];
        let report = reports[0];
        if !only_forward_steps(robot.steps) {
            VerdictModel::NotApplicable
        } else {
            let expected = expected_forward(mission, robot);
            if report == expected {
                VerdictModel::Held
            } else {
                VerdictModel::Violated(
                    decimal(robot.x as nat) + " "@ + decimal(robot.y as nat) + " "@ + seq![robot.facing] + " with "@
                        + decimal(step_count(robot.steps) as nat) + " step(s) forward on "@ + decimal(mission.max_x as nat)
                        + " "@ + decimal(mission.max_y as nat) + ": expected "@ + report_debug(expected) + ", got "@
                        + report_debug(report),
                )
            }
        }
    }
}

/// The lost reports judged in order, given the cells already lost on.
pub open spec fn losses_from(reports: Seq<Outcome>, lost: Seq<(u32, u32)>) -> VerdictModel
    decreases reports.len(),
{
    if reports.len() == 0 {
        if lost.len() == 0 { VerdictModel::NotApplicable } else { VerdictModel::Held }
    } else if !reports[0].lost {
        losses_from(reports.skip(1), lost)
    } else if lost.contains((reports[0].x, reports[0].y)) {
        VerdictModel::Violated("two robots lost on "@ + pair_text(reports[0].x, reports[0].y))
    } else {
        losses_from(reports.skip(1), lost.push((reports[0].x, reports[0].y)))
    }
}

/// Every property judged against one answer, in the order of `NAMES`.
pub open spec fn checked(mission: MissionModel, stdout: Seq<u8>) -> Seq<VerdictModel> {
    match parse_reports(stdout) {
        Err(why) => seq![
            VerdictModel::Violated(why),
            VerdictModel::Violated(why),
            VerdictModel::NotApplicable,
            VerdictModel::NotApplicable,
            VerdictModel::NotApplicable,
            VerdictModel::NotApplicable,
        ],
        Ok(reports) => seq![
            one_line_verdict(mission, reports),
            VerdictModel::Held,
            on_grid_verdict(mission, reports),
            cannot_move_from(mission.robots, reports, false),
            only_forward_verdict(mission, reports),
            losses_from(reports, seq![]),
        ],
    }
}

/// Where the room ahead of the first robot is a number: a robot that only
/// moves forward, judged against a line, does not start past the edge it
/// faces.
pub open spec fn room_defined(mission: MissionModel, stdout: Seq<u8>) -> bool {
    match parse_reports(stdout) {
        Err(_) => true,
        Ok(reports) => reports.len() > 0 && mission.robots.len() > 0 && only_forward_steps(mission.robots[0].steps) ==> {
            let robot = mission.robots[0];
            &&& robot.facing == 'N' ==> robot.y <= mission.max_y
            &&& robot.facing == 'E' ==> robot.x <= mission.max_x
        },
    }
}

fn canonical_number(token: &Vec<char>) -> (r: Result<u32, String>)
    ensures
        r matches Ok(n) ==> canonical_number_of(token@) == Ok::<u32, Seq<char>>(n),
        r matches Err(why) ==> canonical_number_of(token@) == Err::<u32, Seq<char>>(why@),
{
    if (token.len() > 1 && token[0] == '0') || (token.len() > 0 && token[0] == '+') {
        let mut why: Vec<char> = Vec::new();
        push_str(&mut why, "number is not canonical: ");
        push_debug(&mut why, token);
        return Err(string_of(&why));
    }
    match parse_u32_of(token) {
        Some(n) => Ok(n),
        None => {
            let mut why: Vec<char> = Vec::new();
            push_str(&mut why, "not a number: ");
            push_debug(&mut why, token);
            Err(string_of(&why))
        },
    }
}

fn compass_token(token: &Vec<char>) -> (r: bool)
    ensures
        r == is_compass_token(token@),
{
    proof {
        reveal_strlit("N");
        reveal_strlit("E");
        reveal_strlit("S");
        reveal_strlit("W");
    }
    if token.len() != 1 {
        proof {
            assert(token@ != "N"@);
            assert(token@ != "E"@);
            assert(token@ != "S"@);
            assert(token@ != "W"@);
        }
        return false;
    }
    let c = token[0];
    proof {
        if c == 'N' { assert(token@ =~= "N"@); }
        if c == 'E' { assert(token@ =~= "E"@); }
        if c == 'S' { assert(token@ =~= "S"@); }
        if c == 'W' { assert(token@ =~= "W"@); }
        assert("N"@[0] == 'N');
        assert("E"@[0] == 'E');
        assert("S"@[0] == 'S');
        assert("W"@[0] == 'W');
    }
    c == 'N' || c == 'E' || c == 'S' || c == 'W'
}

fn ends_with_lost(line: &Vec<char>) -> (r: bool)
    ensures
        r == ends_with(line@, " LOST"@),
{
    proof {
        reveal_strlit(" LOST");
    }
    let n = line.len();
    if n < 5 {
        return false;
    }
    let r = line[n - 5] == ' ' && line[n - 4] == 'L' && line[n - 3] == 'O' && line[n - 2] == 'S' && line[n - 1] == 'T';
    proof {
        let tail = line@.subrange(n - 5, n as int);
        if r {
            assert(tail =~= " LOST"@);
        } else {
            if tail == " LOST"@ {
                assert(tail[0] == line@[n - 5]);
                assert(tail[1] == line@[n - 4]);
                assert(tail[2] == line@[n - 3]);
                assert(tail[3] == line@[n - 2]);
                assert(tail[4] == line@[n - 1]);
            }
        }
    }
    r
}

fn report(line: &Vec<char>) -> (r: Result<Outcome, String>)
    ensures
        r matches Ok(o) ==> report_of(line@) == Ok::<Outcome, Seq<char>>(o),
        r matches Err(why) ==> report_of(line@) == Err::<Outcome, Seq<char>>(why@),
{
    let lost = ends_with_lost(line);
    proof {
        reveal_strlit(" LOST");
    }
    let position = if lost { slice_chars(line, 0, line.len() - 5) } else { slice_chars(line, 0, line.len()) };
    proof {
        assert(line@.subrange(0, line.len() as int) =~= line@);
    }
    let t = split_chars(&position, ' ');
    if t.len() != 3 {
        let mut why: Vec<char> = Vec::new();
        push_str(&mut why, "line is not `x y orientation`: ");
        push_debug(&mut why, line);
        return Err(string_of(&why));
    }
    proof {
        assert(views(t@)[0] == t@[0]@);
        assert(views(t@)[1] == t@[1]@);
        assert(views(t@)[2] == t@[2]@);
    }
    let x = match canonical_number(&t[0]) {
        Ok(x) => x,
        Err(why) => return Err(why),
    };
    let y = match canonical_number(&t[1]) {
        Ok(y) => y,
        Err(why) => return Err(why),
    };
    if !compass_token(&t[2]) {
        let mut why: Vec<char> = Vec::new();
        push_str(&mut why, "not an orientation: ");
        push_debug(&mut why, &t[2]);
        return Err(string_of(&why));
    }
    proof {
        reveal_strlit("N");
        reveal_strlit("E");
        reveal_strlit("S");
        reveal_strlit("W");
    }
    Ok(Outcome { x, y, facing: t[2][0], lost })
}

/// An answer read strictly. The shape of a line is contract, so anything
/// this refuses is a violation rather than a parsing inconvenience.
fn parse(stdout: &[u8]) -> (r: Result<Vec<Outcome>, String>)
    ensures
        r matches Ok(rs) ==> parse_reports(stdout@) == Ok::<Seq<Outcome>, Seq<char>>(rs@),
        r matches Err(why) ==> parse_reports(stdout@) == Err::<Seq<Outcome>, Seq<char>>(why@),
{
    let text = match decode(stdout) {
        Ok(text) => text,
        Err(_) => return Err(string_of(&chars_of("output is not UTF-8"))),
    };
    if text.len() == 0 {
        return Ok(Vec::new());
    }
    if text[text.len() - 1] != '\n' {
        return Err(string_of(&chars_of("output does not end with a line ending")));
    }
    let body = slice_chars(&text, 0, text.len() - 1);
    proof {
        assert(body@ =~= text@.drop_last());
    }
    let lines = split_chars(&body, '\n');
    let ghost ls = views(lines@);
    proof {
        assert(parse_reports(stdout@) == reports_of(ls));
    }
    let mut reports: Vec<Outcome> = Vec::new();
    let mut i: usize = 0;
    while i < lines.len()
        invariant
            i <= lines.len(),
            ls == views(lines@),
            parse_reports(stdout@) == reports_of(ls),
            reports_of(ls.take(i as int)) == Ok::<Seq<Outcome>, Seq<char>>(reports@),
        decreases lines.len() - i,
    {
        proof {
            assert(ls.take(i + 1).drop_last() =~= ls.take(i as int));
            assert(ls.take(i + 1).last() == lines@[i as int]@);
        }
        match report(&lines[i]) {
            Ok(one) => {
                reports.push(one);
            },
            Err(why) => {
                proof {
                    assert(reports_of(ls.take(i + 1)) == Err::<Seq<Outcome>, Seq<char>>(why@));
                    lemma_reports_error_stays(ls, i as int + 1);
                }
                return Err(why);
            },
        }
        i = i + 1;
    }
    proof {
        assert(ls.take(i as int) =~= ls);
    }
    Ok(reports)
}

/// Once a prefix fails to read, so does every longer prefix, with the same
/// reason.
proof fn lemma_reports_error_stays(lines: Seq<Seq<char>>, n: int)
    requires
        0 <= n <= lines.len(),
        reports_of(lines.take(n)) is Err,
    ensures
        reports_of(lines) == reports_of(lines.take(n)),
    decreases lines.len() - n,
{
    if n < lines.len() {
        assert(lines.take(n + 1).drop_last() =~= lines.take(n));
        lemma_reports_error_stays(lines, n + 1);
    } else {
        assert(lines.take(n) =~= lines);
    }
}

fn one_line_per_robot(mission: &Mission, reports: &Vec<Outcome>) -> (r: Verdict)
    ensures
        r@ == one_line_verdict(mission@, reports@),
{
    if reports.len() == mission.robots.len() {
        Verdict::Held
    } else {
        let mut why: Vec<char> = Vec::new();
        push_count(&mut why, mission.robots.len());
        push_str(&mut why, " robot(s), ");
        push_count(&mut why, reports.len());
        push_str(&mut why, " line(s)");
        Verdict::Violated(string_of(&why))
    }
}

fn push_pair(out: &mut Vec<char>, x: u32, y: u32)
    ensures
        final(out)@ == old(out)@ + pair_text(x, y),
{
    push_str(out, "(");
    push_decimal(out, x);
    push_str(out, ", ");
    push_decimal(out, y);
    push_str(out, ")");
    proof {
        assert(final(out)@ =~= old(out)@ + pair_text(x, y));
    }
}

fn on_the_grid(mission: &Mission, reports: &Vec<Outcome>) -> (r: Verdict)
    ensures
        r@ == on_grid_verdict(mission@, reports@),
{
    if reports.len() == 0 {
        return Verdict::NotApplicable;
    }
    let mut i: usize = 0;
    proof {
        assert(reports@.skip(0) =~= reports@);
    }
    while i < reports.len()
        invariant
            i <= reports.len(),
            reports.len() > 0,
            first_off_grid(mission@, reports@) == first_off_grid(mission@, reports@.skip(i as int)),
        decreases reports.len() - i,
    {
        let report = &reports[i];
        proof {
            assert(reports@.skip(i as int)[0] == reports@[i as int]);
            assert(reports@.skip(i as int).skip(1) =~= reports@.skip(i + 1));
        }
        if report.x > mission.max_x || report.y > mission.max_y {
            let mut why: Vec<char> = Vec::new();
            push_pair(&mut why, report.x, report.y);
            push_str(&mut why, " is outside ");
            push_decimal(&mut why, mission.max_x);
            push_str(&mut why, " ");
            push_decimal(&mut why, mission.max_y);
            proof {
                assert(why@ =~= pair_text(report.x, report.y) + " is outside "@ + decimal(mission.max_x as nat) + " "@ + decimal(mission.max_y as nat));
            }
            return Verdict::Violated(string_of(&why));
        }
        i = i + 1;
    }
    proof {
        assert(reports@.skip(i as int).len() == 0);
    }
    Verdict::Held
}

/// The compass position of a letter; a letter off the compass counts as
/// north.
fn compass_position(facing: char) -> (r: usize)
    ensures
        r == compass_index(facing),
{
    if facing == 'N' { 0 } else if facing == 'E' { 1 } else if facing == 'S' { 2 } else if facing == 'W' { 3 } else { 0 }
}

fn compass_letter(at: usize) -> (r: char)
    requires
        at < 4,
    ensures
        r == compass(at as int),
{
    if at == 0 { 'N' } else if at == 1 { 'E' } else if at == 2 { 'S' } else { 'W' }
}

/// Where a robot that cannot move ends up facing.
fn turned(robot: &Robot) -> (r: char)
    ensures
        r == turned_robot(robot@),
{
    let steps = chars_of(robot.instructions.as_str());
    let mut at = compass_position(robot.facing);
    let mut k: usize = 0;
    while k < steps.len()
        invariant
            k <= steps.len(),
            steps@ == robot@.steps,
            at < 4,
            at == turn_index(compass_index(robot.facing), steps@.take(k as int)),
        decreases steps.len() - k,
    {
        proof {
            assert(steps@.take(k + 1).drop_last() =~= steps@.take(k as int));
            assert(steps@.take(k + 1).last() == steps@[k as int]);
        }
        if steps[k] == 'R' {
            at = (at + 1) % 4;
        } else if steps[k] == 'L' {
            at = (at + 3) % 4;
        }
        k = k + 1;
    }
    proof {
        assert(steps@.take(k as int) =~= steps@);
    }
    compass_letter(at)
}

fn cannot_move(mission: &Mission, reports: &Vec<Outcome>) -> (r: Verdict)
    ensures
        r@ == cannot_move_from(mission@.robots, reports@, false),
{
    let mut applied = false;
    let mut i: usize = 0;
    proof {
        assert(reports@.skip(0) =~= reports@);
        assert(mission@.robots.skip(0) =~= mission@.robots);
    }
    while i < mission.robots.len() && i < reports.len()
        invariant
            i <= mission.robots.len(),
            i <= reports.len(),
            cannot_move_from(mission@.robots, reports@, false)
                == cannot_move_from(mission@.robots.skip(i as int), reports@.skip(i as int), applied),
        decreases mission.robots.len() - i,
    {
        let robot = &mission.robots[i];
        let report = &reports[i];
        let ghost robots = mission@.robots.skip(i as int);
        let ghost rest = reports@.skip(i as int);
        proof {
            assert(robots[0] == robot@);
            assert(rest[0] == *report);
            assert(robots.skip(1) =~= mission@.robots.skip(i + 1));
            assert(rest.skip(1) =~= reports@.skip(i + 1));
        }
        let steps = chars_of(robot.instructions.as_str());
        if !has_char(&steps, 'F') {
            applied = true;
            let facing = turned(robot);
            if report.lost || report.x != robot.x || report.y != robot.y || report.facing != facing {
                let mut why: Vec<char> = Vec::new();
                push_str(&mut why, "a robot at ");
                push_pair(&mut why, robot.x, robot.y);
                push_str(&mut why, " facing ");
                why.push(robot.facing);
                push_str(&mut why, " with ");
                push_debug(&mut why, &steps);
                push_str(&mut why, " reported ");
                push_pair(&mut why, report.x, report.y);
                push_str(&mut why, " facing ");
                why.push(report.facing);
                if report.lost {
                    push_str(&mut why, " LOST");
                }
                proof {
                    assert(why@ =~= moved_text(robot@, *report));
                }
                return Verdict::Violated(string_of(&why));
            }
        }
        i = i + 1;
    }
    proof {
        assert(mission@.robots.skip(i as int).len() == 0 || reports@.skip(i as int).len() == 0);
    }
    if applied { Verdict::Held } else { Verdict::NotApplicable }
}

fn push_report_debug(out: &mut Vec<char>, o: &Outcome)
    ensures
        final(out)@ == old(out)@ + report_debug(*o),
{
    push_str(out, "Reported { x: ");
    push_decimal(out, o.x);
    push_str(out, ", y: ");
    push_decimal(out, o.y);
    push_str(out, ", facing: ");
    push_char_debug(out, o.facing);
    push_str(out, ", lost: ");
    if o.lost {
        push_str(out, "true");
    } else {
        push_str(out, "false");
    }
    push_str(out, " }");
    proof {
        assert(final(out)@ =~= old(out)@ + report_debug(*o));
    }
}

fn all_forward(steps: &Vec<char>) -> (r: bool)
    ensures
        r == only_forward_steps(steps@),
{
    let mut all = steps.len() > 0;
    let mut k: usize = 0;
    while k < steps.len()
        invariant
            k <= steps.len(),
            all == (steps.len() > 0 && forall|j: int| 0 <= j < k ==> steps@[j] == 'F'),
        decreases steps.len() - k,
    {
        if steps[k] != 'F' {
            all = false;
        }
        k = k + 1;
    }
    proof {
        if all {
            assert forall|j: int| 0 <= j < steps@.len() implies #[trigger] steps@[j] == 'F' by {}
        } else if steps.len() > 0 {
            let j = choose|j: int| 0 <= j < k && steps@[j] != 'F';
            assert(!(steps@[j] == 'F'));
        }
    }
    all
}

/// Where the first robot must end when it only moves forward.
fn forward_end(mission: &Mission, robot: &Robot, count: u32) -> (r: Outcome)
    requires
        count == step_count(robot@.steps),
        robot.facing == 'N' ==> robot.y <= mission.max_y,
        robot.facing == 'E' ==> robot.x <= mission.max_x,
    ensures
        r == expected_forward(mission@, robot@),
{
    let room: u32 = if robot.facing == 'N' {
        mission.max_y - robot.y
    } else if robot.facing == 'S' {
        robot.y
    } else if robot.facing == 'E' {
        mission.max_x - robot.x
    } else {
        robot.x
    };
    let travelled = if count <= room { count } else { room };
    let (x, y) = if robot.facing == 'N' {
        (robot.x, robot.y + travelled)
    } else if robot.facing == 'S' {
        (robot.x, robot.y - travelled)
    } else if robot.facing == 'E' {
        (robot.x + travelled, robot.y)
    } else {
        (robot.x - travelled, robot.y)
    };
    Outcome { x, y, facing: robot.facing, lost: count > room }
}

fn forward_violation(mission: &Mission, robot: &Robot, count: u32, expected: &Outcome, report: &Outcome) -> (r: String)
    ensures
        r@ == decimal(robot.x as nat) + " "@ + decimal(robot.y as nat) + " "@ + seq![robot.facing] + " with "@
            + decimal(count as nat) + " step(s) forward on "@ + decimal(mission.max_x as nat) + " "@
            + decimal(mission.max_y as nat) + ": expected "@ + report_debug(*expected) + ", got "@ + report_debug(*report),
{
    let mut why: Vec<char> = Vec::new();
    push_decimal(&mut why, robot.x);
    push_str(&mut why, " ");
    push_decimal(&mut why, robot.y);
    push_str(&mut why, " ");
    why.push(robot.facing);
    push_str(&mut why, " with ");
    push_decimal(&mut why, count);
    push_str(&mut why, " step(s) forward on ");
    push_decimal(&mut why, mission.max_x);
    push_str(&mut why, " ");
    push_decimal(&mut why, mission.max_y);
    push_str(&mut why, ": expected ");
    push_report_debug(&mut why, expected);
    push_str(&mut why, ", got ");
    push_report_debug(&mut why, report);
    proof {
        assert(why@ =~= decimal(robot.x as nat) + " "@ + decimal(robot.y as nat) + " "@ + seq![robot.facing] + " with "@
            + decimal(count as nat) + " step(s) forward on "@ + decimal(mission.max_x as nat) + " "@
            + decimal(mission.max_y as nat) + ": expected "@ + report_debug(*expected) + ", got "@ + report_debug(*report));
    }
    string_of(&why)
}

fn only_forward(mission: &Mission, reports: &Vec<Outcome>) -> (r: Verdict)
    requires
        mission.robots.len() > 0 && reports.len() > 0 && only_forward_steps(mission@.robots[0].steps) ==> {
            let robot = mission@.robots[0];
            &&& robot.facing == 'N' ==> robot.y <= mission.max_y
            &&& robot.facing == 'E' ==> robot.x <= mission.max_x
        },
    ensures
        r@ == only_forward_verdict(mission@, reports@),
{
    if mission.robots.len() == 0 || reports.len() == 0 {
        return Verdict::NotApplicable;
    }
    let robot = &mission.robots[0];
    let report = &reports[0];
    proof {
        assert(mission@.robots[0] == robot@);
    }
    let steps = chars_of(robot.instructions.as_str());
    if !all_forward(&steps) {
        return Verdict::NotApplicable;
    }
    let count: u32 = if steps.len() <= u32::MAX as usize { steps.len() as u32 } else { u32::MAX };
    let expected = forward_end(mission, robot, count);
    if report.x == expected.x && report.y == expected.y && report.facing == expected.facing && report.lost == expected.lost {
        Verdict::Held
    } else {
        Verdict::Violated(forward_violation(mission, robot, count, &expected, report))
    }
}

fn has_cell(cells: &Vec<(u32, u32)>, cell: (u32, u32)) -> (r: bool)
    ensures
        r == cells@.contains(cell),
{
    let mut i: usize = 0;
    while i < cells.len()
        invariant
            i <= cells.len(),
            forall|j: int| 0 <= j < i ==> cells@[j] != cell,
        decreases cells.len() - i,
    {
        if cells[i].0 == cell.0 && cells[i].1 == cell.1 {
            proof {
                assert(cells@[i as int] == cell);
            }
            return true;
        }
        i = i + 1;
    }
    false
}

fn no_two_losses_on_one_cell(reports: &Vec<Outcome>) -> (r: Verdict)
    ensures
        r@ == losses_from(reports@, seq![]),
{
    let mut lost: Vec<(u32, u32)> = Vec::new();
    let mut i: usize = 0;
    proof {
        assert(reports@.skip(0) =~= reports@);
        assert(lost@ =~= Seq::<(u32, u32)>::empty());
    }
    while i < reports.len()
        invariant
            i <= reports.len(),
            losses_from(reports@, seq![]) == losses_from(reports@.skip(i as int), lost@),
        decreases reports.len() - i,
    {
        let report = &reports[i];
        proof {
            assert(reports@.skip(i as int)[0] == *report);
            assert(reports@.skip(i as int).skip(1) =~= reports@.skip(i + 1));
        }
        if report.lost {
            if has_cell(&lost, (report.x, report.y)) {
                let mut why: Vec<char> = Vec::new();
                push_str(&mut why, "two robots lost on ");
                push_pair(&mut why, report.x, report.y);
                return Verdict::Violated(string_of(&why));
            }
            lost.push((report.x, report.y));
        }
        i = i + 1;
    }
    proof {
        assert(reports@.skip(i as int).len() == 0);
    }
    if lost.len() == 0 { Verdict::NotApplicable } else { Verdict::Held }
}

/// Judges every property against one answer, in the order of `NAMES`. An
/// unreadable answer violates the two shape properties and says nothing
/// about the rest.
pub fn check(mission: &Mission, stdout: &[u8]) -> (r: Vec<Verdict>)
    requires
        room_defined(mission@, stdout@),
    ensures
        verdict_views(r@) == checked(mission@, stdout@),
{
    let reports = match parse(stdout) {
        Ok(reports) => reports,
        Err(why) => {
            let again = string_of(&chars_of(why.as_str()));
            let r = vec![
                Verdict::Violated(why),
                Verdict::Violated(again),
                Verdict::NotApplicable,
                Verdict::NotApplicable,
                Verdict::NotApplicable,
                Verdict::NotApplicable,
            ];
            proof {
                assert(verdict_views(r@) =~= checked(mission@, stdout@));
            }
            return r;
        },
    };
    let r = vec![
        one_line_per_robot(mission, &reports),
        Verdict::Held,
        on_the_grid(mission, &reports),
        cannot_move(mission, &reports),
        only_forward(mission, &reports),
        no_two_losses_on_one_cell(&reports),
    ];
    proof {
        assert(verdict_views(r@) =~= checked(mission@, stdout@));
    }
    r
}

/// The first report off the world is a report off the world, and there is
/// none exactly when every report lies within both bounds.
proof fn lemma_first_off_grid(mission: MissionModel, reports: Seq<Outcome>)
    ensures
        first_off_grid(mission, reports) is None <==> forall|i: int| 0 <= i < reports.len()
            ==> #[trigger] reports[i].x <= mission.max_x && reports[i].y <= mission.max_y,
        first_off_grid(mission, reports) matches Some(r) ==> exists|i: int| 0 <= i < reports.len() && #[trigger] reports[i] == r
            && (r.x > mission.max_x || r.y > mission.max_y),
    decreases reports.len(),
{
    if reports.len() > 0 {
        let rest = reports.skip(1);
        lemma_first_off_grid(mission, rest);
        assert forall|i: int| 1 <= i < reports.len() implies #[trigger] reports[i] == rest[i - 1] by {}
        if first_off_grid(mission, rest) is Some {
            let r = first_off_grid(mission, rest)->Some_0;
            if !off_grid(mission, reports[0]) {
                let k = choose|k: int| 0 <= k < rest.len() && #[trigger] rest[k] == r && (r.x > mission.max_x || r.y > mission.max_y);
                assert(reports[k + 1] == r);
            }
        }
        if forall|i: int| 0 <= i < reports.len() ==> #[trigger] reports[i].x <= mission.max_x && reports[i].y <= mission.max_y {
            assert(reports[0].x <= mission.max_x && reports[0].y <= mission.max_y);
            assert forall|i: int| 0 <= i < rest.len() implies #[trigger] rest[i].x <= mission.max_x && rest[i].y <= mission.max_y by {
                assert(rest[i] == reports[i + 1]);
            }
        }
        if first_off_grid(mission, reports) is None {
            assert forall|i: int| 0 <= i < reports.len() implies #[trigger] reports[i].x <= mission.max_x && reports[i].y <= mission.max_y by {
                if i > 0 {
                    assert(reports[i] == rest[i - 1]);
                }
            }
        }
    }
}

/// An answer keeps every robot on the grid exactly when it reports at least
/// one robot and each reported position lies within the world in both
/// coordinates; a report past the world in either coordinate, x or y, is a
/// violation, and the violation names a report that lies off the world.
pub proof fn law_a_report_past_either_edge_violates_the_grid(mission: MissionModel, stdout: Seq<u8>)
    ensures
        parse_reports(stdout) matches Ok(reports) ==> {
            &&& checked(mission, stdout)[2] is Held <==> (reports.len() > 0 && forall|i: int| 0 <= i < reports.len()
                ==> #[trigger] reports[i].x <= mission.max_x && reports[i].y <= mission.max_y)
            &&& (exists|i: int| 0 <= i < reports.len() && (#[trigger] reports[i].x > mission.max_x || reports[i].y > mission.max_y))
                ==> checked(mission, stdout)[2] is Violated
            &&& checked(mission, stdout)[2] matches VerdictModel::Violated(why) ==> exists|i: int| 0 <= i < reports.len()
                && (#[trigger] reports[i].x > mission.max_x || reports[i].y > mission.max_y)
                && why == pair_text(reports[i].x, reports[i].y) + " is outside "@ + decimal(mission.max_x as nat) + " "@ + decimal(mission.max_y as nat)
        },
{
    if parse_reports(stdout) is Ok {
        let reports = parse_reports(stdout)->Ok_0;
        lemma_first_off_grid(mission, reports);
        assert(checked(mission, stdout)[2] == on_grid_verdict(mission, reports));
    }
}

/// Whether two lost reports name the same cell.
pub open spec fn lost_twice_on_one_cell(reports: Seq<Outcome>) -> bool {
    exists|i: int, j: int| 0 <= i < j < reports.len() && #[trigger] reports[i].lost && #[trigger] reports[j].lost
        && reports[i].x == reports[j].x && reports[i].y == reports[j].y
}

/// Whether a lost report names a cell already in `lost`.
pub open spec fn lost_on_one_of(reports: Seq<Outcome>, lost: Seq<(u32, u32)>) -> bool {
    exists|j: int| 0 <= j < reports.len() && #[trigger] reports[j].lost && lost.contains((reports[j].x, reports[j].y))
}

proof fn lemma_losses_from(reports: Seq<Outcome>, lost: Seq<(u32, u32)>)
    ensures
        losses_from(reports, lost) is Violated <==> lost_on_one_of(reports, lost) || lost_twice_on_one_cell(reports),
    decreases reports.len(),
{
    if reports.len() > 0 {
        let rest = reports.skip(1);
        let r0 = reports[0];
        let c0 = (r0.x, r0.y);
        assert forall|j: int| 0 <= j < rest.len() implies #[trigger] rest[j] == reports[j + 1] by {}
        if !r0.lost {
            lemma_losses_from(rest, lost);
            if lost_on_one_of(reports, lost) {
                let j = choose|j: int| 0 <= j < reports.len() && #[trigger] reports[j].lost && lost.contains((reports[j].x, reports[j].y));
                assert(rest[j - 1] == reports[j]);
                assert(lost_on_one_of(rest, lost));
            }
            if lost_on_one_of(rest, lost) {
                let j = choose|j: int| 0 <= j < rest.len() && #[trigger] rest[j].lost && lost.contains((rest[j].x, rest[j].y));
                assert(reports[j + 1] == rest[j]);
                assert(lost_on_one_of(reports, lost));
            }
            if lost_twice_on_one_cell(reports) {
                let (i, j) = choose|i: int, j: int| 0 <= i < j < reports.len() && #[trigger] reports[i].lost && #[trigger] reports[j].lost
                    && reports[i].x == reports[j].x && reports[i].y == reports[j].y;
                assert(rest[i - 1] == reports[i] && rest[j - 1] == reports[j]);
                assert(lost_twice_on_one_cell(rest));
            }
            if lost_twice_on_one_cell(rest) {
                let (i, j) = choose|i: int, j: int| 0 <= i < j < rest.len() && #[trigger] rest[i].lost && #[trigger] rest[j].lost
                    && rest[i].x == rest[j].x && rest[i].y == rest[j].y;
                assert(reports[i + 1] == rest[i] && reports[j + 1] == rest[j]);
                assert(lost_twice_on_one_cell(reports));
            }
        } else if lost.contains(c0) {
            assert(reports[0].lost && lost.contains((reports[0].x, reports[0].y)));
            assert(lost_on_one_of(reports, lost));
        } else {
            let more = lost.push(c0);
            lemma_losses_from(rest, more);
            assert forall|c: (u32, u32)| more.contains(c) <==> (lost.contains(c) || c == c0) by {
                if more.contains(c) {
                    let k = choose|k: int| 0 <= k < more.len() && more[k] == c;
                    if k < lost.len() {
                        assert(lost[k] == c);
                    }
                }
                if lost.contains(c) {
                    let k = choose|k: int| 0 <= k < lost.len() && lost[k] == c;
                    assert(more[k] == c);
                }
                if c == c0 {
                    assert(more[lost.len() as int] == c);
                }
            }
            if lost_on_one_of(rest, more) {
                let j = choose|j: int| 0 <= j < rest.len() && #[trigger] rest[j].lost && more.contains((rest[j].x, rest[j].y));
                assert(reports[j + 1] == rest[j]);
                if lost.contains((rest[j].x, rest[j].y)) {
                    assert(lost_on_one_of(reports, lost));
                } else {
                    assert(reports[0].lost && reports[j + 1].lost);
                    assert(lost_twice_on_one_cell(reports));
                }
            }
            if lost_twice_on_one_cell(rest) {
                let (i, j) = choose|i: int, j: int| 0 <= i < j < rest.len() && #[trigger] rest[i].lost && #[trigger] rest[j].lost
                    && rest[i].x == rest[j].x && rest[i].y == rest[j].y;
                assert(reports[i + 1] == rest[i] && reports[j + 1] == rest[j]);
                assert(lost_twice_on_one_cell(reports));
            }
            if lost_on_one_of(reports, lost) {
                let j = choose|j: int| 0 <= j < reports.len() && #[trigger] reports[j].lost && lost.contains((reports[j].x, reports[j].y));
                assert(j != 0);
                assert(rest[j - 1] == reports[j]);
                assert(more.contains((rest[j - 1].x, rest[j - 1].y)));
                assert(lost_on_one_of(rest, more));
            }
            if lost_twice_on_one_cell(reports) {
                let (i, j) = choose|i: int, j: int| 0 <= i < j < reports.len() && #[trigger] reports[i].lost && #[trigger] reports[j].lost
                    && reports[i].x == reports[j].x && reports[i].y == reports[j].y;
                assert(rest[j - 1] == reports[j]);
                if i == 0 {
                    assert(more.contains((rest[j - 1].x, rest[j - 1].y)));
                    assert(lost_on_one_of(rest, more));
                } else {
                    assert(rest[i - 1] == reports[i]);
                    assert(lost_twice_on_one_cell(rest));
                }
            }
        }
    }
}

/// An answer is read as one line per robot exactly when it has as many
/// lines as the mission has robots; and it is judged to lose two robots on
/// one cell exactly when two of its lost reports name the same cell.
pub proof fn law_line_count_and_double_losses_are_judged_exactly(mission: MissionModel, stdout: Seq<u8>)
    ensures
        parse_reports(stdout) matches Ok(reports) ==> {
            &&& checked(mission, stdout)[0] is Held <==> reports.len() == mission.robots.len()
            &&& checked(mission, stdout)[5] is Violated <==> exists|i: int, j: int| 0 <= i < j < reports.len()
                && #[trigger] reports[i].lost && #[trigger] reports[j].lost && reports[i].x == reports[j].x
                && reports[i].y == reports[j].y
        },
{
    if parse_reports(stdout) is Ok {
        let reports = parse_reports(stdout)->Ok_0;
        lemma_losses_from(reports, seq![]);
        assert(!lost_on_one_of(reports, seq![]));
    }
}

proof fn lemma_cannot_move_from(robots: Seq<RobotModel>, reports: Seq<Outcome>, applied: bool)
    ensures
        cannot_move_from(robots, reports, applied) is Violated <==> exists|i: int| 0 <= i < robots.len() && i < reports.len()
            && !(#[trigger] robots[i]).steps.contains('F') && !stayed(robots[i], reports[i]),
    decreases robots.len(),
{
    if robots.len() > 0 && reports.len() > 0 {
        let rr = robots.skip(1);
        let rp = reports.skip(1);
        if robots[0].steps.contains('F') || stayed(robots[0], reports[0]) {
            let next = if robots[0].steps.contains('F') { applied } else { true };
            lemma_cannot_move_from(rr, rp, next);
            if exists|i: int| 0 <= i < robots.len() && i < reports.len() && !(#[trigger] robots[i]).steps.contains('F') && !stayed(robots[i], reports[i]) {
                let i = choose|i: int| 0 <= i < robots.len() && i < reports.len() && !(#[trigger] robots[i]).steps.contains('F') && !stayed(robots[i], reports[i]);
                assert(i > 0);
                assert(rr[i - 1] == robots[i] && rp[i - 1] == reports[i]);
            }
            if exists|i: int| 0 <= i < rr.len() && i < rp.len() && !(#[trigger] rr[i]).steps.contains('F') && !stayed(rr[i], rp[i]) {
                let i = choose|i: int| 0 <= i < rr.len() && i < rp.len() && !(#[trigger] rr[i]).steps.contains('F') && !stayed(rr[i], rp[i]);
                assert(robots[i + 1] == rr[i] && reports[i + 1] == rp[i]);
            }
        } else {
            assert(!robots[0].steps.contains('F') && !stayed(robots[0], reports[0]));
        }
    }
}

/// A robot with no forward step cannot move: the answer is judged to break
/// that property exactly when some such robot, among those the answer
/// reports, is reported lost, or anywhere but its start, or facing other than
/// its turns leave it; in particular a report that moved it is a violation.
pub proof fn law_a_robot_reported_away_from_its_start_without_moving_is_a_violation(mission: MissionModel, stdout: Seq<u8>)
    ensures
        parse_reports(stdout) matches Ok(reports) ==> {
            &&& checked(mission, stdout)[3] is Violated <==> exists|i: int| 0 <= i < mission.robots.len() && i < reports.len()
                && !(#[trigger] mission.robots[i]).steps.contains('F') && !stayed(mission.robots[i], reports[i])
            &&& forall|i: int| 0 <= i < mission.robots.len() && i < reports.len()
                && !(#[trigger] mission.robots[i]).steps.contains('F')
                && (reports[i].lost || reports[i].x != mission.robots[i].x || reports[i].y != mission.robots[i].y)
                ==> checked(mission, stdout)[3] is Violated
        },
{
    if parse_reports(stdout) is Ok {
        let reports = parse_reports(stdout)->Ok_0;
        lemma_cannot_move_from(mission.robots, reports, false);
    }
}

} // verus!
