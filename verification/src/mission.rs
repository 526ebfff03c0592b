//! A mission: a world and the robots sent into it, in the order they run.

use vstd::prelude::*;
use vstd::utf8::*;

use crate::text::{
    bytes_of, chars_of, decimal, decode, debug_text, is_blank, is_blank_line, parse_u32, parse_u32_of,
    push_all, push_debug, push_decimal, push_str, split, split_chars, string_of, strip_cr, strip_cr_chars,
    tokens, tokens_of, trim_blanks, trim_blanks_of, utf8_error_text, views,
};

verus! {

/// A robot as the input states it: where it starts, which way it faces, and
/// the instructions it will execute.
#[derive(Debug, PartialEq, Eq)]
pub struct Robot {
    pub x: u32,
    pub y: u32,
    pub facing: char,
    pub instructions: String,
}

/// A world of `(0..=max_x, 0..=max_y)` and its robots.
#[derive(Debug, PartialEq, Eq)]
pub struct Mission {
    pub max_x: u32,
    pub max_y: u32,
    pub robots: Vec<Robot>,
}

/// What a robot is, as a value.
pub struct RobotModel {
    pub x: u32,
    pub y: u32,
    pub facing: char,
    pub steps: Seq<char>,
}

/// What a mission is, as a value.
pub struct MissionModel {
    pub max_x: u32,
    pub max_y: u32,
    pub robots: Seq<RobotModel>,
}

impl View for Robot {
    type V = RobotModel;

    open spec fn view(&self) -> RobotModel {
        RobotModel { x: self.x, y: self.y, facing: self.facing, steps: self.instructions@ }
    }
}

impl View for Mission {
    type V = MissionModel;

    open spec fn view(&self) -> MissionModel {
        MissionModel {
            max_x: self.max_x,
            max_y: self.max_y,
            robots: self.robots@.map_values(|r: Robot| r@),
        }
    }
}


/// The canonical spelling of one robot: its position line and its
/// instruction line.
pub open spec fn robot_text(robot: RobotModel) -> Seq<char> {
    decimal(robot.x as nat) + seq![' '] + decimal(robot.y as nat) + seq![' ', robot.facing, '\n'] + robot.steps + seq!['\n']
}

pub open spec fn robots_text(robots: Seq<RobotModel>) -> Seq<char>
    decreases robots.len(),
{
    if robots.len() == 0 { seq![] } else { robots_text(robots.drop_last()) + robot_text(robots.last()) }
}

/// A mission written the plain way: single spaces, LF endings, no blank lines.
pub open spec fn canonical_text(mission: MissionModel) -> Seq<char> {
    decimal(mission.max_x as nat) + seq![' '] + decimal(mission.max_y as nat) + seq!['\n'] + robots_text(mission.robots)
}

/// The lines a rendering is read as: split at LF, one CR at the end of each
/// dropped, and the empty piece after a final LF not counted.
pub open spec fn read_lines(text: Seq<char>) -> Seq<Seq<char>> {
    let pieces = split(text, '\n').map_values(|piece: Seq<char>| strip_cr(piece));
    if pieces.len() > 0 && pieces.last().len() == 0 { pieces.drop_last() } else { pieces }
}

/// The first line at or after `at` that is not blank.
pub open spec fn skip_blank(lines: Seq<Seq<char>>, at: int) -> int
    decreases lines.len() - at,
{
    if at < lines.len() && is_blank(lines[at]) { skip_blank(lines, at + 1) } else { at }
}

pub proof fn lemma_skip_blank(lines: Seq<Seq<char>>, at: int)
    ensures
        skip_blank(lines, at) >= at,
        at <= lines.len() ==> skip_blank(lines, at) <= lines.len(),
    decreases lines.len() - at,
{
    if at < lines.len() && is_blank(lines[at]) {
        lemma_skip_blank(lines, at + 1);
    }
}

/// A number token read back, or why not.
pub open spec fn number_of(token: Seq<char>) -> Result<u32, Seq<char>> {
    match parse_u32(token) {
        Some(n) => Ok(n),
        None => Err("not a number: "@ + debug_text(token)),
    }
}

/// One robot from its position line and its instruction line.
pub open spec fn robot_of(position: Seq<char>, steps: Seq<char>) -> Result<RobotModel, Seq<char>> {
    let t = tokens(position);
    if t.len() == 3 && t[2].len() == 1 {
        match number_of(t[0]) {
            Err(why) => Err(why),
            Ok(x) => match number_of(t[1]) {
                Err(why) => Err(why),
                Ok(y) => Ok(RobotModel { x, y, facing: t[2][0], steps: trim_blanks(steps) }),
            },
        }
    } else {
        Err("position line is malformed: "@ + debug_text(position))
    }
}

/// The robots from line `at` on: blanks separate blocks, and the line after a
/// position line is its instruction line even when blank.
pub open spec fn robots_from(lines: Seq<Seq<char>>, at: int) -> Result<Seq<RobotModel>, Seq<char>>
    decreases lines.len() - at,
{
    let start = skip_blank(lines, at);
    if start >= lines.len() || at > lines.len() {
        Ok(seq![])
    } else if start + 1 >= lines.len() {
        Err("no instruction line"@)
    } else {
        match robot_of(lines[start], lines[start + 1]) {
            Err(why) => Err(why),
            Ok(robot) => match {
                proof {
                    lemma_skip_blank(lines, at);
                }
                robots_from(lines, start + 2)
            } {
                Err(why) => Err(why),
                Ok(rest) => Ok(seq![robot] + rest),
            },
        }
    }
}

/// The mission a rendering states, read the way the suite's own reader reads
/// it; or why it cannot be read.
pub open spec fn read_mission(bytes: Seq<u8>) -> Result<MissionModel, Seq<char>> {
    if !valid_utf8(bytes) {
        Err(utf8_error_text(bytes))
    } else {
        let lines = read_lines(decode_utf8(bytes));
        let at = skip_blank(lines, 0);
        if at >= lines.len() {
            Err("no grid line"@)
        } else {
            let t = tokens(lines[at]);
            if t.len() != 2 {
                Err("grid line is not two numbers: "@ + debug_text(lines[at]))
            } else {
                match number_of(t[0]) {
                    Err(why) => Err(why),
                    Ok(max_x) => match number_of(t[1]) {
                        Err(why) => Err(why),
                        Ok(max_y) => match robots_from(lines, at + 1) {
                            Err(why) => Err(why),
                            Ok(robots) => Ok(MissionModel { max_x, max_y, robots }),
                        },
                    },
                }
            }
        }
    }
}

/// Whether every robot starts inside the world.
pub open spec fn all_start_on(mission: MissionModel) -> bool {
    forall|i: int| #![trigger mission.robots[i]] 0 <= i < mission.robots.len()
        ==> mission.robots[i].x <= mission.max_x && mission.robots[i].y <= mission.max_y
}

/// Whether a robot is what the contract accepts: a compass letter, at most
/// the maximum number of instructions, each of them a known letter.
pub open spec fn robot_valid(robot: RobotModel, max_instructions: u32) -> bool {
    &&& (robot.facing == 'N' || robot.facing == 'E' || robot.facing == 'S' || robot.facing == 'W')
    &&& robot.steps.len() <= max_instructions
    &&& forall|k: int| 0 <= k < robot.steps.len() ==> (#[trigger] robot.steps[k] == 'L' || robot.steps[k] == 'R' || robot.steps[k] == 'F')
}

/// Whether a mission is one the contract accepts.
pub open spec fn mission_valid(mission: MissionModel, max_coordinate: u32, max_instructions: u32) -> bool {
    &&& mission.max_x <= max_coordinate
    &&& mission.max_y <= max_coordinate
    &&& all_start_on(mission)
    &&& forall|i: int| 0 <= i < mission.robots.len() ==> robot_valid(#[trigger] mission.robots[i], max_instructions)
}

/// The views of several robots.
pub open spec fn robot_views(robots: Seq<Robot>) -> Seq<RobotModel> {
    robots.map_values(|r: Robot| r@)
}

fn one_robot(position: &Vec<char>, steps: &Vec<char>) -> (r: Result<Robot, String>)
    ensures
        r matches Ok(robot) ==> robot_of(position@, steps@) == Ok::<RobotModel, Seq<char>>(robot@),
        r matches Err(why) ==> robot_of(position@, steps@) == Err::<RobotModel, Seq<char>>(why@),
{
    let t = tokens_of(position);
    proof {
        if t.len() == 3 {
            assert(views(t@)[2] == t@[2]@);
            assert(views(t@)[0] == t@[0]@);
            assert(views(t@)[1] == t@[1]@);
        }
    }
    if t.len() == 3 && t[2].len() == 1 {
        let x = number(&t[0])?;
        let y = number(&t[1])?;
        let instructions = trim_blanks_of(steps);
        Ok(Robot { x, y, facing: t[2][0], instructions: string_of(&instructions) })
    } else {
        let mut why: Vec<char> = Vec::new();
        push_str(&mut why, "position line is malformed: ");
        push_debug(&mut why, position);
        Err(string_of(&why))
    }
}

fn number(token: &Vec<char>) -> (r: Result<u32, String>)
    ensures
        r matches Ok(n) ==> number_of(token@) == Ok::<u32, Seq<char>>(n),
        r matches Err(why) ==> number_of(token@) == Err::<u32, Seq<char>>(why@),
{
    match parse_u32_of(token) {
        Some(n) => Ok(n),
        None => {
            let mut why: Vec<char> = Vec::new();
            push_str(&mut why, "not a number: ");
            push_debug(&mut why, token);
            Err(string_of(&why))
        },
    }
}

fn skip_blank_lines(lines: &Vec<Vec<char>>, at: usize) -> (r: usize)
    requires
        at <= lines.len(),
    ensures
        r == skip_blank(views(lines@), at as int),
        at <= r <= lines.len(),
{
    let mut i = at;
    while i < lines.len() && is_blank_line(&lines[i])
        invariant
            at <= i <= lines.len(),
            skip_blank(views(lines@), i as int) == skip_blank(views(lines@), at as int),
        decreases lines.len() - i,
    {
        proof {
            assert(views(lines@)[i as int] == lines@[i as int]@);
        }
        i = i + 1;
    }
    proof {
        if i < lines.len() {
            assert(views(lines@)[i as int] == lines@[i as int]@);
        }
    }
    i
}

fn read_lines_of(text: &Vec<char>) -> (r: Vec<Vec<char>>)
    ensures
        views(r@) == read_lines(text@),
{
    let pieces = split_chars(text, '\n');
    let ghost stripped = split(text@, '\n').map_values(|piece: Seq<char>| strip_cr(piece));
    let mut lines: Vec<Vec<char>> = Vec::new();
    let mut i: usize = 0;
    while i < pieces.len()
        invariant
            i <= pieces.len(),
            views(pieces@) == split(text@, '\n'),
            stripped == split(text@, '\n').map_values(|piece: Seq<char>| strip_cr(piece)),
            views(lines@) == stripped.take(i as int),
        decreases pieces.len() - i,
    {
        let line = strip_cr_chars(&pieces[i]);
        let ghost before = lines@;
        lines.push(line);
        proof {
            assert(views(pieces@)[i as int] == pieces@[i as int]@);
            assert(views(lines@) =~= views(before).push(line@));
            assert(stripped.take(i + 1) =~= stripped.take(i as int).push(stripped[i as int]));
        }
        i = i + 1;
    }
    proof {
        assert(stripped.take(i as int) =~= stripped);
    }
    if lines.len() > 0 && lines[lines.len() - 1].len() == 0 {
        let ghost before = lines@;
        lines.pop();
        proof {
            assert(views(before)[before.len() - 1] == before[before.len() - 1]@);
            assert(views(lines@) =~= views(before).drop_last());
        }
    }
    lines
}

impl Mission {
    /// The mission written the plain way: single spaces, LF line endings, no
    /// blank lines.
    pub fn canonical(&self) -> (r: Vec<u8>)
        ensures
            r@ == encode_utf8(canonical_text(self@)),
    {
        let mut text: Vec<char> = Vec::new();
        push_decimal(&mut text, self.max_x);
        text.push(' ');
        push_decimal(&mut text, self.max_y);
        text.push('\n');
        let ghost head = text@;
        let ghost robots = self@.robots;
        let mut i: usize = 0;
        while i < self.robots.len()
            invariant
                i <= self.robots.len(),
                robots == self@.robots,
                robots.len() == self.robots.len(),
                text@ == head + robots_text(robots.take(i as int)),
            decreases self.robots.len() - i,
        {
            let robot = &self.robots[i];
            proof {
                assert(robots.take(i + 1).drop_last() =~= robots.take(i as int));
                assert(robots.take(i + 1).last() == robot@);
            }
            push_decimal(&mut text, robot.x);
            text.push(' ');
            push_decimal(&mut text, robot.y);
            text.push(' ');
            text.push(robot.facing);
            text.push('\n');
            push_str(&mut text, robot.instructions.as_str());
            text.push('\n');
            i = i + 1;
            proof {
                assert(text@ =~= head + robots_text(robots.take(i as int)));
            }
        }
        proof {
            assert(robots.take(i as int) =~= robots);
            assert(text@ =~= canonical_text(self@));
        }
        bytes_of(&text)
    }

    /// Reads a rendering back into the mission it states: blank lines are
    /// separators, the line after a position line is its instructions, and
    /// spaces and tabs separate tokens.
    pub fn read_back(rendered: &[u8]) -> (r: Result<Self, String>)
        ensures
            r matches Ok(m) ==> read_mission(rendered@) == Ok::<MissionModel, Seq<char>>(m@),
            r matches Err(why) ==> read_mission(rendered@) == Err::<MissionModel, Seq<char>>(why@),
    {
        let text = match decode(rendered) {
            Ok(text) => text,
            Err(why) => return Err(why),
        };
        let lines = read_lines_of(&text);
        let ghost ls = views(lines@);
        let at = skip_blank_lines(&lines, 0);
        if at >= lines.len() {
            return Err(string_of(&chars_of("no grid line")));
        }
        let grid = &lines[at];
        proof {
            assert(ls[at as int] == grid@);
        }
        let t = tokens_of(grid);
        if t.len() != 2 {
            let mut why: Vec<char> = Vec::new();
            push_str(&mut why, "grid line is not two numbers: ");
            push_debug(&mut why, grid);
            return Err(string_of(&why));
        }
        proof {
            assert(views(t@)[0] == t@[0]@);
            assert(views(t@)[1] == t@[1]@);
        }
        let max_x = number(&t[0])?;
        let max_y = number(&t[1])?;

        let mut robots: Vec<Robot> = Vec::new();
        let mut next = at + 1;
        proof {
            assert(read_mission(rendered@) == (match robots_from(ls, at + 1) {
                Err(why) => Err::<MissionModel, Seq<char>>(why),
                Ok(rs) => Ok(MissionModel { max_x, max_y, robots: rs }),
            }));
        }
        proof {
            match robots_from(ls, next as int) {
                Err(_) => {},
                Ok(rest) => { assert(robot_views(robots@) + rest =~= rest); },
            }
        }
        loop
            invariant
                next <= lines.len() + 1,
                ls == views(lines@),
                read_mission(rendered@) == (match robots_from(ls, at + 1) {
                    Err(why) => Err::<MissionModel, Seq<char>>(why),
                    Ok(rs) => Ok(MissionModel { max_x, max_y, robots: rs }),
                }),
                robots_from(ls, at + 1) == (match robots_from(ls, next as int) {
                    Err(why) => Err::<Seq<RobotModel>, Seq<char>>(why),
                    Ok(rest) => Ok(robot_views(robots@) + rest),
                }),
            ensures
                robots_from(ls, at + 1) == Ok::<Seq<RobotModel>, Seq<char>>(robot_views(robots@)),
            decreases lines.len() + 1 - next,
        {
            if next > lines.len() {
                proof {
                    assert(robot_views(robots@) + Seq::<RobotModel>::empty() =~= robot_views(robots@));
                }
                break;
            }
            let start = skip_blank_lines(&lines, next);
            if start >= lines.len() {
                proof {
                    assert(robot_views(robots@) + Seq::<RobotModel>::empty() =~= robot_views(robots@));
                }
                break;
            }
            if start + 1 >= lines.len() {
                let why = string_of(&chars_of("no instruction line"));
                proof {
                    assert(robots_from(ls, next as int) == Err::<Seq<RobotModel>, Seq<char>>(why@));
                }
                return Err(why);
            }
            proof {
                assert(ls[start as int] == lines@[start as int]@);
                assert(ls[start + 1] == lines@[start + 1]@);
            }
            let robot = match one_robot(&lines[start], &lines[start + 1]) {
                Ok(robot) => robot,
                Err(why) => {
                    proof {
                        assert(robots_from(ls, next as int) == Err::<Seq<RobotModel>, Seq<char>>(why@));
                    }
                    return Err(why);
                },
            };
            proof {
                match robots_from(ls, start + 2) {
                    Err(_) => {},
                    Ok(rest) => {
                        assert(robot_views(robots@.push(robot)) =~= robot_views(robots@).push(robot@));
                        assert(robot_views(robots@) + (seq![robot@] + rest) =~= robot_views(robots@).push(robot@) + rest);
                    },
                }
            }
            robots.push(robot);
            next = start + 2;
        }
        Ok(Mission { max_x, max_y, robots })
    }

    /// Whether every robot starts inside the world.
    pub fn every_robot_starts_on_the_grid(&self) -> (r: bool)
        ensures
            r == all_start_on(self@),
    {
        let mut i: usize = 0;
        while i < self.robots.len()
            invariant
                i <= self.robots.len(),
                forall|j: int| #![trigger self@.robots[j]] 0 <= j < i ==> self@.robots[j].x <= self.max_x && self@.robots[j].y <= self.max_y,
            decreases self.robots.len() - i,
        {
            proof {
                assert(self@.robots[i as int] == self.robots@[i as int]@);
            }
            if !(self.robots[i].x <= self.max_x && self.robots[i].y <= self.max_y) {
                proof {
                    assert(!(self@.robots[i as int].x <= self.max_x && self@.robots[i as int].y <= self.max_y));
                    assert(!(self@.robots[i as int].x <= self@.max_x && self@.robots[i as int].y <= self@.max_y));
                }
                return false;
            }
            i = i + 1;
        }
        true
    }

    /// Whether the contract accepts this mission: coordinates within the
    /// limit, every robot on the world, facing a compass letter, and carrying
    /// at most the maximum number of known instructions.
    pub fn is_valid(&self, max_coordinate: u32, max_instructions: u32) -> (r: bool)
        ensures
            r == mission_valid(self@, max_coordinate, max_instructions),
    {
        if !(self.max_x <= max_coordinate && self.max_y <= max_coordinate && self.every_robot_starts_on_the_grid()) {
            return false;
        }
        let mut i: usize = 0;
        while i < self.robots.len()
            invariant
                i <= self.robots.len(),
                forall|j: int| 0 <= j < i ==> robot_valid(#[trigger] self@.robots[j], max_instructions),
            decreases self.robots.len() - i,
        {
            let robot = &self.robots[i];
            proof {
                assert(self@.robots[i as int] == robot@);
            }
            if !(robot.facing == 'N' || robot.facing == 'E' || robot.facing == 'S' || robot.facing == 'W') {
                return false;
            }
            let steps = chars_of(robot.instructions.as_str());
            if steps.len() > max_instructions as usize {
                return false;
            }
            let mut k: usize = 0;
            while k < steps.len()
                invariant
                    k <= steps.len(),
                    steps@ == robot@.steps,
                    i < self.robots.len(),
                    self@.robots[i as int] == robot@,
                    forall|j: int| 0 <= j < k ==> (#[trigger] steps@[j] == 'L' || steps@[j] == 'R' || steps@[j] == 'F'),
                decreases steps.len() - k,
            {
                if !(steps[k] == 'L' || steps[k] == 'R' || steps[k] == 'F') {
                    proof {
                        assert(!(robot@.steps[k as int] == 'L' || robot@.steps[k as int] == 'R' || robot@.steps[k as int] == 'F'));
                    }
                    return false;
                }
                k = k + 1;
            }
            i = i + 1;
        }
        true
    }

    /// A copy of this mission.
    pub fn duplicate(&self) -> (r: Self)
        ensures
            r@ == self@,
    {
        let mut robots: Vec<Robot> = Vec::new();
        let mut i: usize = 0;
        while i < self.robots.len()
            invariant
                i <= self.robots.len(),
                robot_views(robots@) == self@.robots.take(i as int),
            decreases self.robots.len() - i,
        {
            let robot = &self.robots[i];
            let copy = Robot { x: robot.x, y: robot.y, facing: robot.facing, instructions: robot.instructions.clone() };
            let ghost before = robots@;
            robots.push(copy);
            i = i + 1;
            proof {
                assert(robot_views(robots@) =~= robot_views(before).push(copy@));
                assert(self@.robots.take(i as int) =~= self@.robots.take(i - 1).push(self@.robots[i - 1]));
            }
        }
        proof {
            assert(self@.robots.take(i as int) =~= self@.robots);
        }
        Mission { max_x: self.max_x, max_y: self.max_y, robots }
    }
}

} // verus!
