//! Valid missions broken on purpose, one way at a time.
//!
//! The line and the admissible tags of a mutation are derived from how it was
//! built, never from what the program under test said, so a program cannot
//! teach the suite to accept its own answer. And the input is checked to be
//! genuinely invalid before it is used: a mutation that quietly left a valid
//! mission behind would turn a rejection test into a much weaker success
//! test that still reports green.

use vstd::prelude::*;
use vstd::utf8::*;

use crate::mission::{canonical_text, mission_valid, read_mission, robot_text, robots_text, Mission, MissionModel, RobotModel};
use crate::rng::{below_state, below_value, pick_bound, Rng};
use crate::spelling::repeated;
use crate::text::{bytes_of, decimal, decode, lines_chars, lines_of, push_all, push_decimal, push_str, split, strip_cr, views};

verus! {

/// A valid mission broken one way: what was done, the bytes, the 1-based
/// physical line the defect sits on, and the tags of the rulings that
/// govern it.
pub struct Mutation {
    pub kind: &'static str,
    pub rendered: Vec<u8>,
    /// Canonical renderings put the grid line first and two lines per robot,
    /// so this is arithmetic.
    pub line: usize,
    pub tags: Vec<&'static str>,
}

pub struct MutationModel {
    pub kind: Seq<char>,
    pub rendered: Seq<u8>,
    pub line: usize,
    pub tags: Seq<Seq<char>>,
}

/// The characters of several string slices.
pub open spec fn tag_views(v: Seq<&str>) -> Seq<Seq<char>> {
    v.map_values(|s: &str| s@)
}

impl View for Mutation {
    type V = MutationModel;

    open spec fn view(&self) -> MutationModel {
        MutationModel { kind: self.kind@, rendered: self.rendered@, line: self.line, tags: tag_views(self.tags@) }
    }
}

/// How a mutation makes the input invalid, and therefore what must be true
/// of it before it is used to grade anybody.
pub enum Invalidity {
    /// The grammar rejects it: the suite's own reader must fail to read it.
    Grammar,
    /// It parses, but the contract's limits refuse it.
    Semantic,
}

/// What a break did: its kind, the 0-based line it changed, the tags that
/// govern it, and how the result is invalid.
pub struct BrokenModel {
    pub kind: Seq<char>,
    pub at: int,
    pub tags: Seq<Seq<char>>,
    pub invalidity: Invalidity,
}

struct Broken {
    kind: &'static str,
    at: usize,
    tags: Vec<&'static str>,
    invalidity: Invalidity,
}

impl View for Broken {
    type V = BrokenModel;

    closed spec fn view(&self) -> BrokenModel {
        BrokenModel { kind: self.kind@, at: self.at as int, tags: tag_views(self.tags@), invalidity: self.invalidity }
    }
}

/// The lines joined by LF, as `join` writes them.
pub open spec fn joined(lines: Seq<Seq<char>>) -> Seq<char>
    decreases lines.len(),
{
    if lines.len() == 0 {
        seq![]
    } else if lines.len() == 1 {
        lines[0]
    } else {
        joined(lines.drop_last()) + "\n"@ + lines.last()
    }
}

/// `x y facing`.
pub open spec fn position_text(x: u32, y: u32, facing: char) -> Seq<char> {
    decimal(x as nat) + " "@ + decimal(y as nat) + " "@ + seq![facing]
}

/// A value broken: the line keeps the shape the grammar wants, and its
/// meaning goes past a limit or outside a vocabulary.
pub open spec fn broken_value(
    state: u64,
    mission: MissionModel,
    lines: Seq<Seq<char>>,
    robot: int,
    max_coordinate: u32,
    max_instructions: u32,
) -> (Option<(Seq<Seq<char>>, BrokenModel)>, u64) {
    value_break(below_state(state, 5), below_value(state, 5), mission, lines, robot, max_coordinate, max_instructions)
}

/// The value break `choice` names, drawn from the stream at `state`.
pub open spec fn value_break(
    state: u64,
    choice: u32,
    mission: MissionModel,
    lines: Seq<Seq<char>>,
    robot: int,
    max_coordinate: u32,
    max_instructions: u32,
) -> (Option<(Seq<Seq<char>>, BrokenModel)>, u64) {
    let position = 1 + robot * 2;
    let instructions = position + 1;
    let at_hand = mission.robots[robot];
    if choice == 0 {
        let v = below_value(state, 9);
        if max_coordinate + 1 + v > u32::MAX {
            (None, below_state(state, 9))
        } else {
            (Some((
                lines.update(0, decimal((max_coordinate + 1 + v) as nat) + " "@ + decimal(mission.max_y as nat)),
                BrokenModel { kind: "a grid coordinate over the limit"@, at: 0, tags: seq!["R5"@], invalidity: Invalidity::Semantic },
            )), below_state(state, 9))
        }
    } else if choice == 1 {
        let v = below_value(state, 9);
        if max_coordinate + 1 + v > u32::MAX {
            (None, below_state(state, 9))
        } else {
            (Some((
                lines.update(position, position_text((max_coordinate + 1 + v) as u32, at_hand.y, at_hand.facing)),
                BrokenModel { kind: "a robot coordinate over the limit"@, at: position, tags: seq!["R5"@, "R1"@], invalidity: Invalidity::Semantic },
            )), below_state(state, 9))
        }
    } else if choice == 2 {
        if mission.max_x >= max_coordinate {
            (None, state)
        } else {
            let bound = (max_coordinate - mission.max_x) as u32;
            let beyond = (mission.max_x + 1 + below_value(state, bound)) as u32;
            (Some((
                lines.update(position, position_text(beyond, at_hand.y, at_hand.facing)),
                BrokenModel { kind: "a start off the world"@, at: position, tags: seq!["R1"@], invalidity: Invalidity::Semantic },
            )), below_state(state, bound))
        }
    } else if choice == 3 {
        let wrong = seq!['Q', 'n', 'e', 'X'][below_value(state, 4) as int];
        (Some((
            lines.update(position, position_text(at_hand.x, at_hand.y, wrong)),
            BrokenModel { kind: "an orientation outside the vocabulary"@, at: position, tags: seq!["R7"@, "R12"@], invalidity: Invalidity::Semantic },
        )), below_state(state, 4))
    } else if max_instructions + 1 > usize::MAX {
        (None, state)
    } else {
        (Some((
            lines.update(instructions, repeated('L', (max_instructions + 1) as nat)),
            BrokenModel { kind: "an instruction string over the limit"@, at: instructions, tags: seq!["R6"@], invalidity: Invalidity::Semantic },
        )), state)
    }
}

/// How many bytes the first `j` characters of a line take in UTF-8.
pub open spec fn bytes_before(line: Seq<char>, j: int) -> nat {
    encode_utf8(line.take(j)).len()
}

/// The bound `String::insert`'s byte offset is drawn below: one past the
/// line's length in bytes, or one where that length does not fit a `u32`;
/// `None` where the length is exactly `u32::MAX` and one past it overflows.
pub open spec fn insert_bound(bytes: nat) -> Option<u32> {
    if bytes < u32::MAX {
        Some((bytes + 1) as u32)
    } else if bytes > u32::MAX {
        Some(1u32)
    } else {
        None
    }
}

/// The character index at which byte offset `at` stands, looking from
/// character `j` on; `None` where `at` falls inside a character, where
/// `String::insert` panics.
pub open spec fn char_index_of(line: Seq<char>, at: nat, j: int) -> Option<int>
    decreases line.len() - j,
{
    if j < 0 || j > line.len() || bytes_before(line, j) > at {
        None
    } else if bytes_before(line, j) == at {
        Some(j)
    } else if j == line.len() {
        None
    } else {
        char_index_of(line, at, j + 1)
    }
}

/// A shape broken: a token too many, a token too few, a character the grammar
/// has no place for; `None` where inserting that character would split one.
pub open spec fn broken_shape(state: u64, mission: MissionModel, lines: Seq<Seq<char>>, robot: int) -> (Option<(Seq<Seq<char>>, BrokenModel)>, u64) {
    shape_break(below_state(state, 4), below_value(state, 4), mission, lines, robot)
}

/// The shape break `choice` names, drawn from the stream at `state`.
pub open spec fn shape_break(state: u64, choice: u32, mission: MissionModel, lines: Seq<Seq<char>>, robot: int) -> (Option<(Seq<Seq<char>>, BrokenModel)>, u64) {
    let position = 1 + robot * 2;
    let instructions = position + 1;
    let at_hand = mission.robots[robot];
    if choice == 0 {
        (Some((
            lines.update(position, lines[position] + " X"@),
            BrokenModel { kind: "an extra token on a position line"@, at: position, tags: seq!["R12"@], invalidity: Invalidity::Grammar },
        )), state)
    } else if choice == 1 {
        (Some((
            lines.update(position, decimal(at_hand.x as nat) + " "@ + decimal(at_hand.y as nat)),
            BrokenModel { kind: "a position line with no orientation"@, at: position, tags: seq!["R12"@], invalidity: Invalidity::Grammar },
        )), state)
    } else if choice == 2 {
        let wrong = seq!['X', 'r', 'f', '1'][below_value(state, 4) as int];
        let s2 = below_state(state, 4);
        let line = lines[instructions];
        match insert_bound(encode_utf8(line).len()) {
            None => (None, s2),
            Some(bound) => {
                let at = below_value(s2, bound);
                match char_index_of(line, at as nat, 0) {
                    None => (None, below_state(s2, bound)),
                    Some(j) => (Some((
                        lines.update(instructions, line.take(j) + seq![wrong] + line.skip(j)),
                        BrokenModel { kind: "an instruction outside the vocabulary"@, at: instructions, tags: seq!["R7"@, "R12"@], invalidity: Invalidity::Semantic },
                    )), below_state(s2, bound)),
                }
            },
        }
    } else {
        let foreign = seq!['\u{c}', '\u{b}', '\u{a0}', '\u{3000}'][below_value(state, 4) as int];
        (Some((
            lines.update(position, decimal(at_hand.x as nat) + seq![foreign] + decimal(at_hand.y as nat) + " "@ + seq![at_hand.facing]),
            BrokenModel { kind: "a separator the grammar does not have"@, at: position, tags: seq!["R4"@, "R12"@, "R7"@], invalidity: Invalidity::Grammar },
        )), below_state(state, 4))
    }
}

/// Whether the rendering is input the contract refuses, for the reason the
/// mutation intended or another.
pub open spec fn refused(rendered: Seq<u8>, invalidity: Invalidity, max_coordinate: u32, max_instructions: u32) -> bool {
    match invalidity {
        Invalidity::Grammar => read_mission(rendered) is Err,
        Invalidity::Semantic => match read_mission(rendered) {
            Ok(read) => !mission_valid(read, max_coordinate, max_instructions),
            Err(_) => true,
        },
    }
}

/// A break carried through: the lines joined, and kept only if refused.
pub open spec fn finished(lines: Seq<Seq<char>>, broken: BrokenModel, max_coordinate: u32, max_instructions: u32) -> Option<MutationModel> {
    let rendered = encode_utf8(joined(lines) + "\n"@);
    if refused(rendered, broken.invalidity, max_coordinate, max_instructions) {
        Some(MutationModel { kind: broken.kind, rendered, line: (broken.at + 1) as usize, tags: broken.tags })
    } else {
        None
    }
}

/// The mutation drawn from the stream for a mission, and the stream after.
pub open spec fn mutated(state: u64, mission: MissionModel, max_coordinate: u32, max_instructions: u32) -> (Option<MutationModel>, u64) {
    let lines = lines_of(canonical_text(mission));
    let n = mission.robots.len();
    if n == 0 || n > u32::MAX {
        (None, state)
    } else {
        let robot = below_value(state, n as u32) as int;
        let s1 = below_state(state, n as u32);
        let s2 = below_state(s1, 2);
        if below_value(s1, 2) == 0 {
            match broken_value(s2, mission, lines, robot, max_coordinate, max_instructions) {
                (None, s3) => (None, s3),
                (Some((changed, broken)), s3) => (finished(changed, broken, max_coordinate, max_instructions), s3),
            }
        } else {
            match broken_shape(s2, mission, lines, robot) {
                (None, s3) => (None, s3),
                (Some((changed, broken)), s3) => (finished(changed, broken, max_coordinate, max_instructions), s3),
            }
        }
    }
}

/// How many times `c` occurs in `s`.
pub open spec fn count_of(s: Seq<char>, c: char) -> nat
    decreases s.len(),
{
    if s.len() == 0 { 0 } else { count_of(s.drop_last(), c) + if s.last() == c { 1nat } else { 0nat } }
}

proof fn lemma_split_len(s: Seq<char>, c: char)
    ensures
        split(s, c).len() == count_of(s, c) + 1,
    decreases s.len(),
{
    if s.len() > 0 {
        lemma_split_len(s.drop_last(), c);
    }
}

proof fn lemma_count_concat(a: Seq<char>, b: Seq<char>, c: char)
    ensures
        count_of(a + b, c) == count_of(a, c) + count_of(b, c),
    decreases b.len(),
{
    if b.len() == 0 {
        assert(a + b =~= a);
    } else {
        assert((a + b).drop_last() =~= a + b.drop_last());
        assert((a + b).last() == b.last());
        lemma_count_concat(a, b.drop_last(), c);
    }
}

proof fn lemma_robots_text_lines(robots: Seq<RobotModel>)
    ensures
        count_of(robots_text(robots), '\n') >= 2 * robots.len(),
        robots.len() > 0 ==> robots_text(robots).last() == '\n',
    decreases robots.len(),
{
    if robots.len() > 0 {
        lemma_robots_text_lines(robots.drop_last());
        let r = robots.last();
        let head = decimal(r.x as nat) + seq![' '] + decimal(r.y as nat);
        let mid = seq![' ', r.facing, '\n'];
        lemma_count_concat(head, mid, '\n');
        lemma_count_concat(head + mid, r.steps, '\n');
        lemma_count_concat(head + mid + r.steps, seq!['\n'], '\n');
        assert(mid.drop_last() =~= seq![' ', r.facing]);
        assert(count_of(mid, '\n') >= 1);
        assert(count_of(seq!['\n'], '\n') == 1) by {
            assert(seq!['\n'].drop_last() =~= Seq::<char>::empty());
            assert(count_of(Seq::<char>::empty(), '\n') == 0);
            assert(seq!['\n'].last() == '\n');
        }
        assert(robot_text(r) =~= head + mid + r.steps + seq!['\n']);
        lemma_count_concat(robots_text(robots.drop_last()), robot_text(r), '\n');
        assert(robots_text(robots) == robots_text(robots.drop_last()) + robot_text(r));
    }
}

/// A canonical rendering has a grid line and two lines per robot at least.
proof fn lemma_canonical_lines(mission: MissionModel)
    ensures
        lines_of(canonical_text(mission)).len() >= 1 + 2 * mission.robots.len(),
{
    reveal_strlit(" ");
    let text = canonical_text(mission);
    let head = decimal(mission.max_x as nat) + seq![' '] + decimal(mission.max_y as nat) + seq!['\n'];
    assert(text =~= head + robots_text(mission.robots));
    lemma_robots_text_lines(mission.robots);
    lemma_count_concat(head, robots_text(mission.robots), '\n');
    let front = decimal(mission.max_x as nat) + seq![' '] + decimal(mission.max_y as nat);
    lemma_count_concat(front, seq!['\n'], '\n');
    assert(seq!['\n'].drop_last() =~= Seq::<char>::empty());
    assert(head =~= front + seq!['\n']);
    assert(text.last() == '\n') by {
        if mission.robots.len() == 0 {
            assert(robots_text(mission.robots) =~= Seq::<char>::empty());
            assert(text =~= head);
        } else {
            assert(text.last() == robots_text(mission.robots).last());
        }
    }
    lemma_split_len(text, '\n');
    let pieces = split(text, '\n');
    assert(pieces.last().len() == 0);
}

fn set_line(lines: &mut Vec<Vec<char>>, at: usize, line: Vec<char>)
    requires
        at < old(lines).len(),
    ensures
        final(lines).len() == old(lines).len(),
        views(final(lines)@) == views(old(lines)@).update(at as int, line@),
{
    let ghost before = views(lines@);
    let ghost text = line@;
    lines.set(at, line);
    proof {
        assert(views(lines@) =~= before.update(at as int, text));
    }
}

fn tags_one(a: &'static str) -> (r: Vec<&'static str>)
    ensures
        tag_views(r@) == seq![a@],
{
    let r = vec![a];
    proof {
        assert(tag_views(r@) =~= seq![a@]);
    }
    r
}

fn tags_two(a: &'static str, b: &'static str) -> (r: Vec<&'static str>)
    ensures
        tag_views(r@) == seq![a@, b@],
{
    let r = vec![a, b];
    proof {
        assert(tag_views(r@) =~= seq![a@, b@]);
    }
    r
}

fn tags_three(a: &'static str, b: &'static str, c: &'static str) -> (r: Vec<&'static str>)
    ensures
        tag_views(r@) == seq![a@, b@, c@],
{
    let r = vec![a, b, c];
    proof {
        assert(tag_views(r@) =~= seq![a@, b@, c@]);
    }
    r
}

fn push_position(out: &mut Vec<char>, x: u32, y: u32, facing: char)
    ensures
        final(out)@ == old(out)@ + position_text(x, y, facing),
{
    push_decimal(out, x);
    push_str(out, " ");
    push_decimal(out, y);
    push_str(out, " ");
    out.push(facing);
    proof {
        assert(final(out)@ =~= old(out)@ + position_text(x, y, facing));
    }
}

/// The value break `choice` names, made on the lines.
fn value_break_of(
    rng: &mut Rng,
    choice: u32,
    mission: &Mission,
    lines: &mut Vec<Vec<char>>,
    robot: usize,
    max_coordinate: u32,
    max_instructions: u32,
) -> (r: Option<Broken>)
    requires
        robot < mission.robots.len(),
        2 + 2 * robot < old(lines).len(),
    ensures
        final(lines).len() == old(lines).len(),
        r matches Some(b) ==> b.at <= 2 + 2 * robot,
        ({
            let (spec, after) = value_break(old(rng)@, choice, mission@, views(old(lines)@), robot as int, max_coordinate, max_instructions);
            &&& final(rng)@ == after
            &&& (match (r, spec) {
                (None, None) => true,
                (Some(b), Some((changed, model))) => b@ == model && views(final(lines)@) == changed,
                _ => false,
            })
        }),
{
    let position = 1 + robot * 2;
    let instructions = position + 1;
    let at_hand = &mission.robots[robot];
    proof {
        assert(mission@.robots[robot as int] == at_hand@);
    }
    if choice == 0 {
        let mut line: Vec<char> = Vec::new();
        let v = rng.below(9);
        if max_coordinate as u64 + 1 + v as u64 > u32::MAX as u64 {
            return None;
        }
        push_decimal(&mut line, max_coordinate + 1 + v);
        push_str(&mut line, " ");
        push_decimal(&mut line, mission.max_y);
        set_line(lines, 0, line);
        Some(Broken { kind: "a grid coordinate over the limit", at: 0, tags: tags_one("R5"), invalidity: Invalidity::Semantic })
    } else if choice == 1 {
        let mut line: Vec<char> = Vec::new();
        let v = rng.below(9);
        if max_coordinate as u64 + 1 + v as u64 > u32::MAX as u64 {
            return None;
        }
        push_position(&mut line, max_coordinate + 1 + v, at_hand.y, at_hand.facing);
        set_line(lines, position, line);
        Some(Broken { kind: "a robot coordinate over the limit", at: position, tags: tags_two("R5", "R1"), invalidity: Invalidity::Semantic })
    } else if choice == 2 {
        if mission.max_x >= max_coordinate {
            return None;
        }
        let beyond = mission.max_x + 1 + rng.below(max_coordinate - mission.max_x);
        let mut line: Vec<char> = Vec::new();
        push_position(&mut line, beyond, at_hand.y, at_hand.facing);
        set_line(lines, position, line);
        Some(Broken { kind: "a start off the world", at: position, tags: tags_one("R1"), invalidity: Invalidity::Semantic })
    } else if choice == 3 {
        let letters = ['Q', 'n', 'e', 'X'];
        let wrong = *rng.pick(letters.as_slice());
        proof {
            assert(letters@ =~= seq!['Q', 'n', 'e', 'X']);
        }
        let mut line: Vec<char> = Vec::new();
        push_position(&mut line, at_hand.x, at_hand.y, wrong);
        set_line(lines, position, line);
        Some(Broken { kind: "an orientation outside the vocabulary", at: position, tags: tags_two("R7", "R12"), invalidity: Invalidity::Semantic })
    } else {
        if max_instructions as usize == usize::MAX {
            return None;
        }
        let count = max_instructions as usize + 1;
        let mut line: Vec<char> = Vec::new();
        let mut k: usize = 0;
        while k < count
            invariant
                k <= count,
                line@ == repeated('L', k as nat),
            decreases count - k,
        {
            line.push('L');
            k = k + 1;
        }
        set_line(lines, instructions, line);
        Some(Broken { kind: "an instruction string over the limit", at: instructions, tags: tags_one("R6"), invalidity: Invalidity::Semantic })
    }
}

/// A break of a value, on the lines of the canonical rendering.
fn break_a_value(
    rng: &mut Rng,
    mission: &Mission,
    lines: &mut Vec<Vec<char>>,
    robot: usize,
    max_coordinate: u32,
    max_instructions: u32,
) -> (r: Option<Broken>)
    requires
        robot < mission.robots.len(),
        2 + 2 * robot < old(lines).len(),
    ensures
        final(lines).len() == old(lines).len(),
        r matches Some(b) ==> b.at <= 2 + 2 * robot,
        ({
            let (spec, after) = broken_value(old(rng)@, mission@, views(old(lines)@), robot as int, max_coordinate, max_instructions);
            &&& final(rng)@ == after
            &&& (match (r, spec) {
                (None, None) => true,
                (Some(b), Some((changed, model))) => b@ == model && views(final(lines)@) == changed,
                _ => false,
            })
        }),
{
    let choice = rng.below(5);
    value_break_of(rng, choice, mission, lines, robot, max_coordinate, max_instructions)
}

/// A copy of `line` with `wrong` inserted at `at`.
fn inserted(line: &Vec<char>, at: usize, wrong: char) -> (r: Vec<char>)
    requires
        at <= line.len(),
    ensures
        r@ == line@.take(at as int) + seq![wrong] + line@.skip(at as int),
{
    let mut out: Vec<char> = Vec::new();
    let mut k: usize = 0;
    while k < at
        invariant
            k <= at <= line@.len(),
            out@ == line@.take(k as int),
        decreases at - k,
    {
        out.push(line[k]);
        k = k + 1;
        proof {
            assert(out@ =~= line@.take(k as int));
        }
    }
    out.push(wrong);
    let ghost front = out@;
    let len = line.len();
    let mut k2 = at;
    while k2 < len
        invariant
            at <= k2 <= len == line@.len(),
            out@ == front + line@.subrange(at as int, k2 as int),
        decreases len - k2,
    {
        out.push(line[k2]);
        k2 = k2 + 1;
        proof {
            assert(out@ =~= front + line@.subrange(at as int, k2 as int));
        }
    }
    proof {
        assert(line@.subrange(at as int, len as int) =~= line@.skip(at as int));
        assert(out@ =~= line@.take(at as int) + seq![wrong] + line@.skip(at as int));
    }
    out
}

/// How many bytes a character takes in UTF-8.
fn char_bytes(c: char) -> (r: u64)
    ensures
        r == encode_scalar(c as u32).len(),
        1 <= r <= 4,
{
    proof {
        char_is_scalar(c);
    }
    let v = c as u32;
    if v <= 0x7f { 1 } else if v <= 0x7ff { 2 } else if v <= 0xffff { 3 } else { 4 }
}

proof fn lemma_bytes_before_step(line: Seq<char>, j: int)
    requires
        0 <= j < line.len(),
    ensures
        bytes_before(line, j + 1) == bytes_before(line, j) + encode_scalar(line[j] as u32).len(),
{
    assert(line.take(j + 1) =~= line.take(j) + seq![line[j]]);
    crate::faithful::lemma_encode_concat(line.take(j), seq![line[j]]);
    assert(seq![line[j]].drop_first() =~= Seq::<char>::empty());
    assert(encode_utf8(seq![line[j]]) =~= encode_scalar(line[j] as u32) + encode_utf8(Seq::<char>::empty()));
}

/// A line's length in bytes, or one past `u32::MAX` where it is longer.
fn byte_len_capped(line: &Vec<char>) -> (r: u64)
    ensures
        r as nat == if encode_utf8(line@).len() <= u32::MAX + 1 { encode_utf8(line@).len() } else { (u32::MAX + 1) as nat },
{
    let cap: u64 = u32::MAX as u64 + 1;
    let mut acc: u64 = 0;
    let mut i: usize = 0;
    proof {
        assert(line@.take(0) =~= Seq::<char>::empty());
    }
    while i < line.len()
        invariant
            i <= line.len(),
            cap == u32::MAX + 1,
            acc as nat == if bytes_before(line@, i as int) <= cap { bytes_before(line@, i as int) } else { cap as nat },
        decreases line.len() - i,
    {
        proof {
            lemma_bytes_before_step(line@, i as int);
        }
        let step = char_bytes(line[i]);
        acc = if acc + step > cap { cap } else { acc + step };
        i = i + 1;
    }
    proof {
        assert(line@.take(line.len() as int) =~= line@);
    }
    acc
}

/// The character index at which byte offset `at` stands, if it stands
/// between characters.
fn char_index(line: &Vec<char>, at: u32) -> (r: Option<usize>)
    ensures
        match (r, char_index_of(line@, at as nat, 0)) {
            (None, None) => true,
            (Some(j), Some(k)) => j as int == k,
            _ => false,
        },
{
    let mut acc: u64 = 0;
    let mut j: usize = 0;
    proof {
        assert(line@.take(0) =~= Seq::<char>::empty());
    }
    loop
        invariant
            j <= line.len(),
            acc == bytes_before(line@, j as int),
            acc <= at,
            char_index_of(line@, at as nat, 0) == char_index_of(line@, at as nat, j as int),
        decreases line.len() - j,
    {
        if acc == at as u64 {
            return Some(j);
        }
        if j == line.len() {
            return None;
        }
        proof {
            lemma_bytes_before_step(line@, j as int);
        }
        let step = char_bytes(line[j]);
        acc = acc + step;
        j = j + 1;
        if acc > at as u64 {
            return None;
        }
    }
}

/// An instruction line with a letter outside the vocabulary inserted at a
/// drawn byte offset, or `None` where the offset falls inside a character or
/// one past the line's length overflows.
fn with_a_foreign_instruction(rng: &mut Rng, line: &Vec<char>) -> (r: Option<Vec<char>>)
    ensures
        ({
            let wrong = seq!['X', 'r', 'f', '1'][below_value(old(rng)@, 4) as int];
            let s2 = below_state(old(rng)@, 4);
            match insert_bound(encode_utf8(line@).len()) {
                None => r is None && final(rng)@ == s2,
                Some(bound) => {
                    let at = below_value(s2, bound);
                    &&& final(rng)@ == below_state(s2, bound)
                    &&& match char_index_of(line@, at as nat, 0) {
                        None => r is None,
                        Some(j) => r matches Some(l) && l@ == line@.take(j) + seq![wrong] + line@.skip(j),
                    }
                },
            }
        }),
{
    let letters = ['X', 'r', 'f', '1'];
    let wrong = *rng.pick(letters.as_slice());
    proof {
        assert(letters@ =~= seq!['X', 'r', 'f', '1']);
    }
    let bytes = byte_len_capped(line);
    let bound: u32 = if bytes < u32::MAX as u64 {
        bytes as u32 + 1
    } else if bytes > u32::MAX as u64 {
        1
    } else {
        return None;
    };
    let at = rng.below(bound);
    let j = match char_index(line, at) {
        Some(j) => j,
        None => return None,
    };
    proof {
        assert(char_index_of(line@, at as nat, 0) matches Some(k) && k <= line@.len()) by {
            lemma_char_index_in_range(line@, at as nat, 0);
        }
    }
    Some(inserted(line, j, wrong))
}

proof fn lemma_char_index_in_range(line: Seq<char>, at: nat, j: int)
    ensures
        char_index_of(line, at, j) matches Some(k) ==> 0 <= k <= line.len(),
    decreases line.len() - j,
{
    if 0 <= j && j < line.len() && bytes_before(line, j) < at {
        lemma_char_index_in_range(line, at, j + 1);
    }
}

/// The shape break `choice` names, made on the lines.
fn shape_break_of(rng: &mut Rng, choice: u32, mission: &Mission, lines: &mut Vec<Vec<char>>, robot: usize) -> (r: Option<Broken>)
    requires
        robot < mission.robots.len(),
        2 + 2 * robot < old(lines).len(),
    ensures
        final(lines).len() == old(lines).len(),
        r matches Some(b) ==> b.at <= 2 + 2 * robot,
        ({
            let (spec, after) = shape_break(old(rng)@, choice, mission@, views(old(lines)@), robot as int);
            &&& final(rng)@ == after
            &&& (match (r, spec) {
                (None, None) => true,
                (Some(b), Some((changed, model))) => b@ == model && views(final(lines)@) == changed,
                _ => false,
            })
        }),
{
    let position = 1 + robot * 2;
    let instructions = position + 1;
    let at_hand = &mission.robots[robot];
    let ghost before = views(lines@);
    proof {
        assert(mission@.robots[robot as int] == at_hand@);
        assert(before[position as int] == lines@[position as int]@);
        assert(before[instructions as int] == lines@[instructions as int]@);
    }
    if choice == 0 {
        let mut line: Vec<char> = Vec::new();
        push_all(&mut line, &lines[position]);
        push_str(&mut line, " X");
        set_line(lines, position, line);
        Some(Broken { kind: "an extra token on a position line", at: position, tags: tags_one("R12"), invalidity: Invalidity::Grammar })
    } else if choice == 1 {
        let mut line: Vec<char> = Vec::new();
        push_decimal(&mut line, at_hand.x);
        push_str(&mut line, " ");
        push_decimal(&mut line, at_hand.y);
        set_line(lines, position, line);
        Some(Broken { kind: "a position line with no orientation", at: position, tags: tags_one("R12"), invalidity: Invalidity::Grammar })
    } else if choice == 2 {
        let line = match with_a_foreign_instruction(rng, &lines[instructions]) {
            Some(line) => line,
            None => return None,
        };
        set_line(lines, instructions, line);
        Some(Broken { kind: "an instruction outside the vocabulary", at: instructions, tags: tags_two("R7", "R12"), invalidity: Invalidity::Semantic })
    } else {
        let foreigners = ['\u{c}', '\u{b}', '\u{a0}', '\u{3000}'];
        let foreign = *rng.pick(foreigners.as_slice());
        proof {
            assert(foreigners@ =~= seq!['\u{c}', '\u{b}', '\u{a0}', '\u{3000}']);
        }
        let mut line: Vec<char> = Vec::new();
        push_decimal(&mut line, at_hand.x);
        line.push(foreign);
        push_decimal(&mut line, at_hand.y);
        push_str(&mut line, " ");
        line.push(at_hand.facing);
        proof {
            assert(line@ =~= decimal(at_hand.x as nat) + seq![foreign] + decimal(at_hand.y as nat) + " "@ + seq![at_hand.facing]);
        }
        set_line(lines, position, line);
        Some(Broken { kind: "a separator the grammar does not have", at: position, tags: tags_three("R4", "R12", "R7"), invalidity: Invalidity::Grammar })
    }
}

/// A break of a line's shape, on the lines of the canonical rendering.
fn break_the_shape(rng: &mut Rng, mission: &Mission, lines: &mut Vec<Vec<char>>, robot: usize) -> (r: Option<Broken>)
    requires
        robot < mission.robots.len(),
        2 + 2 * robot < old(lines).len(),
    ensures
        final(lines).len() == old(lines).len(),
        r matches Some(b) ==> b.at <= 2 + 2 * robot,
        ({
            let (spec, after) = broken_shape(old(rng)@, mission@, views(old(lines)@), robot as int);
            &&& final(rng)@ == after
            &&& (match (r, spec) {
                (None, None) => true,
                (Some(b), Some((changed, model))) => b@ == model && views(final(lines)@) == changed,
                _ => false,
            })
        }),
{
    let choice = rng.below(4);
    shape_break_of(rng, choice, mission, lines, robot)
}

/// Whether a rendering is refused. A mutation that left valid input behind
/// would quietly turn a rejection test into a success test, so a `None` here
/// means the generator is wrong, not the program.
fn check(rendered: &[u8], invalidity: &Invalidity, max_coordinate: u32, max_instructions: u32) -> (r: Option<()>)
    ensures
        r is Some <==> refused(rendered@, *invalidity, max_coordinate, max_instructions),
{
    let read = Mission::read_back(rendered);
    let refused = match invalidity {
        Invalidity::Grammar => read.is_err(),
        Invalidity::Semantic => match read {
            Ok(mission) => !mission.is_valid(max_coordinate, max_instructions),
            Err(_) => true,
        },
    };
    if refused { Some(()) } else { None }
}

fn join_lines(lines: &Vec<Vec<char>>) -> (r: Vec<char>)
    ensures
        r@ == joined(views(lines@)) + "\n"@,
{
    proof {
        reveal_strlit("\n");
    }
    let ghost all = views(lines@);
    let mut text: Vec<char> = Vec::new();
    let mut i: usize = 0;
    while i < lines.len()
        invariant
            i <= lines.len(),
            all == views(lines@),
            text@ == joined(all.take(i as int)),
        decreases lines.len() - i,
    {
        if i > 0 {
            text.push('\n');
        }
        push_all(&mut text, &lines[i]);
        proof {
            reveal_strlit("\n");
            assert(all.take(i + 1).drop_last() =~= all.take(i as int));
            assert(all.take(i + 1).last() == lines@[i as int]@);
            if i == 0 {
                assert(all.take(1) =~= seq![lines@[0]@]);
                assert(text@ =~= joined(all.take(i + 1)));
            } else {
                assert(joined(all.take(i + 1)) == joined(all.take(i + 1).drop_last()) + "\n"@ + all.take(i + 1).last());
                assert(text@ =~= joined(all.take(i + 1)));
            }
        }
        i = i + 1;
    }
    text.push('\n');
    proof {
        assert(all.take(i as int) =~= all);
        assert(text@ =~= joined(all) + "\n"@);
    }
    text
}

fn finish(lines: &Vec<Vec<char>>, broken: Broken, max_coordinate: u32, max_instructions: u32) -> (r: Option<Mutation>)
    requires
        broken.at < lines.len(),
    ensures
        match (r, finished(views(lines@), broken@, max_coordinate, max_instructions)) {
            (None, None) => true,
            (Some(m), Some(model)) => m@ == model,
            _ => false,
        },
{
    let text = join_lines(lines);
    let rendered = bytes_of(&text);
    if check(rendered.as_slice(), &broken.invalidity, max_coordinate, max_instructions).is_none() {
        return None;
    }
    Some(Mutation { kind: broken.kind, rendered, line: broken.at + 1, tags: broken.tags })
}

/// A valid mission broken one way, drawn from the stream: a value past a
/// limit or outside a vocabulary, or a line of the wrong shape; `None` when
/// the mission has no robot, when the break drawn does not apply to it, or
/// when the result would not be refused.
pub fn mutate(rng: &mut Rng, mission: &Mission, max_coordinate: u32, max_instructions: u32) -> (r: Option<Mutation>)
    ensures
        final(rng)@ == mutated(old(rng)@, mission@, max_coordinate, max_instructions).1,
        match (r, mutated(old(rng)@, mission@, max_coordinate, max_instructions).0) {
            (None, None) => true,
            (Some(m), Some(model)) => m@ == model,
            _ => false,
        },
{
    let canonical = mission.canonical();
    proof {
        encode_utf8_valid_utf8(canonical_text(mission@));
        encode_utf8_decode_utf8(canonical_text(mission@));
    }
    let text = match decode(canonical.as_slice()) {
        Ok(text) => text,
        Err(_) => return None,
    };
    let mut lines = lines_chars(&text);
    if mission.robots.len() == 0 {
        return None;
    }
    if mission.robots.len() > u32::MAX as usize {
        return None;
    }
    proof {
        lemma_canonical_lines(mission@);
    }
    let robot = rng.below(mission.robots.len() as u32) as usize;
    let broken = if rng.chance(2) {
        match break_a_value(rng, mission, &mut lines, robot, max_coordinate, max_instructions) {
            Some(broken) => broken,
            None => return None,
        }
    } else {
        match break_the_shape(rng, mission, &mut lines, robot) {
            Some(broken) => broken,
            None => return None,
        }
    };
    finish(&lines, broken, max_coordinate, max_instructions)
}

/// A mutation is never valid input: the mission it renders either does not
/// read, or reads as one the contract's limits refuse.
pub proof fn law_every_mutation_leaves_input_the_contract_refuses(
    state: u64,
    mission: MissionModel,
    max_coordinate: u32,
    max_instructions: u32,
)
    ensures
        mutated(state, mission, max_coordinate, max_instructions).0 matches Some(m) ==> match read_mission(m.rendered) {
            Ok(read) => !mission_valid(read, max_coordinate, max_instructions),
            Err(_) => true,
        },
{
}

/// A value break changes one line: the one it names.
proof fn lemma_value_break_one_line(
    state: u64,
    choice: u32,
    mission: MissionModel,
    lines: Seq<Seq<char>>,
    robot: int,
    max_coordinate: u32,
    max_instructions: u32,
)
    requires
        0 <= robot < mission.robots.len(),
        1 + 2 * mission.robots.len() <= lines.len(),
    ensures
        value_break(state, choice, mission, lines, robot, max_coordinate, max_instructions).0 matches Some((changed, b))
            ==> 0 <= b.at < lines.len() && b.at <= 2 + 2 * robot && changed == lines.update(b.at, changed[b.at]),
{
    match value_break(state, choice, mission, lines, robot, max_coordinate, max_instructions).0 {
        Some((changed, b)) => {
            assert(changed =~= lines.update(b.at, changed[b.at]));
        },
        None => {},
    }
}

/// A shape break changes one line: the one it names.
proof fn lemma_shape_break_one_line(state: u64, choice: u32, mission: MissionModel, lines: Seq<Seq<char>>, robot: int)
    requires
        0 <= robot < mission.robots.len(),
        1 + 2 * mission.robots.len() <= lines.len(),
    ensures
        shape_break(state, choice, mission, lines, robot).0 matches Some((changed, b))
            ==> 0 <= b.at < lines.len() && b.at <= 2 + 2 * robot && changed == lines.update(b.at, changed[b.at]),
{
    match shape_break(state, choice, mission, lines, robot).0 {
        Some((changed, b)) => {
            assert(changed =~= lines.update(b.at, changed[b.at]));
        },
        None => {},
    }
}

/// A finished break renders the lines it was given and names the line it
/// changed.
proof fn lemma_finished_names(lines: Seq<Seq<char>>, changed: Seq<Seq<char>>, b: BrokenModel, max_coordinate: u32, max_instructions: u32)
    requires
        0 <= b.at < lines.len(),
        b.at + 1 <= usize::MAX,
        changed == lines.update(b.at, changed[b.at]),
    ensures
        finished(changed, b, max_coordinate, max_instructions) matches Some(m) ==> {
            &&& 1 <= m.line <= lines.len()
            &&& exists|replacement: Seq<char>|
                m.rendered == encode_utf8(joined(#[trigger] lines.update(m.line - 1, replacement)) + "\n"@)
        },
{
    if finished(changed, b, max_coordinate, max_instructions) is Some {
        let m = finished(changed, b, max_coordinate, max_instructions)->Some_0;
        assert(m.line == b.at + 1);
        assert(lines.update(m.line - 1, changed[b.at]) == changed);
    }
}

/// A mutation changes only the line it names: its rendering is the lines of
/// the mission's canonical rendering with that one line replaced, joined and
/// ended. (The line's number must fit a `usize`, as every line number does.)
#[verifier::spinoff_prover]
pub proof fn law_a_mutation_changes_only_the_line_it_names(
    state: u64,
    mission: MissionModel,
    max_coordinate: u32,
    max_instructions: u32,
)
    requires
        1 + 2 * mission.robots.len() <= usize::MAX,
    ensures
        mutated(state, mission, max_coordinate, max_instructions).0 matches Some(m) ==> {
            let lines = lines_of(canonical_text(mission));
            &&& 1 <= m.line <= lines.len()
            &&& exists|replacement: Seq<char>|
                m.rendered == encode_utf8(joined(#[trigger] lines.update(m.line - 1, replacement)) + "\n"@)
        },
{
    let lines = lines_of(canonical_text(mission));
    let n = mission.robots.len();
    if n > 0 && n <= u32::MAX {
        lemma_canonical_lines(mission);
        let robot = below_value(state, n as u32) as int;
        let s1 = below_state(state, n as u32);
        let s2 = below_state(s1, 2);
        if below_value(s1, 2) == 0 {
            lemma_value_break_one_line(below_state(s2, 5), below_value(s2, 5), mission, lines, robot, max_coordinate, max_instructions);
            let (r, s3) = broken_value(s2, mission, lines, robot, max_coordinate, max_instructions);
            if r is Some {
                let (changed, b) = r->Some_0;
                lemma_finished_names(lines, changed, b, max_coordinate, max_instructions);
                assert(mutated(state, mission, max_coordinate, max_instructions).0 == finished(changed, b, max_coordinate, max_instructions));
            } else {
                assert(mutated(state, mission, max_coordinate, max_instructions).0 is None);
            }
        } else {
            lemma_shape_break_one_line(below_state(s2, 4), below_value(s2, 4), mission, lines, robot);
            let (r, s3) = broken_shape(s2, mission, lines, robot);
            if r is Some {
                let (changed, b) = r->Some_0;
                lemma_finished_names(lines, changed, b, max_coordinate, max_instructions);
                assert(mutated(state, mission, max_coordinate, max_instructions).0 == finished(changed, b, max_coordinate, max_instructions));
            } else {
                assert(mutated(state, mission, max_coordinate, max_instructions).0 is None);
            }
        }
    }
}

/// Whether a break of this kind cites what governs its defect: a limit
/// passed on the grid line cites R5; a robot coordinate past the limit cites
/// R5 and, being off the world as well, R1; a start off the world within the
/// limit cites R1 and not R5; a letter outside a vocabulary cites R7; an
/// instruction string past its limit cites R6; a malformed position line
/// cites R12; a separator the grammar lacks cites R4.
pub open spec fn cites_what_governs(kind: Seq<char>, tags: Seq<Seq<char>>) -> bool {
    &&& kind == "a grid coordinate over the limit"@ ==> tags.contains("R5"@)
    &&& kind == "a robot coordinate over the limit"@ ==> tags.contains("R5"@) && tags.contains("R1"@)
    &&& kind == "a start off the world"@ ==> tags.contains("R1"@) && !tags.contains("R5"@)
    &&& kind == "an orientation outside the vocabulary"@ ==> tags.contains("R7"@)
    &&& kind == "an instruction string over the limit"@ ==> tags.contains("R6"@)
    &&& kind == "an extra token on a position line"@ ==> tags.contains("R12"@)
    &&& kind == "a position line with no orientation"@ ==> tags.contains("R12"@)
    &&& kind == "an instruction outside the vocabulary"@ ==> tags.contains("R7"@)
    &&& kind == "a separator the grammar does not have"@ ==> tags.contains("R4"@)
}

/// The kinds of break, and the tags, are told apart by their text.
proof fn lemma_kinds_and_tags_apart()
    ensures
        "a grid coordinate over the limit"@ != "a robot coordinate over the limit"@,
        "a grid coordinate over the limit"@ != "a start off the world"@,
        "a grid coordinate over the limit"@ != "an orientation outside the vocabulary"@,
        "a grid coordinate over the limit"@ != "an instruction string over the limit"@,
        "a grid coordinate over the limit"@ != "an extra token on a position line"@,
        "a grid coordinate over the limit"@ != "a position line with no orientation"@,
        "a grid coordinate over the limit"@ != "an instruction outside the vocabulary"@,
        "a grid coordinate over the limit"@ != "a separator the grammar does not have"@,
        "a robot coordinate over the limit"@ != "a start off the world"@,
        "a robot coordinate over the limit"@ != "an orientation outside the vocabulary"@,
        "a robot coordinate over the limit"@ != "an instruction string over the limit"@,
        "a robot coordinate over the limit"@ != "an extra token on a position line"@,
        "a robot coordinate over the limit"@ != "a position line with no orientation"@,
        "a robot coordinate over the limit"@ != "an instruction outside the vocabulary"@,
        "a robot coordinate over the limit"@ != "a separator the grammar does not have"@,
        "a start off the world"@ != "an orientation outside the vocabulary"@,
        "a start off the world"@ != "an instruction string over the limit"@,
        "a start off the world"@ != "an extra token on a position line"@,
        "a start off the world"@ != "a position line with no orientation"@,
        "a start off the world"@ != "an instruction outside the vocabulary"@,
        "a start off the world"@ != "a separator the grammar does not have"@,
        "an orientation outside the vocabulary"@ != "an instruction string over the limit"@,
        "an orientation outside the vocabulary"@ != "an extra token on a position line"@,
        "an orientation outside the vocabulary"@ != "a position line with no orientation"@,
        "an orientation outside the vocabulary"@ != "an instruction outside the vocabulary"@,
        "an orientation outside the vocabulary"@ != "a separator the grammar does not have"@,
        "an instruction string over the limit"@ != "an extra token on a position line"@,
        "an instruction string over the limit"@ != "a position line with no orientation"@,
        "an instruction string over the limit"@ != "an instruction outside the vocabulary"@,
        "an instruction string over the limit"@ != "a separator the grammar does not have"@,
        "an extra token on a position line"@ != "a position line with no orientation"@,
        "an extra token on a position line"@ != "an instruction outside the vocabulary"@,
        "an extra token on a position line"@ != "a separator the grammar does not have"@,
        "a position line with no orientation"@ != "an instruction outside the vocabulary"@,
        "a position line with no orientation"@ != "a separator the grammar does not have"@,
        "an instruction outside the vocabulary"@ != "a separator the grammar does not have"@,
        "R1"@ != "R4"@,
        "R1"@ != "R5"@,
        "R1"@ != "R6"@,
        "R1"@ != "R7"@,
        "R1"@ != "R12"@,
        "R4"@ != "R5"@,
        "R4"@ != "R6"@,
        "R4"@ != "R7"@,
        "R4"@ != "R12"@,
        "R5"@ != "R6"@,
        "R5"@ != "R7"@,
        "R5"@ != "R12"@,
        "R6"@ != "R7"@,
        "R6"@ != "R12"@,
        "R7"@ != "R12"@,
{
    reveal_strlit("a grid coordinate over the limit");
    reveal_strlit("a robot coordinate over the limit");
    reveal_strlit("a start off the world");
    reveal_strlit("an orientation outside the vocabulary");
    reveal_strlit("an instruction string over the limit");
    reveal_strlit("an extra token on a position line");
    reveal_strlit("a position line with no orientation");
    reveal_strlit("an instruction outside the vocabulary");
    reveal_strlit("a separator the grammar does not have");
    reveal_strlit("R1");
    reveal_strlit("R4");
    reveal_strlit("R5");
    reveal_strlit("R6");
    reveal_strlit("R7");
    reveal_strlit("R12");
    assert("a grid coordinate over the limit"@[2] != "a robot coordinate over the limit"@[2]);
    assert("a grid coordinate over the limit"@[2] != "a start off the world"@[2]);
    assert("a grid coordinate over the limit"@[1] != "an orientation outside the vocabulary"@[1]);
    assert("a grid coordinate over the limit"@[1] != "an instruction string over the limit"@[1]);
    assert("a grid coordinate over the limit"@[1] != "an extra token on a position line"@[1]);
    assert("a grid coordinate over the limit"@[2] != "a position line with no orientation"@[2]);
    assert("a grid coordinate over the limit"@[1] != "an instruction outside the vocabulary"@[1]);
    assert("a grid coordinate over the limit"@[2] != "a separator the grammar does not have"@[2]);
    assert("a robot coordinate over the limit"@[2] != "a start off the world"@[2]);
    assert("a robot coordinate over the limit"@[1] != "an orientation outside the vocabulary"@[1]);
    assert("a robot coordinate over the limit"@[1] != "an instruction string over the limit"@[1]);
    assert("a robot coordinate over the limit"@[1] != "an extra token on a position line"@[1]);
    assert("a robot coordinate over the limit"@[2] != "a position line with no orientation"@[2]);
    assert("a robot coordinate over the limit"@[1] != "an instruction outside the vocabulary"@[1]);
    assert("a robot coordinate over the limit"@[2] != "a separator the grammar does not have"@[2]);
    assert("a start off the world"@[1] != "an orientation outside the vocabulary"@[1]);
    assert("a start off the world"@[1] != "an instruction string over the limit"@[1]);
    assert("a start off the world"@[1] != "an extra token on a position line"@[1]);
    assert("a start off the world"@[2] != "a position line with no orientation"@[2]);
    assert("a start off the world"@[1] != "an instruction outside the vocabulary"@[1]);
    assert("a start off the world"@[3] != "a separator the grammar does not have"@[3]);
    assert("an orientation outside the vocabulary"@[3] != "an instruction string over the limit"@[3]);
    assert("an orientation outside the vocabulary"@[3] != "an extra token on a position line"@[3]);
    assert("an orientation outside the vocabulary"@[1] != "a position line with no orientation"@[1]);
    assert("an orientation outside the vocabulary"@[3] != "an instruction outside the vocabulary"@[3]);
    assert("an orientation outside the vocabulary"@[1] != "a separator the grammar does not have"@[1]);
    assert("an instruction string over the limit"@[3] != "an extra token on a position line"@[3]);
    assert("an instruction string over the limit"@[1] != "a position line with no orientation"@[1]);
    assert("an instruction string over the limit"@[15] != "an instruction outside the vocabulary"@[15]);
    assert("an instruction string over the limit"@[1] != "a separator the grammar does not have"@[1]);
    assert("an extra token on a position line"@[1] != "a position line with no orientation"@[1]);
    assert("an extra token on a position line"@[3] != "an instruction outside the vocabulary"@[3]);
    assert("an extra token on a position line"@[1] != "a separator the grammar does not have"@[1]);
    assert("a position line with no orientation"@[1] != "an instruction outside the vocabulary"@[1]);
    assert("a position line with no orientation"@[2] != "a separator the grammar does not have"@[2]);
    assert("an instruction outside the vocabulary"@[1] != "a separator the grammar does not have"@[1]);
    assert("R1"@[1] != "R4"@[1]);
    assert("R1"@[1] != "R5"@[1]);
    assert("R1"@[1] != "R6"@[1]);
    assert("R1"@[1] != "R7"@[1]);
    assert("R1"@.len() != "R12"@.len());
    assert("R4"@[1] != "R5"@[1]);
    assert("R4"@[1] != "R6"@[1]);
    assert("R4"@[1] != "R7"@[1]);
    assert("R4"@.len() != "R12"@.len());
    assert("R5"@[1] != "R6"@[1]);
    assert("R5"@[1] != "R7"@[1]);
    assert("R5"@.len() != "R12"@.len());
    assert("R6"@[1] != "R7"@[1]);
    assert("R6"@.len() != "R12"@.len());
    assert("R7"@.len() != "R12"@.len());
}

proof fn lemma_value_break_cites(
    state: u64,
    choice: u32,
    mission: MissionModel,
    lines: Seq<Seq<char>>,
    robot: int,
    max_coordinate: u32,
    max_instructions: u32,
)
    ensures
        value_break(state, choice, mission, lines, robot, max_coordinate, max_instructions).0 matches Some((_, b))
            ==> cites_what_governs(b.kind, b.tags),
{
    lemma_kinds_and_tags_apart();
    let r1 = "R1"@;
    let r5 = "R5"@;
    assert(seq![r5][0] == r5);
    assert(seq![r5, r1][0] == r5 && seq![r5, r1][1] == r1);
    assert(seq![r1][0] == r1);
    assert(!seq![r1].contains(r5));
    assert(seq!["R7"@, "R12"@][0] == "R7"@);
    assert(seq!["R6"@][0] == "R6"@);
}

proof fn lemma_shape_break_cites(state: u64, choice: u32, mission: MissionModel, lines: Seq<Seq<char>>, robot: int)
    ensures
        shape_break(state, choice, mission, lines, robot).0 matches Some((_, b)) ==> cites_what_governs(b.kind, b.tags),
{
    lemma_kinds_and_tags_apart();
    assert(seq!["R12"@][0] == "R12"@);
    assert(seq!["R7"@, "R12"@][0] == "R7"@);
    assert(seq!["R4"@, "R12"@, "R7"@][0] == "R4"@);
}

/// Every mutation cites, among the tags a diagnostic may carry, the ruling
/// that governs the defect it made; a start moved off the world while every
/// coordinate stays within the maximum cites R1, the ruling on starts, and
/// not R5, the ruling on the maximum.
pub proof fn law_a_mutation_cites_the_ruling_that_governs_its_defect(
    state: u64,
    mission: MissionModel,
    max_coordinate: u32,
    max_instructions: u32,
)
    ensures
        mutated(state, mission, max_coordinate, max_instructions).0 matches Some(m) ==> cites_what_governs(m.kind, m.tags),
{
    let lines = lines_of(canonical_text(mission));
    let n = mission.robots.len();
    if n > 0 && n <= u32::MAX {
        let robot = below_value(state, n as u32) as int;
        let s1 = below_state(state, n as u32);
        let s2 = below_state(s1, 2);
        if below_value(s1, 2) == 0 {
            lemma_value_break_cites(below_state(s2, 5), below_value(s2, 5), mission, lines, robot, max_coordinate, max_instructions);
        } else {
            lemma_shape_break_cites(below_state(s2, 4), below_value(s2, 4), mission, lines, robot);
        }
    }
}

} // verus!
