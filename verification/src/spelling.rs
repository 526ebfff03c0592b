//! Ways of writing one mission down, all of which the contract says mean the
//! same thing.
//!
//! The spellings vary line by line rather than once per input, so a single
//! rendering can carry a tab-indented grid line, a double-spaced position line
//! and a trailing-whitespace instruction line at once. A parser that
//! normalises inconsistently passes every hand-written case and fails here.
//!
//! Two shapes are excluded on purpose, and the exclusions are checked on the
//! bytes rather than trusted from the code that emits them: mixing LF and CRLF
//! within one input is Q1, and an unterminated final line of only whitespace
//! is Q4. Both are open questions.

use vstd::prelude::*;
use vstd::utf8::*;

use crate::drawing::{pick_many, picks};
use crate::mission::{canonical_text, robots_text, robot_text, Mission, MissionModel, RobotModel};
use crate::rng::{below_state, below_value, Rng};
use crate::text::{bytes_of, chars_of, decimal, is_blank, is_blank_char, push_all, push_decimal, push_str, string_of};

verus! {

/// The runs of spaces and tabs a separator may be spelled with.
pub const RUNS: [&'static str; 5] = [" ", "  ", "\t", " \t", "\t "];

/// What may stand at either edge of a line.
pub const EDGES: [&'static str; 4] = ["", " ", "\t", "  "];

/// One way of writing missions down.
pub struct Spelling {
    crlf: bool,
    omit_final_eol: bool,
    blanks_before_grid: u32,
    /// Drawn per line, and cycled, so one rendering carries several.
    runs: Vec<&'static str>,
    leading: Vec<&'static str>,
    trailing: Vec<&'static str>,
    zeros: Vec<usize>,
    blanks_after_block: Vec<u32>,
    /// Blank separator lines are sometimes whitespace rather than nothing,
    /// which the contract says is the same thing.
    blank_is_whitespace: bool,
}

pub struct SpellingModel {
    pub crlf: bool,
    pub omit_final_eol: bool,
    pub blanks_before_grid: u32,
    pub runs: Seq<Seq<char>>,
    pub leading: Seq<Seq<char>>,
    pub trailing: Seq<Seq<char>>,
    pub zeros: Seq<usize>,
    pub blanks_after_block: Seq<u32>,
    pub blank_is_whitespace: bool,
}

/// The characters of several string slices.
pub open spec fn str_views(v: Seq<&str>) -> Seq<Seq<char>> {
    v.map_values(|s: &str| s@)
}

impl View for Spelling {
    type V = SpellingModel;

    closed spec fn view(&self) -> SpellingModel {
        SpellingModel {
            crlf: self.crlf,
            omit_final_eol: self.omit_final_eol,
            blanks_before_grid: self.blanks_before_grid,
            runs: str_views(self.runs@),
            leading: str_views(self.leading@),
            trailing: str_views(self.trailing@),
            zeros: self.zeros@,
            blanks_after_block: self.blanks_after_block@,
            blank_is_whitespace: self.blank_is_whitespace,
        }
    }
}

/// Whether every per-line choice has at least one entry to cycle through.
pub open spec fn cycles(sp: SpellingModel) -> bool {
    &&& sp.runs.len() > 0
    &&& sp.leading.len() > 0
    &&& sp.trailing.len() > 0
    &&& sp.zeros.len() > 0
    &&& sp.blanks_after_block.len() > 0
}

impl Spelling {
    #[verifier::type_invariant]
    spec fn every_choice_cycles(self) -> bool {
        &&& self.runs.len() > 0
        &&& self.leading.len() > 0
        &&& self.trailing.len() > 0
        &&& self.zeros.len() > 0
        &&& self.blanks_after_block.len() > 0
    }
}

/// The spelling with nothing optional in it.
pub open spec fn plain_model() -> SpellingModel {
    SpellingModel {
        crlf: false,
        omit_final_eol: false,
        blanks_before_grid: 0,
        runs: seq![" "@],
        leading: seq![""@],
        trailing: seq![""@],
        zeros: seq![0usize],
        blanks_after_block: seq![0u32],
        blank_is_whitespace: false,
    }
}

/// `n` draws below `bound`, one after another.
pub open spec fn belows(state: u64, bound: u32, n: nat) -> (Seq<u32>, u64)
    decreases n,
{
    if n == 0 {
        (seq![], state)
    } else {
        let (done, at) = belows(state, bound, (n - 1) as nat);
        (done.push(below_value(at, bound)), below_state(at, bound))
    }
}

/// A spelling drawn from the stream, its choices in the order they are made.
pub open spec fn drawn_spelling(state: u64) -> (SpellingModel, u64) {
    let crlf = below_value(state, 2) == 0;
    let s1 = below_state(state, 2);
    let omit_final_eol = below_value(s1, 3) == 0;
    let s2 = below_state(s1, 3);
    let blanks_before_grid = below_value(s2, 3);
    let s3 = below_state(s2, 3);
    let (runs, s4) = picks(s3, RUNS@, 4);
    let (leading, s5) = picks(s4, EDGES@, 4);
    let (trailing, s6) = picks(s5, EDGES@, 4);
    let (zeros, s7) = belows(s6, 3, 4);
    let (blanks_after_block, s8) = belows(s7, 3, 4);
    let blank_is_whitespace = below_value(s8, 2) == 0;
    let s9 = below_state(s8, 2);
    (SpellingModel {
        crlf,
        omit_final_eol,
        blanks_before_grid,
        runs: str_views(runs),
        leading: str_views(leading),
        trailing: str_views(trailing),
        zeros: zeros.map_values(|z: u32| z as usize),
        blanks_after_block,
        blank_is_whitespace,
    }, s9)
}

/// `n` copies of one character.
pub open spec fn repeated(c: char, n: nat) -> Seq<char>
    decreases n,
{
    if n == 0 { seq![] } else { repeated(c, (n - 1) as nat).push(c) }
}

/// The separator run for a line.
pub open spec fn run_of(sp: SpellingModel, line: nat) -> Seq<char> {
    sp.runs[(line % sp.runs.len()) as int]
}

/// A number as a line spells it: with the line's leading zeros.
pub open spec fn number_text(sp: SpellingModel, line: nat, value: u32) -> Seq<char> {
    repeated('0', sp.zeros[(line % sp.zeros.len()) as int] as nat) + decimal(value as nat)
}

/// A line's content between its leading and trailing edges.
pub open spec fn wrapped(sp: SpellingModel, line: nat, content: Seq<char>) -> Seq<char> {
    sp.leading[(line % sp.leading.len()) as int] + content + sp.trailing[(line % sp.trailing.len()) as int]
}

pub open spec fn grid_line(sp: SpellingModel, mission: MissionModel) -> Seq<char> {
    wrapped(sp, 0, number_text(sp, 0, mission.max_x) + run_of(sp, 0) + number_text(sp, 0, mission.max_y))
}

pub open spec fn position_line(sp: SpellingModel, robot: RobotModel, line: nat) -> Seq<char> {
    wrapped(
        sp,
        line,
        number_text(sp, line, robot.x) + run_of(sp, line) + number_text(sp, line, robot.y) + run_of(sp, line)
            + seq![robot.facing],
    )
}

pub open spec fn instruction_line(sp: SpellingModel, robot: RobotModel, line: nat) -> Seq<char> {
    wrapped(sp, line, robot.steps)
}

/// A blank line as this spelling writes it.
pub open spec fn blank_line(sp: SpellingModel) -> Seq<char> {
    if sp.blank_is_whitespace { "  "@ } else { seq![] }
}

pub open spec fn blank_lines(sp: SpellingModel, n: nat) -> Seq<Seq<char>>
    decreases n,
{
    if n == 0 { seq![] } else { blank_lines(sp, (n - 1) as nat).push(blank_line(sp)) }
}

/// The lines of robot `index`, and the blanks after it unless it is the last.
pub open spec fn block(sp: SpellingModel, robot: RobotModel, index: nat, more: bool) -> Seq<Seq<char>> {
    seq![position_line(sp, robot, 1 + 2 * index), instruction_line(sp, robot, 2 + 2 * index)]
        + if more { blank_lines(sp, sp.blanks_after_block[(index % sp.blanks_after_block.len()) as int] as nat) } else { seq![] }
}

/// The blocks of the first `n` robots.
pub open spec fn blocks(sp: SpellingModel, robots: Seq<RobotModel>, n: nat) -> Seq<Seq<char>>
    decreases n,
{
    if n == 0 {
        seq![]
    } else {
        blocks(sp, robots, (n - 1) as nat) + block(sp, robots[n - 1], (n - 1) as nat, n < robots.len())
    }
}

/// Every line of a rendering, before line endings.
pub open spec fn spelled_lines(mission: MissionModel, sp: SpellingModel) -> Seq<Seq<char>> {
    blank_lines(sp, sp.blanks_before_grid as nat) + seq![grid_line(sp, mission)]
        + blocks(sp, mission.robots, mission.robots.len())
}

pub open spec fn ending_of(sp: SpellingModel) -> Seq<char> {
    if sp.crlf { "\r\n"@ } else { "\n"@ }
}

/// The first `n` lines, each ended; the final end-of-line is omitted only
/// when the spelling says so and the last line carries more than whitespace.
pub open spec fn terminated(lines: Seq<Seq<char>>, ending: Seq<char>, omit: bool, n: nat) -> Seq<char>
    decreases n,
{
    if n == 0 {
        seq![]
    } else {
        let line = lines[n - 1];
        terminated(lines, ending, omit, (n - 1) as nat) + line
            + if n == lines.len() && omit && !is_blank(line) { seq![] } else { ending }
    }
}

/// A mission written down in this spelling.
pub open spec fn rendered_text(mission: MissionModel, sp: SpellingModel) -> Seq<char> {
    let lines = spelled_lines(mission, sp);
    terminated(lines, ending_of(sp), sp.omit_final_eol, lines.len())
}

/// Where a carriage return stands alone, `None`; otherwise whether a CRLF and
/// whether a bare LF occur from `at` on.
pub open spec fn endings_from(bytes: Seq<u8>, at: int) -> Option<(bool, bool)>
    decreases bytes.len() - at,
{
    if at < 0 || at >= bytes.len() {
        Some((false, false))
    } else if bytes[at] == 13 {
        if at + 1 < bytes.len() && bytes[at + 1] == 10 {
            match endings_from(bytes, at + 2) {
                Some((_, lf)) => Some((true, lf)),
                None => None,
            }
        } else {
            None
        }
    } else if bytes[at] == 10 {
        match endings_from(bytes, at + 1) {
            Some((crlf, _)) => Some((crlf, true)),
            None => None,
        }
    } else {
        endings_from(bytes, at + 1)
    }
}

/// The bytes after the last LF, or all of them.
pub open spec fn final_line(bytes: Seq<u8>) -> Seq<u8>
    decreases bytes.len(),
{
    if bytes.len() == 0 {
        bytes
    } else if bytes.last() == 10 {
        seq![]
    } else {
        final_line(bytes.drop_last()).push(bytes.last())
    }
}

/// Whether every byte is a space, a tab or a carriage return.
pub open spec fn only_whitespace(bytes: Seq<u8>) -> bool {
    forall|k: int| 0 <= k < bytes.len() ==> (#[trigger] bytes[k] == 32 || bytes[k] == 9 || bytes[k] == 13)
}

/// What a rendering must never be, judged on its bytes.
pub open spec fn permitted_spec(bytes: Seq<u8>) -> Result<(), Seq<char>> {
    match endings_from(bytes, 0) {
        None => Err("a carriage return that is not part of a line ending"@),
        Some((crlf, lf)) => if crlf && lf {
            Err("LF and CRLF in one input, which is Q1"@)
        } else if !(bytes.len() > 0 && bytes.last() == 10) && only_whitespace(final_line(bytes)) {
            Err("an unterminated final line of only whitespace, which is Q4"@)
        } else {
            Ok(())
        },
    }
}

fn draw_belows(rng: &mut Rng, bound: u32, n: usize) -> (r: Vec<u32>)
    ensures
        r@ == belows(old(rng)@, bound, n as nat).0,
        final(rng)@ == belows(old(rng)@, bound, n as nat).1,
{
    let mut out: Vec<u32> = Vec::new();
    let mut i: usize = 0;
    while i < n
        invariant
            i <= n,
            out@ == belows(old(rng)@, bound, i as nat).0,
            rng@ == belows(old(rng)@, bound, i as nat).1,
        decreases n - i,
    {
        let v = rng.below(bound);
        out.push(v);
        i = i + 1;
    }
    out
}

impl Spelling {
    /// The spelling with nothing optional in it.
    pub fn plain() -> (r: Self)
        ensures
            r@ == plain_model(),
    {
        let r = Spelling {
            crlf: false,
            omit_final_eol: false,
            blanks_before_grid: 0,
            runs: vec![" "],
            leading: vec![""],
            trailing: vec![""],
            zeros: vec![0],
            blanks_after_block: vec![0],
            blank_is_whitespace: false,
        };
        proof {
            assert(str_views(r.runs@) =~= seq![" "@]);
            assert(str_views(r.leading@) =~= seq![""@]);
            assert(str_views(r.trailing@) =~= seq![""@]);
            assert(r.zeros@ =~= seq![0usize]);
            assert(r.blanks_after_block@ =~= seq![0u32]);
        }
        r
    }

    /// A spelling drawn from the stream.
    pub fn draw(rng: &mut Rng) -> (r: Self)
        ensures
            r@ == drawn_spelling(old(rng)@).0,
            final(rng)@ == drawn_spelling(old(rng)@).1,
    {
        let crlf = rng.chance(2);
        let omit_final_eol = rng.chance(3);
        let blanks_before_grid = rng.below(3);
        let runs = pick_many(rng, RUNS.as_slice(), 4);
        let leading = pick_many(rng, EDGES.as_slice(), 4);
        let trailing = pick_many(rng, EDGES.as_slice(), 4);
        let drawn_zeros = draw_belows(rng, 3, 4);
        let mut zeros: Vec<usize> = Vec::new();
        let mut i: usize = 0;
        while i < drawn_zeros.len()
            invariant
                i <= drawn_zeros.len(),
                zeros@ == drawn_zeros@.take(i as int).map_values(|z: u32| z as usize),
            decreases drawn_zeros.len() - i,
        {
            zeros.push(drawn_zeros[i] as usize);
            i = i + 1;
            proof {
                assert(zeros@ =~= drawn_zeros@.take(i as int).map_values(|z: u32| z as usize));
            }
        }
        proof {
            assert(drawn_zeros@.take(i as int) =~= drawn_zeros@);
        }
        let blanks_after_block = draw_belows(rng, 3, 4);
        let blank_is_whitespace = rng.chance(2);
        Spelling {
            crlf,
            omit_final_eol,
            blanks_before_grid,
            runs,
            leading,
            trailing,
            zeros,
            blanks_after_block,
            blank_is_whitespace,
        }
    }

    fn run(&self, line: usize) -> (r: &'static str)
        ensures
            r@ == run_of(self@, line as nat),
    {
        proof {
            use_type_invariant(self);
        }
        self.runs[line % self.runs.len()]
    }

    fn push_number(&self, out: &mut Vec<char>, line: usize, value: u32)
        ensures
            final(out)@ == old(out)@ + number_text(self@, line as nat, value),
    {
        proof {
            use_type_invariant(self);
        }
        let zeros = self.zeros[line % self.zeros.len()];
        let ghost start = out@;
        let mut k: usize = 0;
        while k < zeros
            invariant
                k <= zeros,
                out@ == start + repeated('0', k as nat),
            decreases zeros - k,
        {
            out.push('0');
            k = k + 1;
            proof {
                assert(out@ =~= start + repeated('0', k as nat));
            }
        }
        push_decimal(out, value);
        proof {
            assert(final(out)@ =~= old(out)@ + number_text(self@, line as nat, value));
        }
    }

    fn wrap(&self, line: usize, content: &Vec<char>) -> (r: Vec<char>)
        ensures
            r@ == wrapped(self@, line as nat, content@),
    {
        proof {
            use_type_invariant(self);
        }
        let mut out: Vec<char> = Vec::new();
        push_str(&mut out, self.leading[line % self.leading.len()]);
        push_all(&mut out, content);
        push_str(&mut out, self.trailing[line % self.trailing.len()]);
        proof {
            assert(out@ =~= wrapped(self@, line as nat, content@));
        }
        out
    }

    fn blanks_after(&self, index: usize) -> (r: u32)
        ensures
            r == self@.blanks_after_block[(index as nat % self@.blanks_after_block.len()) as int],
    {
        proof {
            use_type_invariant(self);
        }
        self.blanks_after_block[index % self.blanks_after_block.len()]
    }
}

fn push_blanks(lines: &mut Vec<Vec<char>>, spelling: &Spelling, n: u32)
    ensures
        crate::text::views(final(lines)@) == crate::text::views(old(lines)@) + blank_lines(spelling@, n as nat),
{
    let ghost start = crate::text::views(lines@);
    let mut k: u32 = 0;
    while k < n
        invariant
            k <= n,
            crate::text::views(lines@) == start + blank_lines(spelling@, k as nat),
        decreases n - k,
    {
        let blank = if spelling.blank_is_whitespace { chars_of("  ") } else { Vec::new() };
        let ghost before = lines@;
        lines.push(blank);
        k = k + 1;
        proof {
            assert(blank@ == blank_line(spelling@));
            assert(crate::text::views(lines@) =~= crate::text::views(before).push(blank@));
            assert(crate::text::views(lines@) =~= start + blank_lines(spelling@, k as nat));
        }
    }
}

/// Writes a mission down in one of the ways the contract permits.
pub fn render(mission: &Mission, spelling: &Spelling) -> (r: Vec<u8>)
    requires
        2 * mission.robots.len() + 3 <= usize::MAX,
    ensures
        r@ == encode_utf8(rendered_text(mission@, spelling@)),
{
    let mut lines: Vec<Vec<char>> = Vec::new();
    push_blanks(&mut lines, spelling, spelling.blanks_before_grid);
    let mut grid: Vec<char> = Vec::new();
    spelling.push_number(&mut grid, 0, mission.max_x);
    push_str(&mut grid, spelling.run(0));
    spelling.push_number(&mut grid, 0, mission.max_y);
    let grid_line_chars = spelling.wrap(0, &grid);
    let ghost before = lines@;
    lines.push(grid_line_chars);
    proof {
        assert(crate::text::views(lines@) =~= crate::text::views(before).push(grid_line_chars@));
        assert(crate::text::views(lines@) =~= blank_lines(spelling@, spelling@.blanks_before_grid as nat)
            + seq![grid_line(spelling@, mission@)] + blocks(spelling@, mission@.robots, 0));
    }
    let ghost head = blank_lines(spelling@, spelling@.blanks_before_grid as nat) + seq![grid_line(spelling@, mission@)];
    let mut index: usize = 0;
    while index < mission.robots.len()
        invariant
            index <= mission.robots.len(),
            2 * mission.robots.len() + 3 <= usize::MAX,
            crate::text::views(lines@) == head + blocks(spelling@, mission@.robots, index as nat),
        decreases mission.robots.len() - index,
    {
        let robot = &mission.robots[index];
        proof {
            assert(mission@.robots[index as int] == robot@);
        }
        let at = 1 + 2 * index;
        let mut position: Vec<char> = Vec::new();
        spelling.push_number(&mut position, at, robot.x);
        push_str(&mut position, spelling.run(at));
        spelling.push_number(&mut position, at, robot.y);
        push_str(&mut position, spelling.run(at));
        position.push(robot.facing);
        let position_chars = spelling.wrap(at, &position);
        let steps = chars_of(robot.instructions.as_str());
        let instruction_chars = spelling.wrap(at + 1, &steps);
        let ghost before = lines@;
        lines.push(position_chars);
        lines.push(instruction_chars);
        proof {
            assert(crate::text::views(lines@) =~= crate::text::views(before).push(position_chars@).push(instruction_chars@));
            assert(position_chars@ =~= position_line(spelling@, robot@, at as nat));
            assert(instruction_chars@ == instruction_line(spelling@, robot@, (at + 1) as nat));
        }
        let ghost with_lines = crate::text::views(lines@);
        if index + 1 < mission.robots.len() {
            let n = spelling.blanks_after(index);
            push_blanks(&mut lines, spelling, n);
        }
        proof {
            let b = block(spelling@, robot@, index as nat, index + 1 < mission.robots.len());
            assert(b =~= seq![position_line(spelling@, robot@, 1 + 2 * (index as nat)), instruction_line(spelling@, robot@, 2 + 2 * (index as nat))]
                + if index + 1 < mission.robots.len() { blank_lines(spelling@, spelling@.blanks_after_block[(index as nat % spelling@.blanks_after_block.len()) as int] as nat) } else { seq![] });
            assert(crate::text::views(lines@) =~= head + blocks(spelling@, mission@.robots, index as nat) + b);
            assert(blocks(spelling@, mission@.robots, (index + 1) as nat) == blocks(spelling@, mission@.robots, index as nat) + b);
        }
        index = index + 1;
    }
    let ghost all = crate::text::views(lines@);
    proof {
        assert(all =~= spelled_lines(mission@, spelling@));
    }
    let ending = if spelling.crlf { chars_of("\r\n") } else { chars_of("\n") };
    let mut text: Vec<char> = Vec::new();
    let mut i: usize = 0;
    while i < lines.len()
        invariant
            i <= lines.len(),
            all == crate::text::views(lines@),
            ending@ == ending_of(spelling@),
            text@ == terminated(all, ending@, spelling@.omit_final_eol, i as nat),
        decreases lines.len() - i,
    {
        push_all(&mut text, &lines[i]);
        let last = i + 1 == lines.len();
        let blank = crate::text::is_blank_line(&lines[i]);
        proof {
            assert(all[i as int] == lines@[i as int]@);
        }
        if !(last && spelling.omit_final_eol && !blank) {
            push_all(&mut text, &ending);
        }
        i = i + 1;
    }
    bytes_of(&text)
}

/// What a rendering must never be, checked on the bytes themselves.
pub fn permitted(rendered: &[u8]) -> (r: Result<(), String>)
    ensures
        r is Ok <==> permitted_spec(rendered@) is Ok,
        r matches Err(why) ==> permitted_spec(rendered@) == Err::<(), Seq<char>>(why@),
{
    let mut crlf = false;
    let mut lf = false;
    let mut index: usize = 0;
    while index < rendered.len()
        invariant
            index <= rendered@.len(),
            endings_from(rendered@, 0) == (match endings_from(rendered@, index as int) {
                None => None,
                Some((c, l)) => Some((crlf || c, lf || l)),
            }),
        decreases rendered@.len() - index,
    {
        if rendered[index] == 13 {
            if !(index + 1 < rendered.len() && rendered[index + 1] == 10) {
                return Err(string_of(&chars_of("a carriage return that is not part of a line ending")));
            }
            crlf = true;
            index = index + 2;
        } else if rendered[index] == 10 {
            lf = true;
            index = index + 1;
        } else {
            index = index + 1;
        }
    }
    if crlf && lf {
        return Err(string_of(&chars_of("LF and CRLF in one input, which is Q1")));
    }
    let n = rendered.len();
    let ends_with_a_line_ending = n > 0 && rendered[n - 1] == 10;
    if !ends_with_a_line_ending {
        let mut start = n;
        proof {
            assert(rendered@.take(n as int) =~= rendered@);
            assert(final_line(rendered@) + rendered@.skip(n as int) =~= final_line(rendered@));
        }
        while start > 0 && rendered[start - 1] != 10
            invariant
                start <= n == rendered@.len(),
                final_line(rendered@) == final_line(rendered@.take(start as int)) + rendered@.skip(start as int),
            decreases start,
        {
            proof {
                assert(rendered@.take(start as int).drop_last() =~= rendered@.take(start - 1));
                assert(rendered@.take(start as int).last() == rendered@[start - 1]);
                assert(rendered@.skip(start - 1) =~= seq![rendered@[start - 1]] + rendered@.skip(start as int));
                assert(final_line(rendered@.take(start as int)) + rendered@.skip(start as int)
                    =~= final_line(rendered@.take(start - 1)) + rendered@.skip(start - 1));
            }
            start = start - 1;
        }
        proof {
            if start > 0 {
                assert(rendered@.take(start as int).last() == rendered@[start - 1]);
            }
            assert(final_line(rendered@.take(start as int)) =~= Seq::<u8>::empty());
        }
        let mut k = start;
        let mut all_space = true;
        while k < n
            invariant
                start <= k <= n == rendered@.len(),
                all_space == (forall|j: int| start <= j < k ==> (#[trigger] rendered@[j] == 32 || rendered@[j] == 9 || rendered@[j] == 13)),
            decreases n - k,
        {
            let b = rendered[k];
            if !(b == 32 || b == 9 || b == 13) {
                all_space = false;
            }
            k = k + 1;
        }
        proof {
            let tail = final_line(rendered@);
            assert(tail =~= rendered@.skip(start as int));
            if all_space {
                assert forall|j: int| 0 <= j < tail.len() implies (#[trigger] tail[j] == 32 || tail[j] == 9 || tail[j] == 13) by {
                    assert(tail[j] == rendered@[start + j]);
                }
            } else {
                let j = choose|j: int| start <= j < n && !(rendered@[j] == 32 || rendered@[j] == 9 || rendered@[j] == 13);
                assert(tail[j - start] == rendered@[j]);
            }
        }
        if all_space {
            return Err(string_of(&chars_of("an unterminated final line of only whitespace, which is Q4")));
        }
    }
    Ok(())
}

/// Lines each followed by an ending.
pub open spec fn ended(lines: Seq<Seq<char>>, ending: Seq<char>) -> Seq<char>
    decreases lines.len(),
{
    if lines.len() == 0 { seq![] } else { ended(lines.drop_last(), ending) + lines.last() + ending }
}

/// The plain lines of some robots: a position line and an instruction line
/// each.
pub open spec fn plain_pairs(robots: Seq<RobotModel>) -> Seq<Seq<char>>
    decreases robots.len(),
{
    if robots.len() == 0 {
        seq![]
    } else {
        let r = robots.last();
        plain_pairs(robots.drop_last()) + seq![
            decimal(r.x as nat) + seq![' '] + decimal(r.y as nat) + seq![' ', r.facing],
            r.steps,
        ]
    }
}

proof fn lemma_terminated_without_omission(lines: Seq<Seq<char>>, ending: Seq<char>, n: nat)
    requires
        n <= lines.len(),
    ensures
        terminated(lines, ending, false, n) == ended(lines.take(n as int), ending),
    decreases n,
{
    if n > 0 {
        lemma_terminated_without_omission(lines, ending, (n - 1) as nat);
        assert(lines.take(n as int).drop_last() =~= lines.take(n - 1));
        assert(lines.take(n as int).last() == lines[n - 1]);
    } else {
        assert(lines.take(0) =~= Seq::<Seq<char>>::empty());
    }
}

proof fn lemma_plain_blocks(robots: Seq<RobotModel>, n: nat)
    requires
        n <= robots.len(),
    ensures
        blocks(plain_model(), robots, n) == plain_pairs(robots.take(n as int)),
    decreases n,
{
    reveal_strlit(" ");
    reveal_strlit("");
    if n > 0 {
        lemma_plain_blocks(robots, (n - 1) as nat);
        let sp = plain_model();
        let r = robots[n - 1];
        assert(robots.take(n as int).drop_last() =~= robots.take(n - 1));
        assert(robots.take(n as int).last() == r);
        assert(repeated('0', 0) =~= Seq::<char>::empty());
        assert(number_text(sp, (1 + 2 * (n - 1)) as nat, r.x) =~= decimal(r.x as nat));
        assert(number_text(sp, (1 + 2 * (n - 1)) as nat, r.y) =~= decimal(r.y as nat));
        assert(run_of(sp, (1 + 2 * (n - 1)) as nat) == seq![' ']);
        assert(position_line(sp, r, (1 + 2 * (n - 1)) as nat) =~= decimal(r.x as nat) + seq![' '] + decimal(r.y as nat) + seq![' ', r.facing]);
        assert(instruction_line(sp, r, (2 + 2 * (n - 1)) as nat) =~= r.steps);
        assert(blank_lines(sp, 0) =~= Seq::<Seq<char>>::empty());
        assert(block(sp, r, (n - 1) as nat, n < robots.len()) =~= seq![
            decimal(r.x as nat) + seq![' '] + decimal(r.y as nat) + seq![' ', r.facing],
            r.steps,
        ]);
    } else {
        assert(robots.take(0) =~= Seq::<RobotModel>::empty());
    }
}

proof fn lemma_plain_text(grid: Seq<char>, robots: Seq<RobotModel>)
    ensures
        ended(seq![grid] + plain_pairs(robots), "\n"@) == grid + "\n"@ + robots_text(robots),
    decreases robots.len(),
{
    reveal_strlit("\n");
    if robots.len() == 0 {
        assert(seq![grid] + plain_pairs(robots) =~= seq![grid]);
        assert(seq![grid].drop_last() =~= Seq::<Seq<char>>::empty());
        assert(seq![grid].last() == grid);
        assert(ended(Seq::<Seq<char>>::empty(), "\n"@) == Seq::<char>::empty());
        assert(robots_text(robots) == Seq::<char>::empty());
        assert(ended(seq![grid], "\n"@) =~= grid + "\n"@ + robots_text(robots));
    } else {
        let r = robots.last();
        let pos = decimal(r.x as nat) + seq![' '] + decimal(r.y as nat) + seq![' ', r.facing];
        let before = seq![grid] + plain_pairs(robots.drop_last());
        let all = seq![grid] + plain_pairs(robots);
        assert(all =~= before.push(pos).push(r.steps));
        assert(all.drop_last() =~= before.push(pos));
        assert(before.push(pos).drop_last() =~= before);
        lemma_plain_text(grid, robots.drop_last());
        assert(all.last() == r.steps);
        assert(all.drop_last().last() == pos);
        assert(ended(all, "\n"@) == ended(all.drop_last(), "\n"@) + r.steps + "\n"@);
        assert(ended(all.drop_last(), "\n"@) == ended(before, "\n"@) + pos + "\n"@);
        assert(ended(all, "\n"@) =~= ended(before, "\n"@) + pos + "\n"@ + r.steps + "\n"@);
        assert(robots_text(robots) == robots_text(robots.drop_last()) + robot_text(r));
        assert("\n"@ =~= seq!['\n']);
        assert(robot_text(r) =~= pos + "\n"@ + r.steps + "\n"@);
        assert(ended(all, "\n"@) =~= grid + "\n"@ + robots_text(robots));
    }
}

/// The spelling with nothing optional in it writes a mission exactly as
/// `Mission::canonical` does.
pub proof fn law_the_plain_spelling_is_the_canonical_one(mission: MissionModel)
    ensures
        rendered_text(mission, plain_model()) == canonical_text(mission),
{
    reveal_strlit(" ");
    reveal_strlit("");
    reveal_strlit("\n");
    let sp = plain_model();
    let lines = spelled_lines(mission, sp);
    lemma_plain_blocks(mission.robots, mission.robots.len());
    assert(mission.robots.take(mission.robots.len() as int) =~= mission.robots);
    assert(blank_lines(sp, 0) =~= Seq::<Seq<char>>::empty());
    assert(repeated('0', 0) =~= Seq::<char>::empty());
    let grid = decimal(mission.max_x as nat) + seq![' '] + decimal(mission.max_y as nat);
    assert(grid_line(sp, mission) =~= grid);
    assert(lines =~= seq![grid] + plain_pairs(mission.robots));
    lemma_terminated_without_omission(lines, "\n"@, lines.len());
    assert(lines.take(lines.len() as int) =~= lines);
    lemma_plain_text(grid, mission.robots);
    assert(grid + "\n"@ + robots_text(mission.robots) =~= canonical_text(mission));
}

} // verus!
