//! Why the generators' checks on their own output never fire: every spelling
//! the contract admits keeps to one kind of line ending and never leaves a
//! final line of only whitespace unterminated, and every mission the
//! generator draws, written down any of those ways, reads back as itself.

use vstd::prelude::*;
use vstd::utf8::*;

use crate::drawing::{drawn_mission, drawn_robot, drawn_robots, drawn_world, picks};
use crate::grammar::GrammarModel;
use crate::mission::{read_mission, canonical_text, robot_text, robots_text, MissionModel, RobotModel};
use crate::modes::DivergenceModel;
use crate::modes::rendering_fault;
use crate::reading::{
    all_blank, law_every_drawn_spelling_is_legal, law_every_legal_spelling_says_the_same_mission, lemma_blank_line,
    lemma_blank_lines, lemma_block_shape, lemma_decimal, lemma_picks_from_pool, legal_spelling, plain_mission,
    plain_robot,
};
use crate::rng::{below_state, below_value, pick_bound};
use crate::spelling::{
    blank_line, blank_lines, block, blocks, ending_of, endings_from, final_line, grid_line, instruction_line,
    number_text, only_whitespace, permitted_spec, position_line, rendered_text, repeated, run_of, spelled_lines,
    terminated, wrapped, drawn_spelling, SpellingModel,
};
use crate::text::{decimal, digit_char, is_blank, is_blank_char, lines_of, split, strip_cr};

verus! {

/// Whether a text holds no part of a line ending.
pub open spec fn eol_free(s: Seq<char>) -> bool {
    forall|i: int| 0 <= i < s.len() ==> #[trigger] s[i] != '\n' && s[i] != '\r'
}

/// Whether bytes hold neither an LF nor a CR.
pub open spec fn no_eol_bytes(b: Seq<u8>) -> bool {
    forall|k: int| 0 <= k < b.len() ==> #[trigger] b[k] != 10 && b[k] != 13
}

/// What one character's bytes are like: a line ending's characters are their
/// own single bytes, no other character yields an LF or a CR byte, and a
/// character that is neither a blank nor a CR does not begin with one.
pub(crate) proof fn lemma_scalar_bytes(c: char)
    ensures
        encode_scalar(c as u32).len() > 0,
        c != '\n' && c != '\r' ==> no_eol_bytes(encode_scalar(c as u32)),
        c != ' ' && c != '\t' && c != '\r' ==> {
            let b = encode_scalar(c as u32)[0];
            b != 32 && b != 9 && b != 13
        },
        c == '\n' ==> encode_scalar(c as u32) == seq![10u8],
        c == '\r' ==> encode_scalar(c as u32) == seq![13u8],
{
    char_is_scalar(c);
    let s = c as u32;
    let e = encode_scalar(s);
    if has_width_1_encoding(s) {
        assert(has_width_1_encoding(s) ==> leading_byte_width_1(s) as u32 == s) by (bit_vector);
        assert(e == seq![leading_byte_width_1(s)]);
    } else if has_width_2_encoding(s) {
        assert(has_width_2_encoding(s) ==> leading_byte_width_2(s) >= 0xC0 && last_continuation_byte(s) >= 0x80)
            by (bit_vector);
    } else if has_width_3_encoding(s) {
        assert(has_width_3_encoding(s) ==> leading_byte_width_3(s) >= 0xE0 && second_last_continuation_byte(s) >= 0x80
            && last_continuation_byte(s) >= 0x80) by (bit_vector);
    } else {
        assert(has_width_4_encoding(s) ==> leading_byte_width_4(s) >= 0xF0 && third_last_continuation_byte(s) >= 0x80
            && second_last_continuation_byte(s) >= 0x80 && last_continuation_byte(s) >= 0x80) by (bit_vector);
    }
}

/// Encoding is taken piece by piece.
pub proof fn lemma_encode_concat(a: Seq<char>, b: Seq<char>)
    ensures
        encode_utf8(a + b) == encode_utf8(a) + encode_utf8(b),
    decreases a.len(),
{
    if a.len() == 0 {
        assert(a + b =~= b);
        assert(encode_utf8(a) =~= Seq::<u8>::empty());
        assert(encode_utf8(a) + encode_utf8(b) =~= encode_utf8(b));
    } else {
        lemma_encode_concat(a.drop_first(), b);
        assert((a + b).drop_first() =~= a.drop_first() + b);
        assert((a + b)[0] == a[0]);
        assert(encode_utf8(a + b) =~= encode_scalar(a[0] as u32) + (encode_utf8(a.drop_first()) + encode_utf8(b)));
    }
}

/// A text with no line ending in it encodes to bytes with none.
proof fn lemma_encode_eol_free(s: Seq<char>)
    requires
        eol_free(s),
    ensures
        no_eol_bytes(encode_utf8(s)),
    decreases s.len(),
{
    if s.len() > 0 {
        assert(s[0] != '\n' && s[0] != '\r');
        lemma_scalar_bytes(s[0]);
        assert(eol_free(s.drop_first())) by {
            assert forall|i: int| 0 <= i < s.drop_first().len() implies #[trigger] s.drop_first()[i] != '\n'
                && s.drop_first()[i] != '\r' by {
                assert(s.drop_first()[i] == s[i + 1]);
            }
        }
        lemma_encode_eol_free(s.drop_first());
        let h = encode_scalar(s[0] as u32);
        let t = encode_utf8(s.drop_first());
        let e = encode_utf8(s);
        assert(e == h + t);
        assert forall|k: int| 0 <= k < e.len() implies #[trigger] e[k] != 10 && e[k] != 13 by {
            if k < h.len() {
                assert(e[k] == h[k]);
            } else {
                assert(e[k] == t[k - h.len()]);
            }
        }
    }
}

/// What two scans of line endings say together.
pub open spec fn merged(p: Option<(bool, bool)>, q: Option<(bool, bool)>) -> Option<(bool, bool)> {
    match p {
        None => None,
        Some((a, b)) => match q {
            None => None,
            Some((c, d)) => Some((a || c, b || d)),
        },
    }
}

/// Scanning past a prefix scans the rest as it stands alone.
proof fn lemma_endings_shift(x: Seq<u8>, y: Seq<u8>, j: int)
    requires
        0 <= j <= y.len(),
    ensures
        endings_from(x + y, x.len() + j) == endings_from(y, j),
    decreases y.len() - j,
{
    let xy = x + y;
    let at = x.len() + j;
    if j < y.len() {
        assert(xy[at] == y[j]);
        if y[j] == 13 {
            if j + 1 < y.len() {
                assert(xy[at + 1] == y[j + 1]);
                if y[j + 1] == 10 {
                    lemma_endings_shift(x, y, j + 2);
                }
            }
        } else {
            lemma_endings_shift(x, y, j + 1);
        }
    }
}

/// A scan of two pieces is the scans of each, when the first does not end
/// in the middle of a CRLF.
proof fn lemma_endings_concat(x: Seq<u8>, y: Seq<u8>, at: int)
    requires
        0 <= at <= x.len(),
        x.len() == 0 || x.last() != 13,
    ensures
        endings_from(x + y, at) == merged(endings_from(x, at), endings_from(y, 0)),
    decreases x.len() - at,
{
    let xy = x + y;
    if at == x.len() {
        lemma_endings_shift(x, y, 0);
    } else {
        assert(xy[at] == x[at]);
        if x[at] == 13 {
            assert(at + 1 < x.len());
            assert(xy[at + 1] == x[at + 1]);
            if x[at + 1] == 10 {
                lemma_endings_concat(x, y, at + 2);
            }
        } else {
            lemma_endings_concat(x, y, at + 1);
        }
    }
}

/// Bytes with neither an LF nor a CR have no line ending to report.
proof fn lemma_endings_plain(b: Seq<u8>, at: int)
    requires
        no_eol_bytes(b),
        0 <= at,
    ensures
        endings_from(b, at) == Some((false, false)),
    decreases b.len() - at,
{
    if at < b.len() {
        assert(b[at] != 10 && b[at] != 13);
        lemma_endings_plain(b, at + 1);
    }
}

/// The bytes of the two line endings.
proof fn lemma_ending_bytes()
    ensures
        encode_utf8("\n"@) == seq![10u8],
        encode_utf8("\r\n"@) == seq![13u8, 10u8],
        endings_from(seq![10u8], 0) == Some((false, true)),
        endings_from(seq![13u8, 10u8], 0) == Some((true, false)),
{
    reveal_strlit("\n");
    reveal_strlit("\r\n");
    lemma_scalar_bytes('\n');
    lemma_scalar_bytes('\r');
    let lf = "\n"@;
    assert(lf =~= seq!['\n']);
    assert(lf.drop_first() =~= Seq::<char>::empty());
    assert(encode_utf8(lf.drop_first()) == Seq::<u8>::empty());
    assert(encode_utf8(lf) == encode_scalar(lf[0] as u32) + encode_utf8(lf.drop_first()));
    assert(encode_utf8(lf) =~= seq![10u8]);
    let crlf = "\r\n"@;
    assert(crlf =~= seq!['\r', '\n']);
    assert(crlf.drop_first() =~= lf);
    assert(encode_utf8(crlf) == encode_scalar(crlf[0] as u32) + encode_utf8(crlf.drop_first()));
    assert(encode_utf8(crlf) =~= seq![13u8, 10u8]);
    assert(endings_from(seq![10u8], 1) == Some((false, false)));
    assert(endings_from(seq![13u8, 10u8], 2) == Some((false, false)));
}

/// Whether a scan found at most the one kind of line ending a text is meant
/// to have.
pub open spec fn one_kind(scan: Option<(bool, bool)>, crlf: bool) -> bool {
    scan matches Some((c, l)) && (crlf ==> !l) && (!crlf ==> !c)
}

/// Lines without line endings in them, each ended the same way, scan as
/// having that one kind of ending; every prefix that is not the whole ends
/// in an LF or is empty.
proof fn lemma_terminated_endings(lines: Seq<Seq<char>>, ending: Seq<char>, omit: bool, n: nat)
    requires
        ending == "\n"@ || ending == "\r\n"@,
        n <= lines.len(),
        forall|i: int| 0 <= i < lines.len() ==> eol_free(#[trigger] lines[i]),
    ensures
        ({
            let b = encode_utf8(terminated(lines, ending, omit, n));
            &&& one_kind(endings_from(b, 0), ending == "\r\n"@)
            &&& n < lines.len() ==> b.len() == 0 || b.last() == 10
        }),
    decreases n,
{
    lemma_ending_bytes();
    let crlf = ending == "\r\n"@;
    if n == 0 {
        assert(encode_utf8(Seq::<char>::empty()) =~= Seq::<u8>::empty());
        assert(endings_from(Seq::<u8>::empty(), 0) == Some((false, false)));
    } else {
        lemma_terminated_endings(lines, ending, omit, (n - 1) as nat);
        let before = terminated(lines, ending, omit, (n - 1) as nat);
        let line = lines[n - 1];
        let tail = if n == lines.len() && omit && !is_blank(line) { Seq::<char>::empty() } else { ending };
        assert(terminated(lines, ending, omit, n) == before + line + tail);
        lemma_encode_concat(before + line, tail);
        lemma_encode_concat(before, line);
        let eb = encode_utf8(before);
        let el = encode_utf8(line);
        let et = encode_utf8(tail);
        assert(encode_utf8(terminated(lines, ending, omit, n)) == eb + el + et);
        assert(eb + el + et =~= eb + (el + et));
        lemma_encode_eol_free(line);
        lemma_endings_plain(el, 0);
        if el.len() > 0 {
            assert(el.last() == el[el.len() - 1]);
        }
        lemma_endings_concat(el, et, 0);
        lemma_endings_concat(eb, el + et, 0);
        if tail.len() == 0 {
            assert(et =~= Seq::<u8>::empty());
            assert(endings_from(et, 0) == Some((false, false)));
        }
        if et.len() > 0 {
            assert((eb + (el + et)).last() == et.last());
        }
    }
}

/// The last line of bytes that end in an LF, or of nothing, is what follows.
proof fn lemma_final_line_after(x: Seq<u8>, y: Seq<u8>)
    requires
        x.len() == 0 || x.last() == 10,
        no_eol_bytes(y),
    ensures
        final_line(x + y) == y,
    decreases y.len(),
{
    if y.len() == 0 {
        assert(x + y =~= x);
    } else {
        assert(y[y.len() - 1] != 10);
        assert((x + y).last() == y.last());
        assert((x + y).drop_last() =~= x + y.drop_last());
        assert(no_eol_bytes(y.drop_last())) by {
            assert forall|k: int| 0 <= k < y.drop_last().len() implies #[trigger] y.drop_last()[k] != 10
                && y.drop_last()[k] != 13 by {
                assert(y.drop_last()[k] == y[k]);
            }
        }
        lemma_final_line_after(x, y.drop_last());
        assert(y.drop_last().push(y.last()) =~= y);
    }
}

/// A line that is not all blanks, and holds no line ending, does not encode
/// to whitespace alone.
proof fn lemma_not_only_whitespace(line: Seq<char>)
    requires
        eol_free(line),
        !is_blank(line),
    ensures
        !only_whitespace(encode_utf8(line)),
{
    let i = choose|i: int| 0 <= i < line.len() && !is_blank_char(#[trigger] line[i]);
    let c = line[i];
    assert(c != '\r');
    lemma_scalar_bytes(c);
    let front = line.take(i);
    let back = line.skip(i);
    assert(line =~= front + back);
    lemma_encode_concat(front, back);
    assert(back[0] == c);
    assert(encode_utf8(back) == encode_scalar(c as u32) + encode_utf8(back.drop_first()));
    let e = encode_utf8(line);
    let k = encode_utf8(front).len() as int;
    assert(e[k] == encode_utf8(back)[0]);
    assert(encode_utf8(back)[0] == encode_scalar(c as u32)[0]);
    assert(!(e[k] == 32 || e[k] == 9 || e[k] == 13));
}

/// Lines without line endings in them, ended one way, with the final ending
/// left off only after a line that is not all blanks, are what the contract
/// has decided.
pub proof fn lemma_terminated_permitted(lines: Seq<Seq<char>>, ending: Seq<char>, omit: bool)
    requires
        ending == "\n"@ || ending == "\r\n"@,
        lines.len() > 0,
        forall|i: int| 0 <= i < lines.len() ==> eol_free(#[trigger] lines[i]),
    ensures
        permitted_spec(encode_utf8(terminated(lines, ending, omit, lines.len()))) is Ok,
{
    lemma_ending_bytes();
    let n = lines.len();
    lemma_terminated_endings(lines, ending, omit, n);
    lemma_terminated_endings(lines, ending, omit, (n - 1) as nat);
    let b = encode_utf8(terminated(lines, ending, omit, n));
    let before = terminated(lines, ending, omit, (n - 1) as nat);
    let line = lines[n - 1];
    if omit && !is_blank(line) {
        assert(terminated(lines, ending, omit, n) =~= before + line);
        lemma_encode_concat(before, line);
        lemma_encode_eol_free(line);
        lemma_final_line_after(encode_utf8(before), encode_utf8(line));
        lemma_not_only_whitespace(line);
    } else {
        assert(terminated(lines, ending, omit, n) == before + line + ending);
        lemma_encode_concat(before + line, ending);
        assert(b.last() == 10);
    }
}

/// Whether no robot of a mission carries part of a line ending in its facing
/// or its instructions.
pub open spec fn eol_free_mission(mission: MissionModel) -> bool {
    forall|i: int| 0 <= i < mission.robots.len() ==> {
        let r = #[trigger] mission.robots[i];
        r.facing != '\n' && r.facing != '\r' && eol_free(r.steps)
    }
}

proof fn lemma_eol_free_concat(a: Seq<char>, b: Seq<char>)
    requires
        eol_free(a),
        eol_free(b),
    ensures
        eol_free(a + b),
{
    assert forall|i: int| 0 <= i < (a + b).len() implies #[trigger] (a + b)[i] != '\n' && (a + b)[i] != '\r' by {
        if i < a.len() {
            assert((a + b)[i] == a[i]);
        } else {
            assert((a + b)[i] == b[i - a.len()]);
        }
    }
}

proof fn lemma_blank_eol_free(r: Seq<char>)
    requires
        all_blank(r),
    ensures
        eol_free(r),
{
    assert forall|i: int| 0 <= i < r.len() implies #[trigger] r[i] != '\n' && r[i] != '\r' by {
        assert(is_blank_char(r[i]));
    }
}

proof fn lemma_zeros_eol_free(n: nat)
    ensures
        eol_free(repeated('0', n)),
    decreases n,
{
    if n > 0 {
        lemma_zeros_eol_free((n - 1) as nat);
        lemma_eol_free_concat(repeated('0', (n - 1) as nat), seq!['0']);
    }
}

proof fn lemma_number_eol_free(sp: SpellingModel, line: nat, value: u32)
    requires
        legal_spelling(sp),
    ensures
        eol_free(number_text(sp, line, value)),
{
    lemma_zeros_eol_free(sp.zeros[(line % sp.zeros.len()) as int] as nat);
    lemma_decimal(value as nat);
    let d = decimal(value as nat);
    assert forall|i: int| 0 <= i < d.len() implies #[trigger] d[i] != '\n' && d[i] != '\r' by {
        assert(crate::text::is_digit(d[i]));
    }
    lemma_eol_free_concat(repeated('0', sp.zeros[(line % sp.zeros.len()) as int] as nat), d);
}

proof fn lemma_run_eol_free(sp: SpellingModel, line: nat)
    requires
        legal_spelling(sp),
    ensures
        eol_free(run_of(sp, line)),
{
    let k = (line % sp.runs.len()) as int;
    assert(all_blank(sp.runs[k]));
    lemma_blank_eol_free(sp.runs[k]);
}

proof fn lemma_wrapped_eol_free(sp: SpellingModel, line: nat, content: Seq<char>)
    requires
        legal_spelling(sp),
        eol_free(content),
    ensures
        eol_free(wrapped(sp, line, content)),
{
    let lead = sp.leading[(line % sp.leading.len()) as int];
    let trail = sp.trailing[(line % sp.trailing.len()) as int];
    assert(all_blank(lead));
    assert(all_blank(trail));
    lemma_blank_eol_free(lead);
    lemma_blank_eol_free(trail);
    lemma_eol_free_concat(lead, content);
    lemma_eol_free_concat(lead + content, trail);
}

proof fn lemma_robot_lines_eol_free(sp: SpellingModel, robot: RobotModel, line: nat)
    requires
        legal_spelling(sp),
        robot.facing != '\n' && robot.facing != '\r',
        eol_free(robot.steps),
    ensures
        eol_free(position_line(sp, robot, line)),
        eol_free(instruction_line(sp, robot, line)),
{
    lemma_number_eol_free(sp, line, robot.x);
    lemma_number_eol_free(sp, line, robot.y);
    lemma_run_eol_free(sp, line);
    let x = number_text(sp, line, robot.x);
    let y = number_text(sp, line, robot.y);
    let r = run_of(sp, line);
    lemma_eol_free_concat(x, r);
    lemma_eol_free_concat(x + r, y);
    lemma_eol_free_concat(x + r + y, r);
    lemma_eol_free_concat(x + r + y + r, seq![robot.facing]);
    lemma_wrapped_eol_free(sp, line, x + r + y + r + seq![robot.facing]);
    lemma_wrapped_eol_free(sp, line, robot.steps);
}

proof fn lemma_blocks_eol_free(sp: SpellingModel, mission: MissionModel, m: nat)
    requires
        legal_spelling(sp),
        eol_free_mission(mission),
        m <= mission.robots.len(),
    ensures
        forall|j: int| 0 <= j < blocks(sp, mission.robots, m).len() ==> eol_free(#[trigger] blocks(sp, mission.robots, m)[j]),
    decreases m,
{
    let rs = mission.robots;
    if m > 0 {
        lemma_blocks_eol_free(sp, mission, (m - 1) as nat);
        let k = m - 1;
        let r = rs[k];
        lemma_block_shape(sp, rs, k);
        lemma_robot_lines_eol_free(sp, r, (1 + 2 * k) as nat);
        lemma_robot_lines_eol_free(sp, r, (2 + 2 * k) as nat);
        lemma_blank_line(sp);
        lemma_blank_eol_free(blank_line(sp));
        let before = blocks(sp, rs, (m - 1) as nat);
        let b = block(sp, r, k as nat, k + 1 < rs.len());
        assert(blocks(sp, rs, m) == before + b);
        assert forall|j: int| 0 <= j < blocks(sp, rs, m).len() implies eol_free(#[trigger] blocks(sp, rs, m)[j]) by {
            if j < before.len() {
                assert(blocks(sp, rs, m)[j] == before[j]);
            } else {
                assert(blocks(sp, rs, m)[j] == b[j - before.len()]);
            }
        }
    }
}

/// No spelling the contract admits writes a mission into a shape the
/// contract leaves open, as long as no robot's facing or instructions carry
/// part of a line ending: the rendering keeps to one kind of line ending,
/// every carriage return begins a CRLF, and a final line left unterminated
/// always carries more than whitespace.
pub proof fn law_no_legal_spelling_strays_into_an_open_question(mission: MissionModel, sp: SpellingModel)
    requires
        legal_spelling(sp),
        eol_free_mission(mission),
    ensures
        permitted_spec(encode_utf8(rendered_text(mission, sp))) is Ok,
{
    reveal_strlit("\n");
    reveal_strlit("\r\n");
    let lines = spelled_lines(mission, sp);
    let bb = sp.blanks_before_grid as nat;
    let head = blank_lines(sp, bb) + seq![grid_line(sp, mission)];
    let tail = blocks(sp, mission.robots, mission.robots.len());
    assert(lines == head + tail);
    lemma_blank_lines(sp, bb);
    lemma_blank_line(sp);
    lemma_blank_eol_free(blank_line(sp));
    lemma_number_eol_free(sp, 0, mission.max_x);
    lemma_number_eol_free(sp, 0, mission.max_y);
    lemma_run_eol_free(sp, 0);
    let gx = number_text(sp, 0, mission.max_x);
    let gy = number_text(sp, 0, mission.max_y);
    lemma_eol_free_concat(gx, run_of(sp, 0));
    lemma_eol_free_concat(gx + run_of(sp, 0), gy);
    lemma_wrapped_eol_free(sp, 0, gx + run_of(sp, 0) + gy);
    lemma_blocks_eol_free(sp, mission, mission.robots.len());
    assert forall|i: int| 0 <= i < lines.len() implies eol_free(#[trigger] lines[i]) by {
        if i < bb {
            assert(lines[i] == blank_lines(sp, bb)[i]);
        } else if i == bb {
            assert(lines[i] == grid_line(sp, mission));
        } else {
            assert(lines[i] == tail[i - head.len()]);
        }
    }
    lemma_terminated_permitted(lines, ending_of(sp), sp.omit_final_eol);
}

/// A letter that can stand in a line: neither a blank nor part of a line
/// ending.
pub open spec fn clean_letter(c: char) -> bool {
    !is_blank_char(c) && c != '\n' && c != '\r'
}

/// Whether a grammar gives the generator letters to draw, none of them a
/// blank or part of a line ending.
pub open spec fn drawable_letters(grammar: GrammarModel) -> bool {
    &&& grammar.orientations.len() > 0
    &&& grammar.instructions.len() > 0
    &&& forall|i: int| 0 <= i < grammar.orientations.len() ==> clean_letter(#[trigger] grammar.orientations[i])
    &&& forall|i: int| 0 <= i < grammar.instructions.len() ==> clean_letter(#[trigger] grammar.instructions[i])
}

/// A robot the generator draws from such a grammar can be written and read
/// back, and carries no line ending.
proof fn lemma_drawn_robot_clean(state: u64, max_x: u32, max_y: u32, grammar: GrammarModel)
    requires
        drawable_letters(grammar),
    ensures
        ({
            let r = drawn_robot(state, max_x, max_y, grammar).0;
            &&& plain_robot(r)
            &&& r.facing != '\n' && r.facing != '\r'
            &&& eol_free(r.steps)
        }),
{
    let length = below_value(state, 7);
    let s1 = below_state(state, 7);
    let s2 = below_state(s1, (max_x + 1) as u32);
    let s3 = below_state(s2, (max_y + 1) as u32);
    let bound = pick_bound(grammar.orientations.len());
    let k = below_value(s3, bound) as int;
    assert(0 <= k < grammar.orientations.len());
    assert(clean_letter(grammar.orientations[k]));
    let s4 = below_state(s3, bound);
    let steps = picks(s4, grammar.instructions, length as nat).0;
    lemma_picks_from_pool(s4, grammar.instructions, length as nat);
    assert forall|i: int| 0 <= i < steps.len() implies clean_letter(#[trigger] steps[i]) by {
        assert(grammar.instructions.contains(steps[i]));
        let j = choose|j: int| 0 <= j < grammar.instructions.len() && grammar.instructions[j] == steps[i];
        assert(clean_letter(grammar.instructions[j]));
    }
    let r = drawn_robot(state, max_x, max_y, grammar).0;
    assert(r.steps == steps);
    if steps.contains('\n') {
        let i = choose|i: int| 0 <= i < steps.len() && steps[i] == '\n';
        assert(clean_letter(steps[i]));
    }
    if steps.len() > 0 {
        assert(clean_letter(steps[0]));
        assert(clean_letter(steps[steps.len() - 1]));
    }
}

proof fn lemma_drawn_robots_clean(state: u64, n: nat, max_x: u32, max_y: u32, grammar: GrammarModel)
    requires
        drawable_letters(grammar),
    ensures
        ({
            let rs = drawn_robots(state, n, max_x, max_y, grammar).0;
            forall|i: int| 0 <= i < rs.len() ==> {
                let r = #[trigger] rs[i];
                &&& plain_robot(r)
                &&& r.facing != '\n' && r.facing != '\r'
                &&& eol_free(r.steps)
            }
        }),
    decreases n,
{
    if n > 0 {
        lemma_drawn_robots_clean(state, (n - 1) as nat, max_x, max_y, grammar);
        let (done, at) = drawn_robots(state, (n - 1) as nat, max_x, max_y, grammar);
        lemma_drawn_robot_clean(at, max_x, max_y, grammar);
        let rs = drawn_robots(state, n, max_x, max_y, grammar).0;
        assert(rs == done.push(drawn_robot(at, max_x, max_y, grammar).0));
        assert forall|i: int| 0 <= i < rs.len() implies {
            let r = #[trigger] rs[i];
            &&& plain_robot(r)
            &&& r.facing != '\n' && r.facing != '\r'
            &&& eol_free(r.steps)
        } by {
            if i < done.len() {
                assert(rs[i] == done[i]);
            }
        }
    }
}

/// The generator's check on its own renderings never fires: when the
/// grammar's letters are neither blanks nor line endings, every mission the
/// generator draws, written down in any spelling it draws, stays out of the
/// questions the contract leaves open and reads back as that mission.
pub proof fn law_the_generator_never_trips_its_own_check(
    mission_state: u64,
    max_coordinate: u32,
    grammar: GrammarModel,
    spelling_state: u64,
)
    requires
        drawable_letters(grammar),
    ensures
        ({
            let mission = drawn_mission(mission_state, max_coordinate, grammar).0;
            let sp = drawn_spelling(spelling_state).0;
            rendering_fault(mission, encode_utf8(rendered_text(mission, sp))) is None
        }),
{
    let mission = drawn_mission(mission_state, max_coordinate, grammar).0;
    let sp = drawn_spelling(spelling_state).0;
    let (max_x, max_y, s1) = drawn_world(mission_state, max_coordinate);
    let count = below_value(s1, 4);
    lemma_drawn_robots_clean(below_state(s1, 4), count as nat, max_x, max_y, grammar);
    assert(plain_mission(mission));
    assert(eol_free_mission(mission));
    law_every_drawn_spelling_is_legal(spelling_state);
    law_no_legal_spelling_strays_into_an_open_question(mission, sp);
    law_every_legal_spelling_says_the_same_mission(mission, sp);
}

/// Whether every LF byte comes right after a CR byte.
pub open spec fn lf_after_cr(b: Seq<u8>) -> bool {
    forall|k: int| 0 <= k < b.len() && #[trigger] b[k] == 10 ==> k > 0 && b[k - 1] == 13
}

/// Whether no byte is a CR.
pub open spec fn no_cr(b: Seq<u8>) -> bool {
    forall|k: int| 0 <= k < b.len() ==> #[trigger] b[k] != 13
}

proof fn lemma_endings_concat_bytes(x: Seq<u8>, y: Seq<u8>)
    ensures
        lf_after_cr(x) && lf_after_cr(y) ==> lf_after_cr(x + y),
        no_cr(x) && no_cr(y) ==> no_cr(x + y),
{
    let xy = x + y;
    if lf_after_cr(x) && lf_after_cr(y) {
        assert forall|k: int| 0 <= k < xy.len() && #[trigger] xy[k] == 10 implies k > 0 && xy[k - 1] == 13 by {
            if k < x.len() {
                assert(xy[k] == x[k]);
                assert(xy[k - 1] == x[k - 1]);
            } else {
                assert(xy[k] == y[k - x.len()]);
                assert(xy[k - 1] == y[k - x.len() - 1]);
            }
        }
    }
    if no_cr(x) && no_cr(y) {
        assert forall|k: int| 0 <= k < xy.len() implies #[trigger] xy[k] != 13 by {
            if k < x.len() {
                assert(xy[k] == x[k]);
            } else {
                assert(xy[k] == y[k - x.len()]);
            }
        }
    }
}

/// Lines without line endings, each ended the same way: with CRLF every LF
/// follows a CR, and with LF there is no CR at all.
proof fn lemma_terminated_bytes(lines: Seq<Seq<char>>, ending: Seq<char>, omit: bool, n: nat)
    requires
        ending == "\n"@ || ending == "\r\n"@,
        n <= lines.len(),
        forall|i: int| 0 <= i < lines.len() ==> eol_free(#[trigger] lines[i]),
    ensures
        ({
            let b = encode_utf8(terminated(lines, ending, omit, n));
            &&& ending == "\r\n"@ ==> lf_after_cr(b)
            &&& ending == "\n"@ ==> no_cr(b)
        }),
    decreases n,
{
    lemma_ending_bytes();
    if n == 0 {
        assert(encode_utf8(Seq::<char>::empty()) =~= Seq::<u8>::empty());
    } else {
        lemma_terminated_bytes(lines, ending, omit, (n - 1) as nat);
        let before = terminated(lines, ending, omit, (n - 1) as nat);
        let line = lines[n - 1];
        let tail = if n == lines.len() && omit && !is_blank(line) { Seq::<char>::empty() } else { ending };
        assert(terminated(lines, ending, omit, n) == before + line + tail);
        lemma_encode_concat(before + line, tail);
        lemma_encode_concat(before, line);
        let eb = encode_utf8(before);
        let el = encode_utf8(line);
        let et = encode_utf8(tail);
        lemma_encode_eol_free(line);
        if tail.len() == 0 {
            assert(et =~= Seq::<u8>::empty());
        }
        assert(lf_after_cr(el) && no_cr(el));
        assert(lf_after_cr(seq![13u8, 10u8]));
        assert(no_cr(seq![10u8]));
        lemma_endings_concat_bytes(eb, el);
        lemma_endings_concat_bytes(eb + el, et);
    }
}

/// The last line a spelling writes: the last robot's instruction line, or the
/// grid line when there are no robots. No blank line follows it.
proof fn lemma_last_spelled_line(mission: MissionModel, sp: SpellingModel)
    ensures
        spelled_lines(mission, sp).last() == (if mission.robots.len() == 0 {
            grid_line(sp, mission)
        } else {
            instruction_line(sp, mission.robots.last(), (2 * mission.robots.len()) as nat)
        }),
{
    let rs = mission.robots;
    let n = rs.len();
    let head = blank_lines(sp, sp.blanks_before_grid as nat) + seq![grid_line(sp, mission)];
    assert(spelled_lines(mission, sp) == head + blocks(sp, rs, n));
    if n == 0 {
        assert(blocks(sp, rs, 0) =~= Seq::<Seq<char>>::empty());
        assert(head + blocks(sp, rs, 0) =~= head);
    } else {
        let b = block(sp, rs[n - 1], (n - 1) as nat, false);
        assert(b =~= seq![position_line(sp, rs[n - 1], (1 + 2 * (n - 1)) as nat), instruction_line(sp, rs[n - 1], (2 + 2 * (n - 1)) as nat)]);
        assert(blocks(sp, rs, n) == blocks(sp, rs, (n - 1) as nat) + b);
        assert((2 + 2 * (n - 1)) as nat == (2 * n) as nat);
        assert(rs.last() == rs[n - 1]);
    }
}

/// A rendering ends its lines as its spelling asks: with CRLF every LF
/// follows a CR, with LF there is no CR at all; its last line is the last
/// robot's instruction line (or the grid line) with no blank line after it;
/// and it ends with a line ending unless the spelling leaves the final one
/// off and the last line carries more than spaces and tabs.
pub proof fn law_a_rendering_ends_its_lines_as_its_spelling_asks(mission: MissionModel, sp: SpellingModel)
    requires
        legal_spelling(sp),
        eol_free_mission(mission),
    ensures
        ({
            let b = encode_utf8(rendered_text(mission, sp));
            let lines = spelled_lines(mission, sp);
            &&& sp.crlf ==> lf_after_cr(b)
            &&& !sp.crlf ==> no_cr(b)
            &&& lines.last() == (if mission.robots.len() == 0 {
                grid_line(sp, mission)
            } else {
                instruction_line(sp, mission.robots.last(), (2 * mission.robots.len()) as nat)
            })
            &&& !(sp.omit_final_eol && !is_blank(lines.last())) ==> b.len() > 0 && b.last() == 10
            &&& sp.omit_final_eol && !is_blank(lines.last()) ==> b.len() > 0 && b.last() != 10
        }),
{
    reveal_strlit("\n");
    reveal_strlit("\r\n");
    lemma_ending_bytes();
    let lines = spelled_lines(mission, sp);
    let bb = sp.blanks_before_grid as nat;
    let head = blank_lines(sp, bb) + seq![grid_line(sp, mission)];
    let tail = blocks(sp, mission.robots, mission.robots.len());
    assert(lines == head + tail);
    lemma_blank_lines(sp, bb);
    lemma_blank_line(sp);
    lemma_blank_eol_free(blank_line(sp));
    lemma_number_eol_free(sp, 0, mission.max_x);
    lemma_number_eol_free(sp, 0, mission.max_y);
    lemma_run_eol_free(sp, 0);
    let gx = number_text(sp, 0, mission.max_x);
    let gy = number_text(sp, 0, mission.max_y);
    lemma_eol_free_concat(gx, run_of(sp, 0));
    lemma_eol_free_concat(gx + run_of(sp, 0), gy);
    lemma_wrapped_eol_free(sp, 0, gx + run_of(sp, 0) + gy);
    lemma_blocks_eol_free(sp, mission, mission.robots.len());
    assert forall|i: int| 0 <= i < lines.len() implies eol_free(#[trigger] lines[i]) by {
        if i < bb {
            assert(lines[i] == blank_lines(sp, bb)[i]);
        } else if i == bb {
            assert(lines[i] == grid_line(sp, mission));
        } else {
            assert(lines[i] == tail[i - head.len()]);
        }
    }
    let n = lines.len();
    let ending = ending_of(sp);
    lemma_terminated_bytes(lines, ending, sp.omit_final_eol, n);
    lemma_last_spelled_line(mission, sp);
    let before = terminated(lines, ending, sp.omit_final_eol, (n - 1) as nat);
    let last = lines[n - 1];
    assert(lines.last() == last);
    if sp.omit_final_eol && !is_blank(last) {
        assert(terminated(lines, ending, sp.omit_final_eol, n) =~= before + last);
        lemma_encode_concat(before, last);
        lemma_encode_eol_free(last);
        assert(last.len() > 0);
        lemma_scalar_bytes(last[0]);
        assert(last =~= seq![last[0]] + last.drop_first());
        lemma_encode_concat(seq![last[0]], last.drop_first());
        let el = encode_utf8(last);
        assert(el.len() > 0);
        assert(el[el.len() - 1] != 10);
    } else {
        assert(terminated(lines, ending, sp.omit_final_eol, n) == before + last + ending);
        lemma_encode_concat(before + last, ending);
    }
}

/// What the renderings of one mission find, when the program answers each
/// input with `program` of it and answered `expected` on the canonical one:
/// the divergences, in order, and the stream after; or the fault that ends
/// the run.
pub open spec fn renderings_found(
    state: u64,
    mission: MissionModel,
    canonical: Seq<u8>,
    expected: Seq<u8>,
    n: nat,
    program: spec_fn(Seq<u8>) -> Seq<u8>,
) -> Result<(Seq<DivergenceModel>, u64), Seq<char>>
    decreases n,
{
    if n == 0 {
        Ok((seq![], state))
    } else {
        let (sp, after) = drawn_spelling(state);
        let rendered = encode_utf8(rendered_text(mission, sp));
        match rendering_fault(mission, rendered) {
            Some(why) => Err(why),
            None => {
                let found = if program(rendered) == expected {
                    Seq::<DivergenceModel>::empty()
                } else {
                    seq![DivergenceModel { mission: canonical, against: rendered, expected, got: program(rendered) }]
                };
                match renderings_found(after, mission, canonical, expected, (n - 1) as nat, program) {
                    Err(why) => Err(why),
                    Ok((rest, end)) => Ok((found + rest, end)),
                }
            },
        }
    }
}

/// What a whole spelling run finds, step by step as `SpellingRun` takes it,
/// when the program answers each input with `program` of it: every
/// divergence, in order, or the fault that ends the run.
pub open spec fn spelling_run_found(
    state: u64,
    missions: nat,
    spellings: u32,
    max_coordinate: u32,
    grammar: GrammarModel,
    program: spec_fn(Seq<u8>) -> Seq<u8>,
) -> Result<Seq<DivergenceModel>, Seq<char>>
    decreases missions,
{
    if missions == 0 {
        Ok(seq![])
    } else {
        let (mission, after) = drawn_mission(state, max_coordinate, grammar);
        let canonical = encode_utf8(canonical_text(mission));
        let more = if spellings > 0 { (spellings - 1) as nat } else { 0 };
        match renderings_found(after, mission, canonical, program(canonical), more, program) {
            Err(why) => Err(why),
            Ok((found, end)) => match spelling_run_found(end, (missions - 1) as nat, spellings, max_coordinate, grammar, program) {
                Err(why) => Err(why),
                Ok(rest) => Ok(found + rest),
            },
        }
    }
}

/// Whether a program answers by the mission it reads alone: two inputs that
/// read as the same mission get the same answer.
pub open spec fn spelling_blind(program: spec_fn(Seq<u8>) -> Seq<u8>) -> bool {
    forall|a: Seq<u8>, b: Seq<u8>|
        #[trigger] read_mission(a) is Ok && read_mission(a) == #[trigger] read_mission(b) ==> program(a) == program(b)
}

proof fn lemma_renderings_agree(
    state: u64,
    mission: MissionModel,
    canonical: Seq<u8>,
    n: nat,
    grammar: GrammarModel,
    mission_state: u64,
    max_coordinate: u32,
    program: spec_fn(Seq<u8>) -> Seq<u8>,
)
    requires
        drawable_letters(grammar),
        mission == drawn_mission(mission_state, max_coordinate, grammar).0,
        read_mission(canonical) == Ok::<MissionModel, Seq<char>>(mission),
        spelling_blind(program),
    ensures
        renderings_found(state, mission, canonical, program(canonical), n, program) matches Ok((found, _)) && found.len() == 0,
    decreases n,
{
    if n > 0 {
        let (sp, after) = drawn_spelling(state);
        law_the_generator_never_trips_its_own_check(mission_state, max_coordinate, grammar, state);
        let rendered = encode_utf8(rendered_text(mission, sp));
        assert(read_mission(rendered) == Ok::<MissionModel, Seq<char>>(mission));
        assert(program(rendered) == program(canonical));
        lemma_renderings_agree(after, mission, canonical, (n - 1) as nat, grammar, mission_state, max_coordinate, program);
        let (rest, end) = renderings_found(after, mission, canonical, program(canonical), (n - 1) as nat, program)->Ok_0;
        assert(Seq::<DivergenceModel>::empty() + rest =~= rest);
    }
}

/// A program that answers by the mission alone agrees with itself: when the
/// grammar's letters are neither blanks nor line endings, a whole spelling
/// run over such a program ends without a fault and finds no divergence.
pub proof fn law_a_spelling_blind_program_never_diverges(
    state: u64,
    missions: nat,
    spellings: u32,
    max_coordinate: u32,
    grammar: GrammarModel,
    program: spec_fn(Seq<u8>) -> Seq<u8>,
)
    requires
        drawable_letters(grammar),
        spelling_blind(program),
    ensures
        spelling_run_found(state, missions, spellings, max_coordinate, grammar, program) == Ok::<Seq<DivergenceModel>, Seq<char>>(seq![]),
    decreases missions,
{
    if missions > 0 {
        let (mission, after) = drawn_mission(state, max_coordinate, grammar);
        let canonical = encode_utf8(canonical_text(mission));
        let more = if spellings > 0 { (spellings - 1) as nat } else { 0 };
        let (max_x, max_y, s1) = drawn_world(state, max_coordinate);
        let count = below_value(s1, 4);
        lemma_drawn_robots_clean(below_state(s1, 4), count as nat, max_x, max_y, grammar);
        assert(plain_mission(mission));
        crate::reading::law_a_canonical_mission_reads_back_as_itself(mission);
        lemma_renderings_agree(after, mission, canonical, more, grammar, state, max_coordinate, program);
        let (found, end) = renderings_found(after, mission, canonical, program(canonical), more, program)->Ok_0;
        law_a_spelling_blind_program_never_diverges(end, (missions - 1) as nat, spellings, max_coordinate, grammar, program);
        assert(found + Seq::<DivergenceModel>::empty() =~= Seq::<DivergenceModel>::empty());
    }
}

proof fn lemma_renderings_bounded(
    state: u64,
    mission: MissionModel,
    canonical: Seq<u8>,
    expected: Seq<u8>,
    n: nat,
    program: spec_fn(Seq<u8>) -> Seq<u8>,
)
    ensures
        renderings_found(state, mission, canonical, expected, n, program) matches Ok((found, _)) ==> found.len() <= n,
    decreases n,
{
    if n > 0 {
        let (sp, after) = drawn_spelling(state);
        lemma_renderings_bounded(after, mission, canonical, expected, (n - 1) as nat, program);
    }
}

/// A spelling run finds at most one divergence per rendering beyond the
/// canonical one: at most `spellings - 1` for each mission it draws.
pub proof fn law_a_spelling_run_finds_at_most_one_divergence_per_rendering(
    state: u64,
    missions: nat,
    spellings: u32,
    max_coordinate: u32,
    grammar: GrammarModel,
    program: spec_fn(Seq<u8>) -> Seq<u8>,
)
    ensures
        spelling_run_found(state, missions, spellings, max_coordinate, grammar, program) matches Ok(found)
            ==> found.len() <= missions * (if spellings > 0 { (spellings - 1) as nat } else { 0nat }),
    decreases missions,
{
    if missions > 0 {
        let (mission, after) = drawn_mission(state, max_coordinate, grammar);
        let canonical = encode_utf8(canonical_text(mission));
        let more: nat = if spellings > 0 { (spellings - 1) as nat } else { 0 };
        lemma_renderings_bounded(after, mission, canonical, program(canonical), more, program);
        match renderings_found(after, mission, canonical, program(canonical), more, program) {
            Err(_) => {},
            Ok((found, end)) => {
                law_a_spelling_run_finds_at_most_one_divergence_per_rendering(end, (missions - 1) as nat, spellings, max_coordinate, grammar, program);
                let m1 = (missions - 1) as nat;
                assert(m1 * more + more == missions * more) by (nonlinear_arith)
                    requires
                        m1 + 1 == missions,
                ;
            },
        }
    }
}

/// Whether a CR stands at `k` without an LF after it.
pub open spec fn stray_cr_at(b: Seq<u8>, k: int) -> bool {
    b[k] == 13 && !(k + 1 < b.len() && b[k + 1] == 10)
}

/// Whether a CRLF starts at `k`.
pub open spec fn crlf_at(b: Seq<u8>, k: int) -> bool {
    b[k] == 13 && k + 1 < b.len() && b[k + 1] == 10
}

/// Whether an LF stands at `k` without a CR before it.
pub open spec fn bare_lf_at(b: Seq<u8>, k: int) -> bool {
    b[k] == 10 && !(k > 0 && b[k - 1] == 13)
}

/// The scan of line endings from a position where no CR is left half read
/// finds a stray CR if there is one from there on, and otherwise whether a
/// CRLF and whether a bare LF occur from there on.
proof fn lemma_endings_direct(b: Seq<u8>, at: int)
    requires
        0 <= at <= b.len(),
        at == 0 || b[at - 1] != 13,
    ensures
        (exists|k: int| at <= k < b.len() && #[trigger] stray_cr_at(b, k)) ==> endings_from(b, at) is None,
        !(exists|k: int| at <= k < b.len() && #[trigger] stray_cr_at(b, k)) ==> endings_from(b, at) == Some((
            exists|k: int| at <= k < b.len() && #[trigger] crlf_at(b, k),
            exists|k: int| at <= k < b.len() && #[trigger] bare_lf_at(b, k),
        )),
    decreases b.len() - at,
{
    if at < b.len() {
        if b[at] == 13 {
            if at + 1 < b.len() && b[at + 1] == 10 {
                lemma_endings_direct(b, at + 2);
                assert(crlf_at(b, at));
                assert(!stray_cr_at(b, at));
                assert(!stray_cr_at(b, at + 1));
                assert(!bare_lf_at(b, at + 1));
                if exists|k: int| at <= k < b.len() && #[trigger] bare_lf_at(b, k) {
                    let k = choose|k: int| at <= k < b.len() && #[trigger] bare_lf_at(b, k);
                    assert(k != at && k != at + 1);
                }
                if exists|k: int| at <= k < b.len() && #[trigger] stray_cr_at(b, k) {
                    let k = choose|k: int| at <= k < b.len() && #[trigger] stray_cr_at(b, k);
                    assert(k != at && k != at + 1);
                }
            } else {
                assert(stray_cr_at(b, at));
            }
        } else {
            lemma_endings_direct(b, at + 1);
            assert(!stray_cr_at(b, at));
            assert(!crlf_at(b, at));
            assert(b[at] == 10 <==> bare_lf_at(b, at));
            if exists|k: int| at <= k < b.len() && #[trigger] crlf_at(b, k) {
                let k = choose|k: int| at <= k < b.len() && #[trigger] crlf_at(b, k);
                assert(k != at);
            }
            if exists|k: int| at <= k < b.len() && #[trigger] stray_cr_at(b, k) {
                let k = choose|k: int| at <= k < b.len() && #[trigger] stray_cr_at(b, k);
                assert(k != at);
            }
            if b[at] != 10 {
                if exists|k: int| at <= k < b.len() && #[trigger] bare_lf_at(b, k) {
                    let k = choose|k: int| at <= k < b.len() && #[trigger] bare_lf_at(b, k);
                    assert(k != at);
                }
            }
        }
    }
}

/// What the check on a rendering refuses, said directly: a rendering passes
/// exactly when every CR begins a CRLF, CRLF and bare LF endings do not both
/// occur, and it ends with an LF or its last line carries something other
/// than spaces, tabs and CRs.
pub proof fn law_a_rendering_passes_exactly_when_it_stays_out_of_the_open_questions(b: Seq<u8>)
    ensures
        permitted_spec(b) is Ok <==> {
            &&& forall|k: int| 0 <= k < b.len() ==> !#[trigger] stray_cr_at(b, k)
            &&& !((exists|k: int| 0 <= k < b.len() && #[trigger] crlf_at(b, k))
                && (exists|k: int| 0 <= k < b.len() && #[trigger] bare_lf_at(b, k)))
            &&& (b.len() > 0 && b.last() == 10) || !only_whitespace(final_line(b))
        },
{
    lemma_endings_direct(b, 0);
    if exists|k: int| 0 <= k < b.len() && #[trigger] stray_cr_at(b, k) {
        let k = choose|k: int| 0 <= k < b.len() && #[trigger] stray_cr_at(b, k);
        assert(!(forall|k: int| 0 <= k < b.len() ==> !#[trigger] stray_cr_at(b, k)));
    }
}

} // verus!
