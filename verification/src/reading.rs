//! What the reader makes of what the writer wrote: a mission written the
//! canonical way reads back as itself.

use vstd::prelude::*;
use vstd::utf8::*;

use crate::spelling::{
    blank_line, blank_lines, block, blocks, cycles, ending_of, grid_line, number_text, rendered_text, run_of, spelled_lines, terminated,
    wrapped, SpellingModel,
};
use crate::mission::{
    canonical_text, number_of, read_lines, read_mission, robot_of, robot_text, robots_from, robots_text,
    skip_blank, MissionModel, RobotModel,
};
use crate::text::{
    all_digits, decimal, digit_char, digit_value, digits_value, is_blank, is_blank_char, is_digit, lemma_split_blanks_nonempty,
    lemma_split_nonempty, nonempty, parse_u32, split, split_blanks, strip_cr, tokens, trim_blanks, unsigned_digits,
};

verus! {

/// Splitting at a separator that stands between two texts splits each.
pub proof fn lemma_split_concat(x: Seq<char>, y: Seq<char>, sep: char)
    ensures
        split(x + seq![sep] + y, sep) == split(x, sep) + split(y, sep),
    decreases y.len(),
{
    if y.len() == 0 {
        assert(x + seq![sep] + y =~= x + seq![sep]);
        assert((x + seq![sep]).drop_last() =~= x);
        assert(split(y, sep) =~= seq![Seq::<char>::empty()]);
        assert(split(x + seq![sep], sep) =~= split(x, sep) + split(y, sep));
    } else {
        let whole = x + seq![sep] + y;
        assert(whole.drop_last() =~= x + seq![sep] + y.drop_last());
        assert(whole.last() == y.last());
        lemma_split_concat(x, y.drop_last(), sep);
        lemma_split_nonempty(y.drop_last(), sep);
        lemma_split_nonempty(x, sep);
        let a = split(x, sep);
        let b = split(y.drop_last(), sep);
        if y.last() == sep {
            assert((a + b).push(seq![]) =~= a + b.push(seq![]));
        } else {
            let ab = a + b;
            assert(ab.update(ab.len() - 1, ab.last().push(y.last())) =~= a + b.update(b.len() - 1, b.last().push(y.last())));
        }
    }
}

/// A text without the separator is one piece.
pub proof fn lemma_split_single(x: Seq<char>, sep: char)
    requires
        !x.contains(sep),
    ensures
        split(x, sep) == seq![x],
    decreases x.len(),
{
    if x.len() == 0 {
        assert(x =~= Seq::<char>::empty());
    } else {
        assert(x.last() != sep) by {
            assert(x[x.len() - 1] == x.last());
        }
        assert(!x.drop_last().contains(sep)) by {
            if x.drop_last().contains(sep) {
                let i = choose|i: int| 0 <= i < x.drop_last().len() && x.drop_last()[i] == sep;
                assert(x[i] == sep);
            }
        }
        lemma_split_single(x.drop_last(), sep);
        assert(x.last() == x[x.len() - 1]);
        assert(x.drop_last().push(x.last()) =~= x);
        assert(seq![x.drop_last()].update(0, x.drop_last().push(x.last())) =~= seq![x]);
    }
}

/// Splitting at a blank that stands between two texts splits each.
pub proof fn lemma_split_blanks_concat(x: Seq<char>, c: char, y: Seq<char>)
    requires
        is_blank_char(c),
    ensures
        split_blanks(x + seq![c] + y) == split_blanks(x) + split_blanks(y),
    decreases y.len(),
{
    if y.len() == 0 {
        assert(x + seq![c] + y =~= x + seq![c]);
        assert((x + seq![c]).drop_last() =~= x);
        assert(split_blanks(y) =~= seq![Seq::<char>::empty()]);
        assert(split_blanks(x + seq![c]) =~= split_blanks(x) + split_blanks(y));
    } else {
        let whole = x + seq![c] + y;
        assert(whole.drop_last() =~= x + seq![c] + y.drop_last());
        assert(whole.last() == y.last());
        lemma_split_blanks_concat(x, c, y.drop_last());
        lemma_split_blanks_nonempty(y.drop_last());
        lemma_split_blanks_nonempty(x);
        let a = split_blanks(x);
        let b = split_blanks(y.drop_last());
        if is_blank_char(y.last()) {
            assert((a + b).push(seq![]) =~= a + b.push(seq![]));
        } else {
            let ab = a + b;
            assert(ab.update(ab.len() - 1, ab.last().push(y.last())) =~= a + b.update(b.len() - 1, b.last().push(y.last())));
        }
    }
}

/// Whether a text holds no blank.
pub open spec fn blank_free(x: Seq<char>) -> bool {
    forall|i: int| 0 <= i < x.len() ==> !is_blank_char(#[trigger] x[i])
}

/// A text without blanks is one piece.
pub proof fn lemma_split_blanks_single(x: Seq<char>)
    requires
        blank_free(x),
    ensures
        split_blanks(x) == seq![x],
    decreases x.len(),
{
    if x.len() == 0 {
        assert(x =~= Seq::<char>::empty());
    } else {
        assert(!is_blank_char(x.last())) by {
            assert(x[x.len() - 1] == x.last());
        }
        assert(blank_free(x.drop_last())) by {
            assert forall|i: int| 0 <= i < x.drop_last().len() implies !is_blank_char(#[trigger] x.drop_last()[i]) by {
                assert(x.drop_last()[i] == x[i]);
            }
        }
        lemma_split_blanks_single(x.drop_last());
        assert(x.last() == x[x.len() - 1]);
        assert(x.drop_last().push(x.last()) =~= x);
        assert(seq![x.drop_last()].update(0, x.drop_last().push(x.last())) =~= seq![x]);
    }
}

/// Keeping the non-empty pieces of two runs of pieces keeps each.
pub proof fn lemma_nonempty_concat(a: Seq<Seq<char>>, b: Seq<Seq<char>>)
    ensures
        nonempty(a + b) == nonempty(a) + nonempty(b),
    decreases b.len(),
{
    if b.len() == 0 {
        assert(a + b =~= a);
        assert(nonempty(a) + nonempty(b) =~= nonempty(a));
    } else {
        assert((a + b).drop_last() =~= a + b.drop_last());
        assert((a + b).last() == b.last());
        lemma_nonempty_concat(a, b.drop_last());
        if b.last().len() > 0 {
            assert((nonempty(a) + nonempty(b.drop_last())).push(b.last()) =~= nonempty(a) + nonempty(b.drop_last()).push(b.last()));
        }
    }
}

/// Pieces none of which is empty are all kept.
pub proof fn lemma_nonempty_of_words(pieces: Seq<Seq<char>>)
    requires
        forall|i: int| 0 <= i < pieces.len() ==> (#[trigger] pieces[i]).len() > 0,
    ensures
        nonempty(pieces) == pieces,
    decreases pieces.len(),
{
    if pieces.len() > 0 {
        lemma_nonempty_of_words(pieces.drop_last());
        assert(pieces.last() == pieces[pieces.len() - 1]);
        assert(pieces.drop_last().push(pieces.last()) =~= pieces);
    }
}

/// The value of a digit's character is the digit.
pub proof fn lemma_digit(d: nat)
    requires
        d < 10,
    ensures
        is_digit(digit_char(d)),
        digit_value(digit_char(d)) == d,
{
    assert(('0' as u32) == 48);
    if d == 0 { assert(('0' as u32) == 48); }
    else if d == 1 { assert(('1' as u32) == 49); }
    else if d == 2 { assert(('2' as u32) == 50); }
    else if d == 3 { assert(('3' as u32) == 51); }
    else if d == 4 { assert(('4' as u32) == 52); }
    else if d == 5 { assert(('5' as u32) == 53); }
    else if d == 6 { assert(('6' as u32) == 54); }
    else if d == 7 { assert(('7' as u32) == 55); }
    else if d == 8 { assert(('8' as u32) == 56); }
    else { assert(('9' as u32) == 57); }
}

/// The tokens of two words with a space between them.
pub proof fn lemma_two_tokens(a: Seq<char>, b: Seq<char>)
    requires
        a.len() > 0,
        b.len() > 0,
        blank_free(a),
        blank_free(b),
    ensures
        tokens(a + seq![' '] + b) == seq![a, b],
{
    lemma_split_blanks_concat(a, ' ', b);
    lemma_split_blanks_single(a);
    lemma_split_blanks_single(b);
    assert(seq![a] + seq![b] =~= seq![a, b]);
    assert(seq![a, b].drop_last() =~= seq![a]);
    lemma_nonempty_of_words(seq![a, b]);
}

/// The tokens of three words with spaces between them.
pub proof fn lemma_three_tokens(a: Seq<char>, b: Seq<char>, c: Seq<char>)
    requires
        a.len() > 0,
        b.len() > 0,
        c.len() > 0,
        blank_free(a),
        blank_free(b),
        blank_free(c),
    ensures
        tokens(a + seq![' '] + b + seq![' '] + c) == seq![a, b, c],
{
    let ab = a + seq![' '] + b;
    lemma_split_blanks_concat(ab, ' ', c);
    lemma_split_blanks_concat(a, ' ', b);
    lemma_split_blanks_single(a);
    lemma_split_blanks_single(b);
    lemma_split_blanks_single(c);
    assert(seq![a] + seq![b] + seq![c] =~= seq![a, b, c]);
    assert(seq![a, b, c].drop_last() =~= seq![a, b]);
    assert(seq![a, b].drop_last() =~= seq![a]);
    lemma_nonempty_of_words(seq![a, b, c]);
}

/// The decimal spelling of a number: digits, at least one, and its value.
pub proof fn lemma_decimal(n: nat)
    ensures
        decimal(n).len() > 0,
        all_digits(decimal(n)),
        digits_value(decimal(n)) == n,
    decreases n,
{
    if n < 10 {
        lemma_digit(n);
        assert(decimal(n) == seq![digit_char(n)]);
        assert(decimal(n).drop_last() =~= Seq::<char>::empty());
        assert(digits_value(Seq::<char>::empty()) == 0);
        assert(decimal(n).last() == digit_char(n));
        assert(digits_value(decimal(n)) == digits_value(decimal(n).drop_last()) * 10 + digit_value(decimal(n).last()));
    } else {
        lemma_decimal(n / 10);
        lemma_digit(n % 10);
        let d = decimal(n / 10);
        let s = d.push(digit_char(n % 10));
        assert(s.drop_last() =~= d);
        assert((n / 10) * 10 + n % 10 == n) by (nonlinear_arith);
        assert(decimal(n) == s);
        assert(s.last() == digit_char(n % 10));
        assert(digits_value(s) == digits_value(d) * 10 + digit_value(digit_char(n % 10)));
        assert forall|i: int| 0 <= i < s.len() implies is_digit(#[trigger] s[i]) by {
            if i < d.len() {
                assert(s[i] == d[i]);
            }
        }
    }
}

/// A number written in decimal reads back as itself.
pub proof fn lemma_number_of_decimal(n: u32)
    ensures
        number_of(decimal(n as nat)) == Ok::<u32, Seq<char>>(n),
        blank_free(decimal(n as nat)),
        decimal(n as nat).len() > 0,
        !decimal(n as nat).contains('\n'),
        decimal(n as nat).last() != '\r',
{
    lemma_decimal(n as nat);
    let d = decimal(n as nat);
    assert(is_digit(d[0]));
    assert(unsigned_digits(d) == d);
    assert forall|i: int| 0 <= i < d.len() implies !is_blank_char(#[trigger] d[i]) by {
        assert(is_digit(d[i]));
    }
    if d.contains('\n') {
        let i = choose|i: int| 0 <= i < d.len() && d[i] == '\n';
        assert(is_digit(d[i]));
    }
    assert(is_digit(d[d.len() - 1]));
}

/// A position line as the canonical spelling writes it.
pub open spec fn position_line_of(robot: RobotModel) -> Seq<char> {
    decimal(robot.x as nat) + seq![' '] + decimal(robot.y as nat) + seq![' ', robot.facing]
}

/// The lines the canonical spelling writes for some robots: a position line
/// and an instruction line each.
pub open spec fn robot_lines(robots: Seq<RobotModel>) -> Seq<Seq<char>>
    decreases robots.len(),
{
    if robots.len() == 0 {
        seq![]
    } else {
        robot_lines(robots.drop_last()) + seq![position_line_of(robots.last()), robots.last().steps]
    }
}

/// Whether a robot can be written the canonical way and read back: its
/// orientation is one character that is neither a blank nor part of a line
/// ending, and its instructions are one line with no blank at either end and
/// no carriage return at its end.
pub open spec fn plain_robot(robot: RobotModel) -> bool {
    &&& !is_blank_char(robot.facing)
    &&& robot.facing != '\n'
    &&& robot.facing != '\r'
    &&& !robot.steps.contains('\n')
    &&& robot.steps.len() > 0 ==> {
        &&& !is_blank_char(robot.steps[0])
        &&& !is_blank_char(robot.steps.last())
        &&& robot.steps.last() != '\r'
    }
}

/// Whether every robot of a mission can be written and read back.
pub open spec fn plain_mission(mission: MissionModel) -> bool {
    forall|i: int| 0 <= i < mission.robots.len() ==> plain_robot(#[trigger] mission.robots[i])
}

proof fn lemma_robots_text_ends(robots: Seq<RobotModel>)
    ensures
        robots.len() > 0 ==> robots_text(robots).len() > 0 && robots_text(robots).last() == '\n',
        robots.len() == 0 ==> robots_text(robots) == Seq::<char>::empty(),
{
}

proof fn lemma_position_line(robot: RobotModel)
    requires
        plain_robot(robot),
    ensures
        !position_line_of(robot).contains('\n'),
        position_line_of(robot).len() > 0,
        position_line_of(robot).last() != '\r',
        !is_blank(position_line_of(robot)),
        robot_text(robot) == position_line_of(robot) + seq!['\n'] + robot.steps + seq!['\n'],
        tokens(position_line_of(robot)) == seq![decimal(robot.x as nat), decimal(robot.y as nat), seq![robot.facing]],
{
    lemma_number_of_decimal(robot.x);
    lemma_number_of_decimal(robot.y);
    let p = position_line_of(robot);
    let dx = decimal(robot.x as nat);
    let dy = decimal(robot.y as nat);
    assert(p =~= dx + seq![' '] + dy + seq![' '] + seq![robot.facing]);
    assert(!p.contains('\n')) by {
        if p.contains('\n') {
            let i = choose|i: int| 0 <= i < p.len() && p[i] == '\n';
            if i < dx.len() {
                assert(p[i] == dx[i]);
            } else if i == dx.len() {
            } else if i < dx.len() + 1 + dy.len() {
                assert(p[i] == dy[i - dx.len() - 1]);
            }
        }
    }
    assert(!is_blank(p)) by {
        assert(p[0] == dx[0]);
    }
    assert(robot_text(robot) =~= p + seq!['\n'] + robot.steps + seq!['\n']);
    assert(blank_free(seq![robot.facing]));
    lemma_three_tokens(dx, dy, seq![robot.facing]);
}

proof fn lemma_robot_lines(robots: Seq<RobotModel>)
    requires
        forall|i: int| 0 <= i < robots.len() ==> plain_robot(#[trigger] robots[i]),
    ensures
        split(robots_text(robots), '\n') == robot_lines(robots).push(seq![]),
        robot_lines(robots).len() == 2 * robots.len(),
        forall|k: int| 0 <= k < robots.len() ==> #[trigger] robot_lines(robots)[2 * k] == position_line_of(robots[k]),
        forall|k: int| 0 <= k < robots.len() ==> #[trigger] robot_lines(robots)[2 * k + 1] == robots[k].steps,
    decreases robots.len(),
{
    if robots.len() > 0 {
        let rest = robots.drop_last();
        let r = robots.last();
        assert(plain_robot(r)) by {
            assert(r == robots[robots.len() - 1]);
        }
        assert forall|i: int| 0 <= i < rest.len() implies plain_robot(#[trigger] rest[i]) by {
            assert(rest[i] == robots[i]);
        }
        lemma_robot_lines(rest);
        lemma_position_line(r);
        let p = position_line_of(r);
        let tail = p + seq!['\n'] + r.steps + seq!['\n'];
        assert(robots_text(robots) == robots_text(rest) + robot_text(r));
        // The block of the last robot splits into its two lines and an empty end.
        lemma_split_concat(p, r.steps + seq!['\n'], '\n');
        assert(tail =~= p + seq!['\n'] + (r.steps + seq!['\n']));
        lemma_split_concat(r.steps, Seq::<char>::empty(), '\n');
        assert(r.steps + seq!['\n'] + Seq::<char>::empty() =~= r.steps + seq!['\n']);
        lemma_split_single(p, '\n');
        lemma_split_single(r.steps, '\n');
        assert(split(Seq::<char>::empty(), '\n') =~= seq![Seq::<char>::empty()]);
        assert(split(tail, '\n') =~= seq![p, r.steps, Seq::<char>::empty()]);
        lemma_robots_text_ends(rest);
        if rest.len() == 0 {
            assert(robots_text(robots) =~= tail);
            assert(robot_lines(rest) =~= Seq::<Seq<char>>::empty());
        } else {
            let before = robots_text(rest);
            let front = before.drop_last();
            assert(before =~= front + seq!['\n'] + Seq::<char>::empty());
            lemma_split_concat(front, Seq::<char>::empty(), '\n');
            assert(split(before, '\n') == split(front, '\n') + seq![Seq::<char>::empty()]);
            assert((split(front, '\n') + seq![Seq::<char>::empty()]).drop_last() =~= split(front, '\n'));
            assert(robot_lines(rest).push(seq![]).drop_last() =~= robot_lines(rest));
            assert(split(front, '\n') =~= robot_lines(rest));
            assert(robots_text(robots) =~= front + seq!['\n'] + tail);
            lemma_split_concat(front, tail, '\n');
        }
        assert(robot_lines(robots) == robot_lines(rest) + seq![p, r.steps]);
        assert(split(robots_text(robots), '\n') =~= robot_lines(robots).push(seq![]));
        assert forall|k: int| 0 <= k < robots.len() implies #[trigger] robot_lines(robots)[2 * k] == position_line_of(robots[k]) by {
            if k < rest.len() {
                assert(robot_lines(rest)[2 * k] == position_line_of(rest[k]));
                assert(rest[k] == robots[k]);
            } else {
                assert(robots[k] == r);
            }
        }
        assert forall|k: int| 0 <= k < robots.len() implies #[trigger] robot_lines(robots)[2 * k + 1] == robots[k].steps by {
            if k < rest.len() {
                assert(robot_lines(rest)[2 * k + 1] == rest[k].steps);
                assert(rest[k] == robots[k]);
            } else {
                assert(robots[k] == r);
            }
        }
    }
}

/// The lines the reader sees in a canonical rendering: the grid line, then
/// each robot's two lines.
proof fn lemma_canonical_read_lines(mission: MissionModel)
    requires
        plain_mission(mission),
    ensures
        read_lines(canonical_text(mission)) == seq![decimal(mission.max_x as nat) + seq![' '] + decimal(mission.max_y as nat)]
            + robot_lines(mission.robots),
{
    let rs = mission.robots;
    lemma_robot_lines(rs);
    lemma_number_of_decimal(mission.max_x);
    lemma_number_of_decimal(mission.max_y);
    let dx = decimal(mission.max_x as nat);
    let dy = decimal(mission.max_y as nat);
    let g = dx + seq![' '] + dy;
    assert(canonical_text(mission) =~= g + seq!['\n'] + robots_text(rs));
    lemma_split_concat(g, robots_text(rs), '\n');
    assert(!g.contains('\n')) by {
        if g.contains('\n') {
            let i = choose|i: int| 0 <= i < g.len() && g[i] == '\n';
            if i < dx.len() {
                assert(g[i] == dx[i]);
            } else if i > dx.len() {
                assert(g[i] == dy[i - dx.len() - 1]);
            }
        }
    }
    lemma_split_single(g, '\n');
    let pieces = split(canonical_text(mission), '\n');
    let all = seq![g] + robot_lines(rs);
    assert(pieces =~= all.push(seq![]));
    let stripped = pieces.map_values(|piece: Seq<char>| strip_cr(piece));
    assert(stripped.last().len() == 0);
    assert(g.last() == dy.last());
    assert forall|i: int| 0 <= i < all.len() implies #[trigger] strip_cr(all[i]) == all[i] by {
        if i > 0 {
            let j = i - 1;
            let k = j / 2;
            assert(all[i] == robot_lines(rs)[j]);
            assert(plain_robot(rs[k]));
            assert(robot_lines(rs)[2 * k] == position_line_of(rs[k]));
            assert(robot_lines(rs)[2 * k + 1] == rs[k].steps);
            if j % 2 == 0 {
                assert(j == 2 * k);
                lemma_position_line(rs[k]);
            } else {
                assert(j == 2 * k + 1);
            }
        } else {
            assert(all[0] == g);
        }
    }
    assert(stripped.drop_last() =~= all);
}

/// The robots read from line `1 + 2 * k` on are the robots from `k` on.
proof fn lemma_robots_read(mission: MissionModel, k: int)
    requires
        plain_mission(mission),
        0 <= k <= mission.robots.len(),
    ensures
        robots_from(seq![decimal(mission.max_x as nat) + seq![' '] + decimal(mission.max_y as nat)] + robot_lines(mission.robots), 1 + 2 * k)
            == Ok::<Seq<RobotModel>, Seq<char>>(mission.robots.skip(k)),
    decreases mission.robots.len() - k,
{
    let rs = mission.robots;
    let lines = seq![decimal(mission.max_x as nat) + seq![' '] + decimal(mission.max_y as nat)] + robot_lines(rs);
    lemma_robot_lines(rs);
    let at = 1 + 2 * k;
    if k == rs.len() {
        assert(skip_blank(lines, at) == at);
        assert(rs.skip(k) =~= Seq::<RobotModel>::empty());
    } else {
        let r = rs[k];
        lemma_position_line(r);
        lemma_number_of_decimal(r.x);
        lemma_number_of_decimal(r.y);
        assert(robot_lines(rs)[2 * k] == position_line_of(r));
        assert(robot_lines(rs)[2 * k + 1] == r.steps);
        assert(lines[at] == position_line_of(r));
        assert(lines[at + 1] == r.steps);
        assert(skip_blank(lines, at) == at);
        assert(trim_blanks(r.steps) == r.steps);
        assert(robot_of(lines[at], lines[at + 1]) == Ok::<RobotModel, Seq<char>>(r));
        lemma_robots_read(mission, k + 1);
        assert(rs.skip(k) =~= seq![r] + rs.skip(k + 1));
    }
}

/// A mission written the canonical way reads back as itself, whenever each
/// robot's orientation and instructions can stand on their lines.
pub proof fn law_a_canonical_mission_reads_back_as_itself(mission: MissionModel)
    requires
        plain_mission(mission),
    ensures
        read_mission(encode_utf8(canonical_text(mission))) == Ok::<MissionModel, Seq<char>>(mission),
{
    let text = canonical_text(mission);
    encode_utf8_valid_utf8(text);
    encode_utf8_decode_utf8(text);
    lemma_canonical_read_lines(mission);
    let dx = decimal(mission.max_x as nat);
    let dy = decimal(mission.max_y as nat);
    let g = dx + seq![' '] + dy;
    let lines = seq![g] + robot_lines(mission.robots);
    lemma_number_of_decimal(mission.max_x);
    lemma_number_of_decimal(mission.max_y);
    assert(lines[0] == g);
    assert(!is_blank(g)) by {
        assert(g[0] == dx[0]);
    }
    assert(skip_blank(lines, 0) == 0);
    lemma_two_tokens(dx, dy);
    lemma_robots_read(mission, 0);
    assert(mission.robots.skip(0) =~= mission.robots);
}

/// Whether a text is nothing but spaces and tabs.
pub open spec fn all_blank(r: Seq<char>) -> bool {
    forall|i: int| 0 <= i < r.len() ==> is_blank_char(#[trigger] r[i])
}

proof fn lemma_tokens_of_nothing()
    ensures
        tokens(Seq::<char>::empty()) == Seq::<Seq<char>>::empty(),
{
    let pieces = seq![Seq::<char>::empty()];
    assert(split_blanks(Seq::<char>::empty()) =~= pieces);
    assert(pieces.drop_last() =~= Seq::<Seq<char>>::empty());
    assert(pieces.last().len() == 0);
    assert(nonempty(pieces) == nonempty(pieces.drop_last()));
    assert(nonempty(Seq::<Seq<char>>::empty()) == Seq::<Seq<char>>::empty());
}

/// A blank between two texts separates their tokens.
proof fn lemma_tokens_at_blank(x: Seq<char>, c: char, y: Seq<char>)
    requires
        is_blank_char(c),
    ensures
        tokens(x + seq![c] + y) == tokens(x) + tokens(y),
{
    lemma_split_blanks_concat(x, c, y);
    lemma_nonempty_concat(split_blanks(x), split_blanks(y));
}

/// Blanks before a text add no token.
proof fn lemma_tokens_after_blanks(r: Seq<char>, y: Seq<char>)
    requires
        all_blank(r),
    ensures
        tokens(r + y) == tokens(y),
    decreases r.len(),
{
    if r.len() == 0 {
        assert(r + y =~= y);
    } else {
        let rest = r.skip(1);
        assert(all_blank(rest)) by {
            assert forall|i: int| 0 <= i < rest.len() implies is_blank_char(#[trigger] rest[i]) by {
                assert(rest[i] == r[i + 1]);
            }
        }
        assert(is_blank_char(r[0]));
        assert(r + y =~= Seq::<char>::empty() + seq![r[0]] + (rest + y));
        lemma_tokens_at_blank(Seq::<char>::empty(), r[0], rest + y);
        lemma_tokens_of_nothing();
        lemma_tokens_after_blanks(rest, y);
        assert(Seq::<Seq<char>>::empty() + tokens(rest + y) =~= tokens(rest + y));
    }
}

/// Blanks after a text add no token.
proof fn lemma_tokens_before_blanks(x: Seq<char>, r: Seq<char>)
    requires
        all_blank(r),
    ensures
        tokens(x + r) == tokens(x),
{
    if r.len() == 0 {
        assert(x + r =~= x);
    } else {
        let rest = r.skip(1);
        assert(all_blank(rest)) by {
            assert forall|i: int| 0 <= i < rest.len() implies is_blank_char(#[trigger] rest[i]) by {
                assert(rest[i] == r[i + 1]);
            }
        }
        assert(is_blank_char(r[0]));
        assert(x + r =~= x + seq![r[0]] + rest);
        lemma_tokens_at_blank(x, r[0], rest);
        lemma_tokens_after_blanks(rest, Seq::<char>::empty());
        assert(rest + Seq::<char>::empty() =~= rest);
        lemma_tokens_of_nothing();
        assert(tokens(x) + Seq::<Seq<char>>::empty() =~= tokens(x));
    }
}

/// A run of at least one blank between two texts separates their tokens.
proof fn lemma_tokens_across_run(x: Seq<char>, r: Seq<char>, y: Seq<char>)
    requires
        r.len() > 0,
        all_blank(r),
    ensures
        tokens(x + r + y) == tokens(x) + tokens(y),
{
    let rest = r.skip(1);
    assert(all_blank(rest)) by {
        assert forall|i: int| 0 <= i < rest.len() implies is_blank_char(#[trigger] rest[i]) by {
            assert(rest[i] == r[i + 1]);
        }
    }
    assert(is_blank_char(r[0]));
    assert(x + r + y =~= x + seq![r[0]] + (rest + y));
    lemma_tokens_at_blank(x, r[0], rest + y);
    lemma_tokens_after_blanks(rest, y);
}

/// A non-empty text without blanks is one token.
proof fn lemma_one_token(x: Seq<char>)
    requires
        x.len() > 0,
        blank_free(x),
    ensures
        tokens(x) == seq![x],
{
    lemma_split_blanks_single(x);
    lemma_nonempty_of_words(seq![x]);
}

/// Blanks at both ends of a line are trimmed away, and nothing else.
proof fn lemma_trim_edges(r1: Seq<char>, s: Seq<char>, r2: Seq<char>)
    requires
        all_blank(r1),
        all_blank(r2),
        s.len() > 0 ==> !is_blank_char(s[0]) && !is_blank_char(s.last()),
    ensures
        trim_blanks(r1 + s + r2) == s,
    decreases r1.len() + r2.len() + s.len(),
{
    let line = r1 + s + r2;
    if r1.len() > 0 {
        assert(line[0] == r1[0]);
        let rest = r1.skip(1);
        assert(all_blank(rest)) by {
            assert forall|i: int| 0 <= i < rest.len() implies is_blank_char(#[trigger] rest[i]) by {
                assert(rest[i] == r1[i + 1]);
            }
        }
        assert(line.skip(1) =~= rest + s + r2);
        lemma_trim_edges(rest, s, r2);
    } else if s.len() > 0 {
        assert(line[0] == s[0]);
        if r2.len() > 0 {
            assert(line.last() == r2.last());
            assert(is_blank_char(r2[r2.len() - 1]));
            let front = r2.drop_last();
            assert(all_blank(front)) by {
                assert forall|i: int| 0 <= i < front.len() implies is_blank_char(#[trigger] front[i]) by {
                    assert(front[i] == r2[i]);
                }
            }
            assert(line.drop_last() =~= r1 + s + front);
            lemma_trim_edges(r1, s, front);
        } else {
            assert(line =~= s);
            assert(line.last() == s.last());
        }
    } else if r2.len() > 0 {
        assert(line =~= r2);
        assert(line[0] == r2[0]);
        let rest = r2.skip(1);
        assert(all_blank(rest)) by {
            assert forall|i: int| 0 <= i < rest.len() implies is_blank_char(#[trigger] rest[i]) by {
                assert(rest[i] == r2[i + 1]);
            }
        }
        assert(line.skip(1) =~= r1 + s + rest);
        lemma_trim_edges(r1, s, rest);
    } else {
        assert(line =~= s);
    }
}

/// Leading zeros do not change the value of digits.
proof fn lemma_zeros_value(n: nat, d: Seq<char>)
    ensures
        digits_value(crate::spelling::repeated('0', n) + d) == digits_value(d),
        all_digits(d) ==> all_digits(crate::spelling::repeated('0', n) + d),
    decreases d.len(), n,
{
    let z = crate::spelling::repeated('0', n);
    lemma_repeated_zeros(n);
    if d.len() == 0 {
        assert(z + d =~= z);
        lemma_zeros_only(n);
    } else {
        assert((z + d).drop_last() =~= z + d.drop_last());
        assert((z + d).last() == d.last());
        lemma_zeros_value(n, d.drop_last());
        if all_digits(d) {
            assert(all_digits(d.drop_last())) by {
                assert forall|i: int| 0 <= i < d.drop_last().len() implies is_digit(#[trigger] d.drop_last()[i]) by {
                    assert(d.drop_last()[i] == d[i]);
                }
            }
            assert forall|i: int| 0 <= i < (z + d).len() implies is_digit(#[trigger] (z + d)[i]) by {
                if i < z.len() {
                    assert((z + d)[i] == z[i]);
                } else {
                    assert((z + d)[i] == d[i - z.len()]);
                }
            }
        }
    }
}

proof fn lemma_repeated_zeros(n: nat)
    ensures
        crate::spelling::repeated('0', n).len() == n,
        forall|i: int| 0 <= i < n ==> #[trigger] crate::spelling::repeated('0', n)[i] == '0',
    decreases n,
{
    if n > 0 {
        lemma_repeated_zeros((n - 1) as nat);
        let z = crate::spelling::repeated('0', n);
        assert forall|i: int| 0 <= i < n implies #[trigger] z[i] == '0' by {
            if i < n - 1 {
                assert(z[i] == crate::spelling::repeated('0', (n - 1) as nat)[i]);
            }
        }
    }
}

proof fn lemma_zeros_only(n: nat)
    ensures
        digits_value(crate::spelling::repeated('0', n)) == 0,
    decreases n,
{
    if n > 0 {
        lemma_zeros_only((n - 1) as nat);
        lemma_digit(0);
        assert(crate::spelling::repeated('0', n).drop_last() =~= crate::spelling::repeated('0', (n - 1) as nat));
    }
}

/// A number with leading zeros reads back as the number.
proof fn lemma_number_with_zeros(n: nat, v: u32)
    ensures
        number_of(crate::spelling::repeated('0', n) + decimal(v as nat)) == Ok::<u32, Seq<char>>(v),
        blank_free(crate::spelling::repeated('0', n) + decimal(v as nat)),
        (crate::spelling::repeated('0', n) + decimal(v as nat)).len() > 0,
        !(crate::spelling::repeated('0', n) + decimal(v as nat)).contains('\n'),
        (crate::spelling::repeated('0', n) + decimal(v as nat)).last() != '\r',
{
    let z = crate::spelling::repeated('0', n);
    let d = decimal(v as nat);
    let t = z + d;
    lemma_decimal(v as nat);
    lemma_zeros_value(n, d);
    assert(is_digit(t[0]));
    assert(unsigned_digits(t) == t);
    assert forall|i: int| 0 <= i < t.len() implies !is_blank_char(#[trigger] t[i]) by {
        assert(is_digit(t[i]));
    }
    if t.contains('\n') {
        let i = choose|i: int| 0 <= i < t.len() && t[i] == '\n';
        assert(is_digit(t[i]));
    }
    assert(t.last() == d.last());
    assert(is_digit(d[d.len() - 1]));
}

/// After a text that ends with the separator, what follows splits on its
/// own.
pub(crate) proof fn lemma_split_after_separator(a: Seq<char>, b: Seq<char>, sep: char)
    requires
        a.len() > 0,
        a.last() == sep,
    ensures
        split(a + b, sep) == split(a, sep).drop_last() + split(b, sep),
{
    let front = a.drop_last();
    assert(a =~= front + seq![sep] + Seq::<char>::empty());
    lemma_split_concat(front, Seq::<char>::empty(), sep);
    assert(split(Seq::<char>::empty(), sep) =~= seq![Seq::<char>::empty()]);
    assert(split(a, sep).drop_last() =~= split(front, sep));
    assert(a + b =~= front + seq![sep] + b);
    lemma_split_concat(front, b, sep);
}

/// The first `n` lines, each followed by `tail`.
pub open spec fn each_with(lines: Seq<Seq<char>>, tail: Seq<char>, n: nat) -> Seq<Seq<char>>
    decreases n,
{
    if n == 0 { seq![] } else { each_with(lines, tail, (n - 1) as nat).push(lines[n - 1] + tail) }
}

/// Whether a line can stand on its own in a text: no LF inside it, and no CR
/// at its end.
pub open spec fn standalone(line: Seq<char>) -> bool {
    !line.contains('\n') && !(line.len() > 0 && line.last() == '\r')
}

/// The carriage return a line ending carries before its LF, if any.
pub open spec fn cr_of(ending: Seq<char>) -> Seq<char> {
    if ending.len() == 2 { seq!['\r'] } else { seq![] }
}

proof fn lemma_terminated_full(lines: Seq<Seq<char>>, ending: Seq<char>, omit: bool, n: nat)
    requires
        ending == "\n"@ || ending == "\r\n"@,
        n <= lines.len(),
        n < lines.len() || !omit || n == 0 || is_blank(lines[n - 1]),
        forall|i: int| 0 <= i < lines.len() ==> standalone(#[trigger] lines[i]),
    ensures
        split(terminated(lines, ending, omit, n), '\n') == each_with(lines, cr_of(ending), n).push(seq![]),
        n > 0 ==> terminated(lines, ending, omit, n).len() > 0 && terminated(lines, ending, omit, n).last() == '\n',
    decreases n,
{
    reveal_strlit("\n");
    reveal_strlit("\r\n");
    let cr = cr_of(ending);
    assert(ending =~= cr + seq!['\n']);
    if n == 0 {
        assert(split(Seq::<char>::empty(), '\n') =~= seq![Seq::<char>::empty()]);
    } else {
        let line = lines[n - 1];
        assert(standalone(line));
        let piece = line + cr;
        assert(!piece.contains('\n')) by {
            if piece.contains('\n') {
                let i = choose|i: int| 0 <= i < piece.len() && piece[i] == '\n';
                if i < line.len() {
                    assert(piece[i] == line[i]);
                }
            }
        }
        lemma_split_single(piece, '\n');
        let block = piece + seq!['\n'] + Seq::<char>::empty();
        lemma_split_concat(piece, Seq::<char>::empty(), '\n');
        assert(split(Seq::<char>::empty(), '\n') =~= seq![Seq::<char>::empty()]);
        assert(split(block, '\n') =~= seq![piece, Seq::<char>::empty()]);
        let before = terminated(lines, ending, omit, (n - 1) as nat);
        assert(terminated(lines, ending, omit, n) == before + line + ending);
        assert(before + line + ending =~= before + block);
        if n == 1 {
            assert(before =~= Seq::<char>::empty());
            assert(before + block =~= block);
            assert(each_with(lines, cr, 1) =~= seq![piece]);
        } else {
            lemma_terminated_full(lines, ending, omit, (n - 1) as nat);
            lemma_split_after_separator(before, block, '\n');
            assert(each_with(lines, cr, (n - 1) as nat).push(seq![]).drop_last() =~= each_with(lines, cr, (n - 1) as nat));
        }
        assert(block.last() == '\n');
        assert((before + block).last() == '\n');
    }
}

proof fn lemma_strip_each(lines: Seq<Seq<char>>, ending: Seq<char>, n: nat)
    requires
        ending == "\n"@ || ending == "\r\n"@,
        n <= lines.len(),
        forall|i: int| 0 <= i < lines.len() ==> standalone(#[trigger] lines[i]),
    ensures
        each_with(lines, cr_of(ending), n).map_values(|piece: Seq<char>| strip_cr(piece)) == lines.take(n as int),
    decreases n,
{
    reveal_strlit("\n");
    reveal_strlit("\r\n");
    let cr = cr_of(ending);
    if n == 0 {
        assert(each_with(lines, cr, 0).map_values(|piece: Seq<char>| strip_cr(piece)) =~= lines.take(0));
    } else {
        lemma_strip_each(lines, ending, (n - 1) as nat);
        let line = lines[n - 1];
        assert(standalone(line));
        let piece = line + cr;
        if cr.len() == 1 {
            assert(piece.drop_last() =~= line);
            assert(strip_cr(piece) == line);
        } else {
            assert(piece =~= line);
        }
        let before = each_with(lines, cr, (n - 1) as nat);
        assert(each_with(lines, cr, n).map_values(|piece: Seq<char>| strip_cr(piece))
            =~= before.map_values(|piece: Seq<char>| strip_cr(piece)).push(strip_cr(piece)));
        assert(lines.take(n as int) =~= lines.take(n - 1).push(line));
    }
}

/// Lines ended the way a spelling ends them read back as the lines.
proof fn lemma_read_terminated(lines: Seq<Seq<char>>, ending: Seq<char>, omit: bool)
    requires
        ending == "\n"@ || ending == "\r\n"@,
        forall|i: int| 0 <= i < lines.len() ==> standalone(#[trigger] lines[i]),
    ensures
        read_lines(terminated(lines, ending, omit, lines.len())) == lines,
{
    let n = lines.len();
    let cr = cr_of(ending);
    let text = terminated(lines, ending, omit, n);
    if n == 0 || !omit || is_blank(lines[n - 1]) {
        lemma_terminated_full(lines, ending, omit, n);
        lemma_strip_each(lines, ending, n);
        let pieces = split(text, '\n').map_values(|piece: Seq<char>| strip_cr(piece));
        assert(pieces =~= each_with(lines, cr, n).map_values(|piece: Seq<char>| strip_cr(piece)).push(seq![]));
        assert(pieces.drop_last() =~= lines.take(n as int));
        assert(lines.take(n as int) =~= lines);
    } else {
        let last = lines[n - 1];
        assert(standalone(last));
        assert(last.len() > 0);
        assert(text == terminated(lines, ending, omit, (n - 1) as nat) + last);
        lemma_split_single(last, '\n');
        lemma_strip_each(lines, ending, (n - 1) as nat);
        if n == 1 {
            assert(terminated(lines, ending, omit, 0) =~= Seq::<char>::empty());
            assert(text =~= last);
            assert(split(text, '\n') =~= seq![last]);
        } else {
            lemma_terminated_full(lines, ending, omit, (n - 1) as nat);
            lemma_split_after_separator(terminated(lines, ending, omit, (n - 1) as nat), last, '\n');
            assert(each_with(lines, cr, (n - 1) as nat).push(seq![]).drop_last() =~= each_with(lines, cr, (n - 1) as nat));
            assert(split(text, '\n') =~= each_with(lines, cr, (n - 1) as nat).push(last));
        }
        assert(each_with(lines, cr, 0) =~= Seq::<Seq<char>>::empty());
        assert(split(text, '\n') =~= each_with(lines, cr, (n - 1) as nat).push(last));
        let pieces = split(text, '\n').map_values(|piece: Seq<char>| strip_cr(piece));
        assert(strip_cr(last) == last);
        assert(pieces =~= lines.take(n - 1).push(last));
        assert(lines.take(n - 1).push(last) =~= lines);
        assert(pieces.last().len() > 0);
    }
}

/// Whether a spelling writes what the contract admits: at least one of each
/// per-line choice, separator runs of one or more spaces and tabs, and edges
/// of spaces and tabs only.
pub open spec fn legal_spelling(sp: SpellingModel) -> bool {
    &&& cycles(sp)
    &&& forall|i: int| 0 <= i < sp.runs.len() ==> (#[trigger] sp.runs[i]).len() > 0 && all_blank(sp.runs[i])
    &&& forall|i: int| 0 <= i < sp.leading.len() ==> all_blank(#[trigger] sp.leading[i])
    &&& forall|i: int| 0 <= i < sp.trailing.len() ==> all_blank(#[trigger] sp.trailing[i])
}

proof fn lemma_blank_standalone(r: Seq<char>)
    requires
        all_blank(r),
    ensures
        standalone(r),
        is_blank(r),
{
    if r.contains('\n') {
        let i = choose|i: int| 0 <= i < r.len() && r[i] == '\n';
        assert(is_blank_char(r[i]));
    }
    if r.len() > 0 {
        assert(is_blank_char(r[r.len() - 1]));
    }
}

/// A line between blank edges stands alone when its content does.
proof fn lemma_wrapped_standalone(sp: SpellingModel, line: nat, content: Seq<char>)
    requires
        legal_spelling(sp),
        standalone(content),
    ensures
        standalone(wrapped(sp, line, content)),
{
    let lead = sp.leading[(line % sp.leading.len()) as int];
    let trail = sp.trailing[(line % sp.trailing.len()) as int];
    assert(all_blank(lead));
    assert(all_blank(trail));
    let w = lead + content + trail;
    lemma_blank_standalone(lead);
    lemma_blank_standalone(trail);
    if w.contains('\n') {
        let i = choose|i: int| 0 <= i < w.len() && w[i] == '\n';
        if i < lead.len() {
            assert(w[i] == lead[i]);
            assert(is_blank_char(lead[i]));
        } else if i < lead.len() + content.len() {
            assert(w[i] == content[i - lead.len()]);
        } else {
            assert(w[i] == trail[i - lead.len() - content.len()]);
            assert(is_blank_char(trail[i - lead.len() - content.len()]));
        }
    }
    if w.len() > 0 {
        if trail.len() > 0 {
            assert(w.last() == trail.last());
            assert(is_blank_char(trail[trail.len() - 1]));
        } else if content.len() > 0 {
            assert(w.last() == content.last());
        } else {
            assert(w.last() == lead.last());
            assert(is_blank_char(lead[lead.len() - 1]));
        }
    }
}

/// What a spelled position line is made of.
proof fn lemma_spelled_position(sp: SpellingModel, robot: RobotModel, line: nat)
    requires
        legal_spelling(sp),
        plain_robot(robot),
    ensures
        tokens(crate::spelling::position_line(sp, robot, line)) == seq![
            number_text(sp, line, robot.x),
            number_text(sp, line, robot.y),
            seq![robot.facing],
        ],
        !is_blank(crate::spelling::position_line(sp, robot, line)),
        standalone(crate::spelling::position_line(sp, robot, line)),
{
    let zx = number_text(sp, line, robot.x);
    let zy = number_text(sp, line, robot.y);
    let f = seq![robot.facing];
    let run = run_of(sp, line);
    let lead = sp.leading[(line % sp.leading.len()) as int];
    let trail = sp.trailing[(line % sp.trailing.len()) as int];
    assert(run.len() > 0 && all_blank(run));
    assert(all_blank(lead));
    assert(all_blank(trail));
    lemma_number_with_zeros(sp.zeros[(line % sp.zeros.len()) as int] as nat, robot.x);
    lemma_number_with_zeros(sp.zeros[(line % sp.zeros.len()) as int] as nat, robot.y);
    let content = zx + run + zy + run + f;
    let w = crate::spelling::position_line(sp, robot, line);
    assert(w =~= lead + content + trail);
    assert(w =~= (lead + zx) + run + (zy + run + (f + trail)));
    lemma_tokens_across_run(lead + zx, run, zy + run + (f + trail));
    assert(zy + run + (f + trail) =~= zy + run + (f + trail));
    lemma_tokens_across_run(zy, run, f + trail);
    lemma_tokens_after_blanks(lead, zx);
    lemma_tokens_before_blanks(f, trail);
    assert(blank_free(f));
    lemma_one_token(zx);
    lemma_one_token(zy);
    lemma_one_token(f);
    assert(seq![zx] + (seq![zy] + seq![f]) =~= seq![zx, zy, f]);
    assert(!is_blank(w)) by {
        assert(w[lead.len() as int] == zx[0]);
        assert(!is_blank_char(zx[0]));
    }
    assert(standalone(content)) by {
        if content.contains('\n') {
            let i = choose|i: int| 0 <= i < content.len() && content[i] == '\n';
            if i < zx.len() {
                assert(content[i] == zx[i]);
            } else if i < zx.len() + run.len() {
                assert(content[i] == run[i - zx.len()]);
                assert(is_blank_char(run[i - zx.len()]));
            } else if i < zx.len() + run.len() + zy.len() {
                assert(content[i] == zy[i - zx.len() - run.len()]);
            } else if i < zx.len() + run.len() + zy.len() + run.len() {
                assert(content[i] == run[i - zx.len() - run.len() - zy.len()]);
                assert(is_blank_char(run[i - zx.len() - run.len() - zy.len()]));
            } else {
                assert(content[i] == robot.facing);
            }
        }
        assert(content.last() == robot.facing);
    }
    lemma_wrapped_standalone(sp, line, content);
}

/// What a spelled grid line is made of.
proof fn lemma_spelled_grid(sp: SpellingModel, mission: MissionModel)
    requires
        legal_spelling(sp),
    ensures
        tokens(crate::spelling::grid_line(sp, mission)) == seq![
            number_text(sp, 0, mission.max_x),
            number_text(sp, 0, mission.max_y),
        ],
        !is_blank(crate::spelling::grid_line(sp, mission)),
        standalone(crate::spelling::grid_line(sp, mission)),
{
    let zx = number_text(sp, 0, mission.max_x);
    let zy = number_text(sp, 0, mission.max_y);
    let run = run_of(sp, 0);
    let lead = sp.leading[(0nat % sp.leading.len()) as int];
    let trail = sp.trailing[(0nat % sp.trailing.len()) as int];
    assert(run.len() > 0 && all_blank(run));
    assert(all_blank(lead));
    assert(all_blank(trail));
    lemma_number_with_zeros(sp.zeros[(0nat % sp.zeros.len()) as int] as nat, mission.max_x);
    lemma_number_with_zeros(sp.zeros[(0nat % sp.zeros.len()) as int] as nat, mission.max_y);
    let content = zx + run + zy;
    let w = crate::spelling::grid_line(sp, mission);
    assert(w =~= lead + content + trail);
    assert(w =~= (lead + zx) + run + (zy + trail));
    lemma_tokens_across_run(lead + zx, run, zy + trail);
    lemma_tokens_after_blanks(lead, zx);
    lemma_tokens_before_blanks(zy, trail);
    lemma_one_token(zx);
    lemma_one_token(zy);
    assert(seq![zx] + seq![zy] =~= seq![zx, zy]);
    assert(!is_blank(w)) by {
        assert(w[lead.len() as int] == zx[0]);
        assert(!is_blank_char(zx[0]));
    }
    assert(standalone(content)) by {
        if content.contains('\n') {
            let i = choose|i: int| 0 <= i < content.len() && content[i] == '\n';
            if i < zx.len() {
                assert(content[i] == zx[i]);
            } else if i < zx.len() + run.len() {
                assert(content[i] == run[i - zx.len()]);
                assert(is_blank_char(run[i - zx.len()]));
            } else {
                assert(content[i] == zy[i - zx.len() - run.len()]);
            }
        }
        assert(content.last() == zy.last());
    }
    lemma_wrapped_standalone(sp, 0, content);
}

/// What a spelled instruction line is made of.
proof fn lemma_spelled_instructions(sp: SpellingModel, robot: RobotModel, line: nat)
    requires
        legal_spelling(sp),
        plain_robot(robot),
    ensures
        trim_blanks(crate::spelling::instruction_line(sp, robot, line)) == robot.steps,
        standalone(crate::spelling::instruction_line(sp, robot, line)),
{
    let lead = sp.leading[(line % sp.leading.len()) as int];
    let trail = sp.trailing[(line % sp.trailing.len()) as int];
    assert(all_blank(lead));
    assert(all_blank(trail));
    lemma_trim_edges(lead, robot.steps, trail);
    lemma_wrapped_standalone(sp, line, robot.steps);
}

pub(crate) proof fn lemma_blank_lines(sp: SpellingModel, n: nat)
    ensures
        blank_lines(sp, n).len() == n,
        forall|i: int| 0 <= i < n ==> #[trigger] blank_lines(sp, n)[i] == blank_line(sp),
    decreases n,
{
    if n > 0 {
        lemma_blank_lines(sp, (n - 1) as nat);
        assert forall|i: int| 0 <= i < n implies #[trigger] blank_lines(sp, n)[i] == blank_line(sp) by {
            if i < n - 1 {
                assert(blank_lines(sp, n)[i] == blank_lines(sp, (n - 1) as nat)[i]);
            }
        }
    }
}

pub(crate) proof fn lemma_blank_line(sp: SpellingModel)
    ensures
        all_blank(blank_line(sp)),
        standalone(blank_line(sp)),
        is_blank(blank_line(sp)),
{
    reveal_strlit("  ");
    let b = blank_line(sp);
    assert(all_blank(b)) by {
        assert forall|i: int| 0 <= i < b.len() implies is_blank_char(#[trigger] b[i]) by {
            assert("  "@[0] == ' ');
            assert("  "@[1] == ' ');
        }
    }
    lemma_blank_standalone(b);
}

/// How many blank lines follow robot `k`'s block.
pub open spec fn blanks_after(sp: SpellingModel, robots: Seq<RobotModel>, k: int) -> nat {
    if k + 1 < robots.len() { sp.blanks_after_block[k % sp.blanks_after_block.len() as int] as nat } else { 0 }
}

pub(crate) proof fn lemma_block_shape(sp: SpellingModel, robots: Seq<RobotModel>, k: int)
    requires
        0 <= k < robots.len(),
        cycles(sp),
    ensures
        ({
            let b = block(sp, robots[k], k as nat, k + 1 < robots.len());
            &&& b.len() == 2 + blanks_after(sp, robots, k)
            &&& b[0] == crate::spelling::position_line(sp, robots[k], (1 + 2 * k) as nat)
            &&& b[1] == crate::spelling::instruction_line(sp, robots[k], (2 + 2 * k) as nat)
            &&& forall|j: int| 2 <= j < b.len() ==> #[trigger] b[j] == blank_line(sp)
        }),
{
    let b = block(sp, robots[k], k as nat, k + 1 < robots.len());
    let more = if k + 1 < robots.len() {
        blank_lines(sp, sp.blanks_after_block[((k as nat) % sp.blanks_after_block.len()) as int] as nat)
    } else {
        seq![]
    };
    lemma_blank_lines(sp, blanks_after(sp, robots, k));
    assert((k as nat) % sp.blanks_after_block.len() == k % sp.blanks_after_block.len() as int);
    assert forall|j: int| 2 <= j < b.len() implies #[trigger] b[j] == blank_line(sp) by {
        assert(b[j] == more[j - 2]);
    }
}

proof fn lemma_blocks_len(sp: SpellingModel, robots: Seq<RobotModel>, m: nat)
    requires
        m <= robots.len(),
        cycles(sp),
    ensures
        m > 0 ==> blocks(sp, robots, m).len() == blocks(sp, robots, (m - 1) as nat).len() + 2 + blanks_after(sp, robots, m - 1),
    decreases m,
{
    if m > 0 {
        lemma_block_shape(sp, robots, m - 1);
    }
}

/// The lines of block `k` stand where the blocks before it end.
proof fn lemma_blocks_index(sp: SpellingModel, robots: Seq<RobotModel>, k: int, m: nat, j: int)
    requires
        cycles(sp),
        0 <= k < m <= robots.len(),
        0 <= j < 2 + blanks_after(sp, robots, k),
    ensures
        blocks(sp, robots, m).len() >= blocks(sp, robots, (k + 1) as nat).len(),
        blocks(sp, robots, m)[blocks(sp, robots, k as nat).len() + j] == block(sp, robots[k], k as nat, k + 1 < robots.len())[j],
    decreases m,
{
    lemma_block_shape(sp, robots, k);
    lemma_blocks_len(sp, robots, m);
    if m == k + 1 {
        assert(blocks(sp, robots, m) == blocks(sp, robots, k as nat) + block(sp, robots[k], k as nat, k + 1 < robots.len()));
    } else {
        lemma_blocks_index(sp, robots, k, (m - 1) as nat, j);
        assert(blocks(sp, robots, m) == blocks(sp, robots, (m - 1) as nat) + block(sp, robots[m - 1], (m - 1) as nat, m < robots.len()));
        lemma_blocks_len(sp, robots, (k + 1) as nat);
    }
}

/// The first line at or after `a` that is not blank, found by looking.
proof fn lemma_skip_to(lines: Seq<Seq<char>>, a: int, b: int)
    requires
        0 <= a <= b <= lines.len(),
        forall|i: int| a <= i < b ==> is_blank(#[trigger] lines[i]),
        b == lines.len() || !is_blank(lines[b]),
    ensures
        skip_blank(lines, a) == b,
    decreases b - a,
{
    if a < b {
        assert(is_blank(lines[a]));
        lemma_skip_to(lines, a + 1, b);
    }
}

/// Reading robots from two lines that skip to the same line reads the same.
proof fn lemma_robots_from_same_start(lines: Seq<Seq<char>>, a: int, b: int)
    requires
        0 <= a <= lines.len(),
        0 <= b <= lines.len(),
        skip_blank(lines, a) == skip_blank(lines, b),
    ensures
        robots_from(lines, a) == robots_from(lines, b),
{
}

/// Reading a spelled mission's blocks from block `k` on gives its robots from
/// `k` on.
proof fn lemma_spelled_robots(sp: SpellingModel, mission: MissionModel, head: Seq<Seq<char>>, k: int)
    requires
        legal_spelling(sp),
        plain_mission(mission),
        0 <= k <= mission.robots.len(),
    ensures
        ({
            let rs = mission.robots;
            let lines = head + blocks(sp, rs, rs.len());
            robots_from(lines, (head.len() + blocks(sp, rs, k as nat).len()) as int) == Ok::<Seq<RobotModel>, Seq<char>>(rs.skip(k))
        }),
    decreases mission.robots.len() - k,
{
    let rs = mission.robots;
    let n = rs.len();
    let all = blocks(sp, rs, n);
    let lines = head + all;
    let at = (head.len() + blocks(sp, rs, k as nat).len()) as int;
    if k == n {
        assert(at == lines.len());
        assert(skip_blank(lines, at) == at);
        assert(rs.skip(k) =~= Seq::<RobotModel>::empty());
    } else {
        let r = rs[k];
        assert(plain_robot(r));
        lemma_block_shape(sp, rs, k);
        let b = block(sp, r, k as nat, k + 1 < n);
        lemma_blocks_index(sp, rs, k, n, 0);
        lemma_blocks_index(sp, rs, k, n, 1);
        let pos = crate::spelling::position_line(sp, r, (1 + 2 * k) as nat);
        let ins = crate::spelling::instruction_line(sp, r, (2 + 2 * k) as nat);
        assert(lines[at] == all[blocks(sp, rs, k as nat).len() as int + 0]);
        assert(lines[at] == pos);
        assert(lines[at + 1] == ins);
        lemma_spelled_position(sp, r, (1 + 2 * k) as nat);
        lemma_spelled_instructions(sp, r, (2 + 2 * k) as nat);
        lemma_number_with_zeros(sp.zeros[(((1 + 2 * k) as nat) % sp.zeros.len()) as int] as nat, r.x);
        lemma_number_with_zeros(sp.zeros[(((1 + 2 * k) as nat) % sp.zeros.len()) as int] as nat, r.y);
        lemma_skip_to(lines, at, at);
        assert(robot_of(lines[at], lines[at + 1]) == Ok::<RobotModel, Seq<char>>(r));
        // After the two lines come the blanks, then the next block or the end.
        let next = (head.len() + blocks(sp, rs, (k + 1) as nat).len()) as int;
        lemma_blocks_len(sp, rs, (k + 1) as nat);
        assert(next == at + 2 + blanks_after(sp, rs, k));
        lemma_blank_line(sp);
        assert forall|i: int| at + 2 <= i < next implies is_blank(#[trigger] lines[i]) by {
            lemma_blocks_index(sp, rs, k, n, i - at);
            assert(lines[i] == all[blocks(sp, rs, k as nat).len() as int + (i - at)]);
            assert(b[i - at] == blank_line(sp));
        }
        if k + 1 < n {
            lemma_block_shape(sp, rs, k + 1);
            lemma_blocks_index(sp, rs, k + 1, n, 0);
            assert(lines[next] == all[blocks(sp, rs, (k + 1) as nat).len() as int + 0]);
            lemma_spelled_position(sp, rs[k + 1], (1 + 2 * (k + 1)) as nat);
            assert(!is_blank(lines[next]));
        } else {
            assert(blocks(sp, rs, (k + 1) as nat) == all);
            assert(next == lines.len());
        }
        lemma_blocks_index(sp, rs, k, n, 0);
        assert(next <= lines.len());
        lemma_skip_to(lines, at + 2, next);
        lemma_skip_to(lines, next, next);
        lemma_robots_from_same_start(lines, at + 2, next);
        lemma_spelled_robots(sp, mission, head, k + 1);
        assert(rs.skip(k) =~= seq![r] + rs.skip(k + 1));
    }
}

/// Every spelling the contract admits says the same mission: written down
/// with any runs of spaces and tabs between tokens, any spaces and tabs at the
/// edges of lines, leading zeros, blank lines before the grid and between
/// blocks, LF or CRLF endings, and with or without a final line ending, a
/// mission reads back as itself.
pub proof fn law_every_legal_spelling_says_the_same_mission(mission: MissionModel, sp: SpellingModel)
    requires
        plain_mission(mission),
        legal_spelling(sp),
    ensures
        read_mission(encode_utf8(rendered_text(mission, sp))) == Ok::<MissionModel, Seq<char>>(mission),
{
    reveal_strlit("\n");
    reveal_strlit("\r\n");
    let lines = spelled_lines(mission, sp);
    let rs = mission.robots;
    let bb = sp.blanks_before_grid as nat;
    let head = blank_lines(sp, bb) + seq![grid_line(sp, mission)];
    assert(lines == head + blocks(sp, rs, rs.len()));
    lemma_blank_lines(sp, bb);
    lemma_blank_line(sp);
    lemma_spelled_grid(sp, mission);
    assert forall|i: int| 0 <= i < lines.len() implies standalone(#[trigger] lines[i]) by {
        if i < bb {
            assert(lines[i] == blank_lines(sp, bb)[i]);
        } else if i == bb {
            assert(lines[i] == grid_line(sp, mission));
        } else {
            // A line of some block: find the block it belongs to.
            lemma_line_of_blocks_standalone(sp, mission, i - head.len());
            assert(lines[i] == blocks(sp, rs, rs.len())[i - head.len()]);
        }
    }
    let text = rendered_text(mission, sp);
    encode_utf8_valid_utf8(text);
    encode_utf8_decode_utf8(text);
    lemma_read_terminated(lines, ending_of(sp), sp.omit_final_eol);
    assert(read_lines(text) == lines);
    assert forall|i: int| 0 <= i < bb implies is_blank(#[trigger] lines[i]) by {
        assert(lines[i] == blank_lines(sp, bb)[i]);
    }
    assert(lines[bb as int] == grid_line(sp, mission));
    lemma_skip_to(lines, 0, bb as int);
    let zeros = sp.zeros[(0nat % sp.zeros.len()) as int] as nat;
    lemma_number_with_zeros(zeros, mission.max_x);
    lemma_number_with_zeros(zeros, mission.max_y);
    lemma_spelled_robots(sp, mission, head, 0);
    assert(blocks(sp, rs, 0) =~= Seq::<Seq<char>>::empty());
    assert(rs.skip(0) =~= rs);
}

/// Every line of a spelled mission's blocks stands alone.
proof fn lemma_line_of_blocks_standalone(sp: SpellingModel, mission: MissionModel, j: int)
    requires
        legal_spelling(sp),
        plain_mission(mission),
        0 <= j < blocks(sp, mission.robots, mission.robots.len()).len(),
    ensures
        standalone(blocks(sp, mission.robots, mission.robots.len())[j]),
{
    lemma_blocks_standalone(sp, mission, mission.robots.len());
}

proof fn lemma_blocks_standalone(sp: SpellingModel, mission: MissionModel, m: nat)
    requires
        legal_spelling(sp),
        plain_mission(mission),
        m <= mission.robots.len(),
    ensures
        forall|j: int| 0 <= j < blocks(sp, mission.robots, m).len() ==> standalone(#[trigger] blocks(sp, mission.robots, m)[j]),
    decreases m,
{
    let rs = mission.robots;
    if m > 0 {
        lemma_blocks_standalone(sp, mission, (m - 1) as nat);
        let k = m - 1;
        let r = rs[k];
        assert(plain_robot(r));
        lemma_block_shape(sp, rs, k);
        lemma_spelled_position(sp, r, (1 + 2 * k) as nat);
        lemma_spelled_instructions(sp, r, (2 + 2 * k) as nat);
        lemma_blank_line(sp);
        let before = blocks(sp, rs, (m - 1) as nat);
        let b = block(sp, r, k as nat, k + 1 < rs.len());
        assert(blocks(sp, rs, m) == before + b);
        assert forall|j: int| 0 <= j < blocks(sp, rs, m).len() implies standalone(#[trigger] blocks(sp, rs, m)[j]) by {
            if j < before.len() {
                assert(blocks(sp, rs, m)[j] == before[j]);
            } else {
                assert(blocks(sp, rs, m)[j] == b[j - before.len()]);
            }
        }
    }
}

/// Every item picked comes from the pool.
pub(crate) proof fn lemma_picks_from_pool<T>(state: u64, pool: Seq<T>, n: nat)
    requires
        pool.len() > 0,
    ensures
        crate::drawing::picks(state, pool, n).0.len() == n,
        forall|i: int| 0 <= i < n ==> pool.contains(#[trigger] crate::drawing::picks(state, pool, n).0[i]),
    decreases n,
{
    if n > 0 {
        lemma_picks_from_pool(state, pool, (n - 1) as nat);
        let (done, at) = crate::drawing::picks(state, pool, (n - 1) as nat);
        let bound = crate::rng::pick_bound(pool.len());
        let k = crate::rng::below_value(at, bound) as int;
        assert(0 <= k < pool.len());
        assert(pool.contains(pool[k]));
        assert forall|i: int| 0 <= i < n implies pool.contains(#[trigger] crate::drawing::picks(state, pool, n).0[i]) by {
            if i < n - 1 {
                assert(crate::drawing::picks(state, pool, n).0[i] == done[i]);
            }
        }
    }
}

proof fn lemma_belows_len(state: u64, bound: u32, n: nat)
    ensures
        crate::spelling::belows(state, bound, n).0.len() == n,
    decreases n,
{
    if n > 0 {
        lemma_belows_len(state, bound, (n - 1) as nat);
    }
}

/// Every spelling the generator draws is one the contract admits.
pub proof fn law_every_drawn_spelling_is_legal(state: u64)
    ensures
        legal_spelling(crate::spelling::drawn_spelling(state).0),
{
    reveal_strlit(" ");
    reveal_strlit("  ");
    reveal_strlit("\t");
    reveal_strlit(" \t");
    reveal_strlit("\t ");
    reveal_strlit("");
    let runs_pool = crate::spelling::RUNS@;
    let edges_pool = crate::spelling::EDGES@;
    assert(runs_pool =~= seq![" ", "  ", "\t", " \t", "\t "]);
    assert(edges_pool =~= seq!["", " ", "\t", "  "]);
    let sp = crate::spelling::drawn_spelling(state).0;
    let s1 = crate::rng::below_state(state, 2);
    let s2 = crate::rng::below_state(s1, 3);
    let s3 = crate::rng::below_state(s2, 3);
    let (runs, s4) = crate::drawing::picks(s3, runs_pool, 4);
    let (leading, s5) = crate::drawing::picks(s4, edges_pool, 4);
    let (trailing, s6) = crate::drawing::picks(s5, edges_pool, 4);
    let (zeros, s7) = crate::spelling::belows(s6, 3, 4);
    lemma_picks_from_pool(s3, runs_pool, 4);
    lemma_picks_from_pool(s4, edges_pool, 4);
    lemma_picks_from_pool(s5, edges_pool, 4);
    lemma_belows_len(s6, 3, 4);
    lemma_belows_len(s7, 3, 4);
    assert forall|i: int| 0 <= i < sp.runs.len() implies (#[trigger] sp.runs[i]).len() > 0 && all_blank(sp.runs[i]) by {
        assert(sp.runs[i] == runs[i]@);
        assert(runs_pool.contains(runs[i]));
        let j = choose|j: int| 0 <= j < runs_pool.len() && runs_pool[j] == runs[i];
        assert(runs[i] == runs_pool[j]);
        assert(" "@[0] == ' ');
        assert("  "@[0] == ' ' && "  "@[1] == ' ');
        assert("\t"@[0] == '\t');
        assert(" \t"@[0] == ' ' && " \t"@[1] == '\t');
        assert("\t "@[0] == '\t' && "\t "@[1] == ' ');
    }
    assert forall|i: int| 0 <= i < sp.leading.len() implies all_blank(#[trigger] sp.leading[i]) by {
        assert(sp.leading[i] == leading[i]@);
        assert(edges_pool.contains(leading[i]));
        let j = choose|j: int| 0 <= j < edges_pool.len() && edges_pool[j] == leading[i];
        assert(" "@[0] == ' ');
        assert("  "@[0] == ' ' && "  "@[1] == ' ');
        assert("\t"@[0] == '\t');
    }
    assert forall|i: int| 0 <= i < sp.trailing.len() implies all_blank(#[trigger] sp.trailing[i]) by {
        assert(sp.trailing[i] == trailing[i]@);
        assert(edges_pool.contains(trailing[i]));
        let j = choose|j: int| 0 <= j < edges_pool.len() && edges_pool[j] == trailing[i];
        assert(" "@[0] == ' ');
        assert("  "@[0] == ' ' && "  "@[1] == ' ');
        assert("\t"@[0] == '\t');
    }
}

proof fn lemma_belows_below(state: u64, bound: u32, n: nat)
    requires
        bound > 0,
    ensures
        forall|i: int| 0 <= i < n ==> #[trigger] crate::spelling::belows(state, bound, n).0[i] < bound,
    decreases n,
{
    if n > 0 {
        lemma_belows_below(state, bound, (n - 1) as nat);
        lemma_belows_len(state, bound, (n - 1) as nat);
        let (done, at) = crate::spelling::belows(state, bound, (n - 1) as nat);
        assert forall|i: int| 0 <= i < n implies #[trigger] crate::spelling::belows(state, bound, n).0[i] < bound by {
            if i < n - 1 {
                assert(crate::spelling::belows(state, bound, n).0[i] == done[i]);
            }
        }
    }
}

/// A drawn spelling cycles through four choices of each kind per line, each
/// separator run taken from `RUNS` and each edge from `EDGES`, and each count
/// it draws is below three: at most two blank lines before the grid, at most
/// two after a block, at most two leading zeros.
pub proof fn law_a_drawn_spelling_has_four_of_each_choice(state: u64)
    ensures
        ({
            let sp = crate::spelling::drawn_spelling(state).0;
            &&& sp.runs.len() == 4 && sp.leading.len() == 4 && sp.trailing.len() == 4
            &&& sp.zeros.len() == 4 && sp.blanks_after_block.len() == 4
            &&& sp.blanks_before_grid < 3
            &&& forall|i: int| 0 <= i < 4 ==> #[trigger] sp.zeros[i] < 3 && sp.blanks_after_block[i] < 3
            &&& forall|i: int| 0 <= i < 4 ==> crate::spelling::str_views(crate::spelling::RUNS@).contains(#[trigger] sp.runs[i])
            &&& forall|i: int| 0 <= i < 4 ==> crate::spelling::str_views(crate::spelling::EDGES@).contains(#[trigger] sp.leading[i])
            &&& forall|i: int| 0 <= i < 4 ==> crate::spelling::str_views(crate::spelling::EDGES@).contains(#[trigger] sp.trailing[i])
        }),
{
    let sp = crate::spelling::drawn_spelling(state).0;
    let s1 = crate::rng::below_state(state, 2);
    let s2 = crate::rng::below_state(s1, 3);
    let s3 = crate::rng::below_state(s2, 3);
    let (runs, s4) = crate::drawing::picks(s3, crate::spelling::RUNS@, 4);
    let (leading, s5) = crate::drawing::picks(s4, crate::spelling::EDGES@, 4);
    let (trailing, s6) = crate::drawing::picks(s5, crate::spelling::EDGES@, 4);
    let (zeros, s7) = crate::spelling::belows(s6, 3, 4);
    lemma_picks_from_pool(s3, crate::spelling::RUNS@, 4);
    lemma_picks_from_pool(s4, crate::spelling::EDGES@, 4);
    lemma_picks_from_pool(s5, crate::spelling::EDGES@, 4);
    lemma_belows_len(s6, 3, 4);
    lemma_belows_len(s7, 3, 4);
    lemma_belows_below(s6, 3, 4);
    lemma_belows_below(s7, 3, 4);
    assert forall|i: int| 0 <= i < 4 implies #[trigger] sp.zeros[i] < 3 && sp.blanks_after_block[i] < 3 by {
        assert(sp.zeros[i] == zeros[i] as usize);
    }
    assert forall|i: int| 0 <= i < 4 implies crate::spelling::str_views(crate::spelling::RUNS@).contains(#[trigger] sp.runs[i]) by {
        lemma_view_of_a_pooled_choice(crate::spelling::RUNS@, runs[i]);
    }
    assert forall|i: int| 0 <= i < 4 implies crate::spelling::str_views(crate::spelling::EDGES@).contains(#[trigger] sp.leading[i]) by {
        lemma_view_of_a_pooled_choice(crate::spelling::EDGES@, leading[i]);
    }
    assert forall|i: int| 0 <= i < 4 implies crate::spelling::str_views(crate::spelling::EDGES@).contains(#[trigger] sp.trailing[i]) by {
        lemma_view_of_a_pooled_choice(crate::spelling::EDGES@, trailing[i]);
    }
}

proof fn lemma_view_of_a_pooled_choice(pool: Seq<&str>, s: &str)
    requires
        pool.contains(s),
    ensures
        crate::spelling::str_views(pool).contains(s@),
{
    let j = choose|j: int| 0 <= j < pool.len() && pool[j] == s;
    assert(crate::spelling::str_views(pool)[j] == s@);
}

} // verus!
