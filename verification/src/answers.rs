//! What the properties make of a correct answer: the answer the reference
//! simulation writes reads back, line by line, as the outcomes it was written
//! from, and violates none of the properties.

use vstd::prelude::*;
use vstd::utf8::*;

use crate::mission::{MissionModel, RobotModel};
use crate::properties::{
    cannot_move_from, canonical_number_of, checked, ends_with, expected_forward, first_off_grid, is_compass_token,
    losses_from, off_grid, on_grid_verdict, one_line_verdict, only_forward_steps, only_forward_verdict,
    parse_reports, report_of, reports_of, room_ahead, stayed, turn_index, VerdictModel,
};
use crate::reading::{lemma_decimal, lemma_number_of_decimal, lemma_split_after_separator, lemma_split_concat, lemma_split_single};
use crate::reference::{
    answer_text, compass, compass_index, law_a_robot_that_cannot_move_reports_where_it_started,
    law_a_robot_that_only_moves_forward_stops_where_the_world_stops_it, law_every_reported_position_is_on_the_grid,
    law_appending_a_robot_does_not_change_the_robots_before_it, law_no_two_robots_are_lost_on_the_same_cell,
    law_one_line_per_robot, lemma_run_robots_index, outcomes, report,
    report_line, room, run_robots, spun, start_of, starts_on, walk, Outcome,
};
use crate::text::{all_digits, decimal, digit_char, digit_value, digits_value, is_digit, parse_u32, split, unsigned_digits};

verus! {

/// Whether a letter is one of the four compass letters.
pub open spec fn on_compass(c: char) -> bool {
    c == 'N' || c == 'E' || c == 'S' || c == 'W'
}

/// A report line without its line ending.
pub open spec fn report_body(o: Outcome) -> Seq<char> {
    decimal(o.x as nat) + seq![' '] + decimal(o.y as nat) + seq![' ', o.facing]
        + (if o.lost { seq![' ', 'L', 'O', 'S', 'T'] } else { seq![] })
}

/// The bodies of several report lines.
pub open spec fn report_bodies(os: Seq<Outcome>) -> Seq<Seq<char>> {
    os.map_values(|o: Outcome| report_body(o))
}

/// A number written in decimal begins with a zero only when it is zero.
proof fn lemma_decimal_leads(n: nat)
    ensures
        decimal(n).len() > 1 ==> decimal(n)[0] != '0',
    decreases n,
{
    if n >= 10 {
        lemma_decimal_leads(n / 10);
        lemma_decimal(n / 10);
        let d = decimal(n / 10);
        assert(decimal(n) == d.push(digit_char(n % 10)));
        assert(decimal(n)[0] == d[0]);
        if n / 10 < 10 {
            assert(d == seq![digit_char(n / 10)]);
            assert(n / 10 >= 1);
            assert(digit_char(n / 10) != '0');
        } else {
            lemma_decimal(n / 10 / 10);
            assert(d == decimal(n / 10 / 10).push(digit_char(n / 10 % 10)));
            assert(d.len() > 1);
        }
    }
}

/// A number written in decimal reads as itself, strictly.
proof fn lemma_canonical_decimal(n: u32)
    ensures
        canonical_number_of(decimal(n as nat)) == Ok::<u32, Seq<char>>(n),
        !decimal(n as nat).contains(' '),
        !decimal(n as nat).contains('\n'),
{
    lemma_number_of_decimal(n);
    lemma_decimal_leads(n as nat);
    lemma_decimal(n as nat);
    let d = decimal(n as nat);
    assert(parse_u32(d) == Some(n));
    if d.contains(' ') {
        let i = choose|i: int| 0 <= i < d.len() && d[i] == ' ';
        assert(is_digit(d[i]));
    }
}

/// A report line's position: `x y facing`.
pub open spec fn position_body(o: Outcome) -> Seq<char> {
    decimal(o.x as nat) + seq![' '] + decimal(o.y as nat) + seq![' ', o.facing]
}

/// The position splits at its two spaces into its three tokens.
proof fn lemma_position_tokens(o: Outcome)
    requires
        on_compass(o.facing),
    ensures
        split(position_body(o), ' ') == seq![decimal(o.x as nat), decimal(o.y as nat), seq![o.facing]],
{
    lemma_canonical_decimal(o.x);
    lemma_canonical_decimal(o.y);
    let dx = decimal(o.x as nat);
    let dy = decimal(o.y as nat);
    let f = seq![o.facing];
    assert(position_body(o) =~= dx + seq![' '] + (dy + seq![' '] + f));
    lemma_split_concat(dx, dy + seq![' '] + f, ' ');
    lemma_split_concat(dy, f, ' ');
    lemma_split_single(dx, ' ');
    lemma_split_single(dy, ' ');
    assert(!f.contains(' ')) by {
        if f.contains(' ') {
            assert(f[0] == o.facing);
        }
    }
    lemma_split_single(f, ' ');
    assert(seq![dx] + (seq![dy] + seq![f]) =~= seq![dx, dy, f]);
}

/// A report line ends in ` LOST` exactly when its robot was lost, and what
/// stands before that is the position.
proof fn lemma_lost_suffix(o: Outcome)
    requires
        on_compass(o.facing),
    ensures
        ends_with(report_body(o), " LOST"@) == o.lost,
        o.lost ==> report_body(o).take(report_body(o).len() - 5) == position_body(o),
        !o.lost ==> report_body(o) == position_body(o),
{
    reveal_strlit(" LOST");
    let lost_tail = seq![' ', 'L', 'O', 'S', 'T'];
    let body = report_body(o);
    let position = position_body(o);
    assert(" LOST"@ =~= lost_tail);
    if o.lost {
        assert(body == position + lost_tail);
        assert(body.subrange(body.len() - 5, body.len() as int) =~= lost_tail);
        assert(body.take(body.len() - 5) =~= position);
    } else {
        assert(body =~= position);
        assert(body.last() == o.facing);
        if ends_with(body, " LOST"@) {
            let tail = body.subrange(body.len() - 5, body.len() as int);
            assert(tail[4] == body.last());
            assert(tail[4] == 'T');
        }
    }
}

proof fn lemma_body_has_no_newline(o: Outcome)
    requires
        on_compass(o.facing),
    ensures
        !report_body(o).contains('\n'),
{
    lemma_canonical_decimal(o.x);
    lemma_canonical_decimal(o.y);
    let dx = decimal(o.x as nat);
    let dy = decimal(o.y as nat);
    let body = report_body(o);
    if body.contains('\n') {
        let i = choose|i: int| 0 <= i < body.len() && body[i] == '\n';
        if i < dx.len() {
            assert(body[i] == dx[i]);
            assert(dx.contains('\n'));
        } else if i < dx.len() + 1 + dy.len() && i > dx.len() {
            assert(body[i] == dy[i - dx.len() - 1]);
            assert(dy.contains('\n'));
        }
    }
}

/// A report line reads back as the outcome it was written from.
proof fn lemma_report_of_body(o: Outcome)
    requires
        on_compass(o.facing),
    ensures
        report_of(report_body(o)) == Ok::<Outcome, Seq<char>>(o),
{
    reveal_strlit("N");
    reveal_strlit("E");
    reveal_strlit("S");
    reveal_strlit("W");
    lemma_canonical_decimal(o.x);
    lemma_canonical_decimal(o.y);
    lemma_lost_suffix(o);
    lemma_position_tokens(o);
    let f = seq![o.facing];
    assert(f[0] == o.facing);
    assert(is_compass_token(f)) by {
        if o.facing == 'N' { assert(f =~= "N"@); }
        if o.facing == 'E' { assert(f =~= "E"@); }
        if o.facing == 'S' { assert(f =~= "S"@); }
        if o.facing == 'W' { assert(f =~= "W"@); }
    }
}

/// Whether every outcome faces a compass letter.
pub open spec fn compass_outcomes(os: Seq<Outcome>) -> bool {
    forall|i: int| 0 <= i < os.len() ==> on_compass(#[trigger] os[i].facing)
}

proof fn lemma_compass_prefix(os: Seq<Outcome>)
    requires
        compass_outcomes(os),
        os.len() > 0,
    ensures
        compass_outcomes(os.drop_last()),
        on_compass(os.last().facing),
{
    assert forall|i: int| 0 <= i < os.drop_last().len() implies on_compass(#[trigger] os.drop_last()[i].facing) by {
        assert(os.drop_last()[i] == os[i]);
    }
    assert(on_compass(os[os.len() - 1].facing));
}

/// The report of some outcomes splits at its line endings into their lines,
/// and an empty piece after the last ending.
proof fn lemma_split_report(os: Seq<Outcome>)
    requires
        compass_outcomes(os),
    ensures
        split(report(os), '\n') == report_bodies(os).push(seq![]),
    decreases os.len(),
{
    if os.len() == 0 {
        assert(report(os) =~= Seq::<char>::empty());
        assert(report_bodies(os).push(seq![]) =~= seq![Seq::<char>::empty()]);
    } else {
        let rest = os.drop_last();
        let o = os.last();
        lemma_compass_prefix(os);
        lemma_split_report(rest);
        lemma_body_has_no_newline(o);
        let body = report_body(o);
        assert(report_line(o) =~= body + seq!['\n']);
        assert(report(os) =~= (report(rest) + body) + seq!['\n'] + Seq::<char>::empty());
        lemma_split_concat(report(rest) + body, Seq::<char>::empty(), '\n');
        assert(split(Seq::<char>::empty(), '\n') =~= seq![Seq::<char>::empty()]);
        lemma_split_single(body, '\n');
        if rest.len() == 0 {
            assert(report(rest) + body =~= body);
        } else {
            assert(report(rest).len() > 0 && report(rest).last() == '\n') by {
                assert(report(rest) == report(rest.drop_last()) + report_line(rest.last()));
            }
            lemma_split_after_separator(report(rest), body, '\n');
        }
        assert(report_bodies(os) =~= report_bodies(rest).push(body));
        assert(report_bodies(rest).push(seq![]).drop_last() =~= report_bodies(rest));
        assert(split(report(rest) + body, '\n') =~= report_bodies(os));
    }
}

/// The lines of a report read back as the outcomes they were written from.
proof fn lemma_reports_of_bodies(os: Seq<Outcome>)
    requires
        compass_outcomes(os),
    ensures
        reports_of(report_bodies(os)) == Ok::<Seq<Outcome>, Seq<char>>(os),
    decreases os.len(),
{
    if os.len() > 0 {
        lemma_compass_prefix(os);
        lemma_reports_of_bodies(os.drop_last());
        lemma_report_of_body(os.last());
        assert(report_bodies(os).drop_last() =~= report_bodies(os.drop_last()));
        assert(report_bodies(os).last() == report_body(os.last()));
        assert(os.drop_last().push(os.last()) =~= os);
    } else {
        assert(report_bodies(os) =~= Seq::<Seq<char>>::empty());
        assert(os =~= Seq::<Outcome>::empty());
    }
}

/// An answer written from outcomes facing compass letters reads back as them.
pub proof fn lemma_parse_report(os: Seq<Outcome>)
    requires
        compass_outcomes(os),
    ensures
        parse_reports(encode_utf8(report(os))) == Ok::<Seq<Outcome>, Seq<char>>(os),
{
    let text = report(os);
    encode_utf8_valid_utf8(text);
    encode_utf8_decode_utf8(text);
    if os.len() == 0 {
        assert(text =~= Seq::<char>::empty());
        assert(os =~= Seq::<Outcome>::empty());
    } else {
        assert(text == report(os.drop_last()) + report_line(os.last()));
        assert(text.last() == '\n');
        lemma_split_report(os);
        assert(text =~= text.drop_last() + seq!['\n'] + Seq::<char>::empty());
        lemma_split_concat(text.drop_last(), Seq::<char>::empty(), '\n');
        assert(split(Seq::<char>::empty(), '\n') =~= seq![Seq::<char>::empty()]);
        let front = split(text.drop_last(), '\n');
        assert(split(text, '\n') == front + seq![Seq::<char>::empty()]);
        assert((front + seq![Seq::<char>::empty()]).drop_last() =~= front);
        assert(report_bodies(os).push(seq![]).drop_last() =~= report_bodies(os));
        assert(front =~= report_bodies(os));
        lemma_reports_of_bodies(os);
    }
}

/// A robot's turns, applied one after another to a compass letter, land
/// where counting quarter turns lands.
proof fn lemma_spun_counts_turns(facing: char, steps: Seq<char>)
    requires
        on_compass(facing),
    ensures
        0 <= turn_index(compass_index(facing), steps) < 4,
        spun(facing, steps) == compass(turn_index(compass_index(facing), steps)),
    decreases steps.len(),
{
    if steps.len() > 0 {
        lemma_spun_counts_turns(facing, steps.drop_last());
    }
}

/// A walk that starts facing a compass letter ends facing one.
proof fn lemma_walk_on_compass(max_x: u32, max_y: u32, scents: Seq<(u32, u32)>, start: Outcome, steps: Seq<char>)
    requires
        on_compass(start.facing),
    ensures
        on_compass(walk(max_x, max_y, scents, start, steps).facing),
    decreases steps.len(),
{
    if steps.len() > 0 {
        lemma_walk_on_compass(max_x, max_y, scents, start, steps.drop_last());
    }
}

/// Whether every robot of a mission starts on the world facing a compass
/// letter.
pub open spec fn well_placed(mission: MissionModel) -> bool {
    forall|i: int| 0 <= i < mission.robots.len() ==> {
        let r = #[trigger] mission.robots[i];
        starts_on(mission.max_x, mission.max_y, r) && on_compass(r.facing)
    }
}

proof fn lemma_outcomes_on_compass(mission: MissionModel)
    requires
        well_placed(mission),
    ensures
        compass_outcomes(outcomes(mission)),
        outcomes(mission).len() == mission.robots.len(),
{
    law_one_line_per_robot(mission);
    let rs = mission.robots;
    assert forall|i: int| 0 <= i < outcomes(mission).len() implies on_compass(#[trigger] outcomes(mission)[i].facing) by {
        lemma_run_robots_index(mission.max_x, mission.max_y, rs, i);
        assert(on_compass(rs[i].facing));
        lemma_walk_on_compass(mission.max_x, mission.max_y, run_robots(mission.max_x, mission.max_y, rs.take(i)).1,
            start_of(rs[i]), rs[i].steps);
    }
}

/// No report off the world is found among reports that are all on it.
proof fn lemma_none_off_grid(mission: MissionModel, reports: Seq<Outcome>)
    requires
        forall|i: int| 0 <= i < reports.len() ==> !off_grid(mission, #[trigger] reports[i]),
    ensures
        first_off_grid(mission, reports) is None,
    decreases reports.len(),
{
    if reports.len() > 0 {
        let rest = reports.skip(1);
        assert forall|i: int| 0 <= i < rest.len() implies !off_grid(mission, #[trigger] rest[i]) by {
            assert(rest[i] == reports[i + 1]);
        }
        assert(!off_grid(mission, reports[0]));
        lemma_none_off_grid(mission, rest);
    }
}

/// Robots that cannot move are judged to have stayed when each did.
proof fn lemma_cannot_move_holds(robots: Seq<RobotModel>, reports: Seq<Outcome>, applied: bool)
    requires
        robots.len() == reports.len(),
        forall|i: int| 0 <= i < robots.len() && !robots[i].steps.contains('F') ==> stayed(#[trigger] robots[i], reports[i]),
    ensures
        !(cannot_move_from(robots, reports, applied) is Violated),
    decreases robots.len(),
{
    if robots.len() > 0 {
        let r1 = robots.skip(1);
        let p1 = reports.skip(1);
        assert forall|i: int| 0 <= i < r1.len() && !r1[i].steps.contains('F') implies stayed(#[trigger] r1[i], p1[i]) by {
            assert(r1[i] == robots[i + 1]);
            assert(p1[i] == reports[i + 1]);
        }
        lemma_cannot_move_holds(r1, p1, applied);
        lemma_cannot_move_holds(r1, p1, true);
        if !robots[0].steps.contains('F') {
            assert(stayed(robots[0], reports[0]));
        }
    }
}

/// Whether no two lost reports stand on the same cell.
pub open spec fn distinct_losses(reports: Seq<Outcome>) -> bool {
    forall|i: int, j: int|
        #![trigger reports[i], reports[j]]
        0 <= i < j < reports.len() && reports[i].lost && reports[j].lost ==> (reports[i].x, reports[i].y) != (
            reports[j].x,
            reports[j].y,
        )
}

/// Lost reports on distinct cells, none on a cell already lost on, are not
/// judged to share a cell.
proof fn lemma_losses_hold(reports: Seq<Outcome>, lost: Seq<(u32, u32)>)
    requires
        distinct_losses(reports),
        forall|i: int| 0 <= i < reports.len() && (#[trigger] reports[i]).lost ==> !lost.contains((reports[i].x, reports[i].y)),
    ensures
        !(losses_from(reports, lost) is Violated),
    decreases reports.len(),
{
    if reports.len() > 0 {
        let rest = reports.skip(1);
        assert(distinct_losses(rest)) by {
            assert forall|i: int, j: int|
                #![trigger rest[i], rest[j]]
                0 <= i < j < rest.len() && rest[i].lost && rest[j].lost implies (rest[i].x, rest[i].y) != (rest[j].x, rest[j].y) by {
                assert(rest[i] == reports[i + 1]);
                assert(rest[j] == reports[j + 1]);
            }
        }
        let first = reports[0];
        let next = if first.lost { lost.push((first.x, first.y)) } else { lost };
        assert forall|i: int| 0 <= i < rest.len() && (#[trigger] rest[i]).lost implies !next.contains((rest[i].x, rest[i].y)) by {
            assert(rest[i] == reports[i + 1]);
            if first.lost {
                assert((first.x, first.y) != (reports[i + 1].x, reports[i + 1].y));
                if next.contains((rest[i].x, rest[i].y)) {
                    let k = choose|k: int| 0 <= k < next.len() && next[k] == (rest[i].x, rest[i].y);
                    if k < lost.len() {
                        assert(lost[k] == next[k]);
                    }
                }
            }
        }
        lemma_losses_hold(rest, next);
    }
}

/// Whether the first robot's forward steps can be counted without running out
/// of numbers before the world stops it: it has at most `u32::MAX`
/// instructions, or less room than that.
pub open spec fn forward_count_fits(mission: MissionModel) -> bool {
    mission.robots.len() > 0 && only_forward_steps(mission.robots[0].steps) ==> {
        let r = mission.robots[0];
        r.steps.len() <= u32::MAX || room(mission.max_x, mission.max_y, r) < u32::MAX
    }
}

/// A correct answer violates nothing: the answer the reference simulation
/// writes for a mission whose robots start on the world facing compass
/// letters is one line per robot, canonical, on the grid, with robots that
/// cannot move where they started, a robot that only moves forward where the
/// world stops it, and no two losses on one cell. Every property holds of it
/// or says nothing about it.
pub proof fn law_a_correct_answer_violates_nothing(mission: MissionModel)
    requires
        well_placed(mission),
        forward_count_fits(mission),
    ensures
        forall|k: int| 0 <= k < 6 ==> !(#[trigger] checked(mission, encode_utf8(answer_text(mission)))[k] is Violated),
{
    let os = outcomes(mission);
    let rs = mission.robots;
    lemma_outcomes_on_compass(mission);
    lemma_parse_report(os);
    // Every line on the grid.
    assert forall|i: int| 0 <= i < os.len() implies !off_grid(mission, #[trigger] os[i]) by {
        law_every_reported_position_is_on_the_grid(mission, i);
    }
    lemma_none_off_grid(mission, os);
    // Robots that cannot move stay where they started.
    assert forall|i: int| 0 <= i < rs.len() && !rs[i].steps.contains('F') implies stayed(#[trigger] rs[i], os[i]) by {
        law_a_robot_that_cannot_move_reports_where_it_started(mission, i);
        lemma_spun_counts_turns(rs[i].facing, rs[i].steps);
    }
    lemma_cannot_move_holds(rs, os, false);
    // A robot that only moves forward stops where the world stops it.
    if rs.len() > 0 && only_forward_steps(rs[0].steps) {
        let r = rs[0];
        assert forall|k: int| 0 <= k < r.steps.len() implies r.steps[k] == 'F' by {
            assert(r.steps[k] == 'F');
        }
        law_a_robot_that_only_moves_forward_stops_where_the_world_stops_it(mission);
        assert(room_ahead(mission, r) == room(mission.max_x, mission.max_y, r));
        assert(os[0] == expected_forward(mission, r));
    }
    // No two losses on one cell.
    assert(distinct_losses(os)) by {
        assert forall|i: int, j: int|
            #![trigger os[i], os[j]]
            0 <= i < j < os.len() && os[i].lost && os[j].lost implies (os[i].x, os[i].y) != (os[j].x, os[j].y) by {
            law_no_two_robots_are_lost_on_the_same_cell(mission, i, j);
        }
    }
    let none: Seq<(u32, u32)> = seq![];
    lemma_losses_hold(os, none);
    let verdicts = checked(mission, encode_utf8(answer_text(mission)));
    assert(verdicts[0] == one_line_verdict(mission, os));
    assert(verdicts[2] == on_grid_verdict(mission, os));
    assert(verdicts[3] == cannot_move_from(rs, os, false));
    assert(verdicts[4] == only_forward_verdict(mission, os));
    assert(verdicts[5] == losses_from(os, none));
}

/// A digit's character, read back, is the digit.
proof fn lemma_digit_round_trip(c: char)
    requires
        is_digit(c),
    ensures
        digit_value(c) < 10,
        digit_char(digit_value(c)) == c,
{
    assert(('0' as u32) == 48);
    assert(('9' as u32) == 57);
    let v = digit_value(c);
    crate::reading::lemma_digit(v);
    assert(digit_value(digit_char(v)) == v);
    assert((digit_char(v) as u32) == (c as u32));
}

/// Digits that do not start with a zero are worth at least their first digit.
proof fn lemma_digits_positive(t: Seq<char>)
    requires
        t.len() > 0,
        all_digits(t),
        t[0] != '0',
    ensures
        digits_value(t) >= 1,
    decreases t.len(),
{
    if t.len() == 1 {
        assert(t.drop_last() =~= Seq::<char>::empty());
        assert(t.last() == t[0]);
        assert(('0' as u32) == 48);
    } else {
        let front = t.drop_last();
        assert(front[0] == t[0]);
        assert(all_digits(front)) by {
            assert forall|i: int| 0 <= i < front.len() implies is_digit(#[trigger] front[i]) by {
                assert(front[i] == t[i]);
            }
        }
        lemma_digits_positive(front);
    }
}

/// Digits with no leading zero are the decimal spelling of their value.
proof fn lemma_digits_are_decimal(t: Seq<char>)
    requires
        t.len() > 0,
        all_digits(t),
        t.len() > 1 ==> t[0] != '0',
    ensures
        t == decimal(digits_value(t)),
    decreases t.len(),
{
    let last = t.last();
    assert(is_digit(t[t.len() - 1]));
    lemma_digit_round_trip(last);
    if t.len() == 1 {
        assert(t.drop_last() =~= Seq::<char>::empty());
        assert(digits_value(Seq::<char>::empty()) == 0);
        assert(digits_value(t) == digits_value(t.drop_last()) * 10 + digit_value(last));
        assert(digits_value(t) == digit_value(last));
        assert(t =~= seq![digit_char(digit_value(last))]);
    } else {
        let front = t.drop_last();
        assert(front[0] == t[0]);
        assert(all_digits(front)) by {
            assert forall|i: int| 0 <= i < front.len() implies is_digit(#[trigger] front[i]) by {
                assert(front[i] == t[i]);
            }
        }
        lemma_digits_are_decimal(front);
        lemma_digits_positive(front);
        let v = digits_value(t);
        let f = digits_value(front);
        let d = digit_value(last);
        assert(v == f * 10 + d);
        assert(v / 10 == f && v % 10 == d && v >= 10) by (nonlinear_arith)
            requires
                v == f * 10 + d,
                d < 10,
                f >= 1,
        ;
        assert(decimal(v) == decimal(v / 10).push(digit_char(v % 10)));
        assert(t =~= front.push(last));
    }
}

/// A number the properties take as canonical is spelled exactly as decimal
/// writes it: digits only, no sign, and no leading zero; and every decimal
/// spelling of a `u32` is taken as its value.
pub proof fn law_a_canonical_number_is_its_decimal_spelling(token: Seq<char>, n: u32)
    ensures
        canonical_number_of(token) == Ok::<u32, Seq<char>>(n) <==> token == decimal(n as nat),
{
    lemma_canonical_decimal(n);
    if canonical_number_of(token) == Ok::<u32, Seq<char>>(n) {
        assert(!(token.len() > 0 && token[0] == '+'));
        assert(unsigned_digits(token) == token);
        assert(parse_u32(token) == Some(n));
        lemma_digits_are_decimal(token);
    }
}

/// A walk ends facing where it started or a compass letter.
proof fn lemma_walk_facing(max_x: u32, max_y: u32, scents: Seq<(u32, u32)>, start: Outcome, steps: Seq<char>)
    ensures
        ({
            let f = walk(max_x, max_y, scents, start, steps).facing;
            f == start.facing || on_compass(f)
        }),
    decreases steps.len(),
{
    if steps.len() > 0 {
        lemma_walk_facing(max_x, max_y, scents, start, steps.drop_last());
    }
}

/// Appending a robot adds exactly one line to the answer: the answer before
/// it, then one line that ends with the only line ending it holds. A robot
/// facing a line ending itself is the one exception, as its line would be
/// two.
pub proof fn law_appending_a_robot_adds_exactly_one_line(mission: MissionModel, robot: RobotModel)
    requires
        robot.facing != '\n',
    ensures
        ({
            let longer = MissionModel { robots: mission.robots.push(robot), ..mission };
            let line = answer_text(longer).skip(answer_text(mission).len() as int);
            &&& answer_text(longer) == answer_text(mission) + line
            &&& line.len() > 0
            &&& line.last() == '\n'
            &&& !line.drop_last().contains('\n')
        }),
{
    law_appending_a_robot_does_not_change_the_robots_before_it(mission, robot);
    let longer = MissionModel { robots: mission.robots.push(robot), ..mission };
    let n = mission.robots.len() as int;
    law_one_line_per_robot(longer);
    lemma_run_robots_index(longer.max_x, longer.max_y, longer.robots, n);
    assert(longer.robots[n] == robot);
    lemma_walk_facing(longer.max_x, longer.max_y, run_robots(longer.max_x, longer.max_y, longer.robots.take(n)).1,
        start_of(robot), robot.steps);
    let o = outcomes(longer).last();
    assert(o == outcomes(longer)[n]);
    let body = report_body(o);
    assert(report_line(o) =~= body + seq!['\n']);
    let line = answer_text(longer).skip(answer_text(mission).len() as int);
    assert(line =~= report_line(o));
    assert(line.drop_last() =~= body);
    lemma_canonical_decimal(o.x);
    lemma_canonical_decimal(o.y);
    let dx = decimal(o.x as nat);
    let dy = decimal(o.y as nat);
    if body.contains('\n') {
        let i = choose|i: int| 0 <= i < body.len() && body[i] == '\n';
        if i < dx.len() {
            assert(body[i] == dx[i]);
            assert(dx.contains('\n'));
        } else if i > dx.len() && i < dx.len() + 1 + dy.len() {
            assert(body[i] == dy[i - dx.len() - 1]);
            assert(dy.contains('\n'));
        }
    }
}

/// What a whole differential run finds, step by step as `DifferentialRun`
/// takes it, when the program answers each input with `program` of it: every
/// disagreement with the reference, in order, or the fault that ends the run.
pub open spec fn differential_found(
    state: u64,
    left: nat,
    max_coordinate: u32,
    max_instructions: u32,
    grammar: crate::grammar::GrammarModel,
    program: spec_fn(Seq<u8>) -> Seq<u8>,
) -> Result<Seq<crate::modes::DisagreementModel>, Seq<char>>
    decreases left,
{
    if left == 0 {
        Ok(seq![])
    } else {
        let (mission, after) = crate::drawing::busy_mission(state, max_coordinate, grammar);
        let input = encode_utf8(crate::mission::canonical_text(mission));
        if !crate::mission::mission_valid(mission, max_coordinate, max_instructions) {
            Err(crate::modes::generator_text("the generator built an invalid mission: "@, input))
        } else {
            let expected = encode_utf8(answer_text(mission));
            let found = if program(input) == expected {
                Seq::<crate::modes::DisagreementModel>::empty()
            } else {
                seq![crate::modes::DisagreementModel { mission: input, expected, got: program(input) }]
            };
            match differential_found(after, (left - 1) as nat, max_coordinate, max_instructions, grammar, program) {
                Err(why) => Err(why),
                Ok(rest) => Ok(found + rest),
            }
        }
    }
}

/// A program that answers every valid mission as the reference does disagrees with
/// it nowhere: with the contract's letters and room for fifteen instructions,
/// a whole differential run ends without a fault and finds nothing.
pub proof fn law_the_reference_agrees_with_itself(
    state: u64,
    left: nat,
    max_coordinate: u32,
    max_instructions: u32,
    grammar: crate::grammar::GrammarModel,
    program: spec_fn(Seq<u8>) -> Seq<u8>,
)
    requires
        grammar.orientations.len() > 0,
        grammar.instructions.len() > 0,
        forall|i: int| 0 <= i < grammar.orientations.len() ==> on_compass(#[trigger] grammar.orientations[i]),
        forall|i: int| 0 <= i < grammar.instructions.len() ==> {
            let c = #[trigger] grammar.instructions[i];
            c == 'L' || c == 'R' || c == 'F'
        },
        max_instructions >= 15,
        forall|m: MissionModel| crate::mission::mission_valid(m, max_coordinate, max_instructions)
            ==> #[trigger] program(encode_utf8(crate::mission::canonical_text(m))) == encode_utf8(answer_text(m)),
    ensures
        differential_found(state, left, max_coordinate, max_instructions, grammar, program)
            == Ok::<Seq<crate::modes::DisagreementModel>, Seq<char>>(seq![]),
    decreases left,
{
    if left > 0 {
        let (mission, after) = crate::drawing::busy_mission(state, max_coordinate, grammar);
        crate::drawing::law_a_busy_mission_from_the_contracts_letters_is_valid(state, max_coordinate, max_instructions, grammar);
        assert(program(encode_utf8(crate::mission::canonical_text(mission))) == encode_utf8(answer_text(mission)));
        law_the_reference_agrees_with_itself(after, (left - 1) as nat, max_coordinate, max_instructions, grammar, program);
        assert(Seq::<crate::modes::DisagreementModel>::empty() + Seq::<crate::modes::DisagreementModel>::empty()
            =~= Seq::<crate::modes::DisagreementModel>::empty());
    }
}

/// The missions a differential run draws, in order.
pub open spec fn busy_draws(state: u64, left: nat, max_coordinate: u32, grammar: crate::grammar::GrammarModel) -> Seq<MissionModel>
    decreases left,
{
    if left == 0 {
        seq![]
    } else {
        let (mission, after) = crate::drawing::busy_mission(state, max_coordinate, grammar);
        seq![mission] + busy_draws(after, (left - 1) as nat, max_coordinate, grammar)
    }
}

/// The disagreement a mission gives when the program's answer is not the
/// reference's.
pub open spec fn disagreement_on(mission: MissionModel, program: spec_fn(Seq<u8>) -> Seq<u8>) -> crate::modes::DisagreementModel {
    let input = encode_utf8(crate::mission::canonical_text(mission));
    crate::modes::DisagreementModel { mission: input, expected: encode_utf8(answer_text(mission)), got: program(input) }
}

/// The disagreements among some missions: one for each mission, in order,
/// whose answer differs from the reference's, and none for any other.
pub open spec fn disagreements_among(missions: Seq<MissionModel>, program: spec_fn(Seq<u8>) -> Seq<u8>) -> Seq<crate::modes::DisagreementModel>
    decreases missions.len(),
{
    if missions.len() == 0 {
        seq![]
    } else {
        let d = disagreement_on(missions[0], program);
        (if d.got == d.expected { seq![] } else { seq![d] }) + disagreements_among(missions.skip(1), program)
    }
}

/// The differential mode reports, in the order it draws them, exactly the
/// missions on which the program's answer differs from the reference's: with
/// the contract's letters and room for fifteen instructions, a whole
/// differential run ends without a fault and finds one disagreement for each
/// such mission and none for any other.
pub proof fn law_the_differential_mode_reports_exactly_the_missions_that_differ(
    state: u64,
    left: nat,
    max_coordinate: u32,
    max_instructions: u32,
    grammar: crate::grammar::GrammarModel,
    program: spec_fn(Seq<u8>) -> Seq<u8>,
)
    requires
        grammar.orientations.len() > 0,
        grammar.instructions.len() > 0,
        forall|i: int| 0 <= i < grammar.orientations.len() ==> on_compass(#[trigger] grammar.orientations[i]),
        forall|i: int| 0 <= i < grammar.instructions.len() ==> {
            let c = #[trigger] grammar.instructions[i];
            c == 'L' || c == 'R' || c == 'F'
        },
        max_instructions >= 15,
    ensures
        differential_found(state, left, max_coordinate, max_instructions, grammar, program)
            == Ok::<Seq<crate::modes::DisagreementModel>, Seq<char>>(
            disagreements_among(busy_draws(state, left, max_coordinate, grammar), program),
        ),
    decreases left,
{
    if left > 0 {
        let (mission, after) = crate::drawing::busy_mission(state, max_coordinate, grammar);
        crate::drawing::law_a_busy_mission_from_the_contracts_letters_is_valid(state, max_coordinate, max_instructions, grammar);
        law_the_differential_mode_reports_exactly_the_missions_that_differ(after, (left - 1) as nat, max_coordinate, max_instructions, grammar, program);
        let draws = busy_draws(state, left, max_coordinate, grammar);
        assert(draws[0] == mission);
        assert(draws.skip(1) =~= busy_draws(after, (left - 1) as nat, max_coordinate, grammar));
    }
}

/// Counting LFs from the front: the first byte, then the rest.
proof fn lemma_newlines_front(b: Seq<u8>)
    requires
        b.len() > 0,
    ensures
        crate::modes::newlines(b) == (if b[0] == 10 { 1nat } else { 0nat }) + crate::modes::newlines(b.skip(1)),
    decreases b.len(),
{
    if b.len() == 1 {
        assert(b.skip(1) =~= Seq::<u8>::empty());
        assert(b.drop_last() =~= Seq::<u8>::empty());
        assert(crate::modes::newlines(Seq::<u8>::empty()) == 0);
    } else {
        lemma_newlines_front(b.drop_last());
        assert(b.drop_last().skip(1) =~= b.skip(1).drop_last());
        assert(b.skip(1).last() == b.last());
        assert(b.drop_last()[0] == b[0]);
    }
}

/// Cutting as many lines as bytes end in LF, up to the end of a text that
/// ends in one, cuts exactly there, whatever follows.
proof fn lemma_cut_at_end(x: Seq<u8>, y: Seq<u8>, from: int)
    requires
        0 <= from <= x.len(),
        x.len() > 0,
        x.last() == 10,
    ensures
        crate::modes::cut(x + y, crate::modes::newlines(x.skip(from)), from) == x.len(),
        from < x.len() ==> crate::modes::newlines(x.skip(from)) >= 1,
    decreases x.len() - from,
{
    let z = x + y;
    if from == x.len() {
        assert(x.skip(from) =~= Seq::<u8>::empty());
        assert(crate::modes::newlines(Seq::<u8>::empty()) == 0);
    } else {
        let rest = x.skip(from);
        lemma_newlines_front(rest);
        assert(rest.skip(1) =~= x.skip(from + 1));
        assert(z[from] == x[from]);
        assert(rest[0] == x[from]);
        let k = crate::modes::newlines(rest);
        let k1 = crate::modes::newlines(x.skip(from + 1));
        if from == x.len() - 1 {
            assert(x[from] == 10);
            assert(x.skip(from + 1) =~= Seq::<u8>::empty());
            assert(crate::modes::newlines(Seq::<u8>::empty()) == 0);
            assert(k == 1);
            assert(crate::modes::cut(z, k, from) == crate::modes::cut(z, 0, from + 1));
        } else {
            lemma_cut_at_end(x, y, from + 1);
            if x[from] == 10 {
                assert(k == k1 + 1);
                assert(crate::modes::cut(z, k, from) == crate::modes::cut(z, k1, from + 1));
            } else {
                assert(k == k1);
                assert(crate::modes::cut(z, k, from) == crate::modes::cut(z, k1, from + 1));
            }
        }
    }
}

/// The first lines of a text followed by more, as many as the text has, are
/// the text, when it is empty or ends in an LF.
proof fn lemma_first_lines_of_prefix(x: Seq<u8>, y: Seq<u8>)
    requires
        x.len() == 0 || x.last() == 10,
    ensures
        crate::modes::first_lines(x + y, crate::modes::segments(x)) == x,
{
    if x.len() == 0 {
        assert((x + y).take(0) =~= x);
    } else {
        lemma_cut_at_end(x, y, 0);
        assert(x.skip(0) =~= x);
        assert(crate::modes::newlines(x) == crate::modes::newlines(x.drop_last()) + 1);
        assert((x + y).take(x.len() as int) =~= x);
    }
}

/// A mission with one more robot answers what it answered before, then one
/// line; and what it answered before is empty or ends in an LF.
proof fn lemma_longer_answer(mission: MissionModel, robot: RobotModel)
    ensures
        ({
            let longer = MissionModel { robots: mission.robots.push(robot), ..mission };
            let x = encode_utf8(answer_text(mission));
            &&& encode_utf8(answer_text(longer)) == x + encode_utf8(report_line(outcomes(longer).last()))
            &&& x.len() == 0 || x.last() == 10
        }),
{
    law_appending_a_robot_does_not_change_the_robots_before_it(mission, robot);
    let longer = MissionModel { robots: mission.robots.push(robot), ..mission };
    crate::faithful::lemma_encode_concat(answer_text(mission), report_line(outcomes(longer).last()));
    let t = answer_text(mission);
    let os = outcomes(mission);
    if os.len() == 0 {
        assert(t =~= Seq::<char>::empty());
        assert(encode_utf8(t) =~= Seq::<u8>::empty());
    } else {
        let o = os.last();
        let front = report(os.drop_last()) + report_body(o);
        assert(report_line(o) =~= report_body(o) + seq!['\n']);
        assert(t =~= front + seq!['\n']);
        crate::faithful::lemma_encode_concat(front, seq!['\n']);
        assert(seq!['\n'].drop_first() =~= Seq::<char>::empty());
        assert(encode_utf8(seq!['\n']) =~= encode_scalar('\n' as u32) + encode_utf8(Seq::<char>::empty()));
        crate::faithful::lemma_scalar_bytes('\n');
        assert(encode_utf8(seq!['\n']) =~= seq![10u8]);
    }
}

/// The violations among verdicts none of which is a violation are none.
proof fn lemma_no_violations(verdicts: Seq<VerdictModel>, names: Seq<Seq<char>>, input: Seq<u8>, n: nat)
    requires
        n <= verdicts.len(),
        forall|k: int| 0 <= k < n ==> !(#[trigger] verdicts[k] is Violated),
    ensures
        crate::modes::violations_of(verdicts, names, input, n) == Seq::<Seq<char>>::empty(),
    decreases n,
{
    if n > 0 {
        lemma_no_violations(verdicts, names, input, (n - 1) as nat);
        assert(!(verdicts[n - 1] is Violated));
    }
}

/// Every step of `forwards(n)` is `F`.
proof fn lemma_forwards(n: nat)
    ensures
        crate::drawing::forwards(n).len() == n,
        forall|i: int| 0 <= i < n ==> #[trigger] crate::drawing::forwards(n)[i] == 'F',
    decreases n,
{
    if n > 0 {
        lemma_forwards((n - 1) as nat);
        assert forall|i: int| 0 <= i < n implies #[trigger] crate::drawing::forwards(n)[i] == 'F' by {
            if i < n - 1 {
                assert(crate::drawing::forwards(n)[i] == crate::drawing::forwards((n - 1) as nat)[i]);
            }
        }
    }
}

/// The turning instructions are instructions.
proof fn lemma_turns_are_instructions(instructions: Seq<char>, c: char)
    requires
        crate::drawing::turns_of(instructions).contains(c),
    ensures
        instructions.contains(c),
    decreases instructions.len(),
{
    if instructions.len() > 0 {
        let kept = crate::drawing::turns_of(instructions.drop_last());
        if kept.contains(c) {
            lemma_turns_are_instructions(instructions.drop_last(), c);
            let i = choose|i: int| 0 <= i < instructions.drop_last().len() && instructions.drop_last()[i] == c;
            assert(instructions[i] == c);
        } else {
            assert(c == instructions.last());
            assert(instructions[instructions.len() - 1] == c);
        }
    }
}

/// A robot facing a compass letter whose instructions are all clean letters
/// can be written and read back.
proof fn lemma_clean_robot_is_plain(robot: RobotModel)
    requires
        on_compass(robot.facing),
        forall|i: int| 0 <= i < robot.steps.len() ==> crate::faithful::clean_letter(#[trigger] robot.steps[i]),
    ensures
        crate::reading::plain_robot(robot),
{
    if robot.steps.contains('\n') {
        let i = choose|i: int| 0 <= i < robot.steps.len() && robot.steps[i] == '\n';
        assert(crate::faithful::clean_letter(robot.steps[i]));
    }
    if robot.steps.len() > 0 {
        assert(crate::faithful::clean_letter(robot.steps[0]));
        assert(crate::faithful::clean_letter(robot.steps[robot.steps.len() - 1]));
    }
}

/// Reshaped instructions drawn from clean letters are clean letters.
proof fn lemma_shapes_are_clean(steps: Seq<char>, before: Seq<char>, grammar: crate::grammar::GrammarModel)
    requires
        crate::faithful::drawable_letters(grammar),
        crate::drawing::one_of_the_shapes(steps, before, grammar),
        forall|i: int| 0 <= i < before.len() ==> grammar.instructions.contains(#[trigger] before[i]),
    ensures
        forall|i: int| 0 <= i < steps.len() ==> crate::faithful::clean_letter(#[trigger] steps[i]),
{
    lemma_forwards(crate::drawing::byte_len(before) as nat);
    assert forall|i: int| 0 <= i < steps.len() implies crate::faithful::clean_letter(#[trigger] steps[i]) by {
        if steps == crate::drawing::forwards(crate::drawing::byte_len(before) as nat) {
            assert(steps[i] == 'F');
        } else if steps == before {
            assert(grammar.instructions.contains(before[i]));
            let j = choose|j: int| 0 <= j < grammar.instructions.len() && grammar.instructions[j] == before[i];
            assert(crate::faithful::clean_letter(grammar.instructions[j]));
        } else {
            assert(crate::drawing::turns_of(grammar.instructions).contains(steps[i]));
            lemma_turns_are_instructions(grammar.instructions, steps[i]);
            let j = choose|j: int| 0 <= j < grammar.instructions.len() && grammar.instructions[j] == steps[i];
            assert(crate::faithful::clean_letter(grammar.instructions[j]));
        }
    }
}

/// What a whole properties run reports, step by step as `PropertiesRun`
/// takes it, when the program answers each input with `program` of it: the
/// violations of the six properties on each mission's answer, then whether
/// the same input gave the same answer, then whether one more robot kept the
/// answer before it; or the fault that ends the run.
pub open spec fn properties_found(
    state: u64,
    left: nat,
    max_coordinate: u32,
    grammar: crate::grammar::GrammarModel,
    names: Seq<Seq<char>>,
    program: spec_fn(Seq<u8>) -> Seq<u8>,
) -> Result<Seq<Seq<char>>, Seq<char>>
    decreases left,
{
    if left == 0 {
        Ok(seq![])
    } else {
        let (mission, s1) = crate::drawing::shaped_mission(state, max_coordinate, grammar);
        let input = encode_utf8(crate::mission::canonical_text(mission));
        let said = program(input);
        let judged = crate::modes::violations_of(checked(mission, said), names, input, 6);
        let again = program(input);
        let repeated = if again == said {
            Seq::<Seq<char>>::empty()
        } else {
            seq![crate::modes::violation_text(names[6], crate::expect::shown(said) + " then "@ + crate::expect::shown(again), input)]
        };
        let (longer, s2) = crate::drawing::extended(mission, s1, grammar);
        let longer_input = encode_utf8(crate::mission::canonical_text(longer));
        if !crate::mission::all_start_on(longer) {
            Err(crate::modes::generator_text("the generator built an invalid mission: "@, longer_input))
        } else {
            let kept = crate::modes::first_lines(program(longer_input), crate::modes::segments(said));
            let appended = if kept == said {
                Seq::<Seq<char>>::empty()
            } else {
                seq![crate::modes::violation_text(names[7], crate::expect::shown(said) + " became "@ + crate::expect::shown(kept), longer_input)]
            };
            match properties_found(s2, (left - 1) as nat, max_coordinate, grammar, names, program) {
                Err(why) => Err(why),
                Ok(rest) => Ok(judged + repeated + appended + rest),
            }
        }
    }
}

/// A reshaped mission from clean letters facing compass letters is small,
/// on its world, plain, and well placed.
proof fn lemma_shaped_is_plain(state: u64, max_coordinate: u32, grammar: crate::grammar::GrammarModel)
    requires
        crate::drawing::drawable(grammar),
        crate::faithful::drawable_letters(grammar),
        forall|i: int| 0 <= i < grammar.orientations.len() ==> on_compass(#[trigger] grammar.orientations[i]),
    ensures
        ({
            let m = crate::drawing::shaped_mission(state, max_coordinate, grammar).0;
            &&& m.max_x <= 5 && m.max_y <= 5
            &&& crate::reading::plain_mission(m)
            &&& well_placed(m)
        }),
{
    crate::drawing::lemma_shaped_mission(state, max_coordinate, grammar);
    crate::drawing::law_reshaping_keeps_the_world_and_the_starts(state, max_coordinate, grammar);
    crate::drawing::law_a_drawn_mission_is_small_and_speaks_its_grammar(state, max_coordinate, grammar);
    let d = crate::drawing::drawn_mission(state, max_coordinate, grammar).0;
    let m = crate::drawing::shaped_mission(state, max_coordinate, grammar).0;
    assert forall|i: int| 0 <= i < m.robots.len() implies crate::reading::plain_robot(#[trigger] m.robots[i])
        && starts_on(m.max_x, m.max_y, m.robots[i]) && on_compass(m.robots[i].facing) by {
        let r = m.robots[i];
        let dr = d.robots[i];
        assert(crate::drawing::speaks(dr, grammar));
        let j = choose|j: int| 0 <= j < grammar.orientations.len() && grammar.orientations[j] == dr.facing;
        assert(on_compass(grammar.orientations[j]));
        lemma_shapes_are_clean(r.steps, dr.steps, grammar);
        lemma_clean_robot_is_plain(r);
    }
}

/// A correct implementation violates no property over a whole run: when the
/// grammar's letters are clean, its orientations compass letters and it has
/// an instruction that turns, a program that answers every mission it can
/// read as the reference does is reported for nothing, and the run ends
/// without a fault.
pub proof fn law_a_correct_implementation_passes_a_whole_properties_run(
    state: u64,
    left: nat,
    max_coordinate: u32,
    grammar: crate::grammar::GrammarModel,
    names: Seq<Seq<char>>,
    program: spec_fn(Seq<u8>) -> Seq<u8>,
)
    requires
        crate::drawing::drawable(grammar),
        crate::faithful::drawable_letters(grammar),
        forall|i: int| 0 <= i < grammar.orientations.len() ==> on_compass(#[trigger] grammar.orientations[i]),
        forall|m: MissionModel| crate::reading::plain_mission(m)
            ==> #[trigger] program(encode_utf8(crate::mission::canonical_text(m))) == encode_utf8(answer_text(m)),
    ensures
        properties_found(state, left, max_coordinate, grammar, names, program) == Ok::<Seq<Seq<char>>, Seq<char>>(seq![]),
    decreases left,
{
    if left > 0 {
        let (mission, s1) = crate::drawing::shaped_mission(state, max_coordinate, grammar);
        let (longer, s2) = crate::drawing::extended(mission, s1, grammar);
        lemma_one_mission_passes(state, max_coordinate, grammar, names, program);
        law_a_correct_implementation_passes_a_whole_properties_run(s2, (left - 1) as nat, max_coordinate, grammar, names, program);
        let e = Seq::<Seq<char>>::empty();
        assert(e + e + e + e =~= e);
    }
}

/// The answer a correct implementation gives on a plain, well placed, small
/// mission violates none of the six properties.
proof fn lemma_correct_answer_judged(mission: MissionModel, names: Seq<Seq<char>>, said: Seq<u8>)
    requires
        mission.max_x <= 5 && mission.max_y <= 5,
        well_placed(mission),
        said == encode_utf8(answer_text(mission)),
    ensures
        crate::modes::violations_of(checked(mission, said), names, encode_utf8(crate::mission::canonical_text(mission)), 6)
            == Seq::<Seq<char>>::empty(),
{
    assert(forward_count_fits(mission)) by {
        if mission.robots.len() > 0 {
            assert(starts_on(mission.max_x, mission.max_y, mission.robots[0]));
        }
    }
    law_a_correct_answer_violates_nothing(mission);
    let verdicts = checked(mission, said);
    lemma_no_violations(verdicts, names, encode_utf8(crate::mission::canonical_text(mission)), 6);
}

/// One more robot, drawn and reshaped from clean letters, keeps a plain
/// mission plain and on its world, and the answer before it.
proof fn lemma_longer_keeps_the_answer(mission: MissionModel, s1: u64, grammar: crate::grammar::GrammarModel)
    requires
        crate::drawing::drawable(grammar),
        crate::faithful::drawable_letters(grammar),
        forall|i: int| 0 <= i < grammar.orientations.len() ==> on_compass(#[trigger] grammar.orientations[i]),
        mission.max_x <= 5 && mission.max_y <= 5,
        crate::reading::plain_mission(mission),
        well_placed(mission),
    ensures
        ({
            let longer = crate::drawing::extended(mission, s1, grammar).0;
            let said = encode_utf8(answer_text(mission));
            &&& crate::reading::plain_mission(longer)
            &&& crate::mission::all_start_on(longer)
            &&& crate::modes::first_lines(encode_utf8(answer_text(longer)), crate::modes::segments(said)) == said
        }),
{
    crate::drawing::law_another_robot_keeps_the_mission_before_it(mission, s1, grammar);
    let longer = crate::drawing::extended(mission, s1, grammar).0;
    let n = mission.robots.len();
    let drawn = crate::drawing::drawn_robot(s1, mission.max_x, mission.max_y, grammar).0;
    crate::drawing::lemma_drawn_robot_speaks(s1, mission.max_x, mission.max_y, grammar);
    let added = longer.robots[n as int];
    assert(longer.robots =~= mission.robots.push(added));
    let j = choose|j: int| 0 <= j < grammar.orientations.len() && grammar.orientations[j] == added.facing;
    assert(on_compass(grammar.orientations[j]));
    lemma_shapes_are_clean(added.steps, drawn.steps, grammar);
    lemma_clean_robot_is_plain(added);
    assert forall|i: int| 0 <= i < longer.robots.len() implies crate::reading::plain_robot(#[trigger] longer.robots[i]) by {
        if i < n {
            assert(longer.robots[i] == mission.robots[i]);
        }
    }
    assert forall|i: int| #![trigger longer.robots[i]] 0 <= i < longer.robots.len()
        implies longer.robots[i].x <= longer.max_x && longer.robots[i].y <= longer.max_y by {
        if i < n {
            assert(longer.robots[i] == mission.robots[i]);
            assert(starts_on(mission.max_x, mission.max_y, mission.robots[i]));
        }
    }
    assert(longer == MissionModel { robots: mission.robots.push(added), ..mission });
    lemma_longer_answer(mission, added);
    lemma_first_lines_of_prefix(encode_utf8(answer_text(mission)), encode_utf8(report_line(outcomes(longer).last())));
}

/// One mission of a properties run, answered by a correct implementation:
/// its answer violates nothing, and one more robot keeps it.
proof fn lemma_one_mission_passes(
    state: u64,
    max_coordinate: u32,
    grammar: crate::grammar::GrammarModel,
    names: Seq<Seq<char>>,
    program: spec_fn(Seq<u8>) -> Seq<u8>,
)
    requires
        crate::drawing::drawable(grammar),
        crate::faithful::drawable_letters(grammar),
        forall|i: int| 0 <= i < grammar.orientations.len() ==> on_compass(#[trigger] grammar.orientations[i]),
        forall|m: MissionModel| crate::reading::plain_mission(m)
            ==> #[trigger] program(encode_utf8(crate::mission::canonical_text(m))) == encode_utf8(answer_text(m)),
    ensures
        ({
            let (mission, s1) = crate::drawing::shaped_mission(state, max_coordinate, grammar);
            let (longer, s2) = crate::drawing::extended(mission, s1, grammar);
            let input = encode_utf8(crate::mission::canonical_text(mission));
            let said = program(input);
            let longer_input = encode_utf8(crate::mission::canonical_text(longer));
            &&& crate::modes::violations_of(checked(mission, said), names, input, 6) == Seq::<Seq<char>>::empty()
            &&& crate::mission::all_start_on(longer)
            &&& crate::modes::first_lines(program(longer_input), crate::modes::segments(said)) == said
        }),
{
    let (mission, s1) = crate::drawing::shaped_mission(state, max_coordinate, grammar);
    lemma_shaped_is_plain(state, max_coordinate, grammar);
    let input = encode_utf8(crate::mission::canonical_text(mission));
    assert(program(input) == encode_utf8(answer_text(mission)));
    lemma_correct_answer_judged(mission, names, program(input));
    lemma_longer_keeps_the_answer(mission, s1, grammar);
    let longer = crate::drawing::extended(mission, s1, grammar).0;
    assert(program(encode_utf8(crate::mission::canonical_text(longer))) == encode_utf8(answer_text(longer)));
}

/// For a first robot that only moves forward, on a world it starts on and
/// faces a compass point of, the answer is judged to keep that property
/// exactly when its first line reports what the reference simulation
/// reports for that robot.
pub proof fn law_only_forward_is_held_exactly_by_the_reference_report(mission: MissionModel, stdout: Seq<u8>)
    requires
        well_placed(mission),
        forward_count_fits(mission),
    ensures
        parse_reports(stdout) matches Ok(reports) ==> (reports.len() > 0 && mission.robots.len() > 0
            && only_forward_steps(mission.robots[0].steps) ==> (checked(mission, stdout)[4] is Held
            <==> reports[0] == outcomes(mission)[0])),
{
    let rs = mission.robots;
    if rs.len() > 0 && only_forward_steps(rs[0].steps) {
        let r = rs[0];
        assert forall|k: int| 0 <= k < r.steps.len() implies r.steps[k] == 'F' by {
            assert(r.steps[k] == 'F');
        }
        law_a_robot_that_only_moves_forward_stops_where_the_world_stops_it(mission);
        assert(room_ahead(mission, r) == room(mission.max_x, mission.max_y, r));
        assert(outcomes(mission)[0] == expected_forward(mission, r));
    }
}

} // verus!
