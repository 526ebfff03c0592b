//! The hand-written cases: each one pins a ruling of the contract, or says
//! why it exists when it pins none.

use vstd::prelude::*;
use vstd::utf8::*;

use crate::contract::Contract;
use crate::data::{SAMPLE_INPUT, SAMPLE_OUTPUT};
use crate::expect::{tags_of, texts, Diagnostic, DiagnosticModel, Expect, ExpectModel};
use crate::spelling::repeated;
use crate::text::{bytes_of, chars_of, decimal, push_decimal, push_str, string_of};

verus! {

/// One case: what it is called, the rulings it enforces, why it exists, how
/// the program is invoked, what it is fed, and what it must do.
pub struct Case {
    pub name: String,
    pub enforces: Vec<String>,
    pub note: String,
    pub arguments: Vec<String>,
    pub stdin: Vec<u8>,
    pub expect: Expect,
}

/// Whether every case cites a ruling or says why it exists.
pub open spec fn cites_or_says_why(cases: Seq<Case>) -> bool {
    forall|i: int| 0 <= i < cases.len() ==> (#[trigger] cases[i]).enforces@.len() > 0 || cases[i].note@.len() > 0
}


/// What a case is, as values.
pub struct CaseModel {
    pub name: Seq<char>,
    pub enforces: Seq<Seq<char>>,
    pub note: Seq<char>,
    pub arguments: Seq<Seq<char>>,
    pub stdin: Seq<u8>,
    pub expect: ExpectModel,
}

impl View for Case {
    type V = CaseModel;

    open spec fn view(&self) -> CaseModel {
        CaseModel {
            name: self.name@,
            enforces: texts(self.enforces@),
            note: self.note@,
            arguments: texts(self.arguments@),
            stdin: self.stdin@,
            expect: self.expect@,
        }
    }
}

/// The views of several cases.
pub open spec fn case_views(cases: Seq<Case>) -> Seq<CaseModel> {
    cases.map_values(|c: Case| c@)
}

/// The characters of several string slices.
pub open spec fn ids(v: Seq<&str>) -> Seq<Seq<char>> {
    v.map_values(|s: &str| s@)
}

/// A case that feeds the program `stdin` and passes no arguments.
pub open spec fn fed(name: &str, enforces: Seq<&str>, note: &str, stdin: Seq<u8>, expect: ExpectModel) -> CaseModel {
    CaseModel { name: name@, enforces: ids(enforces), note: note@, arguments: seq![], stdin, expect }
}

/// A case that passes arguments and feeds nothing.
pub open spec fn invoked(name: &str, enforces: Seq<&str>, note: &str, arguments: Seq<&str>, expect: ExpectModel) -> CaseModel {
    CaseModel { name: name@, enforces: ids(enforces), note: note@, arguments: ids(arguments), stdin: seq![], expect }
}

/// A text as the bytes a program is fed.
pub open spec fn input_of(text: &str) -> Seq<u8> {
    encode_utf8(text@)
}

/// Valid input answered with exactly this text.
pub open spec fn output_of(text: &str) -> ExpectModel {
    ExpectModel::Output(encode_utf8(text@))
}

/// Invalid input refused with a diagnostic that names `line` and cites one of `tags`.
pub open spec fn refused_at(line: nat, tags: Seq<&str>) -> ExpectModel {
    ExpectModel::Rejection(DiagnosticModel { required: seq!["line "@ + decimal(line)], any_of: tags_of(tags), forbids_a_line_reference: false })
}

/// Invalid input refused with a diagnostic that cites one of `tags`.
pub open spec fn refused_tagged(tags: Seq<&str>) -> ExpectModel {
    ExpectModel::Rejection(DiagnosticModel { required: seq![], any_of: tags_of(tags), forbids_a_line_reference: false })
}

/// Invalid input refused with a diagnostic that names no line.
pub open spec fn refused_without_a_line(tags: Seq<&str>) -> ExpectModel {
    ExpectModel::Rejection(DiagnosticModel { required: seq![], any_of: tags_of(tags), forbids_a_line_reference: true })
}

/// The cases that run whole missions: the sample, and the smallest ones.
pub open spec fn mission_cases() -> Seq<CaseModel> {
    seq![
        fed(
            "the brief's sample, byte for byte",
            seq![],
            "§2.3: the sample is normative. It pins no ruling on its own - R9's \
             rationale records that it cannot even distinguish the two scent models",
            SAMPLE_INPUT@,
            ExpectModel::Output(SAMPLE_OUTPUT@),
        ),
        fed(
            "a robot with no instructions reports where it started",
            seq!["R2"],
            "the line after a position line is that robot's instruction line even \
             when blank, which is what makes zero instructions expressible",
            input_of("5 3\n1 1 E\n\n"),
            output_of("1 1 E\n"),
        ),
        fed(
            "a grid line alone is a mission with nothing to do",
            seq!["R8"],
            "no robots at all: empty stdout, and a success rather than a rejection",
            input_of("5 3\n"),
            ExpectModel::Output(seq![]),
        ),
        fed(
            "the smallest world is one cell",
            seq!["R3"],
            "`0 0` is a world, not a degenerate case to reject",
            input_of("0 0\n0 0 N\n\n"),
            output_of("0 0 N\n"),
        ),
    ]
}

/// The cases that tell the models of scent apart.
pub open spec fn scent_cases() -> Seq<CaseModel> {
    seq![
        fed(
            "a scent blocks a departure by a different edge",
            seq!["R9"],
            "the discriminator the brief's own sample cannot be: robot one is lost \
             north from a corner, robot two tries to leave the same cell going \
             east. Cell-based scent saves it; direction-based scent does not, and \
             passes every other case in this suite",
            input_of("1 1\n1 1 N\nF\n1 1 E\nF\n"),
            output_of("1 1 N LOST\n1 1 E\n"),
        ),
        fed(
            "a scent is not used up by the robot it saves",
            seq!["R10"],
            "two later robots attempt the same fatal move from the same cell; the \
             cell is scented once and protects both",
            input_of("1 1\n1 1 N\nF\n1 1 N\nF\n1 1 N\nF\n"),
            output_of("1 1 N LOST\n1 1 N\n1 1 N\n"),
        ),
        fed(
            "a scent marks the cell and never the robot",
            seq!["R23"],
            "robot two starts on the scented cell, walks off it unharmed, and is \
             still lost at an edge that carries no scent. Protection is occupancy, \
             not a property the robot keeps",
            input_of("2 0\n0 0 W\nF\n0 0 E\nFFF\n"),
            output_of("0 0 W LOST\n2 0 E LOST\n"),
        ),
    ]
}

/// The cases on what separates tokens.
pub open spec fn whitespace_cases() -> Seq<CaseModel> {
    seq![
        fed(
            "every legal spelling of the separators is accepted",
            seq!["R4"],
            "tabs, runs, mixed runs, and whitespace at both edges of every line - \
             the positive control without which the rejections below would be \
             satisfied by a program that refuses all unusual whitespace",
            input_of("\t5  \t3 \n \t1\t1\tE  \n RFRFRFRF \t\n"),
            output_of("1 1 E\n"),
        ),
        fed(
            "a form feed is not a separator",
            seq!["R4", "R12"],
            "R4 names spaces and tabs and nothing else, but almost every runtime's \
             default whitespace split accepts this. One character from a valid \
             mission; replacing it with a space restores one",
            input_of("5\x0c3\n1 1 E\nRFRFRFRF\n"),
            refused_at(1, seq!["R4", "R12"]),
        ),
        fed(
            "a no-break space inside a legal run is not a separator",
            seq!["R4", "R12"],
            "hidden inside spaces a trim-and-split parser would accept, which is \
             where such a parser blames the legal space beside it",
            input_of("5 3\n1\u{a0} 1 E\nRFRFRFRF\n"),
            refused_at(2, seq!["R4", "R12"]),
        ),
        fed(
            "a vertical tab at the end of an instruction line is not whitespace",
            seq!["R4", "R12", "R7"],
            "the trailing edge, where `ows` makes real whitespace invisible. \
             Q6 leaves open whether this reads as a bad separator or an unknown \
             instruction, so either ruling satisfies the diagnostic",
            input_of("5 3\n1 1 E\nRFRFRFRF\x0b\n"),
            refused_at(3, seq!["R4", "R12", "R7"]),
        ),
    ]
}

/// The cases on what a token may be.
pub open spec fn vocabulary_cases() -> Seq<CaseModel> {
    seq![
        fed(
            "an orientation of the right token count and the wrong width",
            seq!["R12", "R7"],
            "three tokens, so a parser that counts tokens and reads the first \
             character of the third accepts it. Q5 leaves open which ruling owns \
             this, so either satisfies the diagnostic",
            input_of("5 3\n1 1 EE\nRFRFRFRF\n"),
            refused_at(2, seq!["R12", "R7"]),
        ),
        fed(
            "a coordinate with a letter glued to it",
            seq!["R12"],
            "an atoi-style parser reads the digits and discards the tail, which is \
             how a plausible wrong acceptance happens",
            input_of("5x 3\n1 1 E\nRFRFRFRF\n"),
            refused_at(1, seq!["R12"]),
        ),
        fed(
            "an extra token on a position line",
            seq!["R12"],
            "the line must match the grammar exactly once whitespace is normalised",
            input_of("5 3\n1 1 E X\nRFRFRFRF\n"),
            refused_at(2, seq!["R12"]),
        ),
        fed(
            "a lowercase orientation is not an orientation",
            seq!["R7", "R12"],
            "the vocabulary is strict-uppercase until a future command type says \
             otherwise",
            input_of("5 3\n1 1 e\nRFRFRFRF\n"),
            refused_at(2, seq!["R7", "R12"]),
        ),
        fed(
            "a letter outside the instruction vocabulary",
            seq!["R7", "R12"],
            "one character that is not L, R or F",
            input_of("5 3\n1 1 E\nRFXRF\n"),
            refused_at(3, seq!["R7", "R12"]),
        ),
        fed(
            "leading zeros are a spelling, not a different number",
            seq!["R16"],
            "accepted on input, and never echoed back: output numbers are canonical",
            input_of("05 03\n01 01 E\nRFRFRFRF\n"),
            output_of("1 1 E\n"),
        ),
    ]
}

/// The cases on blank lines and line endings.
pub open spec fn framing_cases() -> Seq<CaseModel> {
    seq![
        fed(
            "blank and whitespace-only lines before the grid line are ignored",
            seq!["R17", "R15"],
            "a line of only whitespace counts as blank, and blanks are admitted \
             ahead of the grid line as well as between blocks",
            input_of("   \n\n5 3\n1 1 E\nRFRFRFRF\n"),
            output_of("1 1 E\n"),
        ),
        fed(
            "an unterminated final line is a line",
            seq!["R14"],
            "end of input acts as an implicit end-of-line",
            input_of("5 3\n1 1 E\nRFRFRFRF"),
            output_of("1 1 E\n"),
        ),
        fed(
            "carriage returns are accepted on input and never emitted",
            seq!["R11"],
            "CRLF in, LF out",
            input_of("5 3\r\n1 1 E\r\nRFRFRFRF\r\n"),
            output_of("1 1 E\n"),
        ),
        fed(
            "a bare carriage return completes a non-empty final line",
            seq!["R19"],
            "half a CRLF, completed by the implicit end-of-line",
            input_of("5 3\n1 1 E\nRFRFRFRF\r"),
            output_of("1 1 E\n"),
        ),
        fed(
            "a position line with no instruction line after it is refused",
            seq!["R13", "R18"],
            "the implicit end-of-line does not manufacture the blank line that \
             would make this a robot with no instructions - R18 is what keeps R13 \
             standing, and the diagnostic anchors to the position line",
            input_of("5 3\n1 1 E\n"),
            refused_at(2, seq!["R13"]),
        ),
        fed(
            "a lone carriage return may not manufacture an instruction line",
            seq!["R19"],
            "the guard: without it one invisible byte turns this rejection into an \
             accepted mission. Which line carries the defect is contestable, so \
             only the ruling is required",
            input_of("5 3\n1 1 E\n\r"),
            refused_tagged(seq!["R19", "R13"]),
        ),
        fed(
            "a carriage return that is not part of a line ending is refused",
            seq!["R19", "R11"],
            "a CR not followed by LF, in the middle of the input",
            input_of("5 3\r1 1 E\nRFRFRFRF\n"),
            refused_tagged(seq!["R19", "R11", "R12"]),
        ),
    ]
}

/// The case that asks for every independent problem.
pub open spec fn diagnostic_cases(max_coordinate: u32) -> Seq<CaseModel> {
    seq![
        fed(
            "independent problems in different blocks are all reported",
            seq!["R25"],
            "one pass, not one diagnostic: each line that breaks a rule on its own \
             is diagnosed, whatever is wrong elsewhere. A program that stops at \
             its first problem is the only thing this case catches",
            encode_utf8("5 3\n1 1 e\n\n\n"@ + decimal((max_coordinate + 1) as nat) + " 1 E\n\n"@),
            ExpectModel::Rejection(DiagnosticModel {
                required: seq!["line 2"@, "line 5"@],
                any_of: seq![],
                forbids_a_line_reference: false,
            }),
        ),
    ]
}

/// The cases on bytes that are not text.
pub open spec fn byte_cases() -> Seq<CaseModel> {
    seq![
        fed(
            "a byte that cannot begin a character is not contract input",
            seq!["R22"],
            "a lone continuation byte on an instruction line. The contract's text \
             is ASCII, so this is invalid input rather than a decoding problem to \
             paper over",
            encode_utf8("5 3\n1 1 E\nRF"@) + seq![0x80u8] + encode_utf8("\n"@),
            refused_at(3, seq!["R22"]),
        ),
        fed(
            "a truncated character at end of input is not contract input",
            seq!["R22"],
            "the first byte of a multi-byte sequence with nothing following it, \
             which a lossy decoder silently replaces",
            encode_utf8("5 3\n1 1 E\nRFRFRFRF"@) + seq![0xc3u8] + encode_utf8(""@),
            refused_tagged(seq!["R22"]),
        ),
    ]
}

/// The cases at and just past the limits.
pub open spec fn boundary_cases(max_coordinate: u32, max_instructions: u32) -> Seq<CaseModel> {
    seq![
        fed(
            "empty input is refused without inventing a line to blame",
            seq![],
            "§2.5: a violation with no attributable physical line carries no line \
             reference, so naming one is wrong rather than merely unhelpful. The \
             missing grid line is the contract's own example",
            input_of(""),
            refused_without_a_line(seq![]),
        ),
        fed(
            "a coordinate at the maximum is accepted",
            seq!["R5"],
            "the limit is inclusive: the boundary value itself is valid input",
            encode_utf8(decimal(max_coordinate as nat) + " "@ + decimal(max_coordinate as nat) + "\n"@ + decimal(max_coordinate as nat) + " "@
                + decimal(max_coordinate as nat) + " N\n\n"@),
            ExpectModel::Output(encode_utf8(decimal(max_coordinate as nat) + " "@ + decimal(max_coordinate as nat) + " N\n"@)),
        ),
        fed(
            "a grid coordinate past the maximum is refused",
            seq!["R5"],
            "one past the boundary, on the grid line",
            encode_utf8(""@ + decimal((max_coordinate + 1) as nat) + " 3\n"@),
            refused_at(1, seq!["R5"]),
        ),
        fed(
            "a robot coordinate past the maximum is refused",
            seq!["R5"],
            "one past the boundary, on a position line. A coordinate over the \
             limit is necessarily off the world too, so R1 governs as well and \
             §2.5 lets a diagnostic cite either",
            encode_utf8("5 3\n"@ + decimal((max_coordinate + 1) as nat) + " 1 E\n\n"@),
            refused_at(2, seq!["R5", "R1"]),
        ),
        fed(
            "a start off the world is refused even when it is under the maximum",
            seq!["R1"],
            "isolates R1 from R5: the coordinate is legal, the position is not",
            input_of("5 3\n6 1 E\n\n"),
            refused_at(2, seq!["R1"]),
        ),
        fed(
            "an instruction string at the maximum length is accepted",
            seq!["R6"],
            "the longest legal string, of turns only, so the answer depends on no \
             movement rule",
            encode_utf8("5 3\n1 1 N\n"@ + repeated('L', max_instructions as nat) + "\n"@),
            ExpectModel::Output(encode_utf8("1 1 "@ + after_left_turns_of(max_instructions) + "\n"@)),
        ),
        fed(
            "an instruction string past the maximum length is refused",
            seq!["R6"],
            "one past the boundary",
            encode_utf8("5 3\n1 1 N\n"@ + repeated('L', (max_instructions + 1) as nat) + "\n"@),
            refused_at(3, seq!["R6"]),
        ),
        fed(
            "nothing is printed for the robots before a bad one",
            seq!["R5"],
            "§2.4 is all-or-nothing, and the only way to see it is to put the \
             defect in a later block: a program that prints each robot as it goes \
             has already produced output a correct run never would",
            encode_utf8("5 3\n1 1 E\n\n\n1 1 E\n\n\n"@ + decimal((max_coordinate + 1) as nat) + " 1 E\n\n"@),
            refused_at(8, seq!["R5", "R1"]),
        ),
    ]
}

/// The cases on arguments.
pub open spec fn invocation_cases() -> Seq<CaseModel> {
    seq![
        invoked(
            "--help alone prints usage and exits 0",
            seq!["R20"],
            "no ruling constrains the text, so nothing is asked of it but existence",
            seq!["--help"],
            ExpectModel::Help,
        ),
        invoked(
            "-h alone prints usage and exits 0",
            seq!["R20"],
            "the short spelling is the same promise",
            seq!["-h"],
            ExpectModel::Help,
        ),
        invoked(
            "an unknown argument is a usage error",
            seq!["R21"],
            "stderr, non-zero, and nothing on stdout",
            seq!["--simulate"],
            ExpectModel::UsageError,
        ),
        invoked(
            "an empty argument is still an argument",
            seq!["R21"],
            "the empty string is not the absence of an argument",
            seq![""],
            ExpectModel::UsageError,
        ),
        invoked(
            "a help flag with another argument is a usage error",
            seq!["R24"],
            "a help flag prints help only when it is the sole argument",
            seq!["--help", "extra"],
            ExpectModel::UsageError,
        ),
        invoked(
            "a help flag after another argument is a usage error",
            seq!["R24"],
            "the same in the other order, which an argument loop that returns on \
             the first help flag it sees would pass",
            seq!["extra", "-h"],
            ExpectModel::UsageError,
        ),
    ]
}

/// Every hand-written case, in order, for the given limits.
pub open spec fn catalogue_model(max_coordinate: u32, max_instructions: u32) -> Seq<CaseModel> {
    mission_cases() + scent_cases() + whitespace_cases() + vocabulary_cases() + framing_cases()
        + diagnostic_cases(max_coordinate) + byte_cases() + boundary_cases(max_coordinate, max_instructions)
        + invocation_cases()
}

struct Builder {
    cases: Vec<Case>,
}

fn owned(s: &str) -> (r: String)
    ensures
        r@ == s@,
{
    string_of(&chars_of(s))
}

fn owned_all(items: &[&str]) -> (r: Vec<String>)
    ensures
        r@.len() == items@.len(),
        forall|i: int| 0 <= i < items@.len() ==> (#[trigger] r@[i])@ == items@[i]@,
{
    let mut out: Vec<String> = Vec::new();
    let mut i: usize = 0;
    while i < items.len()
        invariant
            i <= items@.len(),
            out@.len() == i,
            forall|j: int| 0 <= j < i ==> (#[trigger] out@[j])@ == items@[j]@,
        decreases items@.len() - i,
    {
        out.push(owned(items[i]));
        i = i + 1;
    }
    out
}

/// The UTF-8 bytes of a text.
fn text_bytes(s: &str) -> (r: Vec<u8>)
    ensures
        r@ == encode_utf8(s@),
{
    bytes_of(&chars_of(s))
}

/// A copy of some bytes.
fn copy_bytes(bytes: &[u8]) -> (r: Vec<u8>)
    ensures
        r@ == bytes@,
{
    let mut out: Vec<u8> = Vec::new();
    let mut i: usize = 0;
    while i < bytes.len()
        invariant
            i <= bytes@.len(),
            out@ == bytes@.take(i as int),
        decreases bytes@.len() - i,
    {
        out.push(bytes[i]);
        i = i + 1;
        proof {
            assert(out@ =~= bytes@.take(i as int));
        }
    }
    proof {
        assert(bytes@.take(i as int) =~= bytes@);
    }
    out
}

/// `before`, a number, and `after`, as bytes.
fn framed(before: &str, n: u32, after: &str) -> (r: Vec<u8>)
    ensures
        r@ == encode_utf8(before@ + decimal(n as nat) + after@),
{
    let mut text = chars_of(before);
    push_decimal(&mut text, n);
    push_str(&mut text, after);
    bytes_of(&text)
}

/// `before`, `n` left turns, and `after`, as bytes.
fn lefts(before: &str, n: usize, after: &str) -> (r: Vec<u8>)
    ensures
        r@ == encode_utf8(before@ + repeated('L', n as nat) + after@),
{
    let mut text = chars_of(before);
    let ghost start = text@;
    let mut k: usize = 0;
    while k < n
        invariant
            k <= n,
            text@ == start + repeated('L', k as nat),
        decreases n - k,
    {
        text.push('L');
        k = k + 1;
        proof {
            assert(text@ =~= start + repeated('L', k as nat));
        }
    }
    push_str(&mut text, after);
    bytes_of(&text)
}

/// The bytes of `before`, one raw byte, and the bytes of `after`.
fn with_byte(before: &str, byte: u8, after: &str) -> (r: Vec<u8>)
    ensures
        r@ == encode_utf8(before@) + seq![byte] + encode_utf8(after@),
{
    let mut out = text_bytes(before);
    out.push(byte);
    let tail = text_bytes(after);
    let ghost start = out@;
    let mut i: usize = 0;
    while i < tail.len()
        invariant
            i <= tail@.len(),
            out@ == start + tail@.take(i as int),
        decreases tail@.len() - i,
    {
        out.push(tail[i]);
        i = i + 1;
        proof {
            assert(out@ =~= start + tail@.take(i as int));
        }
    }
    proof {
        assert(tail@.take(i as int) =~= tail@);
    }
    out
}

/// `max max` on the grid line and a robot at that corner, facing north.
fn at_the_corner(max: u32) -> (r: Vec<u8>)
    ensures
        r@ == encode_utf8(decimal(max as nat) + " "@ + decimal(max as nat) + "\n"@ + decimal(max as nat) + " "@
            + decimal(max as nat) + " N\n\n"@),
{
    let mut text: Vec<char> = Vec::new();
    push_decimal(&mut text, max);
    push_str(&mut text, " ");
    push_decimal(&mut text, max);
    push_str(&mut text, "\n");
    push_decimal(&mut text, max);
    push_str(&mut text, " ");
    push_decimal(&mut text, max);
    push_str(&mut text, " N\n\n");
    bytes_of(&text)
}

/// The answer for a robot at the corner of the largest world.
fn corner_answer(max: u32) -> (r: Vec<u8>)
    ensures
        r@ == encode_utf8(decimal(max as nat) + " "@ + decimal(max as nat) + " N\n"@),
{
    let mut text: Vec<char> = Vec::new();
    push_decimal(&mut text, max);
    push_str(&mut text, " ");
    push_decimal(&mut text, max);
    push_str(&mut text, " N\n");
    bytes_of(&text)
}

/// The answer for a robot at `(1, 1)` facing north after `turns` left turns.
fn turned_answer(turns: u32) -> (r: Vec<u8>)
    ensures
        r@ == encode_utf8("1 1 "@ + after_left_turns_of(turns) + "\n"@),
{
    let mut text = chars_of("1 1 ");
    push_str(&mut text, after_left_turns(turns));
    push_str(&mut text, "\n");
    bytes_of(&text)
}

/// Where north ends up after some left turns.
pub open spec fn after_left_turns_of(turns: u32) -> Seq<char> {
    let at = turns % 4;
    if at == 0 { "N"@ } else if at == 1 { "W"@ } else if at == 2 { "S"@ } else { "E"@ }
}

/// Where north ends up after some left turns.
pub fn after_left_turns(turns: u32) -> (r: &'static str)
    ensures
        r@ == after_left_turns_of(turns),
{
    let at = turns % 4;
    if at == 0 { "N" } else if at == 1 { "W" } else if at == 2 { "S" } else { "E" }
}

impl Builder {
    fn case(&mut self, name: &str, enforces: &[&str], note: &str, stdin: Vec<u8>, expect: Expect)
        requires
            enforces@.len() > 0 || note@.len() > 0,
            cites_or_says_why(old(self).cases@),
        ensures
            cites_or_says_why(final(self).cases@),
            case_views(final(self).cases@) == case_views(old(self).cases@).push(CaseModel {
                name: name@,
                enforces: ids(enforces@),
                note: note@,
                arguments: seq![],
                stdin: stdin@,
                expect: expect@,
            }),
    {
        let case = Case {
            name: owned(name),
            enforces: owned_all(enforces),
            note: owned(note),
            arguments: Vec::new(),
            stdin,
            expect,
        };
        let ghost before = self.cases@;
        proof {
            assert(texts(case.enforces@) =~= ids(enforces@));
            assert(texts(case.arguments@) =~= Seq::<Seq<char>>::empty());
        }
        self.cases.push(case);
        proof {
            assert(case_views(self.cases@) =~= case_views(before).push(case@));
        }
    }

    fn invocation(&mut self, name: &str, enforces: &[&str], note: &str, args: &[&str], expect: Expect)
        requires
            enforces@.len() > 0 || note@.len() > 0,
            cites_or_says_why(old(self).cases@),
        ensures
            cites_or_says_why(final(self).cases@),
            case_views(final(self).cases@) == case_views(old(self).cases@).push(CaseModel {
                name: name@,
                enforces: ids(enforces@),
                note: note@,
                arguments: ids(args@),
                stdin: seq![],
                expect: expect@,
            }),
    {
        let case = Case {
            name: owned(name),
            enforces: owned_all(enforces),
            note: owned(note),
            arguments: owned_all(args),
            stdin: Vec::new(),
            expect,
        };
        let ghost before = self.cases@;
        proof {
            assert(texts(case.enforces@) =~= ids(enforces@));
            assert(texts(case.arguments@) =~= ids(args@));
            assert(case.stdin@ =~= Seq::<u8>::empty());
        }
        self.cases.push(case);
        proof {
            assert(case_views(self.cases@) =~= case_views(before).push(case@));
        }
    }
}

fn missions(build: &mut Builder, _contract: &Contract)
    requires
        cites_or_says_why(old(build).cases@),
    ensures
        cites_or_says_why(final(build).cases@),
        case_views(final(build).cases@) == case_views(old(build).cases@) + mission_cases(),
{
    let ghost start = case_views(build.cases@);
    let ghost want = mission_cases();
    proof {
        reveal_strlit("§2.3: the sample is normative. It pins no ruling on its own - R9's \
         rationale records that it cannot even distinguish the two scent models");
    }
    build.case(
        "the brief's sample, byte for byte",
        &[],
        "§2.3: the sample is normative. It pins no ruling on its own - R9's \
         rationale records that it cannot even distinguish the two scent models",
        copy_bytes(SAMPLE_INPUT.as_slice()),
        Expect::Output(copy_bytes(SAMPLE_OUTPUT.as_slice())),
    );
    proof {
        let got = case_views(build.cases@).last();
        let w = want[0];
        assert(got.name == w.name && got.note == w.note && got.stdin == w.stdin);
        assert(got.expect == w.expect && got.arguments == w.arguments && got.enforces == w.enforces);
        assert(case_views(build.cases@) =~= start + want.take(1));
    }

    build.case(
        "a robot with no instructions reports where it started",
        &["R2"],
        "the line after a position line is that robot's instruction line even \
         when blank, which is what makes zero instructions expressible",
        text_bytes("5 3\n1 1 E\n\n"),
        Expect::Output(text_bytes("1 1 E\n")),
    );
    proof {
        let got = case_views(build.cases@).last();
        let w = want[1];
        assert(got.name == w.name && got.note == w.note && got.stdin == w.stdin);
        assert(got.expect == w.expect && got.arguments == w.arguments && got.enforces == w.enforces);
        assert(case_views(build.cases@) =~= start + want.take(2));
    }

    build.case(
        "a grid line alone is a mission with nothing to do",
        &["R8"],
        "no robots at all: empty stdout, and a success rather than a rejection",
        text_bytes("5 3\n"),
        Expect::Output(Vec::new()),
    );
    proof {
        let got = case_views(build.cases@).last();
        let w = want[2];
        assert(got.name == w.name && got.note == w.note && got.stdin == w.stdin);
        assert(got.expect == w.expect && got.arguments == w.arguments && got.enforces == w.enforces);
        assert(case_views(build.cases@) =~= start + want.take(3));
    }

    build.case(
        "the smallest world is one cell",
        &["R3"],
        "`0 0` is a world, not a degenerate case to reject",
        text_bytes("0 0\n0 0 N\n\n"),
        Expect::Output(text_bytes("0 0 N\n")),
    );
    proof {
        let got = case_views(build.cases@).last();
        let w = want[3];
        assert(got.name == w.name && got.note == w.note && got.stdin == w.stdin);
        assert(got.expect == w.expect && got.arguments == w.arguments && got.enforces == w.enforces);
        assert(case_views(build.cases@) =~= start + want.take(4));
    }
    proof {
        assert(want.take(4) =~= want);
    }
}

fn scent(build: &mut Builder)
    requires
        cites_or_says_why(old(build).cases@),
    ensures
        cites_or_says_why(final(build).cases@),
        case_views(final(build).cases@) == case_views(old(build).cases@) + scent_cases(),
{
    let ghost start = case_views(build.cases@);
    let ghost want = scent_cases();
    build.case(
        "a scent blocks a departure by a different edge",
        &["R9"],
        "the discriminator the brief's own sample cannot be: robot one is lost \
         north from a corner, robot two tries to leave the same cell going \
         east. Cell-based scent saves it; direction-based scent does not, and \
         passes every other case in this suite",
        text_bytes("1 1\n1 1 N\nF\n1 1 E\nF\n"),
        Expect::Output(text_bytes("1 1 N LOST\n1 1 E\n")),
    );
    proof {
        let got = case_views(build.cases@).last();
        let w = want[0];
        assert(got.name == w.name && got.note == w.note && got.stdin == w.stdin);
        assert(got.expect == w.expect && got.arguments == w.arguments && got.enforces == w.enforces);
        assert(case_views(build.cases@) =~= start + want.take(1));
    }

    build.case(
        "a scent is not used up by the robot it saves",
        &["R10"],
        "two later robots attempt the same fatal move from the same cell; the \
         cell is scented once and protects both",
        text_bytes("1 1\n1 1 N\nF\n1 1 N\nF\n1 1 N\nF\n"),
        Expect::Output(text_bytes("1 1 N LOST\n1 1 N\n1 1 N\n")),
    );
    proof {
        let got = case_views(build.cases@).last();
        let w = want[1];
        assert(got.name == w.name && got.note == w.note && got.stdin == w.stdin);
        assert(got.expect == w.expect && got.arguments == w.arguments && got.enforces == w.enforces);
        assert(case_views(build.cases@) =~= start + want.take(2));
    }

    build.case(
        "a scent marks the cell and never the robot",
        &["R23"],
        "robot two starts on the scented cell, walks off it unharmed, and is \
         still lost at an edge that carries no scent. Protection is occupancy, \
         not a property the robot keeps",
        text_bytes("2 0\n0 0 W\nF\n0 0 E\nFFF\n"),
        Expect::Output(text_bytes("0 0 W LOST\n2 0 E LOST\n")),
    );
    proof {
        let got = case_views(build.cases@).last();
        let w = want[2];
        assert(got.name == w.name && got.note == w.note && got.stdin == w.stdin);
        assert(got.expect == w.expect && got.arguments == w.arguments && got.enforces == w.enforces);
        assert(case_views(build.cases@) =~= start + want.take(3));
    }
    proof {
        assert(want.take(3) =~= want);
    }
}

fn whitespace(build: &mut Builder)
    requires
        cites_or_says_why(old(build).cases@),
    ensures
        cites_or_says_why(final(build).cases@),
        case_views(final(build).cases@) == case_views(old(build).cases@) + whitespace_cases(),
{
    let ghost start = case_views(build.cases@);
    let ghost want = whitespace_cases();
    build.case(
        "every legal spelling of the separators is accepted",
        &["R4"],
        "tabs, runs, mixed runs, and whitespace at both edges of every line - \
         the positive control without which the rejections below would be \
         satisfied by a program that refuses all unusual whitespace",
        text_bytes("\t5  \t3 \n \t1\t1\tE  \n RFRFRFRF \t\n"),
        Expect::Output(text_bytes("1 1 E\n")),
    );
    proof {
        let got = case_views(build.cases@).last();
        let w = want[0];
        assert(got.name == w.name && got.note == w.note && got.stdin == w.stdin);
        assert(got.expect == w.expect && got.arguments == w.arguments && got.enforces == w.enforces);
        assert(case_views(build.cases@) =~= start + want.take(1));
    }

    build.case(
        "a form feed is not a separator",
        &["R4", "R12"],
        "R4 names spaces and tabs and nothing else, but almost every runtime's \
         default whitespace split accepts this. One character from a valid \
         mission; replacing it with a space restores one",
        text_bytes("5\x0c3\n1 1 E\nRFRFRFRF\n"),
        Expect::Rejection(Diagnostic::at_line(1, &["R4", "R12"])),
    );
    proof {
        let got = case_views(build.cases@).last();
        let w = want[1];
        assert(got.name == w.name && got.note == w.note && got.stdin == w.stdin);
        assert(got.expect->Rejection_0.required == w.expect->Rejection_0.required);
        assert(got.expect->Rejection_0.any_of == w.expect->Rejection_0.any_of);
        assert(got.expect == w.expect && got.arguments == w.arguments && got.enforces == w.enforces);
        assert(case_views(build.cases@) =~= start + want.take(2));
    }

    build.case(
        "a no-break space inside a legal run is not a separator",
        &["R4", "R12"],
        "hidden inside spaces a trim-and-split parser would accept, which is \
         where such a parser blames the legal space beside it",
        text_bytes("5 3\n1\u{a0} 1 E\nRFRFRFRF\n"),
        Expect::Rejection(Diagnostic::at_line(2, &["R4", "R12"])),
    );
    proof {
        let got = case_views(build.cases@).last();
        let w = want[2];
        assert(got.name == w.name && got.note == w.note && got.stdin == w.stdin);
        assert(got.expect->Rejection_0.required == w.expect->Rejection_0.required);
        assert(got.expect->Rejection_0.any_of == w.expect->Rejection_0.any_of);
        assert(got.expect == w.expect && got.arguments == w.arguments && got.enforces == w.enforces);
        assert(case_views(build.cases@) =~= start + want.take(3));
    }

    build.case(
        "a vertical tab at the end of an instruction line is not whitespace",
        &["R4", "R12", "R7"],
        "the trailing edge, where `ows` makes real whitespace invisible. \
         Q6 leaves open whether this reads as a bad separator or an unknown \
         instruction, so either ruling satisfies the diagnostic",
        text_bytes("5 3\n1 1 E\nRFRFRFRF\x0b\n"),
        Expect::Rejection(Diagnostic::at_line(3, &["R4", "R12", "R7"])),
    );
    proof {
        let got = case_views(build.cases@).last();
        let w = want[3];
        assert(got.name == w.name && got.note == w.note && got.stdin == w.stdin);
        assert(got.expect->Rejection_0.required == w.expect->Rejection_0.required);
        assert(got.expect->Rejection_0.any_of == w.expect->Rejection_0.any_of);
        assert(got.expect == w.expect && got.arguments == w.arguments && got.enforces == w.enforces);
        assert(case_views(build.cases@) =~= start + want.take(4));
    }
    proof {
        assert(want.take(4) =~= want);
    }
}

fn vocabulary(build: &mut Builder)
    requires
        cites_or_says_why(old(build).cases@),
    ensures
        cites_or_says_why(final(build).cases@),
        case_views(final(build).cases@) == case_views(old(build).cases@) + vocabulary_cases(),
{
    let ghost start = case_views(build.cases@);
    let ghost want = vocabulary_cases();
    build.case(
        "an orientation of the right token count and the wrong width",
        &["R12", "R7"],
        "three tokens, so a parser that counts tokens and reads the first \
         character of the third accepts it. Q5 leaves open which ruling owns \
         this, so either satisfies the diagnostic",
        text_bytes("5 3\n1 1 EE\nRFRFRFRF\n"),
        Expect::Rejection(Diagnostic::at_line(2, &["R12", "R7"])),
    );
    proof {
        let got = case_views(build.cases@).last();
        let w = want[0];
        assert(got.name == w.name && got.note == w.note && got.stdin == w.stdin);
        assert(got.expect->Rejection_0.required == w.expect->Rejection_0.required);
        assert(got.expect->Rejection_0.any_of == w.expect->Rejection_0.any_of);
        assert(got.expect == w.expect && got.arguments == w.arguments && got.enforces == w.enforces);
        assert(case_views(build.cases@) =~= start + want.take(1));
    }

    build.case(
        "a coordinate with a letter glued to it",
        &["R12"],
        "an atoi-style parser reads the digits and discards the tail, which is \
         how a plausible wrong acceptance happens",
        text_bytes("5x 3\n1 1 E\nRFRFRFRF\n"),
        Expect::Rejection(Diagnostic::at_line(1, &["R12"])),
    );
    proof {
        let got = case_views(build.cases@).last();
        let w = want[1];
        assert(got.name == w.name && got.note == w.note && got.stdin == w.stdin);
        assert(got.expect->Rejection_0.required == w.expect->Rejection_0.required);
        assert(got.expect->Rejection_0.any_of == w.expect->Rejection_0.any_of);
        assert(got.expect == w.expect && got.arguments == w.arguments && got.enforces == w.enforces);
        assert(case_views(build.cases@) =~= start + want.take(2));
    }

    build.case(
        "an extra token on a position line",
        &["R12"],
        "the line must match the grammar exactly once whitespace is normalised",
        text_bytes("5 3\n1 1 E X\nRFRFRFRF\n"),
        Expect::Rejection(Diagnostic::at_line(2, &["R12"])),
    );
    proof {
        let got = case_views(build.cases@).last();
        let w = want[2];
        assert(got.name == w.name && got.note == w.note && got.stdin == w.stdin);
        assert(got.expect->Rejection_0.required == w.expect->Rejection_0.required);
        assert(got.expect->Rejection_0.any_of == w.expect->Rejection_0.any_of);
        assert(got.expect == w.expect && got.arguments == w.arguments && got.enforces == w.enforces);
        assert(case_views(build.cases@) =~= start + want.take(3));
    }

    build.case(
        "a lowercase orientation is not an orientation",
        &["R7", "R12"],
        "the vocabulary is strict-uppercase until a future command type says \
         otherwise",
        text_bytes("5 3\n1 1 e\nRFRFRFRF\n"),
        Expect::Rejection(Diagnostic::at_line(2, &["R7", "R12"])),
    );
    proof {
        let got = case_views(build.cases@).last();
        let w = want[3];
        assert(got.name == w.name && got.note == w.note && got.stdin == w.stdin);
        assert(got.expect->Rejection_0.required == w.expect->Rejection_0.required);
        assert(got.expect->Rejection_0.any_of == w.expect->Rejection_0.any_of);
        assert(got.expect == w.expect && got.arguments == w.arguments && got.enforces == w.enforces);
        assert(case_views(build.cases@) =~= start + want.take(4));
    }

    build.case(
        "a letter outside the instruction vocabulary",
        &["R7", "R12"],
        "one character that is not L, R or F",
        text_bytes("5 3\n1 1 E\nRFXRF\n"),
        Expect::Rejection(Diagnostic::at_line(3, &["R7", "R12"])),
    );
    proof {
        let got = case_views(build.cases@).last();
        let w = want[4];
        assert(got.name == w.name && got.note == w.note && got.stdin == w.stdin);
        assert(got.expect->Rejection_0.required == w.expect->Rejection_0.required);
        assert(got.expect->Rejection_0.any_of == w.expect->Rejection_0.any_of);
        assert(got.expect == w.expect && got.arguments == w.arguments && got.enforces == w.enforces);
        assert(case_views(build.cases@) =~= start + want.take(5));
    }

    build.case(
        "leading zeros are a spelling, not a different number",
        &["R16"],
        "accepted on input, and never echoed back: output numbers are canonical",
        text_bytes("05 03\n01 01 E\nRFRFRFRF\n"),
        Expect::Output(text_bytes("1 1 E\n")),
    );
    proof {
        let got = case_views(build.cases@).last();
        let w = want[5];
        assert(got.name == w.name && got.note == w.note && got.stdin == w.stdin);
        assert(got.expect == w.expect && got.arguments == w.arguments && got.enforces == w.enforces);
        assert(case_views(build.cases@) =~= start + want.take(6));
    }
    proof {
        assert(want.take(6) =~= want);
    }
}

fn framing(build: &mut Builder)
    requires
        cites_or_says_why(old(build).cases@),
    ensures
        cites_or_says_why(final(build).cases@),
        case_views(final(build).cases@) == case_views(old(build).cases@) + framing_cases(),
{
    let ghost start = case_views(build.cases@);
    let ghost want = framing_cases();
    build.case(
        "blank and whitespace-only lines before the grid line are ignored",
        &["R17", "R15"],
        "a line of only whitespace counts as blank, and blanks are admitted \
         ahead of the grid line as well as between blocks",
        text_bytes("   \n\n5 3\n1 1 E\nRFRFRFRF\n"),
        Expect::Output(text_bytes("1 1 E\n")),
    );
    proof {
        let got = case_views(build.cases@).last();
        let w = want[0];
        assert(got.name == w.name && got.note == w.note && got.stdin == w.stdin);
        assert(got.expect == w.expect && got.arguments == w.arguments && got.enforces == w.enforces);
        assert(case_views(build.cases@) =~= start + want.take(1));
    }

    build.case(
        "an unterminated final line is a line",
        &["R14"],
        "end of input acts as an implicit end-of-line",
        text_bytes("5 3\n1 1 E\nRFRFRFRF"),
        Expect::Output(text_bytes("1 1 E\n")),
    );
    proof {
        let got = case_views(build.cases@).last();
        let w = want[1];
        assert(got.name == w.name && got.note == w.note && got.stdin == w.stdin);
        assert(got.expect == w.expect && got.arguments == w.arguments && got.enforces == w.enforces);
        assert(case_views(build.cases@) =~= start + want.take(2));
    }

    build.case(
        "carriage returns are accepted on input and never emitted",
        &["R11"],
        "CRLF in, LF out",
        text_bytes("5 3\r\n1 1 E\r\nRFRFRFRF\r\n"),
        Expect::Output(text_bytes("1 1 E\n")),
    );
    proof {
        let got = case_views(build.cases@).last();
        let w = want[2];
        assert(got.name == w.name && got.note == w.note && got.stdin == w.stdin);
        assert(got.expect == w.expect && got.arguments == w.arguments && got.enforces == w.enforces);
        assert(case_views(build.cases@) =~= start + want.take(3));
    }

    build.case(
        "a bare carriage return completes a non-empty final line",
        &["R19"],
        "half a CRLF, completed by the implicit end-of-line",
        text_bytes("5 3\n1 1 E\nRFRFRFRF\r"),
        Expect::Output(text_bytes("1 1 E\n")),
    );
    proof {
        let got = case_views(build.cases@).last();
        let w = want[3];
        assert(got.name == w.name && got.note == w.note && got.stdin == w.stdin);
        assert(got.expect == w.expect && got.arguments == w.arguments && got.enforces == w.enforces);
        assert(case_views(build.cases@) =~= start + want.take(4));
    }

    build.case(
        "a position line with no instruction line after it is refused",
        &["R13", "R18"],
        "the implicit end-of-line does not manufacture the blank line that \
         would make this a robot with no instructions - R18 is what keeps R13 \
         standing, and the diagnostic anchors to the position line",
        text_bytes("5 3\n1 1 E\n"),
        Expect::Rejection(Diagnostic::at_line(2, &["R13"])),
    );
    proof {
        let got = case_views(build.cases@).last();
        let w = want[4];
        assert(got.name == w.name && got.note == w.note && got.stdin == w.stdin);
        assert(got.expect->Rejection_0.required == w.expect->Rejection_0.required);
        assert(got.expect->Rejection_0.any_of == w.expect->Rejection_0.any_of);
        assert(got.expect == w.expect && got.arguments == w.arguments && got.enforces == w.enforces);
        assert(case_views(build.cases@) =~= start + want.take(5));
    }

    build.case(
        "a lone carriage return may not manufacture an instruction line",
        &["R19"],
        "the guard: without it one invisible byte turns this rejection into an \
         accepted mission. Which line carries the defect is contestable, so \
         only the ruling is required",
        text_bytes("5 3\n1 1 E\n\r"),
        Expect::Rejection(Diagnostic::tagged(&["R19", "R13"])),
    );
    proof {
        let got = case_views(build.cases@).last();
        let w = want[5];
        assert(got.name == w.name && got.note == w.note && got.stdin == w.stdin);
        assert(got.expect->Rejection_0.required == w.expect->Rejection_0.required);
        assert(got.expect->Rejection_0.any_of == w.expect->Rejection_0.any_of);
        assert(got.expect == w.expect && got.arguments == w.arguments && got.enforces == w.enforces);
        assert(case_views(build.cases@) =~= start + want.take(6));
    }

    build.case(
        "a carriage return that is not part of a line ending is refused",
        &["R19", "R11"],
        "a CR not followed by LF, in the middle of the input",
        text_bytes("5 3\r1 1 E\nRFRFRFRF\n"),
        Expect::Rejection(Diagnostic::tagged(&["R19", "R11", "R12"])),
    );
    proof {
        let got = case_views(build.cases@).last();
        let w = want[6];
        assert(got.name == w.name && got.note == w.note && got.stdin == w.stdin);
        assert(got.expect->Rejection_0.required == w.expect->Rejection_0.required);
        assert(got.expect->Rejection_0.any_of == w.expect->Rejection_0.any_of);
        assert(got.expect == w.expect && got.arguments == w.arguments && got.enforces == w.enforces);
        assert(case_views(build.cases@) =~= start + want.take(7));
    }
    proof {
        assert(want.take(7) =~= want);
    }
}

fn diagnostics(build: &mut Builder, contract: &Contract)
    requires
        cites_or_says_why(old(build).cases@),
        contract.limits.max_coordinate < u32::MAX,
    ensures
        cites_or_says_why(final(build).cases@),
        case_views(final(build).cases@) == case_views(old(build).cases@) + diagnostic_cases(contract.limits.max_coordinate),
{
    let ghost start = case_views(build.cases@);
    let ghost want = diagnostic_cases(contract.limits.max_coordinate);
    let over = contract.limits.max_coordinate + 1;
    build.case(
        "independent problems in different blocks are all reported",
        &["R25"],
        "one pass, not one diagnostic: each line that breaks a rule on its own \
         is diagnosed, whatever is wrong elsewhere. A program that stops at \
         its first problem is the only thing this case catches",
        framed("5 3\n1 1 e\n\n\n", over, " 1 E\n\n"),
        Expect::Rejection(Diagnostic {
            required: vec![owned("line 2"), owned("line 5")],
            any_of: Vec::new(),
            forbids_a_line_reference: false,
        }),
    );
    proof {
        let got = case_views(build.cases@).last();
        let w = want[0];
        assert(got.name == w.name && got.note == w.note && got.stdin == w.stdin);
        assert(got.expect->Rejection_0.required == w.expect->Rejection_0.required);
        assert(got.expect->Rejection_0.any_of == w.expect->Rejection_0.any_of);
        assert(got.expect == w.expect && got.arguments == w.arguments && got.enforces == w.enforces);
        assert(case_views(build.cases@) =~= start + want.take(1));
    }
    proof {
        assert(want.take(1) =~= want);
    }
}

fn bytes(build: &mut Builder)
    requires
        cites_or_says_why(old(build).cases@),
    ensures
        cites_or_says_why(final(build).cases@),
        case_views(final(build).cases@) == case_views(old(build).cases@) + byte_cases(),
{
    let ghost start = case_views(build.cases@);
    let ghost want = byte_cases();
    build.case(
        "a byte that cannot begin a character is not contract input",
        &["R22"],
        "a lone continuation byte on an instruction line. The contract's text \
         is ASCII, so this is invalid input rather than a decoding problem to \
         paper over",
        with_byte("5 3\n1 1 E\nRF", 0x80, "\n"),
        Expect::Rejection(Diagnostic::at_line(3, &["R22"])),
    );
    proof {
        let got = case_views(build.cases@).last();
        let w = want[0];
        assert(got.name == w.name && got.note == w.note && got.stdin == w.stdin);
        assert(got.expect->Rejection_0.required == w.expect->Rejection_0.required);
        assert(got.expect->Rejection_0.any_of == w.expect->Rejection_0.any_of);
        assert(got.expect == w.expect && got.arguments == w.arguments && got.enforces == w.enforces);
        assert(case_views(build.cases@) =~= start + want.take(1));
    }

    build.case(
        "a truncated character at end of input is not contract input",
        &["R22"],
        "the first byte of a multi-byte sequence with nothing following it, \
         which a lossy decoder silently replaces",
        with_byte("5 3\n1 1 E\nRFRFRFRF", 0xc3, ""),
        Expect::Rejection(Diagnostic::tagged(&["R22"])),
    );
    proof {
        let got = case_views(build.cases@).last();
        let w = want[1];
        assert(got.name == w.name && got.note == w.note && got.stdin == w.stdin);
        assert(got.expect->Rejection_0.required == w.expect->Rejection_0.required);
        assert(got.expect->Rejection_0.any_of == w.expect->Rejection_0.any_of);
        assert(got.expect == w.expect && got.arguments == w.arguments && got.enforces == w.enforces);
        assert(case_views(build.cases@) =~= start + want.take(2));
    }
    proof {
        assert(want.take(2) =~= want);
    }
}

fn boundaries(build: &mut Builder, contract: &Contract)
    requires
        cites_or_says_why(old(build).cases@),
        contract.limits.max_coordinate < u32::MAX,
        contract.limits.max_instructions < u32::MAX,
    ensures
        cites_or_says_why(final(build).cases@),
        case_views(final(build).cases@) == case_views(old(build).cases@) + boundary_cases(contract.limits.max_coordinate, contract.limits.max_instructions),
{
    let ghost start = case_views(build.cases@);
    let ghost want = boundary_cases(contract.limits.max_coordinate, contract.limits.max_instructions);
    let max = contract.limits.max_coordinate;
    let instructions = contract.limits.max_instructions;

    proof {
        reveal_strlit("§2.5: a violation with no attributable physical line carries no line \
         reference, so naming one is wrong rather than merely unhelpful. The \
         missing grid line is the contract's own example");
    }
    build.case(
        "empty input is refused without inventing a line to blame",
        &[],
        "§2.5: a violation with no attributable physical line carries no line \
         reference, so naming one is wrong rather than merely unhelpful. The \
         missing grid line is the contract's own example",
        text_bytes(""),
        Expect::Rejection(Diagnostic::without_a_line(&[])),
    );
    proof {
        let got = case_views(build.cases@).last();
        let w = want[0];
        assert(got.name == w.name && got.note == w.note && got.stdin == w.stdin);
        assert(got.expect->Rejection_0.required == w.expect->Rejection_0.required);
        assert(got.expect->Rejection_0.any_of == w.expect->Rejection_0.any_of);
        assert(got.expect == w.expect && got.arguments == w.arguments && got.enforces == w.enforces);
        assert(case_views(build.cases@) =~= start + want.take(1));
    }

    build.case(
        "a coordinate at the maximum is accepted",
        &["R5"],
        "the limit is inclusive: the boundary value itself is valid input",
        at_the_corner(max),
        Expect::Output(corner_answer(max)),
    );
    proof {
        let got = case_views(build.cases@).last();
        let w = want[1];
        assert(got.name == w.name && got.note == w.note && got.stdin == w.stdin);
        assert(got.expect == w.expect && got.arguments == w.arguments && got.enforces == w.enforces);
        assert(case_views(build.cases@) =~= start + want.take(2));
    }

    build.case(
        "a grid coordinate past the maximum is refused",
        &["R5"],
        "one past the boundary, on the grid line",
        framed("", max + 1, " 3\n"),
        Expect::Rejection(Diagnostic::at_line(1, &["R5"])),
    );
    proof {
        let got = case_views(build.cases@).last();
        let w = want[2];
        assert(got.name == w.name && got.note == w.note && got.stdin == w.stdin);
        assert(got.expect->Rejection_0.required == w.expect->Rejection_0.required);
        assert(got.expect->Rejection_0.any_of == w.expect->Rejection_0.any_of);
        assert(got.expect == w.expect && got.arguments == w.arguments && got.enforces == w.enforces);
        assert(case_views(build.cases@) =~= start + want.take(3));
    }

    build.case(
        "a robot coordinate past the maximum is refused",
        &["R5"],
        "one past the boundary, on a position line. A coordinate over the \
         limit is necessarily off the world too, so R1 governs as well and \
         §2.5 lets a diagnostic cite either",
        framed("5 3\n", max + 1, " 1 E\n\n"),
        Expect::Rejection(Diagnostic::at_line(2, &["R5", "R1"])),
    );
    proof {
        let got = case_views(build.cases@).last();
        let w = want[3];
        assert(got.name == w.name && got.note == w.note && got.stdin == w.stdin);
        assert(got.expect->Rejection_0.required == w.expect->Rejection_0.required);
        assert(got.expect->Rejection_0.any_of == w.expect->Rejection_0.any_of);
        assert(got.expect == w.expect && got.arguments == w.arguments && got.enforces == w.enforces);
        assert(case_views(build.cases@) =~= start + want.take(4));
    }

    build.case(
        "a start off the world is refused even when it is under the maximum",
        &["R1"],
        "isolates R1 from R5: the coordinate is legal, the position is not",
        text_bytes("5 3\n6 1 E\n\n"),
        Expect::Rejection(Diagnostic::at_line(2, &["R1"])),
    );
    proof {
        let got = case_views(build.cases@).last();
        let w = want[4];
        assert(got.name == w.name && got.note == w.note && got.stdin == w.stdin);
        assert(got.expect->Rejection_0.required == w.expect->Rejection_0.required);
        assert(got.expect->Rejection_0.any_of == w.expect->Rejection_0.any_of);
        assert(got.expect == w.expect && got.arguments == w.arguments && got.enforces == w.enforces);
        assert(case_views(build.cases@) =~= start + want.take(5));
    }

    build.case(
        "an instruction string at the maximum length is accepted",
        &["R6"],
        "the longest legal string, of turns only, so the answer depends on no \
         movement rule",
        lefts("5 3\n1 1 N\n", instructions as usize, "\n"),
        Expect::Output(turned_answer(instructions)),
    );
    proof {
        let got = case_views(build.cases@).last();
        let w = want[5];
        assert(got.name == w.name && got.note == w.note && got.stdin == w.stdin);
        assert(got.expect == w.expect && got.arguments == w.arguments && got.enforces == w.enforces);
        assert(case_views(build.cases@) =~= start + want.take(6));
    }

    build.case(
        "an instruction string past the maximum length is refused",
        &["R6"],
        "one past the boundary",
        lefts("5 3\n1 1 N\n", instructions as usize + 1, "\n"),
        Expect::Rejection(Diagnostic::at_line(3, &["R6"])),
    );
    proof {
        let got = case_views(build.cases@).last();
        let w = want[6];
        assert(got.name == w.name && got.note == w.note && got.stdin == w.stdin);
        assert(got.expect->Rejection_0.required == w.expect->Rejection_0.required);
        assert(got.expect->Rejection_0.any_of == w.expect->Rejection_0.any_of);
        assert(got.expect == w.expect && got.arguments == w.arguments && got.enforces == w.enforces);
        assert(case_views(build.cases@) =~= start + want.take(7));
    }

    build.case(
        "nothing is printed for the robots before a bad one",
        &["R5"],
        "§2.4 is all-or-nothing, and the only way to see it is to put the \
         defect in a later block: a program that prints each robot as it goes \
         has already produced output a correct run never would",
        framed("5 3\n1 1 E\n\n\n1 1 E\n\n\n", max + 1, " 1 E\n\n"),
        Expect::Rejection(Diagnostic::at_line(8, &["R5", "R1"])),
    );
    proof {
        let got = case_views(build.cases@).last();
        let w = want[7];
        assert(got.name == w.name && got.note == w.note && got.stdin == w.stdin);
        assert(got.expect->Rejection_0.required == w.expect->Rejection_0.required);
        assert(got.expect->Rejection_0.any_of == w.expect->Rejection_0.any_of);
        assert(got.expect == w.expect && got.arguments == w.arguments && got.enforces == w.enforces);
        assert(case_views(build.cases@) =~= start + want.take(8));
    }
    proof {
        assert(want.take(8) =~= want);
    }
}

fn invocation(build: &mut Builder)
    requires
        cites_or_says_why(old(build).cases@),
    ensures
        cites_or_says_why(final(build).cases@),
        case_views(final(build).cases@) == case_views(old(build).cases@) + invocation_cases(),
{
    let ghost start = case_views(build.cases@);
    let ghost want = invocation_cases();
    build.invocation(
        "--help alone prints usage and exits 0",
        &["R20"],
        "no ruling constrains the text, so nothing is asked of it but existence",
        &["--help"],
        Expect::Help,
    );
    proof {
        let got = case_views(build.cases@).last();
        let w = want[0];
        assert(got.name == w.name && got.note == w.note && got.stdin == w.stdin);
        assert(got.expect == w.expect && got.arguments == w.arguments && got.enforces == w.enforces);
        assert(case_views(build.cases@) =~= start + want.take(1));
    }

    build.invocation(
        "-h alone prints usage and exits 0",
        &["R20"],
        "the short spelling is the same promise",
        &["-h"],
        Expect::Help,
    );
    proof {
        let got = case_views(build.cases@).last();
        let w = want[1];
        assert(got.name == w.name && got.note == w.note && got.stdin == w.stdin);
        assert(got.expect == w.expect && got.arguments == w.arguments && got.enforces == w.enforces);
        assert(case_views(build.cases@) =~= start + want.take(2));
    }

    build.invocation(
        "an unknown argument is a usage error",
        &["R21"],
        "stderr, non-zero, and nothing on stdout",
        &["--simulate"],
        Expect::UsageError,
    );
    proof {
        let got = case_views(build.cases@).last();
        let w = want[2];
        assert(got.name == w.name && got.note == w.note && got.stdin == w.stdin);
        assert(got.expect == w.expect && got.arguments == w.arguments && got.enforces == w.enforces);
        assert(case_views(build.cases@) =~= start + want.take(3));
    }

    build.invocation(
        "an empty argument is still an argument",
        &["R21"],
        "the empty string is not the absence of an argument",
        &[""],
        Expect::UsageError,
    );
    proof {
        let got = case_views(build.cases@).last();
        let w = want[3];
        assert(got.name == w.name && got.note == w.note && got.stdin == w.stdin);
        assert(got.expect == w.expect && got.arguments == w.arguments && got.enforces == w.enforces);
        assert(case_views(build.cases@) =~= start + want.take(4));
    }

    build.invocation(
        "a help flag with another argument is a usage error",
        &["R24"],
        "a help flag prints help only when it is the sole argument",
        &["--help", "extra"],
        Expect::UsageError,
    );
    proof {
        let got = case_views(build.cases@).last();
        let w = want[4];
        assert(got.name == w.name && got.note == w.note && got.stdin == w.stdin);
        assert(got.expect == w.expect && got.arguments == w.arguments && got.enforces == w.enforces);
        assert(case_views(build.cases@) =~= start + want.take(5));
    }

    build.invocation(
        "a help flag after another argument is a usage error",
        &["R24"],
        "the same in the other order, which an argument loop that returns on \
         the first help flag it sees would pass",
        &["extra", "-h"],
        Expect::UsageError,
    );
    proof {
        let got = case_views(build.cases@).last();
        let w = want[5];
        assert(got.name == w.name && got.note == w.note && got.stdin == w.stdin);
        assert(got.expect == w.expect && got.arguments == w.arguments && got.enforces == w.enforces);
        assert(case_views(build.cases@) =~= start + want.take(6));
    }
    proof {
        assert(want.take(6) =~= want);
    }
}

/// Every hand-written case, each citing the rulings it enforces.
pub fn catalogue(contract: &Contract) -> (r: Vec<Case>)
    requires
        contract.limits.max_coordinate < u32::MAX,
        contract.limits.max_instructions < u32::MAX,
    ensures
        case_views(r@) == catalogue_model(contract.limits.max_coordinate, contract.limits.max_instructions),
        r.len() == 41,
        cites_or_says_why(r@),
{
    let ghost max_coordinate = contract.limits.max_coordinate;
    let ghost max_instructions = contract.limits.max_instructions;
    let mut build = Builder { cases: Vec::new() };
    proof {
        assert(case_views(build.cases@) =~= Seq::<CaseModel>::empty());
    }
    missions(&mut build, contract);
    let ghost a = mission_cases();
    proof {
        assert(case_views(build.cases@) =~= a);
    }
    scent(&mut build);
    whitespace(&mut build);
    vocabulary(&mut build);
    framing(&mut build);
    let ghost b = a + scent_cases() + whitespace_cases() + vocabulary_cases() + framing_cases();
    proof {
        assert(case_views(build.cases@) == b);
    }
    diagnostics(&mut build, contract);
    bytes(&mut build);
    boundaries(&mut build, contract);
    invocation(&mut build);
    proof {
        let c = b + diagnostic_cases(max_coordinate) + byte_cases() + boundary_cases(max_coordinate, max_instructions)
            + invocation_cases();
        assert(case_views(build.cases@) == c);
        assert(c =~= catalogue_model(max_coordinate, max_instructions));
        assert(case_views(build.cases@).len() == build.cases@.len());
    }
    build.cases
}

} // verus!
