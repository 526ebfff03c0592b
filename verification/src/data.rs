//! The contract, as data: the version and limits, every ruling, the input
//! grammar, the narrative with holes where the facts go, and the brief's own
//! sample.

use vstd::prelude::*;

verus! {

/// The version, and the numbers the brief gives us.
pub const LIMITS: &'static str = r#"version = "1.0.0"

[limits]
max_coordinate = 50
max_instructions = 99
"#;

/// Every question the brief leaves open, ruled or deliberately open.
pub const RULINGS: &'static str = r#"[[ruling]]
id = "R1"
status = "ruled"
question = "May a robot start outside the world it is placed on?"
ruling = "No. A start position must lie on the grid; a position line that places a robot off it is invalid input."

[[ruling]]
id = "R2"
status = "ruled"
question = "Can a robot have no instructions at all?"
ruling = "Yes. The line after a position line is that robot's instruction line even when it is blank, and a blank instruction line is zero instructions."
rationale = "Without it there is no way to write a robot that stays where it starts."

[[ruling]]
id = "R3"
status = "ruled"
question = "Is `0 0` a world?"
ruling = "Yes. The smallest world is the single cell `(0, 0)`."

[[ruling]]
id = "R4"
status = "ruled"
question = "What separates the tokens of a line?"
ruling = "One or more spaces or tabs, in any mix. Spaces and tabs may also stand at the start and the end of any line. No other character separates tokens."
rationale = "Almost every runtime's default whitespace split accepts more than this; the contract does not."

[[ruling]]
id = "R5"
status = "ruled"
question = "How large may a coordinate be?"
ruling = "Every number is at most the maximum coordinate, inclusive. A larger number is invalid input wherever it stands."

[[ruling]]
id = "R6"
status = "ruled"
question = "How long may an instruction string be?"
ruling = "At most the maximum number of instructions. A longer string is invalid input."
rationale = "The brief says strings are shorter than 100 characters."

[[ruling]]
id = "R7"
status = "ruled"
question = "Which letters are orientations and instructions?"
ruling = "Orientations are exactly `N`, `E`, `S` and `W`; instructions are exactly `L`, `R` and `F`; both are uppercase. Any other letter is invalid input."

[[ruling]]
id = "R8"
status = "ruled"
question = "Is a mission with no robots valid?"
ruling = "Yes. A grid line alone is a mission: nothing is printed, and the exit code is 0."

[[ruling]]
id = "R9"
status = "ruled"
question = "Does a scent belong to a cell, or to a cell and the direction of the loss?"
ruling = "To the cell. A scented cell blocks a move off the world by any edge, whichever way the lost robot was facing."
rationale = "The brief's own sample cannot distinguish the two models."

[[ruling]]
id = "R10"
status = "ruled"
question = "Is a scent used up by the robot it saves?"
ruling = "No. A scent protects every later robot, however many."

[[ruling]]
id = "R11"
status = "ruled"
question = "Which line endings are accepted, and which are written?"
ruling = "LF and CRLF are accepted on input; output always uses LF."

[[ruling]]
id = "R12"
status = "ruled"
question = "Must a line match the grammar exactly?"
ruling = "Yes. Once whitespace is normalised a line has exactly the tokens its production names, each spelled as the grammar spells it; anything else is invalid input."

[[ruling]]
id = "R13"
status = "ruled"
question = "What if a position line has no instruction line after it?"
ruling = "It is invalid input, and the diagnostic names the position line that demanded the missing line."

[[ruling]]
id = "R14"
status = "ruled"
question = "Is an unterminated final line a line?"
ruling = "Yes. The end of input acts as an implicit end of line."

[[ruling]]
id = "R15"
status = "ruled"
question = "Is a line of only whitespace blank?"
ruling = "Yes. A line of only spaces and tabs counts as blank wherever a blank line is admitted."

[[ruling]]
id = "R16"
status = "ruled"
question = "Are leading zeros allowed, and are they echoed?"
ruling = "They are accepted on input and never written: output numbers are canonical decimal."

[[ruling]]
id = "R17"
status = "ruled"
question = "Where may blank lines stand?"
ruling = "Before the grid line, and between robot blocks."

[[ruling]]
id = "R18"
status = "ruled"
question = "Does the implicit end of line at the end of input make a blank line?"
ruling = "No. It completes a line that has content; it never manufactures an empty line after the last one."
rationale = "Otherwise a position line at the very end would read as a robot with no instructions, and R13 would never apply."

[[ruling]]
id = "R19"
status = "ruled"
question = "What is a carriage return that is not followed by a line feed?"
ruling = "Only a CRLF is a line ending. A bare carriage return completes a non-empty final line, as R14 does; anywhere else it is invalid input, and it never makes a line of its own."

[[ruling]]
id = "R20"
status = "ruled"
question = "What does a help flag do?"
ruling = "`-h` or `--help` alone prints usage to stdout and exits 0, without reading stdin."

[[ruling]]
id = "R21"
status = "ruled"
question = "What does any other argument do?"
ruling = "It is a usage error: a message on stderr, nothing on stdout, and a non-zero exit. The empty string is an argument."

[[ruling]]
id = "R22"
status = "ruled"
question = "Is input that is not valid UTF-8 a decoding problem or invalid input?"
ruling = "Invalid input. The contract's text is ASCII, and a byte that cannot be part of it is refused rather than replaced."

[[ruling]]
id = "R23"
status = "ruled"
question = "What else does a scent do?"
ruling = "Nothing. Blocking a move off the world is its only effect: moving onto or through a scented cell is unremarkable, and a robot may start on one."

[[ruling]]
id = "R24"
status = "ruled"
question = "Does a help flag count when other arguments come with it?"
ruling = "No. A help flag prints help only when it is the sole argument; with anything beside it, in either order, it is a usage error."

[[ruling]]
id = "R25"
status = "ruled"
question = "How many problems does one rejection report?"
ruling = "Every violation found in one pass, each on the line it is attributable to."

[[ruling]]
id = "Q1"
status = "open"
question = "Is it valid to mix LF and CRLF line endings within one input?"
note = "An implementation may accept or refuse it."

[[ruling]]
id = "Q2"
status = "open"
question = "May a successful run write to stderr?"
note = "Nothing judges stderr on success."

[[ruling]]
id = "Q3"
status = "open"
question = "How long may a run take, and what is a crash?"
note = "A grader's policy rather than contract."

[[ruling]]
id = "Q4"
status = "open"
question = "Is an unterminated final line of only whitespace a line?"
note = "Either reading is conforming."

[[ruling]]
id = "Q5"
status = "open"
question = "Which ruling governs an orientation of the right token count and the wrong width?"
note = "A diagnostic may cite R12 or R7."

[[ruling]]
id = "Q6"
status = "open"
question = "Is a foreign whitespace character a bad separator or an unknown character?"
note = "A diagnostic may cite R4, R12 or R7."
"#;

/// The input grammar. The generators read their separators, line endings and
/// vocabularies from it.
pub const GRAMMAR: &'static str = r#"(* The input grammar of the Martian Robots CLI.
   Framing is positional: a grid line, then for each robot a position line
   and the instruction line after it, which may be blank. Blank lines may
   stand before the grid line and between robot blocks. The end of input
   completes a final line that has content. *)
input        = { blank } , grid , { { blank } , robot } , { blank } ;
grid         = ows , number , ws , number , ows , eol ;
robot        = position , steps ;
position     = ows , number , ws , number , ws , orientation , ows , eol ;
steps        = ows , { instruction } , ows , eol ;
blank        = ows , eol ;
number       = digit , { digit } ;
digit        = "0" | "1" | "2" | "3" | "4" | "5" | "6" | "7" | "8" | "9" ;
orientation  = "N" | "E" | "S" | "W" ;
instruction  = "L" | "R" | "F" ;
ws           = ( " " | "\t" ) , { " " | "\t" } ;
ows          = { " " | "\t" } ;
eol          = "\n" | "\r\n" ;
"#;

/// The narrative, with holes where the facts go.
pub const TEMPLATE: &'static str = r#"<!--
  Placeholders: {{version}}, {{max_coordinate}}, {{max_instructions}},
  {{grammar}}, {{sample}}, {{rulings}}, {{open_questions}}.
-->
# The Martian Robots CLI — the brief, the I/O contract, and the ambiguity rulings

This document is the complete interface between the problem and every
implementation and test of it. §1 restates the brief; §2 is the formal I/O
contract the command-line program implements; §3 rules on every ambiguity we
have found in the brief; §4 names the questions we have deliberately left open.

It is written for two audiences who never read each other's work: the people
implementing the program, and the people writing the conformance suite that
grades it. The suite is authored from this document and the original problem
statement — never from an implementation's source. That is the point of writing
it down: where the two sides disagree, the disagreement is a defect in this
document, and it is fixed here rather than in whichever side happened to be
written second.

**Contract version: {{version}}.** This version covers the command-line surface
only: text on stdin, text on stdout, diagnostics on stderr, an exit code. Other
ways of reaching the same simulation — an HTTP API, agent tooling, a browser
playground — are out of scope, and would arrive as a later version of this
document rather than as an implementation detail of this one.

---

## 1. The brief (paraphrased)

Mars is a bounded rectangular grid. Robots occupy integer coordinates with an
orientation (N, S, E, W) and execute instruction strings: `L` (turn left 90°),
`R` (turn right 90°), `F` (move one cell forward). North is from `(x, y)`
toward `(x, y+1)`. Provision should be made for additional instruction types in
future.

A robot moving off the grid is lost forever, but leaves a *scent* at the last
on-grid cell it occupied; an instruction that would move a later robot off the
world from a scented cell is ignored. Robots execute sequentially — each
finishes before the next begins.

Input: the first line is the upper-right coordinate of the world (lower-left is
`0 0`); then two lines per robot (initial position and orientation; instruction
string). Coordinates are at most {{max_coordinate}}; instruction strings are
shorter than 100 characters. Output: each robot's final position and
orientation, with ` LOST` appended if it fell off.

Sample input → output, verbatim from the brief:

{{sample}}

## 2. The I/O contract

### 2.1 Grammar

ASCII text on stdin. The productions below are `contract/grammar.ebnf`, which
is also what the conformance suite reads to generate the inputs it grades with.

{{grammar}}

Semantic constraints, checked after parse: each `number` is at most
{{max_coordinate}} (R5); robot start positions lie on the grid (R1); a robot
carries at most {{max_instructions}} instructions (R6).

### 2.2 Semantics

- The world is the inclusive cell set `(0..=max_x, 0..=max_y)`.
- `L` and `R` rotate 90° in place; `F` translates one cell along the
  orientation.
- An `F` that would leave the world: if the current cell is scented, the
  instruction is ignored (see R9 for the scent model); otherwise the robot is
  lost — it vanishes, the cell becomes scented, and its remaining instructions
  are discarded.
- Blocking world-leaving moves is scent's only effect (R23). Moving onto or
  through a scented cell is unremarkable, and a robot may start on one; scent
  never rejects input, alters movement that stays on-grid, or marks a robot.
- Robots run strictly sequentially, in input order.

### 2.3 Output

For each robot, in input order, one line to stdout: `<x> <y> <orientation>` —
the final on-grid position — with ` LOST` appended if the robot was lost
(position and orientation are those held at the moment of loss). Single ASCII
spaces between tokens, LF line endings, no trailing whitespace, no blank lines.
Numbers are canonical decimal (R16). The sample in §1 is normative.

### 2.4 Failure

Invalid input — a grammar violation or a semantic-constraint violation —
produces diagnostics on stderr naming the offending line and rule, every
violation found in one pass (R25), **no output on stdout, and a non-zero exit
code**. Framing is positional (§2.1), so a missing or extra line shifts the
blocks after it, and the lines it shifts are diagnosed where they fall.

Execution is all-or-nothing. Robot blocks are coupled by scent: running "just
the valid robots" could silently change the outcomes of the robots that *are*
valid, because a robot that was skipped might have scented a cell the next one
walks off. An incomplete answer would not be incomplete; it would be wrong.

Valid input exits 0.

### 2.5 Diagnostics content

A diagnostic names its input line as `line N` (1-based, physical) **when the
violation is attributable to a physical line**. Violations with no such line —
empty or blank-only input, which is missing its grid line — carry no line
reference, and a missing instruction line anchors to the position line that
demanded it (R13).

Where one or more numbered rulings govern a rejection, **at least one**
governing tag appears as `(R#)`. Overlapping rulings need not all be
enumerated: an off-grid coordinate that is also over the maximum may cite
either.

Exact prose is implementation-chosen. The line reference and the ruling tag are
contract; the sentence around them is not.

### 2.6 Invocation

The program is a stdin/stdout filter when invoked bare. Its argument surface is
R20, R21, R22 and R24: a help flag alone prints usage to stdout and exits 0
without reading stdin; anything else is a usage error on stderr with a non-zero
exit; input that is not valid UTF-8 is invalid input under §2.4.

### 2.7 Versioning

This contract carries a semver version, defined in `contract/limits.toml`, and
an implementation reports the version it implements.

- A change that alters what input is accepted, or what output a given input
  produces, is a **major** bump. Implementations and suites pinned to the
  previous major stay correct against it.
- Settling a question §4 leaves open, without changing the answer any
  conforming implementation already gives, is a **minor** bump.
- Extending the contract to a surface it does not yet cover is a **minor** bump
  that adds a section rather than rewriting this one.

## 3. Ambiguity rulings

Every ruling below answers a question the brief leaves open, and every one of
them is testable. An implementation that disagrees with a ruling is wrong; a
*reader* who disagrees has found a defect in this document, and the loop that
fixes it — finding, ruling, revision, cases — is how a contract gets hard
enough to build against.

{{rulings}}

## 4. Open questions

These are known gaps, left open deliberately. The conformance suite does not
test them, and an implementation may answer them however it likes without being
wrong. They are recorded as data rather than as a closing paragraph so that a
tool can tell the difference between a question we answered and one we did not.

{{open_questions}}

## 5. Revision history

| Version | Date | Change |
|---|---|---|
| 1.0.0 | 2026-09-22 | Initial contract for the command-line surface: the grammar and its framing rules, the simulation's semantics, the output format, the failure discipline, the content of diagnostics, the invocation surface, and rulings R1–R25. |
"#;

/// The brief's sample input, verbatim.
pub const SAMPLE_INPUT: [u8; 58] = [53, 32, 51, 10, 49, 32, 49, 32, 69, 10, 82, 70, 82, 70, 82, 70, 82, 70, 10, 10, 51, 32, 50, 32, 78, 10, 70, 82, 82, 70, 76, 76, 70, 70, 82, 82, 70, 76, 76, 10, 10, 48, 32, 51, 32, 87, 10, 76, 76, 70, 70, 70, 76, 70, 76, 70, 76, 10];

/// The brief's sample output, verbatim.
pub const SAMPLE_OUTPUT: [u8; 23] = [49, 32, 49, 32, 69, 10, 51, 32, 51, 32, 78, 32, 76, 79, 83, 84, 10, 50, 32, 51, 32, 83, 10];

} // verus!
