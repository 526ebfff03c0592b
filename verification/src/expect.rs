//! What the contract lets a suite demand of one run, and nothing more.
//!
//! The line reference and the ruling tag are contract; the sentence around
//! them is the implementation's choice, so a judge that asks for prose fails
//! conforming programs. Standard error on success is an open question, so
//! success ignores it entirely.

use vstd::prelude::*;
use vstd::utf8::*;

use crate::render::{find_first, find_seq, lossy, lossy_text, occurs_at};
use crate::run::{Ending, Observation};
use crate::text::{chars_of, debug_text, decimal, digit, digit_char, is_digit, push_count, push_debug, push_decimal, push_str, slice_chars, string_of};

verus! {

/// What a run must do.
#[derive(Debug)]
pub enum Expect {
    /// Valid input: stdout byte-exact, exit 0, stderr unexamined.
    Output(Vec<u8>),
    /// Invalid input: no stdout, a non-zero exit, and a diagnostic that
    /// carries what the contract requires of it.
    Rejection(Diagnostic),
    /// A help flag alone: usage on stdout, exit 0. No ruling constrains the
    /// text, so nothing here does either.
    Help,
    /// Any other argument: a usage message on stderr, non-zero exit, no
    /// stdout.
    UsageError,
}

/// The three-part obligation the contract places on a diagnostic.
#[derive(Debug)]
pub struct Diagnostic {
    /// Substrings that must appear: the `line N` reference, where a physical
    /// line is attributable.
    pub required: Vec<String>,
    /// Tags of which at least one must appear. Rulings overlap, and one
    /// governing tag suffices, so a suite that demands a particular one
    /// invents contract.
    pub any_of: Vec<String>,
    /// A violation with no attributable physical line carries no line
    /// reference at all. This looks for a reference, not for the word: a
    /// diagnostic is free to say "grid line" without naming one.
    pub forbids_a_line_reference: bool,
}

pub struct DiagnosticModel {
    pub required: Seq<Seq<char>>,
    pub any_of: Seq<Seq<char>>,
    pub forbids_a_line_reference: bool,
}

pub enum ExpectModel {
    Output(Seq<u8>),
    Rejection(DiagnosticModel),
    Help,
    UsageError,
}

pub struct ObservationModel {
    pub stdout: Seq<u8>,
    pub stderr: Seq<u8>,
    pub ending: Ending,
}

/// The views of several strings.
pub open spec fn texts(v: Seq<String>) -> Seq<Seq<char>> {
    v.map_values(|s: String| s@)
}

impl View for Diagnostic {
    type V = DiagnosticModel;

    open spec fn view(&self) -> DiagnosticModel {
        DiagnosticModel {
            required: texts(self.required@),
            any_of: texts(self.any_of@),
            forbids_a_line_reference: self.forbids_a_line_reference,
        }
    }
}

impl View for Expect {
    type V = ExpectModel;

    open spec fn view(&self) -> ExpectModel {
        match self {
            Expect::Output(bytes) => ExpectModel::Output(bytes@),
            Expect::Rejection(d) => ExpectModel::Rejection(d@),
            Expect::Help => ExpectModel::Help,
            Expect::UsageError => ExpectModel::UsageError,
        }
    }
}

impl View for Observation {
    type V = ObservationModel;

    open spec fn view(&self) -> ObservationModel {
        ObservationModel { stdout: self.stdout@, stderr: self.stderr@, ending: self.ending }
    }
}

/// A tag as a diagnostic carries it: in parentheses.
pub open spec fn tag_text(tag: Seq<char>) -> Seq<char> {
    "("@ + tag + ")"@
}

/// The tags of some ruling ids.
pub open spec fn tags_of(ids: Seq<&str>) -> Seq<Seq<char>> {
    ids.map_values(|id: &str| tag_text(id@))
}

/// Whether `pat` occurs anywhere in `s`.
pub open spec fn contains_seq(s: Seq<char>, pat: Seq<char>) -> bool {
    find_seq(s, pat) is Some
}

/// A lower-case hexadecimal digit.
pub open spec fn hex_digit(d: nat) -> char {
    if d < 10 { digit_char(d) }
    else if d == 10 { 'a' }
    else if d == 11 { 'b' }
    else if d == 12 { 'c' }
    else if d == 13 { 'd' }
    else if d == 14 { 'e' }
    else { 'f' }
}

/// One byte as a reader can see it.
pub open spec fn show_byte(b: u8) -> Seq<char> {
    if b == 10 { "\\n"@ }
    else if b == 13 { "\\r"@ }
    else if b == 9 { "\\t"@ }
    else if b == 34 { "\\\""@ }
    else if b == 92 { "\\\\"@ }
    else if 0x20 <= b <= 0x7e { seq![b as char] }
    else { "\\x"@ + seq![hex_digit((b / 16) as nat), hex_digit((b % 16) as nat)] }
}

pub open spec fn show_all(bytes: Seq<u8>) -> Seq<char>
    decreases bytes.len(),
{
    if bytes.len() == 0 { seq![] } else { show_all(bytes.drop_last()) + show_byte(bytes.last()) }
}

/// Bytes as a reader can see them: quoted, with invisible characters written
/// out.
pub open spec fn shown(bytes: Seq<u8>) -> Seq<char> {
    "\""@ + show_all(bytes) + "\""@
}

/// A signed number in decimal.
pub open spec fn signed_text(n: i32) -> Seq<char> {
    if n < 0 { "-"@ + decimal((-n) as nat) } else { decimal(n as nat) }
}

/// How a run ended, in a word or a number.
pub open spec fn code_text(ending: Ending) -> Seq<char> {
    match ending {
        Ending::Code(code) => signed_text(code),
        Ending::Signal => "signal"@,
        Ending::Timeout => "timeout"@,
    }
}

/// The ASCII digits at the start of `s`.
pub open spec fn leading_digits(s: Seq<char>) -> Seq<char>
    decreases s.len(),
{
    if s.len() > 0 && is_digit(s[0]) { seq![s[0]] + leading_digits(s.skip(1)) } else { seq![] }
}

/// The first `line N` in a diagnostic, if it carries one. "grid line" is not
/// a reference; "line 1" is.
pub open spec fn line_reference_of(s: Seq<char>) -> Option<Seq<char>>
    decreases s.len(),
{
    match find_seq(s, "line "@) {
        None => None,
        Some(at) => if 0 <= at && at + 5 <= s.len() {
            let after = s.skip(at + 5);
            let digits = leading_digits(after);
            if digits.len() > 0 { Some("line "@ + digits) } else { line_reference_of(after) }
        } else {
            None
        },
    }
}

/// How `Debug` writes a list of strings.
pub open spec fn list_debug(items: Seq<Seq<char>>) -> Seq<char> {
    "["@ + joined_debug(items) + "]"@
}

pub open spec fn joined_debug(items: Seq<Seq<char>>) -> Seq<char>
    decreases items.len(),
{
    if items.len() == 0 {
        seq![]
    } else if items.len() == 1 {
        debug_text(items[0])
    } else {
        joined_debug(items.drop_last()) + ", "@ + debug_text(items.last())
    }
}

/// The first needle the text does not contain.
pub open spec fn first_missing(text: Seq<char>, needles: Seq<Seq<char>>) -> Option<Seq<char>>
    decreases needles.len(),
{
    if needles.len() == 0 {
        None
    } else if !contains_seq(text, needles[0]) {
        Some(needles[0])
    } else {
        first_missing(text, needles.skip(1))
    }
}

/// Whether the text carries at least one of the tags.
pub open spec fn carries_any(text: Seq<char>, tags: Seq<Seq<char>>) -> bool {
    exists|i: int| 0 <= i < tags.len() && contains_seq(text, #[trigger] tags[i])
}

/// What is wrong with a diagnostic, if anything: a required substring
/// missing, a line named where none is attributable, or no governing tag.
pub open spec fn diagnostic_judged(d: DiagnosticModel, stderr: Seq<char>) -> Option<Seq<char>> {
    match first_missing(stderr, d.required) {
        Some(needle) => Some("diagnostic does not name "@ + debug_text(needle)),
        None => if d.forbids_a_line_reference && line_reference_of(stderr) is Some {
            Some("diagnostic names "@ + debug_text(line_reference_of(stderr)->Some_0) + ", and no line is attributable"@)
        } else if d.any_of.len() > 0 && !carries_any(stderr, d.any_of) {
            Some("diagnostic carries none of "@ + list_debug(d.any_of))
        } else {
            None
        },
    }
}

pub open spec fn exited_zero_spec(seen: ObservationModel) -> bool {
    seen.ending == Ending::Code(0)
}

pub open spec fn exited_non_zero_spec(seen: ObservationModel) -> bool {
    seen.ending matches Ending::Code(code) && code != 0
}

/// `None` when the observation meets the expectation, otherwise why not.
pub open spec fn judged(expect: ExpectModel, seen: ObservationModel) -> Option<Seq<char>> {
    match seen.ending {
        Ending::Timeout => Some("did not terminate (grader policy: Q3)"@),
        Ending::Signal => Some("died on a signal (grader policy: Q3)"@),
        Ending::Code(_) => match expect {
            ExpectModel::Output(expected) => if !exited_zero_spec(seen) {
                Some("exit "@ + code_text(seen.ending) + ", expected 0"@)
            } else if seen.stdout != expected {
                Some("stdout differs\n      expected: "@ + shown(expected) + "\n      got:      "@ + shown(seen.stdout))
            } else {
                None
            },
            ExpectModel::Rejection(d) => if seen.stdout.len() > 0 {
                Some("rejected input must produce no stdout, got "@ + shown(seen.stdout))
            } else if !exited_non_zero_spec(seen) {
                Some("exit "@ + code_text(seen.ending) + ", expected non-zero"@)
            } else if seen.stderr.len() == 0 {
                Some("no diagnostic on stderr"@)
            } else {
                diagnostic_judged(d, lossy_text(seen.stderr))
            },
            ExpectModel::Help => if !exited_zero_spec(seen) {
                Some("exit "@ + code_text(seen.ending) + ", expected 0"@)
            } else if seen.stdout.len() == 0 {
                Some("no usage on stdout"@)
            } else {
                None
            },
            ExpectModel::UsageError => if seen.stdout.len() > 0 {
                Some("a usage error must produce no stdout, got "@ + shown(seen.stdout))
            } else if !exited_non_zero_spec(seen) {
                Some("exit "@ + code_text(seen.ending) + ", expected non-zero"@)
            } else if seen.stderr.len() == 0 {
                Some("no usage message on stderr"@)
            } else {
                None
            },
        },
    }
}

fn tags_from(ids: &[&str]) -> (r: Vec<String>)
    ensures
        texts(r@) == tags_of(ids@),
{
    let mut tags: Vec<String> = Vec::new();
    let mut i: usize = 0;
    while i < ids.len()
        invariant
            i <= ids@.len(),
            texts(tags@) == tags_of(ids@.take(i as int)),
        decreases ids@.len() - i,
    {
        let mut tag: Vec<char> = Vec::new();
        push_str(&mut tag, "(");
        push_str(&mut tag, ids[i]);
        push_str(&mut tag, ")");
        let text = string_of(&tag);
        let ghost before = tags@;
        tags.push(text);
        proof {
            assert(text@ =~= tag_text(ids@[i as int]@));
            assert(texts(tags@) =~= texts(before).push(text@));
            assert(tags_of(ids@.take(i + 1)) =~= tags_of(ids@.take(i as int)).push(tag_text(ids@[i as int]@)));
        }
        i = i + 1;
    }
    proof {
        assert(ids@.take(i as int) =~= ids@);
    }
    tags
}

impl Default for Diagnostic {
    /// No obligation at all.
    fn default() -> (r: Self)
        ensures
            r@.required.len() == 0,
            r@.any_of.len() == 0,
            !r@.forbids_a_line_reference,
    {
        Diagnostic { required: Vec::new(), any_of: Vec::new(), forbids_a_line_reference: false }
    }
}

impl Diagnostic {
    /// A violation on a physical line: the diagnostic names that line and
    /// carries one of the tags.
    pub fn at_line(line: usize, tags: &[&str]) -> (r: Self)
        ensures
            r@.required == seq!["line "@ + decimal(line as nat)],
            r@.any_of == tags_of(tags@),
            !r@.forbids_a_line_reference,
    {
        let mut needle: Vec<char> = Vec::new();
        push_str(&mut needle, "line ");
        push_count(&mut needle, line);
        let mut required: Vec<String> = Vec::new();
        required.push(string_of(&needle));
        proof {
            assert(texts(required@) =~= seq!["line "@ + decimal(line as nat)]);
        }
        Diagnostic { required, any_of: tags_from(tags), forbids_a_line_reference: false }
    }

    /// A violation whose line is contestable: only a governing tag is asked
    /// for.
    pub fn tagged(tags: &[&str]) -> (r: Self)
        ensures
            r@.required.len() == 0,
            r@.any_of == tags_of(tags@),
            !r@.forbids_a_line_reference,
    {
        Diagnostic { required: Vec::new(), any_of: tags_from(tags), forbids_a_line_reference: false }
    }

    /// A violation with no attributable line: the diagnostic carries no line
    /// reference, so naming one is wrong rather than merely unhelpful.
    pub fn without_a_line(tags: &[&str]) -> (r: Self)
        ensures
            r@.required.len() == 0,
            r@.any_of == tags_of(tags@),
            r@.forbids_a_line_reference,
    {
        Diagnostic { required: Vec::new(), any_of: tags_from(tags), forbids_a_line_reference: true }
    }

    /// What is wrong with a diagnostic, if anything.
    fn judge(&self, stderr: &Vec<char>) -> (r: Option<String>)
        ensures
            r matches Some(why) ==> diagnostic_judged(self@, stderr@) == Some(why@),
            r is None ==> diagnostic_judged(self@, stderr@) is None,
    {
        let ghost needles = self@.required;
        let mut i: usize = 0;
        proof {
            assert(needles.skip(0) =~= needles);
        }
        while i < self.required.len()
            invariant
                i <= self.required.len(),
                needles == self@.required,
                first_missing(stderr@, needles) == first_missing(stderr@, needles.skip(i as int)),
            decreases self.required.len() - i,
        {
            let needle = chars_of(self.required[i].as_str());
            proof {
                assert(needles.skip(i as int)[0] == needle@);
                assert(needles.skip(i as int).skip(1) =~= needles.skip(i + 1));
            }
            if find_first(stderr, &needle).is_none() {
                let mut why: Vec<char> = Vec::new();
                push_str(&mut why, "diagnostic does not name ");
                push_debug(&mut why, &needle);
                return Some(string_of(&why));
            }
            i = i + 1;
        }
        proof {
            assert(needles.skip(i as int).len() == 0);
        }
        if self.forbids_a_line_reference {
            match line_reference(stderr) {
                Some(reference) => {
                    let mut why: Vec<char> = Vec::new();
                    push_str(&mut why, "diagnostic names ");
                    push_debug(&mut why, &reference);
                    push_str(&mut why, ", and no line is attributable");
                    return Some(string_of(&why));
                },
                None => {},
            }
        }
        if self.any_of.len() > 0 {
            let mut k: usize = 0;
            let ghost tags = self@.any_of;
            while k < self.any_of.len()
                invariant
                    k <= self.any_of.len(),
                    tags == self@.any_of,
                    first_missing(stderr@, self@.required) is None,
                    !(self@.forbids_a_line_reference && line_reference_of(stderr@) is Some),
                    forall|j: int| 0 <= j < k ==> !contains_seq(stderr@, #[trigger] tags[j]),
                decreases self.any_of.len() - k,
            {
                let tag = chars_of(self.any_of[k].as_str());
                proof {
                    assert(tags[k as int] == tag@);
                }
                if find_first(stderr, &tag).is_some() {
                    proof {
                        assert(contains_seq(stderr@, tags[k as int]));
                    }
                    return None;
                }
                k = k + 1;
            }
            let mut why: Vec<char> = Vec::new();
            push_str(&mut why, "diagnostic carries none of ");
            push_list_debug(&mut why, &self.any_of);
            return Some(string_of(&why));
        }
        None
    }
}

/// Appends how `Debug` writes a list of strings.
fn push_list_debug(out: &mut Vec<char>, items: &Vec<String>)
    ensures
        final(out)@ == old(out)@ + list_debug(texts(items@)),
{
    let ghost all = texts(items@);
    push_str(out, "[");
    let ghost start = out@;
    let mut i: usize = 0;
    while i < items.len()
        invariant
            i <= items.len(),
            all == texts(items@),
            out@ == start + joined_debug(all.take(i as int)),
        decreases items.len() - i,
    {
        if i > 0 {
            push_str(out, ", ");
        }
        let item = chars_of(items[i].as_str());
        push_debug(out, &item);
        proof {
            assert(all.take(i + 1).drop_last() =~= all.take(i as int));
            assert(all.take(i + 1).last() == item@);
            assert(out@ =~= start + joined_debug(all.take(i + 1)));
        }
        i = i + 1;
    }
    push_str(out, "]");
    proof {
        assert(all.take(i as int) =~= all);
        assert(final(out)@ =~= old(out)@ + list_debug(all));
    }
}

/// The ASCII digits at the start of `s[from..]`.
fn digits_from(s: &Vec<char>, from: usize) -> (r: Vec<char>)
    requires
        from <= s.len(),
    ensures
        r@ == leading_digits(s@.skip(from as int)),
{
    let mut end = from;
    while end < s.len() && '0' <= s[end] && s[end] <= '9'
        invariant
            from <= end <= s.len(),
            leading_digits(s@.skip(from as int)) == s@.subrange(from as int, end as int) + leading_digits(s@.skip(end as int)),
        decreases s.len() - end,
    {
        proof {
            assert(s@.skip(end as int)[0] == s@[end as int]);
            assert(s@.skip(end as int).skip(1) =~= s@.skip(end + 1));
            assert(s@.subrange(from as int, end + 1) =~= s@.subrange(from as int, end as int).push(s@[end as int]));
            assert(seq![s@[end as int]] + leading_digits(s@.skip(end + 1)) == leading_digits(s@.skip(end as int)));
            assert(s@.subrange(from as int, end as int) + leading_digits(s@.skip(end as int))
                =~= s@.subrange(from as int, end + 1) + leading_digits(s@.skip(end + 1)));
        }
        end = end + 1;
    }
    proof {
        assert(leading_digits(s@.skip(end as int)) =~= Seq::<char>::empty());
        assert(s@.subrange(from as int, end as int) + Seq::<char>::empty() =~= s@.subrange(from as int, end as int));
    }
    slice_chars(s, from, end)
}

/// The first `line N` in a diagnostic, if it carries one.
fn line_reference(stderr: &Vec<char>) -> (r: Option<Vec<char>>)
    ensures
        r matches Some(reference) ==> line_reference_of(stderr@) == Some(reference@),
        r is None ==> line_reference_of(stderr@) is None,
{
    let word = chars_of("line ");
    proof {
        reveal_strlit("line ");
    }
    let mut rest = slice_chars(stderr, 0, stderr.len());
    proof {
        assert(stderr@.subrange(0, stderr.len() as int) =~= stderr@);
    }
    loop
        invariant
            word@ == "line "@,
            word@.len() == 5,
            line_reference_of(stderr@) == line_reference_of(rest@),
        decreases rest.len(),
    {
        match find_first(&rest, &word) {
            None => {
                return None;
            },
            Some(at) => {
                let after = slice_chars(&rest, at + 5, rest.len());
                proof {
                    assert(after@ =~= rest@.skip(at + 5));
                }
                let digits = digits_from(&after, 0);
                proof {
                    assert(after@.skip(0) =~= after@);
                }
                if digits.len() > 0 {
                    let mut reference = chars_of("line ");
                    push_all_chars(&mut reference, &digits);
                    return Some(reference);
                }
                rest = after;
            },
        }
    }
}

fn push_all_chars(out: &mut Vec<char>, more: &Vec<char>)
    ensures
        final(out)@ == old(out)@ + more@,
{
    crate::text::push_all(out, more);
}

/// Appends how a run ended, in a word or a number.
fn push_code(out: &mut Vec<char>, ending: &Ending)
    ensures
        final(out)@ == old(out)@ + code_text(*ending),
{
    match ending {
        Ending::Code(code) => {
            let wide: i64 = *code as i64;
            if wide < 0 {
                push_str(out, "-");
                push_decimal(out, (-wide) as u32);
            } else {
                push_decimal(out, wide as u32);
            }
            proof {
                assert(final(out)@ =~= old(out)@ + code_text(*ending));
            }
        },
        Ending::Signal => push_str(out, "signal"),
        Ending::Timeout => push_str(out, "timeout"),
    }
}

fn hex(d: u8) -> (c: char)
    requires
        d < 16,
    ensures
        c == hex_digit(d as nat),
{
    if d < 10 { digit(d as u32) }
    else if d == 10 { 'a' }
    else if d == 11 { 'b' }
    else if d == 12 { 'c' }
    else if d == 13 { 'd' }
    else if d == 14 { 'e' }
    else { 'f' }
}

fn push_shown_byte(out: &mut Vec<char>, b: u8)
    ensures
        final(out)@ == old(out)@ + show_byte(b),
{
    if b == 10 {
        push_str(out, "\\n");
    } else if b == 13 {
        push_str(out, "\\r");
    } else if b == 9 {
        push_str(out, "\\t");
    } else if b == 34 {
        push_str(out, "\\\"");
    } else if b == 92 {
        push_str(out, "\\\\");
    } else if 0x20 <= b && b <= 0x7e {
        out.push(b as char);
        proof {
            assert(final(out)@ =~= old(out)@ + show_byte(b));
        }
    } else {
        push_str(out, "\\x");
        out.push(hex(b / 16));
        out.push(hex(b % 16));
        proof {
            assert(final(out)@ =~= old(out)@ + show_byte(b));
        }
    }
}

/// Bytes as a reader can see them: invisible characters are the whole
/// subject of several rulings, and a log that prints them raw shows nothing.
pub fn show(bytes: &[u8]) -> (r: String)
    ensures
        r@ == shown(bytes@),
{
    let mut out: Vec<char> = Vec::new();
    push_str(&mut out, "\"");
    let ghost start = out@;
    let mut i: usize = 0;
    while i < bytes.len()
        invariant
            i <= bytes@.len(),
            out@ == start + show_all(bytes@.take(i as int)),
        decreases bytes@.len() - i,
    {
        push_shown_byte(&mut out, bytes[i]);
        proof {
            assert(bytes@.take(i + 1).drop_last() =~= bytes@.take(i as int));
            assert(bytes@.take(i + 1).last() == bytes@[i as int]);
            assert(out@ =~= start + show_all(bytes@.take(i + 1)));
        }
        i = i + 1;
    }
    push_str(&mut out, "\"");
    proof {
        assert(bytes@.take(i as int) =~= bytes@);
        assert(out@ =~= shown(bytes@));
    }
    string_of(&out)
}

fn exit_message(seen: &Observation, wanted: &str) -> (r: Option<String>)
    ensures
        r is Some,
        r->Some_0@ == "exit "@ + code_text(seen.ending) + wanted@,
{
    let mut why: Vec<char> = Vec::new();
    push_str(&mut why, "exit ");
    push_code(&mut why, &seen.ending);
    push_str(&mut why, wanted);
    Some(string_of(&why))
}

fn shown_message(lead: &str, bytes: &Vec<u8>) -> (r: Option<String>)
    ensures
        r is Some,
        r->Some_0@ == lead@ + shown(bytes@),
{
    let mut why = chars_of(lead);
    let seen = show(bytes.as_slice());
    let more = chars_of(seen.as_str());
    crate::text::push_all(&mut why, &more);
    Some(string_of(&why))
}

fn message(text: &str) -> (r: Option<String>)
    ensures
        r is Some,
        r->Some_0@ == text@,
{
    Some(string_of(&chars_of(text)))
}

impl Expect {
    /// `None` when the observation satisfies the expectation, otherwise why
    /// it did not, phrased for someone reading a log.
    pub fn judge(&self, seen: &Observation) -> (r: Option<String>)
        ensures
            r matches Some(why) ==> judged(self@, seen@) == Some(why@),
            r is None ==> judged(self@, seen@) is None,
    {
        match seen.ending {
            Ending::Timeout => return message("did not terminate (grader policy: Q3)"),
            Ending::Signal => return message("died on a signal (grader policy: Q3)"),
            Ending::Code(_) => {},
        }
        match self {
            Expect::Output(expected) => {
                if !seen.exited_zero() {
                    return exit_message(seen, ", expected 0");
                }
                if !crate::text::same_bytes(seen.stdout.as_slice(), expected.as_slice()) {
                    let mut why = chars_of("stdout differs\n      expected: ");
                    let a = show(expected.as_slice());
                    crate::text::push_all(&mut why, &chars_of(a.as_str()));
                    push_str(&mut why, "\n      got:      ");
                    let b = show(seen.stdout.as_slice());
                    crate::text::push_all(&mut why, &chars_of(b.as_str()));
                    return Some(string_of(&why));
                }
                None
            },
            Expect::Rejection(diagnostic) => {
                if seen.stdout.len() > 0 {
                    return shown_message("rejected input must produce no stdout, got ", &seen.stdout);
                }
                if !seen.exited_non_zero() {
                    return exit_message(seen, ", expected non-zero");
                }
                if seen.stderr.len() == 0 {
                    return message("no diagnostic on stderr");
                }
                let stderr = lossy(seen.stderr.as_slice());
                diagnostic.judge(&stderr)
            },
            Expect::Help => {
                if !seen.exited_zero() {
                    return exit_message(seen, ", expected 0");
                }
                if seen.stdout.len() == 0 {
                    return message("no usage on stdout");
                }
                None
            },
            Expect::UsageError => {
                if seen.stdout.len() > 0 {
                    return shown_message("a usage error must produce no stdout, got ", &seen.stdout);
                }
                if !seen.exited_non_zero() {
                    return exit_message(seen, ", expected non-zero");
                }
                if seen.stderr.len() == 0 {
                    return message("no usage message on stderr");
                }
                None
            },
        }
    }
}

/// Success is judged on the exit and the bytes of stdout alone: what a run
/// writes to stderr never changes the verdict.
pub proof fn law_success_ignores_stderr(expected: Seq<u8>, a: ObservationModel, b: ObservationModel)
    requires
        a.stdout == b.stdout,
        a.ending == b.ending,
    ensures
        judged(ExpectModel::Output(expected), a) == judged(ExpectModel::Output(expected), b),
        judged(ExpectModel::Output(expected), a) is None <==> (a.ending == Ending::Code(0) && a.stdout == expected),
{
}

/// A rejection is met only by silence on stdout, a non-zero exit and some
/// diagnostic.
pub proof fn law_a_rejection_demands_silence_a_failing_exit_and_a_diagnostic(d: DiagnosticModel, seen: ObservationModel)
    ensures
        judged(ExpectModel::Rejection(d), seen) is None ==> {
            &&& seen.stdout.len() == 0
            &&& exited_non_zero_spec(seen)
            &&& seen.stderr.len() > 0
        },
{
}

/// A usage error is met exactly by silence on stdout, an exit with a code
/// other than zero, and something on stderr; help is met exactly by an exit
/// with code zero and something on stdout. A run that prints usage but exits
/// 0 is no usage error, and one that exits non-zero is no help.
pub proof fn law_a_usage_error_demands_a_failing_exit_and_help_a_clean_one(seen: ObservationModel)
    ensures
        judged(ExpectModel::UsageError, seen) is None <==> {
            &&& seen.stdout.len() == 0
            &&& (seen.ending matches Ending::Code(code) && code != 0)
            &&& seen.stderr.len() > 0
        },
        judged(ExpectModel::Help, seen) is None <==> {
            &&& seen.ending == Ending::Code(0)
            &&& seen.stdout.len() > 0
        },
        seen.ending == Ending::Code(0) ==> judged(ExpectModel::UsageError, seen) is Some,
{
}

/// A diagnostic asked to name a line and carry one of several tags is
/// satisfied by any one of them.
pub proof fn law_a_tag_obligation_is_satisfied_by_any_governing_ruling(reference: Seq<char>, tags: Seq<Seq<char>>, stderr: Seq<char>, i: int)
    requires
        0 <= i < tags.len(),
        contains_seq(stderr, reference),
        contains_seq(stderr, tags[i]),
    ensures
        diagnostic_judged(DiagnosticModel { required: seq![reference], any_of: tags, forbids_a_line_reference: false }, stderr) is None,
{
    let needles = seq![reference];
    assert(needles[0] == reference);
    assert(needles.skip(1) =~= Seq::<Seq<char>>::empty());
    assert(first_missing(stderr, needles.skip(1)) is None);
    assert(first_missing(stderr, needles) is None);
    assert(carries_any(stderr, tags));
}

/// Where no line is attributable, a diagnostic that names one fails,
/// whatever else it carries.
pub proof fn law_a_line_reference_is_forbidden_where_no_line_is_attributable(tags: Seq<Seq<char>>, stderr: Seq<char>)
    requires
        line_reference_of(stderr) is Some,
    ensures
        diagnostic_judged(DiagnosticModel { required: seq![], any_of: tags, forbids_a_line_reference: true }, stderr) is Some,
{
}

/// No needle is missing exactly when the text contains every one.
proof fn lemma_first_missing(text: Seq<char>, needles: Seq<Seq<char>>)
    ensures
        first_missing(text, needles) is None <==> forall|i: int| 0 <= i < needles.len() ==> contains_seq(text, #[trigger] needles[i]),
        first_missing(text, needles) matches Some(n) ==> !contains_seq(text, n),
    decreases needles.len(),
{
    if needles.len() > 0 {
        let rest = needles.skip(1);
        lemma_first_missing(text, rest);
        if contains_seq(text, needles[0]) && first_missing(text, rest) is None {
            assert forall|i: int| 0 <= i < needles.len() implies contains_seq(text, #[trigger] needles[i]) by {
                if i > 0 {
                    assert(needles[i] == rest[i - 1]);
                }
            }
        }
        if first_missing(text, rest) is Some {
            let k = choose|k: int| 0 <= k < rest.len() && !contains_seq(text, #[trigger] rest[k]);
            assert(needles[k + 1] == rest[k]);
        }
    }
}

/// A rejection is met exactly when stdout is empty, the exit is non-zero,
/// stderr holds something, and what stderr says, read as text, names every
/// required reference, carries one of the tags where any are asked for, and
/// names no line where none is attributable.
pub proof fn law_a_rejection_is_met_exactly_when_its_obligations_are(d: DiagnosticModel, seen: ObservationModel)
    ensures
        judged(ExpectModel::Rejection(d), seen) is None <==> {
            let text = lossy_text(seen.stderr);
            &&& seen.stdout.len() == 0
            &&& exited_non_zero_spec(seen)
            &&& seen.stderr.len() > 0
            &&& forall|i: int| 0 <= i < d.required.len() ==> contains_seq(text, #[trigger] d.required[i])
            &&& d.any_of.len() == 0 || carries_any(text, d.any_of)
            &&& !(d.forbids_a_line_reference && line_reference_of(text) is Some)
        },
{
    lemma_first_missing(lossy_text(seen.stderr), d.required);
}

/// Each failure is named for what went wrong: output on a rejection names
/// stdout, a silent rejection says there is no diagnostic, a diagnostic that
/// leaves out a required reference says which, and help with nothing on
/// stdout says so.
pub proof fn law_a_failure_is_named_for_what_went_wrong(d: DiagnosticModel, seen: ObservationModel, code: i32)
    requires
        seen.ending == Ending::Code(code),
    ensures
        seen.stdout.len() > 0 ==> judged(ExpectModel::Rejection(d), seen)
            == Some("rejected input must produce no stdout, got "@ + shown(seen.stdout)),
        seen.stdout.len() == 0 && code != 0 && seen.stderr.len() == 0 ==> judged(ExpectModel::Rejection(d), seen)
            == Some("no diagnostic on stderr"@),
        seen.stdout.len() == 0 && code != 0 && seen.stderr.len() > 0
            && first_missing(lossy_text(seen.stderr), d.required) is Some ==> {
            let needle = first_missing(lossy_text(seen.stderr), d.required)->Some_0;
            &&& judged(ExpectModel::Rejection(d), seen) == Some("diagnostic does not name "@ + debug_text(needle))
            &&& !contains_seq(lossy_text(seen.stderr), needle)
        },
        seen.stdout.len() == 0 && code == 0 ==> judged(ExpectModel::Help, seen) == Some("no usage on stdout"@),
{
    lemma_first_missing(lossy_text(seen.stderr), d.required);
}

/// Where `find_seq` points, the pattern occurs, and nowhere before; where it
/// finds nothing, the pattern occurs nowhere.
proof fn lemma_find_seq_sound(s: Seq<char>, pat: Seq<char>)
    requires
        pat.len() > 0,
    ensures
        find_seq(s, pat) matches Some(at) ==> occurs_at(s, pat, at) && forall|j: int| 0 <= j < at ==> !#[trigger] occurs_at(s, pat, j),
        find_seq(s, pat) is None ==> forall|j: int| !#[trigger] occurs_at(s, pat, j),
    decreases s.len(),
{
    if s.len() < pat.len() {
    } else if s.take(pat.len() as int) == pat {
        assert(s.subrange(0, pat.len() as int) =~= s.take(pat.len() as int));
    } else if s.len() == 0 {
    } else {
        let t = s.skip(1);
        lemma_find_seq_sound(t, pat);
        assert(!occurs_at(s, pat, 0)) by {
            assert(s.subrange(0, pat.len() as int) =~= s.take(pat.len() as int));
        }
        assert forall|j: int| 1 <= j && occurs_at(s, pat, j) implies occurs_at(t, pat, j - 1) by {
            assert(t.subrange(j - 1, j - 1 + pat.len()) =~= s.subrange(j, j + pat.len()));
        }
        assert forall|j: int| 0 <= j && occurs_at(t, pat, j) implies occurs_at(s, pat, j + 1) by {
            assert(t.subrange(j, j + pat.len()) =~= s.subrange(j + 1, j + 1 + pat.len()));
        }
        if find_seq(t, pat) is Some {
            let k = find_seq(t, pat)->Some_0;
            assert forall|j: int| 0 <= j < k + 1 implies !#[trigger] occurs_at(s, pat, j) by {
                if j >= 1 && occurs_at(s, pat, j) {
                    assert(occurs_at(t, pat, j - 1));
                }
            }
        } else {
            assert forall|j: int| !#[trigger] occurs_at(s, pat, j) by {
                if j >= 1 && occurs_at(s, pat, j) {
                    assert(occurs_at(t, pat, j - 1));
                }
            }
        }
    }
}

/// Whether `s` has `line ` directly followed by an ASCII digit somewhere.
pub open spec fn names_a_line(s: Seq<char>) -> bool {
    exists|i: int| #[trigger] occurs_at(s, "line "@, i) && i + 5 < s.len() && is_digit(s[i + 5])
}

/// `line ` cannot occur again inside itself.
proof fn lemma_line_does_not_overlap(s: Seq<char>, at: int, j: int)
    requires
        occurs_at(s, "line "@, at),
        at < j < at + 5,
    ensures
        !occurs_at(s, "line "@, j),
{
    reveal_strlit("line ");
    assert(s[at + 1] == 'i' && s[at + 2] == 'n' && s[at + 3] == 'e' && s[at + 4] == ' ') by {
        assert(s.subrange(at, at + 5)[1] == s[at + 1]);
        assert(s.subrange(at, at + 5)[2] == s[at + 2]);
        assert(s.subrange(at, at + 5)[3] == s[at + 3]);
        assert(s.subrange(at, at + 5)[4] == s[at + 4]);
    }
    if occurs_at(s, "line "@, j) {
        assert(s.subrange(j, j + 5)[0] == s[j]);
    }
}

/// A diagnostic names a line, as the judge reads it, exactly when it holds
/// `line ` directly followed by an ASCII digit.
pub proof fn law_a_line_reference_is_line_then_a_digit(s: Seq<char>)
    ensures
        line_reference_of(s) is Some <==> names_a_line(s),
    decreases s.len(),
{
    reveal_strlit("line ");
    let pat = "line "@;
    lemma_find_seq_sound(s, pat);
    match find_seq(s, pat) {
        None => {
            if names_a_line(s) {
                let i = choose|i: int| #[trigger] occurs_at(s, pat, i) && i + 5 < s.len() && is_digit(s[i + 5]);
            }
        },
        Some(at) => {
            let after = s.skip(at + 5);
            if after.len() > 0 && is_digit(after[0]) {
                assert(leading_digits(after).len() > 0);
                assert(after[0] == s[at + 5]);
            } else {
                assert(leading_digits(after).len() == 0);
                law_a_line_reference_is_line_then_a_digit(after);
                if names_a_line(s) {
                    let i = choose|i: int| #[trigger] occurs_at(s, pat, i) && i + 5 < s.len() && is_digit(s[i + 5]);
                    assert(i >= at);
                    if i < at + 5 {
                        if i > at {
                            lemma_line_does_not_overlap(s, at, i);
                        }
                        assert(i == at);
                        assert(after[0] == s[at + 5]);
                    }
                    let k = i - (at + 5);
                    assert(after.subrange(k, k + 5) =~= s.subrange(i, i + 5));
                    assert(after[k + 5] == s[i + 5]);
                    assert(occurs_at(after, pat, k));
                }
                if names_a_line(after) {
                    let k = choose|k: int| #[trigger] occurs_at(after, pat, k) && k + 5 < after.len() && is_digit(after[k + 5]);
                    let i = k + at + 5;
                    assert(after.subrange(k, k + 5) =~= s.subrange(i, i + 5));
                    assert(after[k + 5] == s[i + 5]);
                    assert(occurs_at(s, pat, i));
                }
            }
        },
    }
}

} // verus!
