use martian_robots_verify::expect::{show, Diagnostic, Expect};
use martian_robots_verify::run::{Ending, Observation};

fn seen(stdout: &[u8], stderr: &[u8], ending: Ending) -> Observation {
    Observation {
        stdout: stdout.to_vec(),
        stderr: stderr.to_vec(),
        ending,
    }
}

#[test]
fn success_is_byte_exact_and_ignores_stderr() {
    let expect = Expect::Output(b"1 1 E\n".to_vec());
    assert!(expect.judge(&seen(b"1 1 E\n", b"chatter", Ending::Code(0))).is_none());
    assert!(
        expect.judge(&seen(b"1 1 E", b"", Ending::Code(0))).is_some(),
        "a missing final newline is a different answer"
    );
    assert!(expect.judge(&seen(b"1 1 E\n", b"", Ending::Code(1))).is_some());
}

#[test]
fn rejection_demands_silence_on_stdout() {
    let expect = Expect::Rejection(Diagnostic::default());
    assert!(
        expect.judge(&seen(b"1 1 E\n", b"line 2: bad (R5)", Ending::Code(1))).is_some(),
        "output already printed is output a correct run would never produce"
    );
}

#[test]
fn rejection_demands_a_diagnostic_and_a_non_zero_exit() {
    let expect = Expect::Rejection(Diagnostic::default());
    assert!(expect.judge(&seen(b"", b"", Ending::Code(1))).is_some());
    assert!(expect.judge(&seen(b"", b"something", Ending::Code(0))).is_some());
    assert!(
        expect.judge(&seen(b"", b"something", Ending::Code(2))).is_none(),
        "no ruling names a particular non-zero code"
    );
}

#[test]
fn a_tag_obligation_is_satisfied_by_any_governing_ruling() {
    let expect = Expect::Rejection(Diagnostic::at_line(2, &["R1", "R5"]));
    assert!(expect.judge(&seen(b"", b"line 2: off the world (R1)", Ending::Code(1))).is_none());
    assert!(expect.judge(&seen(b"", b"line 2: too big (R5)", Ending::Code(1))).is_none());
    assert!(expect.judge(&seen(b"", b"line 2: no idea", Ending::Code(1))).is_some());
    assert!(expect.judge(&seen(b"", b"line 9: off the world (R1)", Ending::Code(1))).is_some());
}

#[test]
fn a_line_reference_is_forbidden_where_no_line_is_attributable() {
    let expect = Expect::Rejection(Diagnostic::without_a_line(&["R12"]));
    assert!(
        expect.judge(&seen(b"", b"no grid line (R12)", Ending::Code(1))).is_none(),
        "a diagnostic may use the word line without naming one"
    );
    assert!(
        expect.judge(&seen(b"", b"line 1: no grid line (R12)", Ending::Code(1))).is_some(),
        "a fabricated line number is wrong, not merely unhelpful"
    );
}

#[test]
fn help_asks_for_output_and_never_for_words() {
    assert!(Expect::Help.judge(&seen(b"anything at all\n", b"", Ending::Code(0))).is_none());
    assert!(Expect::Help.judge(&seen(b"", b"", Ending::Code(0))).is_some());
}

#[test]
fn not_terminating_and_dying_are_reported_as_grader_policy() {
    let expect = Expect::Output(b"".to_vec());
    assert!(expect.judge(&seen(b"", b"", Ending::Timeout)).unwrap().contains("Q3"));
    assert!(expect.judge(&seen(b"", b"", Ending::Signal)).unwrap().contains("Q3"));
}

#[test]
fn invisible_bytes_are_shown() {
    assert_eq!(show(b"a\tb\r\n\xc2\xa0"), r#""a\tb\r\n\xc2\xa0""#);
}

#[test]
fn every_reason_is_worded_exactly() {
    let output = Expect::Output(b"1 1 E\n".to_vec());
    assert_eq!(
        output.judge(&seen(b"1 1 E\n", b"", Ending::Code(-3))).unwrap(),
        "exit -3, expected 0"
    );
    assert_eq!(
        output.judge(&seen(b"1 1 N\n", b"", Ending::Code(0))).unwrap(),
        "stdout differs\n      expected: \"1 1 E\\n\"\n      got:      \"1 1 N\\n\""
    );
    let rejection = Expect::Rejection(Diagnostic::at_line(2, &["R1"]));
    assert_eq!(
        rejection.judge(&seen(b"x", b"", Ending::Code(1))).unwrap(),
        "rejected input must produce no stdout, got \"x\""
    );
    assert_eq!(
        rejection.judge(&seen(b"", b"e", Ending::Code(0))).unwrap(),
        "exit 0, expected non-zero"
    );
    assert_eq!(
        rejection.judge(&seen(b"", b"", Ending::Code(1))).unwrap(),
        "no diagnostic on stderr"
    );
    assert_eq!(
        rejection.judge(&seen(b"", b"line 3: (R1)", Ending::Code(1))).unwrap(),
        "diagnostic does not name \"line 2\""
    );
    assert_eq!(
        rejection.judge(&seen(b"", b"line 2: nothing", Ending::Code(1))).unwrap(),
        "diagnostic carries none of [\"(R1)\"]"
    );
    let nowhere = Expect::Rejection(Diagnostic::without_a_line(&["R12"]));
    assert_eq!(
        nowhere.judge(&seen(b"", b"see line 17 (R12)", Ending::Code(1))).unwrap(),
        "diagnostic names \"line 17\", and no line is attributable"
    );
    assert_eq!(
        Expect::UsageError.judge(&seen(b"", b"", Ending::Code(2))).unwrap(),
        "no usage message on stderr"
    );
    assert_eq!(
        Expect::UsageError.judge(&seen(b"", b"usage", Ending::Signal)).unwrap(),
        "died on a signal (grader policy: Q3)"
    );
    assert!(Expect::UsageError.judge(&seen(b"", b"usage", Ending::Code(2))).is_none());
    assert_eq!(
        Expect::Help.judge(&seen(b"usage", b"", Ending::Code(1))).unwrap(),
        "exit 1, expected 0"
    );
}

#[test]
fn a_tagged_diagnostic_asks_only_for_a_tag() {
    let expect = Expect::Rejection(Diagnostic::tagged(&["R19", "R13"]));
    assert!(expect.judge(&seen(b"", b"line 4: lone CR (R13)", Ending::Code(1))).is_none());
    assert!(expect.judge(&seen(b"", b"lone CR", Ending::Code(1))).is_some());
}

#[test]
fn the_first_line_reference_needs_digits() {
    let expect = Expect::Rejection(Diagnostic::without_a_line(&[]));
    assert!(expect.judge(&seen(b"", b"grid line missing; line: none", Ending::Code(1))).is_none());
    assert_eq!(
        expect.judge(&seen(b"", b"grid line missing; line 0x", Ending::Code(1))).unwrap(),
        "diagnostic names \"line 0\", and no line is attributable"
    );
}

#[test]
fn a_control_byte_is_shown_in_hex() {
    assert_eq!(show(b"\x00\x7f\"\\"), r#""\x00\x7f\"\\""#);
}

#[test]
fn observations_know_how_a_run_ended() {
    assert!(seen(b"", b"", Ending::Code(0)).exited_zero());
    assert!(!seen(b"", b"", Ending::Code(0)).exited_non_zero());
    assert!(seen(b"", b"", Ending::Code(-1)).exited_non_zero());
    assert!(!seen(b"", b"", Ending::Signal).exited_zero());
    assert!(!seen(b"", b"", Ending::Timeout).exited_non_zero());
}
