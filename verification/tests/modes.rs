use martian_robots_verify::contract::Contract;
use martian_robots_verify::mission::Mission;
use martian_robots_verify::modes::{
    answer_from, Budget, DifferentialRun, PropertiesRun, RejectionsRun, SpellingRun,
};
use martian_robots_verify::reference::run;
use martian_robots_verify::run::{Ending, Observation};

fn budget(seed: u64) -> Budget {
    Budget { missions: 5, spellings: 3, properties: 5, rejections: 10, differential: 5, seed }
}

fn ok(stdout: Vec<u8>) -> Observation {
    Observation { stdout, stderr: Vec::new(), ending: Ending::Code(0) }
}

#[test]
fn a_refusal_of_a_valid_mission_is_its_own_answer() {
    assert_eq!(answer_from(&ok(b"1 1 E\n".to_vec())), b"1 1 E\n");
    let refused = Observation { stdout: b"1 1 E\n".to_vec(), stderr: Vec::new(), ending: Ending::Code(-2) };
    assert_eq!(answer_from(&refused), b"<refused a valid mission: Code(-2)>");
    let killed = Observation { stdout: Vec::new(), stderr: Vec::new(), ending: Ending::Timeout };
    assert_eq!(answer_from(&killed), b"<refused a valid mission: Timeout>");
}

/// A program that is the reference itself.
fn reference_answer(input: &[u8]) -> Vec<u8> {
    match Mission::read_back(input) {
        Ok(mission) => run(&mission),
        Err(_) => Vec::new(),
    }
}

#[test]
fn the_reference_agrees_with_itself() {
    let contract = Contract::load().unwrap();
    let mut differential = DifferentialRun::start(&budget(7));
    let mut fed = 0;
    while let Some(input) = differential.next_input(&contract).unwrap() {
        fed += 1;
        differential.answered(reference_answer(&input));
    }
    assert_eq!(fed, 5);
    assert!(differential.finish().is_empty());
}

#[test]
fn a_wrong_answer_is_a_disagreement() {
    let contract = Contract::load().unwrap();
    let mut differential = DifferentialRun::start(&budget(7));
    while let Some(_) = differential.next_input(&contract).unwrap() {
        differential.answered(b"0 0 N\n".to_vec());
    }
    let found = differential.finish();
    assert!(!found.is_empty());
    assert!(found.iter().all(|d| d.got == b"0 0 N\n"));
}

#[test]
fn a_spelling_blind_program_agrees_with_itself() {
    let contract = Contract::load().unwrap();
    let mut spelling = SpellingRun::start(&budget(3));
    let mut fed = 0;
    while let Some(input) = spelling.next_input(&contract).unwrap() {
        fed += 1;
        spelling.answered(reference_answer(&input));
    }
    assert_eq!(fed, 5 * 3);
    assert!(spelling.finish().is_empty());
}

#[test]
fn a_program_that_answers_by_length_diverges() {
    let contract = Contract::load().unwrap();
    let mut spelling = SpellingRun::start(&budget(3));
    while let Some(input) = spelling.next_input(&contract).unwrap() {
        spelling.answered(input.len().to_string().into_bytes());
    }
    assert!(!spelling.finish().is_empty());
}

#[test]
fn the_reference_violates_no_property() {
    let contract = Contract::load().unwrap();
    let mut properties = PropertiesRun::start(&budget(11));
    while let Some(mut input) = properties.next_input(&contract) {
        loop {
            let said = reference_answer(&input);
            match properties.answered(&contract, said).unwrap() {
                Some(next) => input = next,
                None => break,
            }
        }
    }
    let report = properties.finish();
    assert_eq!(report.names.len(), 8);
    assert_eq!(report.missions, 5);
    assert!(report.violations.is_empty(), "{:?}", report.violations);
    assert_eq!(report.fired[6], 5);
    assert_eq!(report.fired[7], 5);
}

#[test]
fn an_answer_that_means_nothing_violates_properties() {
    let contract = Contract::load().unwrap();
    let mut properties = PropertiesRun::start(&budget(11));
    while let Some(_) = properties.next_input(&contract) {
        while let Some(_) = properties.answered(&contract, b"0 0 N LOST\n".to_vec()).unwrap() {}
    }
    assert!(!properties.finish().violations.is_empty());
}

#[test]
fn a_silent_rejection_fails_every_mutation() {
    let contract = Contract::load().unwrap();
    let mut rejections = RejectionsRun::start(&budget(5));
    let mut fed = 0;
    while let Some(_) = rejections.next_input(&contract) {
        fed += 1;
        rejections.answered(&Observation { stdout: Vec::new(), stderr: Vec::new(), ending: Ending::Code(1) });
    }
    let report = rejections.finish();
    assert_eq!(report.run, fed);
    assert_eq!(report.failures.len() as u32, fed);
    assert!(report.failures.iter().all(|f| f.contains("no diagnostic on stderr")));
}

#[test]
fn every_property_is_judged_by_a_corpus_of_forty() {
    let contract = Contract::load().unwrap();
    let mut corpus = budget(1);
    corpus.properties = 40;
    let mut properties = PropertiesRun::start(&corpus);
    while let Some(mut input) = properties.next_input(&contract) {
        loop {
            let said = reference_answer(&input);
            match properties.answered(&contract, said).unwrap() {
                Some(next) => input = next,
                None => break,
            }
        }
    }
    let report = properties.finish();
    assert_eq!(report.missions, 40);
    assert!(report.violations.is_empty(), "{:?}", report.violations);
    assert!(report.fired.iter().all(|&n| n > 0), "{:?}", report.fired);
}

#[test]
fn the_rejection_mode_finds_mutations_for_its_whole_budget() {
    let contract = Contract::load().unwrap();
    let mut rejections = RejectionsRun::start(&budget(9));
    let mut fed = 0;
    while let Some(_) = rejections.next_input(&contract) {
        fed += 1;
        rejections.answered(&Observation { stdout: Vec::new(), stderr: b"line 1 (R5)".to_vec(), ending: Ending::Code(1) });
    }
    assert!(fed > 0);
    assert_eq!(rejections.finish().run, fed);
}
