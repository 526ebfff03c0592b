use martian_robots_verify::cases::{after_left_turns, catalogue};
use martian_robots_verify::contract::{Contract, Decision};

#[test]
fn every_cited_ruling_exists_and_is_ruled() {
    let contract = Contract::load().unwrap();
    for case in catalogue(&contract) {
        for id in &case.enforces {
            let ruling = contract
                .rulings
                .iter()
                .find(|ruling| &ruling.id == id)
                .unwrap_or_else(|| panic!("{} cites {id}, which is not in the contract", case.name));
            assert!(
                matches!(ruling.decision, Decision::Ruled { .. }),
                "{} cites {id}, which is an open question and may not be tested",
                case.name
            );
        }
    }
}

#[test]
fn a_case_that_cites_nothing_says_why() {
    let contract = Contract::load().unwrap();
    for case in catalogue(&contract) {
        if case.enforces.is_empty() {
            assert!(!case.note.is_empty(), "{} pins no ruling and gives no reason to exist", case.name);
        }
    }
}

#[test]
fn left_turns_come_back_round() {
    assert_eq!(after_left_turns(0), "N");
    assert_eq!(after_left_turns(1), "W");
    assert_eq!(after_left_turns(4), "N");
    assert_eq!(after_left_turns(99), "E");
}

#[test]
fn the_catalogue_is_complete_and_named_once() {
    let contract = Contract::load().unwrap();
    let cases = catalogue(&contract);
    assert_eq!(cases.len(), 41);
    let names: std::collections::BTreeSet<&str> = cases.iter().map(|case| case.name.as_str()).collect();
    assert_eq!(names.len(), cases.len());
}

#[test]
fn the_boundary_cases_follow_the_limits() {
    let contract = Contract::load().unwrap();
    let cases = catalogue(&contract);
    let at_max = cases.iter().find(|c| c.name == "a coordinate at the maximum is accepted").unwrap();
    assert_eq!(at_max.stdin, b"50 50\n50 50 N\n\n");
    let past = cases.iter().find(|c| c.name == "an instruction string past the maximum length is refused").unwrap();
    assert_eq!(past.stdin.len(), "5 3\n1 1 N\n".len() + 100 + 1);
    let help = cases.iter().find(|c| c.name == "--help alone prints usage and exits 0").unwrap();
    assert_eq!(help.arguments, ["--help"]);
    let bad = cases.iter().find(|c| c.name == "a byte that cannot begin a character is not contract input").unwrap();
    assert_eq!(bad.stdin, b"5 3\n1 1 E\nRF\x80\n");
}
