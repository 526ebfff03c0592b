use martian_robots_verify::contract::Contract;
use martian_robots_verify::mission::{Mission, Robot};
use martian_robots_verify::mutation::mutate;
use martian_robots_verify::rng::Rng;

#[test]
fn every_mutation_leaves_input_the_contract_refuses() {
    let contract = Contract::load().unwrap();
    let mut rng = Rng::from_seed(20_260_922);
    let mut built = 0;
    for _ in 0..2_000 {
        let mission = Mission::draw(&mut rng, &contract);
        if let Some(mutation) = mutate(&mut rng, &mission, 50, 99) {
            built += 1;
            let valid = Mission::read_back(&mutation.rendered).is_ok_and(|read| read.is_valid(50, 99));
            assert!(
                !valid,
                "{} left valid input: {:?}",
                mutation.kind,
                String::from_utf8_lossy(&mutation.rendered)
            );
        }
    }
    assert!(built > 500, "only {built} mutations were built");
}

#[test]
fn the_line_named_is_the_line_changed() {
    let contract = Contract::load().unwrap();
    let mut rng = Rng::from_seed(4);
    for _ in 0..2_000 {
        let mission = Mission::draw(&mut rng, &contract);
        let canonical = String::from_utf8(mission.canonical()).unwrap();
        let Some(mutation) = mutate(&mut rng, &mission, 50, 99) else {
            continue;
        };
        let before: Vec<&str> = canonical.lines().collect();
        let after = String::from_utf8(mutation.rendered.clone()).unwrap();
        let after: Vec<&str> = after.lines().collect();
        let changed: Vec<usize> = before
            .iter()
            .zip(&after)
            .enumerate()
            .filter(|(_, (was, is))| was != is)
            .map(|(at, _)| at + 1)
            .collect();
        assert_eq!(
            changed,
            vec![mutation.line],
            "{} says line {} but changed {:?}",
            mutation.kind,
            mutation.line,
            changed
        );
    }
}

#[test]
fn every_kind_of_mutation_gets_built() {
    let contract = Contract::load().unwrap();
    let mut rng = Rng::from_seed(88);
    let mut kinds = std::collections::BTreeSet::new();
    for _ in 0..4_000 {
        let mission = Mission::draw(&mut rng, &contract);
        if let Some(mutation) = mutate(&mut rng, &mission, 50, 99) {
            kinds.insert(mutation.kind);
        }
    }
    assert_eq!(kinds.len(), 9, "only built {kinds:?}");
}

#[test]
fn a_mission_without_robots_cannot_be_broken() {
    let mission = Mission { max_x: 5, max_y: 3, robots: Vec::new() };
    let mut rng = Rng::from_seed(1);
    assert!(mutate(&mut rng, &mission, 50, 99).is_none());
}

#[test]
fn every_mutation_cites_rulings_and_ends_with_a_line_ending() {
    let mission = Mission {
        max_x: 5,
        max_y: 3,
        robots: vec![
            Robot { x: 1, y: 1, facing: 'E', instructions: "RF".to_string() },
            Robot { x: 2, y: 2, facing: 'N', instructions: String::new() },
        ],
    };
    let mut rng = Rng::from_seed(123);
    let mut seen = 0;
    for _ in 0..300 {
        if let Some(mutation) = mutate(&mut rng, &mission, 50, 99) {
            seen += 1;
            assert!(!mutation.tags.is_empty());
            assert!(mutation.rendered.ends_with(b"\n"));
            assert!((1..=5).contains(&mutation.line), "{}", mutation.line);
        }
    }
    assert!(seen > 0);
}

#[test]
fn a_mission_facing_a_foreign_letter_can_still_be_broken() {
    let mission = Mission {
        max_x: 5,
        max_y: 3,
        robots: vec![Robot { x: 1, y: 1, facing: 'É', instructions: "RF".to_string() }],
    };
    let mut built = 0;
    for seed in 0..200 {
        let mut rng = Rng::from_seed(seed);
        if let Some(mutation) = mutate(&mut rng, &mission, 50, 99) {
            built += 1;
            assert!(mutation.line == 1 || mutation.line == 2 || mutation.line == 3);
            assert!(Mission::read_back(&mutation.rendered).map_or(true, |read| !read.is_valid(50, 99)));
        }
    }
    assert!(built > 50, "only {built} mutations were built");
}

#[test]
fn a_mission_with_foreign_instructions_is_broken_or_skipped() {
    let mission = Mission {
        max_x: 5,
        max_y: 3,
        robots: vec![Robot { x: 1, y: 1, facing: 'E', instructions: "éRF".to_string() }],
    };
    let mut built = 0;
    for seed in 0..300 {
        let mut rng = Rng::from_seed(seed);
        if let Some(mutation) = mutate(&mut rng, &mission, 50, 99) {
            built += 1;
            assert!(String::from_utf8(mutation.rendered.clone()).is_ok());
            assert!(Mission::read_back(&mutation.rendered).map_or(true, |read| !read.is_valid(50, 99)));
        }
    }
    assert!(built > 50, "only {built} mutations were built");
}

#[test]
fn a_limit_with_no_room_above_it_skips_only_the_breaks_that_need_it() {
    let mission = Mission {
        max_x: 5,
        max_y: 3,
        robots: vec![Robot { x: 1, y: 1, facing: 'E', instructions: "RF".to_string() }],
    };
    let mut kinds = Vec::new();
    for seed in 0..300 {
        let mut rng = Rng::from_seed(seed);
        if let Some(mutation) = mutate(&mut rng, &mission, u32::MAX, 99) {
            kinds.push(mutation.kind);
        }
    }
    assert!(!kinds.is_empty());
    assert!(kinds.iter().all(|k| !k.contains("over the limit") || k.contains("instruction")));
}
