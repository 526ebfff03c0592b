use martian_robots_verify::contract::Contract;
use martian_robots_verify::mission::{Mission, Robot};
use martian_robots_verify::rng::Rng;
use martian_robots_verify::spelling::{permitted, render, Spelling};

#[test]
fn the_plain_spelling_is_the_canonical_one() {
    let contract = Contract::load().unwrap();
    let mut rng = Rng::from_seed(5);
    for _ in 0..200 {
        let mission = Mission::draw(&mut rng, &contract);
        assert_eq!(render(&mission, &Spelling::plain()), mission.canonical());
    }
}

#[test]
fn every_drawn_spelling_says_the_same_mission() {
    let contract = Contract::load().unwrap();
    let mut rng = Rng::from_seed(20_260_922);
    for _ in 0..400 {
        let mission = Mission::draw(&mut rng, &contract);
        for _ in 0..8 {
            let rendered = render(&mission, &Spelling::draw(&mut rng));
            assert_eq!(
                Mission::read_back(&rendered).as_ref(),
                Ok(&mission),
                "rendering changed the mission: {:?}",
                String::from_utf8_lossy(&rendered)
            );
        }
    }
}

#[test]
fn no_drawn_spelling_strays_into_an_open_question() {
    let contract = Contract::load().unwrap();
    let mut rng = Rng::from_seed(99);
    for _ in 0..400 {
        let mission = Mission::draw(&mut rng, &contract);
        for _ in 0..8 {
            let rendered = render(&mission, &Spelling::draw(&mut rng));
            permitted(&rendered).unwrap_or_else(|why| panic!("{why}: {:?}", String::from_utf8_lossy(&rendered)));
        }
    }
}

#[test]
fn the_exclusions_are_real_checks() {
    assert!(permitted(b"5 3\r\n1 1 E\nRF\n").is_err(), "mixed endings");
    assert!(permitted(b"5 3\rx\n").is_err(), "a stray carriage return");
    assert!(permitted(b"5 3\n1 1 E\nRF\n   ").is_err(), "Q4's shape");
    assert!(permitted(b"5 3\n1 1 E\nRF").is_ok());
    assert!(permitted(b"5 3\r\n1 1 E\r\nRF\r\n").is_ok());
}

#[test]
fn each_exclusion_says_which_it_is() {
    assert_eq!(permitted(b"5 3\r\n1 1 E\nRF\n").unwrap_err(), "LF and CRLF in one input, which is Q1");
    assert_eq!(permitted(b"5 3\rx\n").unwrap_err(), "a carriage return that is not part of a line ending");
    assert_eq!(permitted(b"5 3\r").unwrap_err(), "a carriage return that is not part of a line ending");
    assert_eq!(
        permitted(b"5 3\n \t").unwrap_err(),
        "an unterminated final line of only whitespace, which is Q4"
    );
    assert_eq!(
        permitted(b"").unwrap_err(),
        "an unterminated final line of only whitespace, which is Q4"
    );
}

#[test]
fn a_plain_rendering_of_a_robot_is_exact() {
    let mission = Mission {
        max_x: 5,
        max_y: 3,
        robots: vec![
            Robot { x: 1, y: 1, facing: 'E', instructions: "RF".to_string() },
            Robot { x: 0, y: 3, facing: 'W', instructions: String::new() },
        ],
    };
    assert_eq!(render(&mission, &Spelling::plain()), b"5 3\n1 1 E\nRF\n0 3 W\n\n");
}

#[test]
fn drawn_spellings_vary() {
    let contract = Contract::load().unwrap();
    let mut rng = Rng::from_seed(17);
    let mission = Mission::draw_busy(&mut rng, &contract);
    let mut distinct = std::collections::BTreeSet::new();
    for _ in 0..50 {
        distinct.insert(render(&mission, &Spelling::draw(&mut rng)));
    }
    assert!(distinct.len() > 10, "only {} renderings", distinct.len());
}
