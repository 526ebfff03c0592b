use martian_robots_verify::contract::{Contract, Decision};
use martian_robots_verify::data::GRAMMAR;
use martian_robots_verify::grammar::Grammar;

const LIMITS: &str = "version = \"1.0.0\"\n[limits]\nmax_coordinate = 1\nmax_instructions = 1\n";

fn ruled(id: &str) -> String {
    format!("[[ruling]]\nid = \"{id}\"\nstatus = \"ruled\"\nquestion = \"q\"\nruling = \"r\"\n\n")
}

fn open(id: &str) -> String {
    format!("[[ruling]]\nid = \"{id}\"\nstatus = \"open\"\nquestion = \"q\"\nnote = \"n\"\n\n")
}

const SMALL: &str = "orientation = \"N\" | \"S\" ;\n\
instruction = \"L\" | \"F\" ;\n\
ws          = \" \" , { \" \" } ;\n\
eol         = \"\\n\" ;\n";

#[test]
fn the_grammar_is_read_rather_than_restated() {
    let grammar = Grammar::parse(SMALL).unwrap();
    assert_eq!(grammar.separators, [' ']);
    assert_eq!(grammar.line_endings, ["\n"]);
    assert_eq!(grammar.orientations, ['N', 'S']);
    assert_eq!(grammar.instructions, ['L', 'F']);
}

#[test]
fn escaped_terminals_are_the_characters_they_name() {
    let grammar = Grammar::parse(&SMALL.replace(
        "eol         = \"\\n\" ;",
        "eol = \"\\n\" | \"\\r\\n\" ;\nws2 = \"\\t\" ;",
    ))
    .unwrap();
    assert_eq!(grammar.line_endings, ["\n", "\r\n"]);
}

#[test]
fn changing_what_separates_tokens_changes_what_is_injected() {
    let strict = Grammar::parse(SMALL).unwrap();
    assert!(strict.not_separators().contains(&'\u{a0}'));

    let lenient = Grammar::parse(&SMALL.replace(
        "ws          = \" \" , { \" \" } ;",
        "ws = \" \" | \"\\u{a0}\" ;",
    ));
    let lenient = lenient.unwrap_or_else(|_| {
        Grammar::parse(&SMALL.replace(
            "ws          = \" \" , { \" \" } ;",
            "ws = \" \" | \"\u{a0}\" ;",
        ))
        .unwrap()
    });
    assert!(lenient.separators.contains(&'\u{a0}'));
    assert!(!lenient.not_separators().contains(&'\u{a0}'));
}

#[test]
fn a_grammar_missing_a_production_is_refused() {
    let error = Grammar::parse("orientation = \"N\" ;\n").unwrap_err();
    assert!(error.contains("ws"), "{error}");
}

#[test]
fn the_shipped_contract_loads_and_renders() {
    let contract = Contract::load().expect("the contract this suite ships must load");
    contract
        .render()
        .expect("the contract this suite ships must render");
}

#[test]
fn every_question_reaches_the_rendered_document() {
    let contract = Contract::load().unwrap();
    let document = contract.render().unwrap();
    for ruling in &contract.rulings {
        assert!(
            document.contains(&ruling.id),
            "{} is in the contract but not in the document it renders",
            ruling.id
        );
    }
}

#[test]
fn open_questions_stay_out_of_the_rulings_table() {
    let contract = Contract::load().unwrap();
    let table = contract.rulings_table();
    for ruling in &contract.rulings {
        if matches!(ruling.decision, Decision::Open { .. }) {
            assert!(
                !table.contains(&format!("| {} |", ruling.id)),
                "{} is open and must not appear as a ruling",
                ruling.id
            );
        }
    }
}

#[test]
fn a_ruled_question_needs_a_ruling() {
    let entries = "[[ruling]]\nid = \"R1\"\nstatus = \"ruled\"\nquestion = \"q\"\n";
    let error = Contract::parse(LIMITS, entries, GRAMMAR).unwrap_err();
    assert!(error.contains("R1"), "{error}");
    assert!(error.contains("no ruling"), "{error}");
}

#[test]
fn an_open_question_needs_a_note() {
    let entries = "[[ruling]]\nid = \"Q1\"\nstatus = \"open\"\nquestion = \"q\"\n";
    let error = Contract::parse(LIMITS, entries, GRAMMAR).unwrap_err();
    assert!(error.contains("Q1"), "{error}");
    assert!(error.contains("no note"), "{error}");
}

#[test]
fn a_status_is_ruled_or_open_and_nothing_else() {
    let entries = "[[ruling]]\nid = \"R1\"\nstatus = \"maybe\"\nquestion = \"q\"\n";
    let error = Contract::parse(LIMITS, entries, GRAMMAR).unwrap_err();
    assert!(error.contains("R1"), "{error}");
    assert!(error.contains("maybe"), "{error}");
}

#[test]
fn an_id_cannot_be_used_twice() {
    let entries = format!("{}{}", ruled("R1"), ruled("R1"));
    let error = Contract::parse(LIMITS, &entries, GRAMMAR).unwrap_err();
    assert!(error.contains("R1"), "{error}");
    assert!(error.contains("twice"), "{error}");
}

#[test]
fn a_hole_nothing_fills_is_refused() {
    let contract = Contract::parse(LIMITS, &format!("{}{}", ruled("R1"), open("Q1")), GRAMMAR).unwrap();
    let error = contract
        .render_with("-->\n{{rulings}} {{nonexistent}}\n", "*)\nx = \"y\" ;\n")
        .unwrap_err();
    assert!(error.contains("{{nonexistent}}"), "{error}");
}

#[test]
fn a_contract_with_no_holes_renders_its_data() {
    let contract = Contract::parse(LIMITS, &format!("{}{}", ruled("R1"), open("Q1")), GRAMMAR).unwrap();
    let document = contract
        .render_with(
            "-->\n{{version}} {{max_coordinate}} {{max_instructions}}\n{{grammar}}\n{{rulings}}\n{{open_questions}}\n",
            "*)\nx = \"y\" ;\n",
        )
        .unwrap();
    assert!(document.contains("1.0.0"), "{document}");
    assert!(document.contains("R1"), "{document}");
    assert!(document.contains("Q1"), "{document}");
    assert!(document.contains("x = \"y\" ;"), "{document}");
}

#[test]
fn the_shipped_limits_are_the_briefs_numbers() {
    let contract = Contract::load().unwrap();
    assert_eq!(contract.version, "1.0.0");
    assert_eq!(contract.limits.max_coordinate, 50);
    assert_eq!(contract.limits.max_instructions, 99);
}

#[test]
fn a_limits_file_that_is_not_toml_is_refused_with_its_name() {
    let error = Contract::parse("version = ", &ruled("R1"), GRAMMAR).unwrap_err();
    assert!(error.starts_with("contract/limits.toml: "), "{error}");
}

#[test]
fn a_limits_file_without_limits_is_refused() {
    let error = Contract::parse("version = \"1.0.0\"\n", &ruled("R1"), GRAMMAR).unwrap_err();
    assert!(error.starts_with("contract/limits.toml: "), "{error}");
    assert!(error.contains("limits"), "{error}");
}

#[test]
fn a_rulings_file_that_is_not_toml_is_refused_with_its_name() {
    let error = Contract::parse(LIMITS, "[[ruling", GRAMMAR).unwrap_err();
    assert!(error.starts_with("contract/rulings.toml: "), "{error}");
}

#[test]
fn only_ruled_questions_are_listed_as_ruled() {
    let contract = Contract::parse(LIMITS, &format!("{}{}{}", ruled("R1"), open("Q1"), ruled("R2")), GRAMMAR).unwrap();
    let ruled: Vec<&str> = contract.ruled().iter().map(|r| r.id.as_str()).collect();
    assert_eq!(ruled, ["R1", "R2"]);
    assert!(contract.rulings[0].is_ruled());
    assert!(!contract.rulings[1].is_ruled());
}

#[test]
fn a_grammar_block_is_fenced_and_trimmed() {
    let block = martian_robots_verify::render::grammar_block("(* note *)\n  x = \"y\" ;  \n");
    assert_eq!(block, "```ebnf\nx = \"y\" ;\n```");
}

#[test]
fn the_sample_block_sets_input_beside_output() {
    let block = martian_robots_verify::render::sample_block();
    assert!(block.starts_with("```\n5 3            1 1 E\n"), "{block}");
    assert!(block.ends_with("```"), "{block}");
}
