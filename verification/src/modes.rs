//! The generated modes, as decisions a caller drives: each run says which
//! input to feed the program next, is told what came back, and keeps the
//! verdicts. Running the program is the caller's business; every choice and
//! every judgement is made here.

use vstd::prelude::*;
use vstd::utf8::*;

use crate::contract::Contract;
use crate::drawing::busy_mission;
use crate::expect::{shown, show, signed_text};
use crate::mission::{canonical_text, mission_valid, Mission, MissionModel};
use crate::reference::{answer_text, run};
use crate::rng::Rng;
use crate::run::{Ending, Observation};
use crate::text::{bytes_of, chars_of, push_all, push_str, same_bytes, string_of};

verus! {

/// How much of each mode to run, and the seed every draw comes from.
pub struct Budget {
    pub missions: u32,
    pub spellings: u32,
    pub properties: u32,
    pub rejections: u32,
    pub differential: u32,
    pub seed: u64,
}

/// How `Debug` writes an ending.
pub open spec fn ending_debug(ending: Ending) -> Seq<char> {
    match ending {
        Ending::Code(code) => "Code("@ + signed_text(code) + ")"@,
        Ending::Signal => "Signal"@,
        Ending::Timeout => "Timeout"@,
    }
}

/// What a program said about a valid mission: its stdout when it exited
/// zero, and otherwise a marker that no correct answer equals.
pub open spec fn answer_of(stdout: Seq<u8>, ending: Ending) -> Seq<u8> {
    if ending == Ending::Code(0) {
        stdout
    } else {
        encode_utf8("<refused a valid mission: "@ + ending_debug(ending) + ">"@)
    }
}

/// What a run of the program on a valid mission answered.
pub fn answer_from(seen: &Observation) -> (r: Vec<u8>)
    ensures
        r@ == answer_of(seen.stdout@, seen.ending),
{
    if seen.exited_zero() {
        let mut out: Vec<u8> = Vec::new();
        let mut i: usize = 0;
        while i < seen.stdout.len()
            invariant
                i <= seen.stdout.len(),
                out@ == seen.stdout@.take(i as int),
            decreases seen.stdout.len() - i,
        {
            out.push(seen.stdout[i]);
            i = i + 1;
            proof {
                assert(out@ =~= seen.stdout@.take(i as int));
            }
        }
        proof {
            assert(seen.stdout@.take(i as int) =~= seen.stdout@);
        }
        out
    } else {
        let mut text = chars_of("<refused a valid mission: ");
        match seen.ending {
            Ending::Code(code) => {
                push_str(&mut text, "Code(");
                let wide: i64 = code as i64;
                if wide < 0 {
                    push_str(&mut text, "-");
                    crate::text::push_decimal(&mut text, (-wide) as u32);
                } else {
                    crate::text::push_decimal(&mut text, wide as u32);
                }
                push_str(&mut text, ")");
            },
            Ending::Signal => push_str(&mut text, "Signal"),
            Ending::Timeout => push_str(&mut text, "Timeout"),
        }
        push_str(&mut text, ">");
        proof {
            assert(text@ =~= "<refused a valid mission: "@ + ending_debug(seen.ending) + ">"@);
        }
        bytes_of(&text)
    }
}

fn copy_of(bytes: &Vec<u8>) -> (r: Vec<u8>)
    ensures
        r@ == bytes@,
{
    let mut out: Vec<u8> = Vec::new();
    let mut i: usize = 0;
    while i < bytes.len()
        invariant
            i <= bytes.len(),
            out@ == bytes@.take(i as int),
        decreases bytes.len() - i,
    {
        out.push(bytes[i]);
        i = i + 1;
        proof {
            assert(out@ =~= bytes@.take(i as int));
        }
    }
    proof {
        assert(bytes@.take(i as int) =~= bytes@);
    }
    out
}

/// `lead` and the bytes as a reader sees them.
pub open spec fn generator_text(lead: Seq<char>, bytes: Seq<u8>) -> Seq<char> {
    lead + shown(bytes)
}

fn generator_error(lead: &str, bytes: &Vec<u8>) -> (r: String)
    ensures
        r@ == generator_text(lead@, bytes@),
{
    let mut why = chars_of(lead);
    let seen = show(bytes.as_slice());
    push_all(&mut why, &chars_of(seen.as_str()));
    string_of(&why)
}

// ---------------------------------------------------------------------------
// Comparing answers with the reference simulation.

/// A mission on which the program and the reference disagree.
pub struct Disagreement {
    pub mission: Vec<u8>,
    pub expected: Vec<u8>,
    pub got: Vec<u8>,
}

pub struct DisagreementModel {
    pub mission: Seq<u8>,
    pub expected: Seq<u8>,
    pub got: Seq<u8>,
}

impl View for Disagreement {
    type V = DisagreementModel;

    open spec fn view(&self) -> DisagreementModel {
        DisagreementModel { mission: self.mission@, expected: self.expected@, got: self.got@ }
    }
}

pub open spec fn disagreement_views(v: Seq<Disagreement>) -> Seq<DisagreementModel> {
    v.map_values(|d: Disagreement| d@)
}

/// A comparison with the reference simulation, in progress.
pub struct DifferentialRun {
    rng: Rng,
    left: u32,
    pending: Option<(Vec<u8>, Vec<u8>)>,
    disagreements: Vec<Disagreement>,
}

pub struct DifferentialModel {
    pub state: u64,
    pub left: u32,
    /// The input the program is running on, and the reference's answer.
    pub pending: Option<(Seq<u8>, Seq<u8>)>,
    pub disagreements: Seq<DisagreementModel>,
}

impl View for DifferentialRun {
    type V = DifferentialModel;

    closed spec fn view(&self) -> DifferentialModel {
        DifferentialModel {
            state: self.rng@,
            left: self.left,
            pending: match self.pending {
                Some((input, expected)) => Some((input@, expected@)),
                None => None,
            },
            disagreements: disagreement_views(self.disagreements@),
        }
    }
}

/// The mission the differential mode draws next, and the stream after.
pub open spec fn differential_draw(state: u64, contract_limits: crate::contract::Limits, grammar: crate::grammar::GrammarModel) -> (MissionModel, u64) {
    busy_mission(state, contract_limits.max_coordinate, grammar)
}

impl DifferentialRun {
    /// A comparison of `budget.differential` missions, drawn from the seed.
    pub fn start(budget: &Budget) -> (r: Self)
        ensures
            r@.state == budget.seed ^ 0x4469_6666u64,
            r@.left == budget.differential,
            r@.pending is None,
            r@.disagreements.len() == 0,
    {
        let r = DifferentialRun {
            rng: Rng::from_seed(budget.seed ^ 0x4469_6666),
            left: budget.differential,
            pending: None,
            disagreements: Vec::new(),
        };
        proof {
            assert(disagreement_views(r.disagreements@) =~= Seq::<DisagreementModel>::empty());
        }
        r
    }

    /// The next input to run the program on, or `None` when the budget is
    /// spent. A drawn mission that the contract refuses is the generator's
    /// fault, and ends the run.
    pub fn next_input(&mut self, contract: &Contract) -> (r: Result<Option<Vec<u8>>, String>)
        requires
            old(self)@.pending is None,
            contract@.grammar.orientations.len() > 0,
            contract@.grammar.instructions.len() > 0,
        ensures
            old(self)@.left == 0 ==> r == Ok::<Option<Vec<u8>>, String>(None) && final(self)@ == old(self)@,
            old(self)@.left > 0 ==> {
                let (mission, after) = differential_draw(old(self)@.state, contract@.limits, contract@.grammar);
                let input = encode_utf8(canonical_text(mission));
                &&& final(self)@.state == after
                &&& final(self)@.left == old(self)@.left - 1
                &&& final(self)@.disagreements == old(self)@.disagreements
                &&& if mission_valid(mission, contract@.limits.max_coordinate, contract@.limits.max_instructions) {
                    &&& r matches Ok(Some(bytes)) && bytes@ == input
                    &&& final(self)@.pending == Some((input, encode_utf8(answer_text(mission))))
                } else {
                    &&& r matches Err(why) && why@ == generator_text("the generator built an invalid mission: "@, input)
                    &&& final(self)@.pending is None
                }
            },
    {
        if self.left == 0 {
            return Ok(None);
        }
        self.left = self.left - 1;
        let mission = Mission::draw_busy(&mut self.rng, contract);
        let input = mission.canonical();
        if !mission.is_valid(contract.limits.max_coordinate, contract.limits.max_instructions) {
            return Err(generator_error("the generator built an invalid mission: ", &input));
        }
        let expected = run(&mission);
        let shown_input = copy_of(&input);
        self.pending = Some((input, expected));
        Ok(Some(shown_input))
    }

    /// What the program answered on the pending input.
    pub fn answered(&mut self, got: Vec<u8>)
        requires
            old(self)@.pending is Some,
        ensures
            final(self)@.state == old(self)@.state,
            final(self)@.left == old(self)@.left,
            final(self)@.pending is None,
            ({
                let (input, expected) = old(self)@.pending->Some_0;
                final(self)@.disagreements == if got@ == expected {
                    old(self)@.disagreements
                } else {
                    old(self)@.disagreements.push(DisagreementModel { mission: input, expected, got: got@ })
                }
            }),
    {
        let pending = self.pending.take();
        match pending {
            Some((input, expected)) => {
                if !same_bytes(got.as_slice(), expected.as_slice()) {
                    let ghost before = self.disagreements@;
                    self.disagreements.push(Disagreement { mission: input, expected, got });
                    proof {
                        assert(disagreement_views(self.disagreements@) =~= disagreement_views(before).push(
                            self.disagreements@.last()@));
                    }
                }
            },
            None => {},
        }
    }

    /// The disagreements found.
    pub fn finish(self) -> (r: Vec<Disagreement>)
        ensures
            disagreement_views(r@) == self@.disagreements,
    {
        self.disagreements
    }
}

// ---------------------------------------------------------------------------
// Requiring a program to agree with itself across spellings.

/// A spelling on which the program answered otherwise than on the canonical
/// rendering of the same mission.
pub struct Divergence {
    pub mission: Vec<u8>,
    pub against: Vec<u8>,
    pub expected: Vec<u8>,
    pub got: Vec<u8>,
}

pub struct DivergenceModel {
    pub mission: Seq<u8>,
    pub against: Seq<u8>,
    pub expected: Seq<u8>,
    pub got: Seq<u8>,
}

impl View for Divergence {
    type V = DivergenceModel;

    open spec fn view(&self) -> DivergenceModel {
        DivergenceModel { mission: self.mission@, against: self.against@, expected: self.expected@, got: self.got@ }
    }
}

pub open spec fn divergence_views(v: Seq<Divergence>) -> Seq<DivergenceModel> {
    v.map_values(|d: Divergence| d@)
}

/// What a run waits to be told.
enum Waiting {
    Nothing,
    /// The answer on the canonical rendering.
    Expected,
    /// The answer on this rendering.
    Rendering(Vec<u8>),
}

pub enum WaitingModel {
    Nothing,
    Expected,
    Rendering(Seq<u8>),
}

/// A comparison of a program with itself across spellings, in progress.
pub struct SpellingRun {
    rng: Rng,
    missions_left: u32,
    spellings: u32,
    renderings_left: u32,
    mission: Option<Mission>,
    canonical: Vec<u8>,
    expected: Vec<u8>,
    waiting: Waiting,
    divergences: Vec<Divergence>,
}

pub struct SpellingRunModel {
    pub state: u64,
    pub missions_left: u32,
    pub spellings: u32,
    pub renderings_left: u32,
    pub mission: Option<MissionModel>,
    pub canonical: Seq<u8>,
    pub expected: Seq<u8>,
    pub waiting: WaitingModel,
    pub divergences: Seq<DivergenceModel>,
}

impl View for SpellingRun {
    type V = SpellingRunModel;

    closed spec fn view(&self) -> SpellingRunModel {
        SpellingRunModel {
            state: self.rng@,
            missions_left: self.missions_left,
            spellings: self.spellings,
            renderings_left: self.renderings_left,
            mission: match self.mission {
                Some(m) => Some(m@),
                None => None,
            },
            canonical: self.canonical@,
            expected: self.expected@,
            waiting: match self.waiting {
                Waiting::Nothing => WaitingModel::Nothing,
                Waiting::Expected => WaitingModel::Expected,
                Waiting::Rendering(r) => WaitingModel::Rendering(r@),
            },
            divergences: divergence_views(self.divergences@),
        }
    }
}

/// Whether a run's current mission is one it can write down: at most three
/// robots.
pub open spec fn small_mission(m: Option<MissionModel>) -> bool {
    m matches Some(mission) ==> mission.robots.len() <= 3
}

/// The fault a drawn rendering has, if any: it strays into an open question,
/// or it does not read back as the mission it renders.
pub open spec fn rendering_fault(mission: MissionModel, rendered: Seq<u8>) -> Option<Seq<char>> {
    match crate::spelling::permitted_spec(rendered) {
        Err(why) => Some("the generator emitted "@ + why + ": "@ + shown(rendered)),
        Ok(_) => if read_mission(rendered) != Ok::<MissionModel, Seq<char>>(mission) {
            Some(generator_text("the generator changed the mission it was rendering: "@, rendered))
        } else {
            None
        },
    }
}

fn same_robot(a: &crate::mission::Robot, b: &crate::mission::Robot) -> (r: bool)
    ensures
        r == (a@ == b@),
{
    if a.x != b.x || a.y != b.y || a.facing != b.facing {
        return false;
    }
    let sa = chars_of(a.instructions.as_str());
    let sb = chars_of(b.instructions.as_str());
    crate::text::same_chars(&sa, &sb)
}

fn same_mission(a: &Mission, b: &Mission) -> (r: bool)
    ensures
        r == (a@ == b@),
{
    if a.max_x != b.max_x || a.max_y != b.max_y || a.robots.len() != b.robots.len() {
        proof {
            if a.robots.len() != b.robots.len() {
                assert(a@.robots.len() != b@.robots.len());
            }
        }
        return false;
    }
    let mut i: usize = 0;
    while i < a.robots.len()
        invariant
            i <= a.robots.len(),
            a.robots.len() == b.robots.len(),
            forall|j: int| 0 <= j < i ==> a@.robots[j] == b@.robots[j],
        decreases a.robots.len() - i,
    {
        proof {
            assert(a@.robots[i as int] == a.robots@[i as int]@);
            assert(b@.robots[i as int] == b.robots@[i as int]@);
        }
        if !same_robot(&a.robots[i], &b.robots[i]) {
            proof {
                assert(a@.robots[i as int] != b@.robots[i as int]);
            }
            return false;
        }
        i = i + 1;
    }
    proof {
        assert(a@.robots =~= b@.robots);
    }
    true
}

use crate::mission::read_mission;
use crate::drawing::drawn_mission;
use crate::spelling::{drawn_spelling, rendered_text, render, permitted, Spelling};

impl SpellingRun {
    /// Whether the run's parts agree with each other.
    pub closed spec fn wf(&self) -> bool {
        &&& small_mission(self@.mission)
        &&& (self.waiting matches Waiting::Nothing) || self.mission is Some
    }

    /// A comparison of `budget.missions` missions, each written down
    /// `budget.spellings` ways, the canonical one first.
    pub fn start(budget: &Budget) -> (r: Self)
        ensures
            r.wf(),
            r@.state == budget.seed,
            r@.missions_left == budget.missions,
            r@.spellings == budget.spellings,
            r@.renderings_left == 0,
            r@.mission is None,
            r@.waiting is Nothing,
            r@.divergences.len() == 0,
    {
        let r = SpellingRun {
            rng: Rng::from_seed(budget.seed),
            missions_left: budget.missions,
            spellings: budget.spellings,
            renderings_left: 0,
            mission: None,
            canonical: Vec::new(),
            expected: Vec::new(),
            waiting: Waiting::Nothing,
            divergences: Vec::new(),
        };
        proof {
            assert(divergence_views(r.divergences@) =~= Seq::<DivergenceModel>::empty());
        }
        r
    }

    /// The next input to run the program on, or `None` when the budget is
    /// spent: the canonical rendering of a fresh mission, then each further
    /// spelling of it. The generator checks itself on every rendering: one
    /// that strays into an open question, or does not read back as its
    /// mission, ends the run.
    pub fn next_input(&mut self, contract: &Contract) -> (r: Result<Option<Vec<u8>>, String>)
        requires
            old(self).wf(),
            old(self)@.waiting is Nothing,
            contract@.grammar.orientations.len() > 0,
            contract@.grammar.instructions.len() > 0,
        ensures
            final(self).wf(),
            final(self)@.spellings == old(self)@.spellings,
            final(self)@.divergences == old(self)@.divergences,
            old(self)@.mission is Some && old(self)@.renderings_left > 0 ==> {
                let (sp, after) = drawn_spelling(old(self)@.state);
                let mission = old(self)@.mission->Some_0;
                let rendered = encode_utf8(rendered_text(mission, sp));
                &&& final(self)@.state == after
                &&& final(self)@.renderings_left == old(self)@.renderings_left - 1
                &&& final(self)@.missions_left == old(self)@.missions_left
                &&& final(self)@.mission == old(self)@.mission
                &&& final(self)@.canonical == old(self)@.canonical
                &&& final(self)@.expected == old(self)@.expected
                &&& match rendering_fault(mission, rendered) {
                    Some(why) => r matches Err(e) && e@ == why && final(self)@.waiting is Nothing,
                    None => r matches Ok(Some(bytes)) && bytes@ == rendered
                        && final(self)@.waiting == WaitingModel::Rendering(rendered),
                }
            },
            !(old(self)@.mission is Some && old(self)@.renderings_left > 0) && old(self)@.missions_left == 0 ==> {
                &&& r == Ok::<Option<Vec<u8>>, String>(None)
                &&& final(self)@ == old(self)@
            },
            !(old(self)@.mission is Some && old(self)@.renderings_left > 0) && old(self)@.missions_left > 0 ==> {
                let (mission, after) = drawn_mission(old(self)@.state, contract@.limits.max_coordinate, contract@.grammar);
                let canonical = encode_utf8(canonical_text(mission));
                &&& final(self)@.state == after
                &&& final(self)@.missions_left == old(self)@.missions_left - 1
                &&& final(self)@.renderings_left == if old(self)@.spellings > 0 { (old(self)@.spellings - 1) as u32 } else { 0u32 }
                &&& final(self)@.mission == Some(mission)
                &&& final(self)@.canonical == canonical
                &&& final(self)@.waiting == WaitingModel::Expected
                &&& r matches Ok(Some(bytes)) && bytes@ == canonical
            },
    {
        if self.renderings_left > 0 && self.mission.is_some() {
            let mission = match &self.mission {
                Some(m) => m,
                None => { return Ok(None); },
            };
            proof {
                assert(mission@.robots.len() <= 3);
            }
            let spelling = Spelling::draw(&mut self.rng);
            let rendered = render(mission, &spelling);
            self.renderings_left = self.renderings_left - 1;
            match permitted(rendered.as_slice()) {
                Err(why) => {
                    let mut text = chars_of("the generator emitted ");
                    push_all(&mut text, &chars_of(why.as_str()));
                    push_str(&mut text, ": ");
                    let seen = show(rendered.as_slice());
                    push_all(&mut text, &chars_of(seen.as_str()));
                    return Err(string_of(&text));
                },
                Ok(()) => {},
            }
            let faithful = match Mission::read_back(rendered.as_slice()) {
                Ok(read) => same_mission(&read, mission),
                Err(_) => false,
            };
            if !faithful {
                return Err(generator_error("the generator changed the mission it was rendering: ", &rendered));
            }
            let shown_input = copy_of(&rendered);
            self.waiting = Waiting::Rendering(rendered);
            return Ok(Some(shown_input));
        }
        if self.missions_left == 0 {
            return Ok(None);
        }
        self.missions_left = self.missions_left - 1;
        proof {
            crate::drawing::law_drawn_missions_stay_on_their_own_grid(self.rng@, contract@.limits.max_coordinate, contract@.grammar);
        }
        let mission = Mission::draw(&mut self.rng, contract);
        let canonical = mission.canonical();
        self.renderings_left = if self.spellings > 0 { self.spellings - 1 } else { 0 };
        self.mission = Some(mission);
        self.canonical = copy_of(&canonical);
        self.waiting = Waiting::Expected;
        Ok(Some(canonical))
    }

    /// What the program answered on the input it was last given.
    pub fn answered(&mut self, got: Vec<u8>)
        requires
            old(self).wf(),
            !(old(self)@.waiting is Nothing),
        ensures
            final(self).wf(),
            final(self)@.state == old(self)@.state,
            final(self)@.missions_left == old(self)@.missions_left,
            final(self)@.spellings == old(self)@.spellings,
            final(self)@.renderings_left == old(self)@.renderings_left,
            final(self)@.mission == old(self)@.mission,
            final(self)@.canonical == old(self)@.canonical,
            final(self)@.waiting is Nothing,
            old(self)@.waiting is Expected ==> final(self)@.expected == got@ && final(self)@.divergences == old(self)@.divergences,
            old(self)@.waiting matches WaitingModel::Rendering(rendered) ==> {
                &&& final(self)@.expected == old(self)@.expected
                &&& final(self)@.divergences == if got@ == old(self)@.expected {
                    old(self)@.divergences
                } else {
                    old(self)@.divergences.push(DivergenceModel {
                        mission: old(self)@.canonical,
                        against: rendered,
                        expected: old(self)@.expected,
                        got: got@,
                    })
                }
            },
    {
        let mut waiting = Waiting::Nothing;
        std::mem::swap(&mut waiting, &mut self.waiting);
        match waiting {
            Waiting::Nothing => {},
            Waiting::Expected => {
                self.expected = got;
            },
            Waiting::Rendering(rendered) => {
                if !same_bytes(got.as_slice(), self.expected.as_slice()) {
                    let ghost before = self.divergences@;
                    let d = Divergence {
                        mission: copy_of(&self.canonical),
                        against: rendered,
                        expected: copy_of(&self.expected),
                        got,
                    };
                    self.divergences.push(d);
                    proof {
                        assert(divergence_views(self.divergences@) =~= divergence_views(before).push(self.divergences@.last()@));
                    }
                }
            },
        }
    }

    /// The divergences found.
    pub fn finish(self) -> (r: Vec<Divergence>)
        ensures
            divergence_views(r@) == self@.divergences,
    {
        self.divergences
    }
}

// ---------------------------------------------------------------------------
// Checking answers against statements that need no second implementation.

/// The two statements that take more than one run to check.
pub const CROSS_RUN: [&'static str; 2] = [
    "the same input twice gives the same answer",
    "appending a robot does not change the robots before it",
];

/// Every property checked, how many answers each said something about, the
/// violations found, and how many missions were drawn.
pub struct PropertyRun {
    pub names: Vec<&'static str>,
    pub fired: Vec<u32>,
    pub violations: Vec<String>,
    pub missions: u32,
}

/// Where a mission is in its three runs.
enum Stage {
    Idle,
    Said,
    Again,
    Extended,
}

pub enum StageModel {
    Idle,
    Said,
    Again,
    Extended,
}

/// A check of a program's answers against the properties, in progress.
pub struct PropertiesRun {
    rng: Rng,
    left: u32,
    budget: u32,
    names: Vec<&'static str>,
    fired: Vec<u32>,
    violations: Vec<String>,
    stage: Stage,
    mission: Mission,
    input: Vec<u8>,
    said: Vec<u8>,
    longer: Vec<u8>,
}

pub struct PropertiesModel {
    pub state: u64,
    pub left: u32,
    pub budget: u32,
    pub names: Seq<Seq<char>>,
    pub fired: Seq<u32>,
    pub violations: Seq<Seq<char>>,
    pub stage: StageModel,
    pub mission: MissionModel,
    pub input: Seq<u8>,
    pub said: Seq<u8>,
    pub longer: Seq<u8>,
}

pub open spec fn name_views(v: Seq<&str>) -> Seq<Seq<char>> {
    v.map_values(|s: &str| s@)
}

pub open spec fn text_views(v: Seq<String>) -> Seq<Seq<char>> {
    v.map_values(|s: String| s@)
}

impl View for PropertiesRun {
    type V = PropertiesModel;

    closed spec fn view(&self) -> PropertiesModel {
        PropertiesModel {
            state: self.rng@,
            left: self.left,
            budget: self.budget,
            names: name_views(self.names@),
            fired: self.fired@,
            violations: text_views(self.violations@),
            stage: match self.stage {
                Stage::Idle => StageModel::Idle,
                Stage::Said => StageModel::Said,
                Stage::Again => StageModel::Again,
                Stage::Extended => StageModel::Extended,
            },
            mission: self.mission@,
            input: self.input@,
            said: self.said@,
            longer: self.longer@,
        }
    }
}

/// The counts after one answer was judged: one more for every property the
/// answer said something about.
pub open spec fn tallied(fired: Seq<u32>, verdicts: Seq<VerdictModel>) -> Seq<u32> {
    Seq::new(fired.len(), |i: int| if i < verdicts.len() && !(verdicts[i] is NotApplicable) { (fired[i] + 1) as u32 } else { fired[i] })
}

/// `name: why`, and the input it was found on.
pub open spec fn violation_text(name: Seq<char>, why: Seq<char>, input: Seq<u8>) -> Seq<char> {
    name + ": "@ + why + "\n      on "@ + shown(input)
}

/// The violations among the first `n` verdicts, in order.
pub open spec fn violations_of(verdicts: Seq<VerdictModel>, names: Seq<Seq<char>>, input: Seq<u8>, n: nat) -> Seq<Seq<char>>
    decreases n,
{
    if n == 0 {
        seq![]
    } else {
        let before = violations_of(verdicts, names, input, (n - 1) as nat);
        match verdicts[n - 1] {
            VerdictModel::Violated(why) => before.push(violation_text(names[n - 1], why, input)),
            _ => before,
        }
    }
}

/// How many LF bytes there are.
pub open spec fn newlines(bytes: Seq<u8>) -> nat
    decreases bytes.len(),
{
    if bytes.len() == 0 { 0 } else { newlines(bytes.drop_last()) + if bytes.last() == 10 { 1nat } else { 0nat } }
}

/// How many lines an answer has, a last line without an LF included.
pub open spec fn segments(bytes: Seq<u8>) -> nat {
    if bytes.len() == 0 { 0 } else { newlines(bytes.drop_last()) + 1 }
}

/// Where the first `k` lines of `bytes`, counted from `from`, end.
pub open spec fn cut(bytes: Seq<u8>, k: nat, from: int) -> int
    decreases bytes.len() - from,
{
    if k == 0 || from < 0 || from >= bytes.len() {
        from
    } else if bytes[from] == 10 {
        cut(bytes, (k - 1) as nat, from + 1)
    } else {
        cut(bytes, k, from + 1)
    }
}

/// The first `k` lines of an answer.
pub open spec fn first_lines(bytes: Seq<u8>, k: nat) -> Seq<u8> {
    bytes.take(cut(bytes, k, 0))
}

/// Whether every count is below the number of missions drawn so far.
pub open spec fn counts_below(fired: Seq<u32>, bound: int) -> bool {
    forall|i: int| 0 <= i < fired.len() ==> #[trigger] fired[i] <= bound
}

use crate::drawing::{extended, shaped_mission};
use crate::mission::all_start_on;
use crate::properties::{check, checked, room_defined, verdict_views, Verdict, VerdictModel, NAMES};

fn count_lines(bytes: &Vec<u8>) -> (r: usize)
    ensures
        r == segments(bytes@),
{
    if bytes.len() == 0 {
        return 0;
    }
    let mut count: usize = 0;
    let mut i: usize = 0;
    let last = bytes.len() - 1;
    while i < last
        invariant
            i <= last < bytes.len(),
            count == newlines(bytes@.take(i as int)),
            count <= i,
        decreases last - i,
    {
        proof {
            assert(bytes@.take(i + 1).drop_last() =~= bytes@.take(i as int));
            assert(bytes@.take(i + 1).last() == bytes@[i as int]);
        }
        if bytes[i] == 10 {
            count = count + 1;
        }
        i = i + 1;
    }
    proof {
        assert(bytes@.take(last as int) =~= bytes@.drop_last());
    }
    count + 1
}

fn first_lines_of(bytes: &Vec<u8>, k: usize) -> (r: Vec<u8>)
    ensures
        r@ == first_lines(bytes@, k as nat),
{
    let mut left = k;
    let mut j: usize = 0;
    while j < bytes.len() && left > 0
        invariant
            j <= bytes.len(),
            cut(bytes@, k as nat, 0) == cut(bytes@, left as nat, j as int),
        decreases bytes.len() - j,
    {
        if bytes[j] == 10 {
            left = left - 1;
        }
        j = j + 1;
    }
    let mut out: Vec<u8> = Vec::new();
    let mut i: usize = 0;
    while i < j
        invariant
            i <= j <= bytes.len(),
            out@ == bytes@.take(i as int),
        decreases j - i,
    {
        out.push(bytes[i]);
        i = i + 1;
        proof {
            assert(out@ =~= bytes@.take(i as int));
        }
    }
    out
}

fn violation(name: &str, why: &Vec<char>, input: &Vec<u8>) -> (r: String)
    ensures
        r@ == violation_text(name@, why@, input@),
{
    let mut text = chars_of(name);
    push_str(&mut text, ": ");
    push_all(&mut text, why);
    push_str(&mut text, "\n      on ");
    let seen = show(input.as_slice());
    push_all(&mut text, &chars_of(seen.as_str()));
    proof {
        assert(text@ =~= violation_text(name@, why@, input@));
    }
    string_of(&text)
}

impl PropertiesRun {
    /// Whether the run's parts agree with each other.
    pub closed spec fn wf(&self) -> bool {
        &&& self.names@.len() == 8
        &&& self.fired@.len() == 8
        &&& self.left <= self.budget
        &&& !(self.stage matches Stage::Idle) ==> self.left < self.budget
        &&& forall|i: int| 0 <= i < 8 ==> #[trigger] self.fired@[i] + Self::owed(self.stage, i) <= self.budget - self.left
        &&& (self.stage matches Stage::Idle) || (self.mission@.max_x <= 5 && self.mission@.max_y <= 5 && all_start_on(self.mission@))
    }

    /// Whether the current mission has yet to be counted for property `i`.
    closed spec fn owed(stage: Stage, i: int) -> int {
        match stage {
            Stage::Said => 1,
            Stage::Again => if i >= 6 { 1 } else { 0 },
            _ => 0,
        }
    }

    /// A check of `budget.properties` missions against every property.
    pub fn start(budget: &Budget) -> (r: Self)
        ensures
            r.wf(),
            r@.state == budget.seed ^ 0x5072_6F70u64,
            r@.left == budget.properties,
            r@.budget == budget.properties,
            r@.names == name_views(NAMES@) + name_views(CROSS_RUN@),
            r@.fired == Seq::new(8, |i: int| 0u32),
            r@.violations.len() == 0,
            r@.stage is Idle,
    {
        let mut names: Vec<&'static str> = Vec::new();
        let mut i: usize = 0;
        while i < 6
            invariant
                i <= 6,
                names@ == NAMES@.take(i as int),
            decreases 6 - i,
        {
            names.push(NAMES[i]);
            i = i + 1;
            proof {
                assert(names@ =~= NAMES@.take(i as int));
            }
        }
        names.push(CROSS_RUN[0]);
        names.push(CROSS_RUN[1]);
        proof {
            assert(NAMES@.take(6) =~= NAMES@);
            assert(name_views(names@) =~= name_views(NAMES@) + name_views(CROSS_RUN@));
        }
        let fired: Vec<u32> = vec![0, 0, 0, 0, 0, 0, 0, 0];
        let r = PropertiesRun {
            rng: Rng::from_seed(budget.seed ^ 0x5072_6F70),
            left: budget.properties,
            budget: budget.properties,
            names,
            fired,
            violations: Vec::new(),
            stage: Stage::Idle,
            mission: Mission { max_x: 0, max_y: 0, robots: Vec::new() },
            input: Vec::new(),
            said: Vec::new(),
            longer: Vec::new(),
        };
        proof {
            assert(r@.fired =~= Seq::new(8, |i: int| 0u32));
            assert(text_views(r.violations@) =~= Seq::<Seq<char>>::empty());
        }
        r
    }

    /// The canonical rendering of the next mission, reshaped so that the
    /// properties have something to say, or `None` when the budget is spent.
    pub fn next_input(&mut self, contract: &Contract) -> (r: Option<Vec<u8>>)
        requires
            old(self).wf(),
            old(self)@.stage is Idle,
            crate::drawing::drawable(contract@.grammar),
        ensures
            final(self).wf(),
            final(self)@.names == old(self)@.names,
            final(self)@.fired == old(self)@.fired,
            final(self)@.violations == old(self)@.violations,
            final(self)@.budget == old(self)@.budget,
            old(self)@.left == 0 ==> r is None && final(self)@ == old(self)@,
            old(self)@.left > 0 ==> {
                let (mission, after) = shaped_mission(old(self)@.state, contract@.limits.max_coordinate, contract@.grammar);
                let input = encode_utf8(canonical_text(mission));
                &&& final(self)@.state == after
                &&& final(self)@.left == old(self)@.left - 1
                &&& final(self)@.mission == mission
                &&& final(self)@.input == input
                &&& final(self)@.stage is Said
                &&& r matches Some(bytes) && bytes@ == input
            },
    {
        if self.left == 0 {
            return None;
        }
        proof {
            crate::drawing::lemma_shaped_mission(self.rng@, contract@.limits.max_coordinate, contract@.grammar);
        }
        let mission = Mission::draw_shaped(&mut self.rng, contract);
        self.left = self.left - 1;
        let input = mission.canonical();
        self.input = copy_of(&input);
        self.mission = mission;
        self.stage = Stage::Said;
        proof {
            assert forall|i: int| 0 <= i < 8 implies #[trigger] self.fired@[i] + Self::owed(self.stage, i) <= self.budget - self.left by {
                assert(old(self).fired@[i] + Self::owed(old(self).stage, i) <= old(self).budget - old(self).left);
            }
        }
        Some(input)
    }

    /// What the program answered on the input it was last given, and the
    /// next input for the same mission: the same input again, then the
    /// mission with one more robot; `None` once the mission is done. A
    /// generated mission with a robot off its world is the generator's
    /// fault, and ends the run.
    pub fn answered(&mut self, contract: &Contract, got: Vec<u8>) -> (r: Result<Option<Vec<u8>>, String>)
        requires
            old(self).wf(),
            !(old(self)@.stage is Idle),
            crate::drawing::drawable(contract@.grammar),
        ensures
            final(self).wf(),
            final(self)@.names == old(self)@.names,
            final(self)@.left == old(self)@.left,
            final(self)@.budget == old(self)@.budget,
            final(self)@.mission == old(self)@.mission,
            final(self)@.input == old(self)@.input,
            old(self)@.stage is Said ==> {
                let verdicts = checked(old(self)@.mission, got@);
                &&& final(self)@.said == got@
                &&& final(self)@.state == old(self)@.state
                &&& final(self)@.fired == tallied(old(self)@.fired, verdicts)
                &&& final(self)@.violations == old(self)@.violations + violations_of(verdicts, old(self)@.names, old(self)@.input, 6)
                &&& final(self)@.stage is Again
                &&& r matches Ok(Some(bytes)) && bytes@ == old(self)@.input
            },
            old(self)@.stage is Again ==> {
                let (longer, after) = extended(old(self)@.mission, old(self)@.state, contract@.grammar);
                let longer_input = encode_utf8(canonical_text(longer));
                let noted = if got@ == old(self)@.said {
                    old(self)@.violations
                } else {
                    old(self)@.violations.push(violation_text(
                        old(self)@.names[6],
                        shown(old(self)@.said) + " then "@ + shown(got@),
                        old(self)@.input,
                    ))
                };
                &&& final(self)@.said == old(self)@.said
                &&& final(self)@.state == after
                &&& final(self)@.violations == noted
                &&& if all_start_on(longer) {
                    &&& final(self)@.fired == old(self)@.fired.update(6, (old(self)@.fired[6] + 1) as u32).update(7, (old(self)@.fired[7] + 1) as u32)
                    &&& final(self)@.longer == longer_input
                    &&& final(self)@.stage is Extended
                    &&& r matches Ok(Some(bytes)) && bytes@ == longer_input
                } else {
                    &&& final(self)@.fired == old(self)@.fired.update(6, (old(self)@.fired[6] + 1) as u32)
                    &&& r matches Err(why) && why@ == generator_text("the generator built an invalid mission: "@, longer_input)
                    &&& final(self)@.stage is Idle
                }
            },
            old(self)@.stage is Extended ==> {
                let said = old(self)@.said;
                let kept = first_lines(got@, segments(said));
                &&& final(self)@.said == said
                &&& final(self)@.state == old(self)@.state
                &&& final(self)@.fired == old(self)@.fired
                &&& final(self)@.violations == if kept == said {
                    old(self)@.violations
                } else {
                    old(self)@.violations.push(violation_text(
                        old(self)@.names[7],
                        shown(said) + " became "@ + shown(kept),
                        old(self)@.longer,
                    ))
                }
                &&& final(self)@.stage is Idle
                &&& r == Ok::<Option<Vec<u8>>, String>(None)
            },
    {
        let mut stage = Stage::Idle;
        std::mem::swap(&mut stage, &mut self.stage);
        match stage {
            Stage::Idle => Ok(None),
            Stage::Said => {
                proof {
                    assert(room_defined(self.mission@, got@)) by {
                        if self.mission@.robots.len() > 0 {
                            assert(self.mission@.robots[0].x <= self.mission@.max_x);
                        }
                    }
                }
                let verdicts = check(&self.mission, got.as_slice());
                proof {
                    assert(checked(self.mission@, got@).len() == 6);
                    assert(verdict_views(verdicts@).len() == verdicts@.len());
                    assert forall|j: int| 0 <= j < 8 implies #[trigger] self.fired@[j] + 1 <= self.budget - self.left by {
                        assert(old(self).fired@[j] + Self::owed(old(self).stage, j) <= old(self).budget - old(self).left);
                    }
                }
                self.tally(&verdicts);
                self.said = got;
                self.stage = Stage::Again;
                proof {
                    assert forall|i: int| 0 <= i < 8 implies #[trigger] self.fired@[i] + Self::owed(self.stage, i) <= self.budget - self.left by {
                        assert(old(self).fired@[i] + Self::owed(old(self).stage, i) <= old(self).budget - old(self).left);
                    }
                }
                Ok(Some(copy_of(&self.input)))
            },
            Stage::Again => {
                let ghost before = text_views(self.violations@);
                let same = same_bytes(got.as_slice(), self.said.as_slice());
                if !same {
                    let mut why: Vec<char> = Vec::new();
                    let a = show(self.said.as_slice());
                    push_all(&mut why, &chars_of(a.as_str()));
                    push_str(&mut why, " then ");
                    let b = show(got.as_slice());
                    push_all(&mut why, &chars_of(b.as_str()));
                    let text = violation(self.names[6], &why, &self.input);
                    self.violations.push(text);
                    proof {
                        assert(text_views(self.violations@) =~= before.push(text@));
                    }
                }
                proof {
                    assert(old(self).fired@[6] + 1 <= self.budget - self.left);
                    assert(old(self).fired@[7] + 1 <= self.budget - self.left);
                    assert(self.fired@ == old(self).fired@);
                }
                let f6 = self.fired[6] + 1;
                self.fired.set(6, f6);
                let longer = self.mission.with_another_robot(&mut self.rng, contract);
                let longer_input = longer.canonical();
                if !longer.every_robot_starts_on_the_grid() {
                    proof {
                        assert forall|i: int| 0 <= i < 8 implies #[trigger] self.fired@[i] + Self::owed(self.stage, i) <= self.budget - self.left by {
                            assert(old(self).fired@[i] + Self::owed(old(self).stage, i) <= old(self).budget - old(self).left);
                        }
                    }
                    return Err(generator_error("the generator built an invalid mission: ", &longer_input));
                }
                let f7 = self.fired[7] + 1;
                self.fired.set(7, f7);
                self.longer = copy_of(&longer_input);
                self.stage = Stage::Extended;
                proof {
                    assert forall|i: int| 0 <= i < 8 implies #[trigger] self.fired@[i] + Self::owed(self.stage, i) <= self.budget - self.left by {
                        assert(old(self).fired@[i] + Self::owed(old(self).stage, i) <= old(self).budget - old(self).left);
                    }
                }
                Ok(Some(longer_input))
            },
            Stage::Extended => {
                let before = count_lines(&self.said);
                let kept = first_lines_of(&got, before);
                if !same_bytes(kept.as_slice(), self.said.as_slice()) {
                    let ghost earlier = text_views(self.violations@);
                    let mut why: Vec<char> = Vec::new();
                    let a = show(self.said.as_slice());
                    push_all(&mut why, &chars_of(a.as_str()));
                    push_str(&mut why, " became ");
                    let b = show(kept.as_slice());
                    push_all(&mut why, &chars_of(b.as_str()));
                    let text = violation(self.names[7], &why, &self.longer);
                    self.violations.push(text);
                    proof {
                        assert(text_views(self.violations@) =~= earlier.push(text@));
                    }
                }
                Ok(None)
            },
        }
    }

    /// Counts and records one answer's verdicts.
    fn tally(&mut self, verdicts: &Vec<Verdict>)
        requires
            old(self).names@.len() == 8,
            old(self).fired@.len() == 8,
            old(self).left < old(self).budget,
            forall|j: int| 0 <= j < 8 ==> #[trigger] old(self).fired@[j] + 1 <= old(self).budget - old(self).left,
            verdicts@.len() == 6,
        ensures
            final(self).names == old(self).names,
            final(self).left == old(self).left,
            final(self).budget == old(self).budget,
            final(self).rng == old(self).rng,
            final(self).mission == old(self).mission,
            final(self).input == old(self).input,
            final(self).said == old(self).said,
            final(self).longer == old(self).longer,
            final(self).fired@ == tallied(old(self).fired@, verdict_views(verdicts@)),
            text_views(final(self).violations@) == text_views(old(self).violations@)
                + violations_of(verdict_views(verdicts@), name_views(old(self).names@), old(self).input@, 6),
    {
        let ghost start = text_views(self.violations@);
        let ghost names = name_views(self.names@);
        let ghost vs = verdict_views(verdicts@);
        let mut i: usize = 0;
        while i < 6
            invariant
                i <= 6,
                self.names == old(self).names,
                self.left == old(self).left,
                self.budget == old(self).budget,
                self.rng == old(self).rng,
                self.mission == old(self).mission,
                self.input == old(self).input,
                self.said == old(self).said,
                self.longer == old(self).longer,
                names == name_views(self.names@),
                self.names@.len() == 8,
                vs == verdict_views(verdicts@),
                vs.len() == 6,
                self.fired@.len() == 8,
                old(self).left < old(self).budget,
                forall|j: int| 0 <= j < 8 ==> #[trigger] old(self).fired@[j] + 1 <= old(self).budget - old(self).left,
                forall|j: int| 0 <= j < 8 ==> #[trigger] self.fired@[j] == if j < i && !(vs[j] is NotApplicable) {
                    (old(self).fired@[j] + 1) as u32
                } else {
                    old(self).fired@[j]
                },
                text_views(self.violations@) == start + violations_of(vs, names, self.input@, i as nat),
            decreases 6 - i,
        {
            proof {
                assert(vs[i as int] == verdicts@[i as int]@);
                assert(old(self).fired@[i as int] + 1 <= old(self).budget - old(self).left);
                assert(self.fired@[i as int] == old(self).fired@[i as int]);
            }
            match &verdicts[i] {
                Verdict::NotApplicable => {},
                Verdict::Held => {
                    let f = self.fired[i] + 1;
                    self.fired.set(i, f);
                },
                Verdict::Violated(why) => {
                    let f = self.fired[i] + 1;
                    self.fired.set(i, f);
                    let ghost before = text_views(self.violations@);
                    let text = violation(self.names[i], &chars_of(why.as_str()), &self.input);
                    self.violations.push(text);
                    proof {
                        assert(names[i as int] == self.names@[i as int]@);
                        assert(text_views(self.violations@) =~= before.push(text@));
                    }
                },
            }
            i = i + 1;
        }
        proof {
            assert(self.fired@ =~= tallied(old(self).fired@, vs));
        }
    }

    /// The properties, their counts, the violations, and how many missions
    /// the run was given.
    pub fn finish(self) -> (r: PropertyRun)
        ensures
            name_views(r.names@) == self@.names,
            r.fired@ == self@.fired,
            text_views(r.violations@) == self@.violations,
            r.missions == self@.budget,
    {
        PropertyRun { names: self.names, fired: self.fired, violations: self.violations, missions: self.budget }
    }
}

// ---------------------------------------------------------------------------
// Grading rejections of generated invalid input.

/// How many mutations were run, and every rejection the program got wrong.
pub struct RejectionRun {
    pub run: u32,
    pub failures: Vec<String>,
}

use crate::expect::{judged, tag_text, Diagnostic, DiagnosticModel, Expect, ExpectModel};
use crate::mutation::{mutate, mutated, Mutation, MutationModel};
use crate::text::decimal;

/// What a program must do on a mutation: refuse it, and name its line and one
/// of its rulings.
pub open spec fn rejection_expected(mutation: MutationModel) -> ExpectModel {
    ExpectModel::Rejection(DiagnosticModel {
        required: seq!["line "@ + decimal(mutation.line as nat)],
        any_of: mutation.tags.map_values(|t: Seq<char>| tag_text(t)),
        forbids_a_line_reference: false,
    })
}

/// The next mutation the rejection mode runs, from `left` remaining draws: a
/// drawn mission that does not break is skipped.
pub open spec fn next_rejection(state: u64, left: u32, max_coordinate: u32, max_instructions: u32, grammar: crate::grammar::GrammarModel) -> (Option<MutationModel>, u64, u32)
    decreases left,
{
    if left == 0 {
        (None, state, 0)
    } else {
        let (mission, s1) = drawn_mission(state, max_coordinate, grammar);
        match mutated(s1, mission, max_coordinate, max_instructions) {
            (None, s2) => next_rejection(s2, (left - 1) as u32, max_coordinate, max_instructions, grammar),
            (Some(m), s2) => (Some(m), s2, (left - 1) as u32),
        }
    }
}

/// A grading of rejections, in progress.
pub struct RejectionsRun {
    rng: Rng,
    left: u32,
    budget: u32,
    run: u32,
    failures: Vec<String>,
    pending: Option<Mutation>,
}

pub struct RejectionsModel {
    pub state: u64,
    pub left: u32,
    pub budget: u32,
    pub run: u32,
    pub failures: Seq<Seq<char>>,
    pub pending: Option<MutationModel>,
}

impl View for RejectionsRun {
    type V = RejectionsModel;

    closed spec fn view(&self) -> RejectionsModel {
        RejectionsModel {
            state: self.rng@,
            left: self.left,
            budget: self.budget,
            run: self.run,
            failures: text_views(self.failures@),
            pending: match self.pending {
                Some(m) => Some(m@),
                None => None,
            },
        }
    }
}

impl RejectionsRun {
    /// Whether the run's counts agree: every mutation run came from a draw.
    pub closed spec fn wf(&self) -> bool {
        self.left as int + self.run as int <= self.budget as int
    }

    /// A grading of up to `budget.rejections` generated invalid inputs.
    pub fn start(budget: &Budget) -> (r: Self)
        ensures
            r.wf(),
            r@.state == budget.seed ^ 0x5265_6A65u64,
            r@.left == budget.rejections,
            r@.budget == budget.rejections,
            r@.run == 0,
            r@.failures.len() == 0,
            r@.pending is None,
    {
        let r = RejectionsRun {
            rng: Rng::from_seed(budget.seed ^ 0x5265_6A65),
            left: budget.rejections,
            budget: budget.rejections,
            run: 0,
            failures: Vec::new(),
            pending: None,
        };
        proof {
            assert(text_views(r.failures@) =~= Seq::<Seq<char>>::empty());
        }
        r
    }

    /// The next generated invalid input, or `None` when the budget is spent.
    pub fn next_input(&mut self, contract: &Contract) -> (r: Option<Vec<u8>>)
        requires
            old(self).wf(),
            old(self)@.pending is None,
            contract@.grammar.orientations.len() > 0,
            contract@.grammar.instructions.len() > 0,
        ensures
            final(self).wf(),
            final(self)@.budget == old(self)@.budget,
            final(self)@.failures == old(self)@.failures,
            ({
                let (next, after, left) = next_rejection(old(self)@.state, old(self)@.left,
                    contract@.limits.max_coordinate, contract@.limits.max_instructions, contract@.grammar);
                &&& final(self)@.state == after
                &&& final(self)@.left == left
                &&& match next {
                    None => r is None && final(self)@.run == old(self)@.run && final(self)@.pending is None,
                    Some(m) => r matches Some(bytes) && bytes@ == m.rendered
                        && final(self)@.run == old(self)@.run + 1 && final(self)@.pending == Some(m),
                }
            }),
    {
        let max_coordinate = contract.limits.max_coordinate;
        let max_instructions = contract.limits.max_instructions;
        while self.left > 0
            invariant
                self.wf(),
                self.pending is None,
                self.budget == old(self).budget,
                self.run == old(self).run,
                self.failures@ == old(self).failures@,
                max_coordinate == contract@.limits.max_coordinate,
                max_instructions == contract@.limits.max_instructions,
                contract@.grammar.orientations.len() > 0,
                contract@.grammar.instructions.len() > 0,
                next_rejection(old(self)@.state, old(self)@.left, max_coordinate, max_instructions, contract@.grammar)
                    == next_rejection(self.rng@, self.left, max_coordinate, max_instructions, contract@.grammar),
            decreases self.left,
        {
            let ghost at = self.rng@;
            let ghost left_now = self.left;
            self.left = self.left - 1;
            let mission = Mission::draw(&mut self.rng, contract);
            match mutate(&mut self.rng, &mission, max_coordinate, max_instructions) {
                None => {},
                Some(m) => {
                    let rendered = copy_of(&m.rendered);
                    self.run = self.run + 1;
                    self.pending = Some(m);
                    return Some(rendered);
                },
            }
        }
        None
    }

    /// How the program did on the pending mutation.
    pub fn answered(&mut self, seen: &Observation)
        requires
            old(self)@.pending is Some,
        ensures
            final(self).wf() == old(self).wf(),
            final(self)@.state == old(self)@.state,
            final(self)@.left == old(self)@.left,
            final(self)@.budget == old(self)@.budget,
            final(self)@.run == old(self)@.run,
            final(self)@.pending is None,
            ({
                let m = old(self)@.pending->Some_0;
                final(self)@.failures == match judged(rejection_expected(m), seen@) {
                    Some(why) => old(self)@.failures.push(m.kind + ": "@ + why + "\n      on "@ + shown(m.rendered)),
                    None => old(self)@.failures,
                }
            }),
    {
        let pending = self.pending.take();
        match pending {
            Some(m) => {
                let diagnostic = Diagnostic::at_line(m.line, m.tags.as_slice());
                let expect = Expect::Rejection(diagnostic);
                proof {
                    assert(crate::expect::tags_of(m.tags@) =~= m@.tags.map_values(|t: Seq<char>| tag_text(t)));
                    assert(expect@ == rejection_expected(m@));
                }
                match expect.judge(seen) {
                    Some(why) => {
                        let ghost before = text_views(self.failures@);
                        let mut text = chars_of(m.kind);
                        push_str(&mut text, ": ");
                        push_all(&mut text, &chars_of(why.as_str()));
                        push_str(&mut text, "\n      on ");
                        let shown_bytes = show(m.rendered.as_slice());
                        push_all(&mut text, &chars_of(shown_bytes.as_str()));
                        let line = string_of(&text);
                        self.failures.push(line);
                        proof {
                            assert(text_views(self.failures@) =~= before.push(line@));
                        }
                    },
                    None => {},
                }
            },
            None => {},
        }
    }

    /// How many mutations were run, and the failures.
    pub fn finish(self) -> (r: RejectionRun)
        ensures
            r.run == self@.run,
            text_views(r.failures@) == self@.failures,
    {
        RejectionRun { run: self.run, failures: self.failures }
    }
}

} // verus!
