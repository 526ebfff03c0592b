//! The contract: its version, its limits, every ruling, and its grammar,
//! loaded and checked together so that an incoherent contract fails before
//! anything is graded against it.

use vstd::prelude::*;

use crate::data::{GRAMMAR, LIMITS, RULINGS};
use crate::grammar::{grammar_of, Grammar, GrammarModel};
use crate::raw::{raw_limits_of, raw_rulings_of, raw_views, Ruling as Entry, RulingEntry, Rulings as Entries};
use crate::tables::{parse_toml, toml_document, TomlValue};
use crate::text::{chars_of, debug_text, push_all, push_debug, push_str, same_chars, string_of};

verus! {

/// The numbers the brief gives us.
#[derive(Debug, Clone, Copy, PartialEq, Eq)]
pub struct Limits {
    pub max_coordinate: u32,
    pub max_instructions: u32,
}

/// How a question was answered: ruled, with the ruling and perhaps why; or
/// deliberately left open, with a note.
#[derive(Debug)]
pub enum Decision {
    Ruled { ruling: String, rationale: Option<String> },
    Open { note: String },
}

/// One question the brief leaves open, and what the contract does with it.
#[derive(Debug)]
pub struct Ruling {
    pub id: String,
    pub question: String,
    pub decision: Decision,
}

/// The contract, loaded.
#[derive(Debug)]
pub struct Contract {
    pub version: String,
    pub limits: Limits,
    pub rulings: Vec<Ruling>,
    pub grammar: Grammar,
}

pub enum DecisionModel {
    Ruled { ruling: Seq<char>, rationale: Option<Seq<char>> },
    Open { note: Seq<char> },
}

pub struct RulingModel {
    pub id: Seq<char>,
    pub question: Seq<char>,
    pub decision: DecisionModel,
}

pub struct ContractModel {
    pub version: Seq<char>,
    pub limits: Limits,
    pub rulings: Seq<RulingModel>,
    pub grammar: GrammarModel,
}

impl View for Decision {
    type V = DecisionModel;

    open spec fn view(&self) -> DecisionModel {
        match self {
            Decision::Ruled { ruling, rationale } => DecisionModel::Ruled {
                ruling: ruling@,
                rationale: crate::raw::opt_view(*rationale),
            },
            Decision::Open { note } => DecisionModel::Open { note: note@ },
        }
    }
}

impl View for Ruling {
    type V = RulingModel;

    open spec fn view(&self) -> RulingModel {
        RulingModel { id: self.id@, question: self.question@, decision: self.decision@ }
    }
}

/// The views of several rulings.
pub open spec fn ruling_views(rulings: Seq<Ruling>) -> Seq<RulingModel> {
    rulings.map_values(|r: Ruling| r@)
}

impl View for Contract {
    type V = ContractModel;

    open spec fn view(&self) -> ContractModel {
        ContractModel {
            version: self.version@,
            limits: self.limits,
            rulings: ruling_views(self.rulings@),
            grammar: self.grammar@,
        }
    }
}

/// What an entry's status makes of it.
pub open spec fn decision_of(entry: RulingEntry) -> Result<DecisionModel, Seq<char>> {
    if entry.status == "ruled"@ {
        match entry.statement {
            Some(ruling) => Ok(DecisionModel::Ruled { ruling, rationale: entry.rationale }),
            None => Err(entry.id + " is ruled but has no ruling"@),
        }
    } else if entry.status == "open"@ {
        match entry.note {
            Some(note) => Ok(DecisionModel::Open { note }),
            None => Err(entry.id + " is open but has no note"@),
        }
    } else {
        Err(entry.id + " has status "@ + debug_text(entry.status) + ", which is neither \"ruled\" nor \"open\""@)
    }
}

/// The rulings the entries make, in order, given the ids already used; or the
/// first thing wrong with them.
pub open spec fn decided(entries: Seq<RulingEntry>, seen: Seq<Seq<char>>) -> Result<Seq<RulingModel>, Seq<char>>
    decreases entries.len(),
{
    if entries.len() == 0 {
        Ok(seq![])
    } else {
        let entry = entries[0];
        if seen.contains(entry.id) {
            Err(entry.id + " appears twice"@)
        } else {
            match decision_of(entry) {
                Err(why) => Err(why),
                Ok(decision) => match decided(entries.skip(1), seen.push(entry.id)) {
                    Err(why) => Err(why),
                    Ok(rest) => Ok(seq![RulingModel { id: entry.id, question: entry.question, decision }] + rest),
                },
            }
        }
    }
}

/// The contract the three data files state, or the first thing wrong with
/// them: the limits, then the rulings, then the grammar.
pub open spec fn contract_from(
    limits: Result<Vec<(String, TomlValue)>, String>,
    rulings: Result<Vec<(String, TomlValue)>, String>,
    grammar: Seq<char>,
) -> Result<ContractModel, Seq<char>> {
    match limits {
        Err(why) => Err("contract/limits.toml: "@ + why@),
        Ok(doc) => match raw_limits_of(doc@) {
            Err(why) => Err("contract/limits.toml: "@ + why),
            Ok((version, limits)) => match rulings {
                Err(why) => Err("contract/rulings.toml: "@ + why@),
                Ok(doc) => match raw_rulings_of(doc@) {
                    Err(why) => Err("contract/rulings.toml: "@ + why),
                    Ok(entries) => match decided(entries, seq![]) {
                        Err(why) => Err(why),
                        Ok(rulings) => match grammar_of(grammar) {
                            Err(why) => Err(why),
                            Ok(grammar) => Ok(ContractModel { version, limits, rulings, grammar }),
                        },
                    },
                },
            },
        },
    }
}

/// The contract this library ships, as its data files state it.
pub open spec fn shipped() -> Result<ContractModel, Seq<char>> {
    contract_from(toml_document(LIMITS@), toml_document(RULINGS@), GRAMMAR@)
}

/// Whether a decision rules.
pub open spec fn is_ruled_model(decision: DecisionModel) -> bool {
    decision is Ruled
}

/// The ruled questions, in order.
pub open spec fn ruled_only(rulings: Seq<RulingModel>) -> Seq<RulingModel>
    decreases rulings.len(),
{
    if rulings.len() == 0 {
        seq![]
    } else {
        let kept = ruled_only(rulings.drop_last());
        if is_ruled_model(rulings.last().decision) { kept.push(rulings.last()) } else { kept }
    }
}

fn has_id(seen: &Vec<Vec<char>>, id: &Vec<char>) -> (r: bool)
    ensures
        r == crate::text::views(seen@).contains(id@),
{
    let mut i: usize = 0;
    while i < seen.len()
        invariant
            i <= seen.len(),
            forall|j: int| 0 <= j < i ==> crate::text::views(seen@)[j] != id@,
        decreases seen.len() - i,
    {
        if same_chars(&seen[i], id) {
            proof {
                assert(crate::text::views(seen@)[i as int] == id@);
            }
            return true;
        }
        i = i + 1;
    }
    false
}

fn clone_text(s: &Option<String>) -> (r: Option<String>)
    ensures
        crate::raw::opt_view(r) == crate::raw::opt_view(*s),
{
    match s {
        Some(t) => Some(t.clone()),
        None => None,
    }
}

fn decide(entry: &Entry) -> (r: Result<Decision, String>)
    ensures
        r matches Ok(d) ==> decision_of(entry@) == Ok::<DecisionModel, Seq<char>>(d@),
        r matches Err(why) ==> decision_of(entry@) == Err::<DecisionModel, Seq<char>>(why@),
{
    let status = chars_of(entry.status.as_str());
    let ruled = chars_of("ruled");
    let open = chars_of("open");
    let id = chars_of(entry.id.as_str());
    if same_chars(&status, &ruled) {
        match &entry.statement {
            Some(ruling) => Ok(Decision::Ruled { ruling: ruling.clone(), rationale: clone_text(&entry.rationale) }),
            None => {
                let mut why = id;
                push_str(&mut why, " is ruled but has no ruling");
                Err(string_of(&why))
            },
        }
    } else if same_chars(&status, &open) {
        match &entry.note {
            Some(note) => Ok(Decision::Open { note: note.clone() }),
            None => {
                let mut why = id;
                push_str(&mut why, " is open but has no note");
                Err(string_of(&why))
            },
        }
    } else {
        let mut why = id;
        push_str(&mut why, " has status ");
        push_debug(&mut why, &status);
        push_str(&mut why, ", which is neither \"ruled\" nor \"open\"");
        Err(string_of(&why))
    }
}

/// The rulings a list of entries makes: every id used once, every ruled
/// question with its ruling, every open one with its note.
fn decide_all(entries: &Vec<Entry>) -> (r: Result<Vec<Ruling>, String>)
    ensures
        r matches Ok(rs) ==> decided(raw_views(entries@), seq![]) == Ok::<Seq<RulingModel>, Seq<char>>(ruling_views(rs@)),
        r matches Err(why) ==> decided(raw_views(entries@), seq![]) == Err::<Seq<RulingModel>, Seq<char>>(why@),
{
    let ghost all = raw_views(entries@);
    let mut seen: Vec<Vec<char>> = Vec::new();
    let mut parsed: Vec<Ruling> = Vec::new();
    let mut i: usize = 0;
    proof {
        assert(all.skip(0) =~= all);
        match decided(all, seq![]) {
            Err(_) => {},
            Ok(rest) => { assert(ruling_views(parsed@) + rest =~= rest); },
        }
        assert(crate::text::views(seen@) =~= Seq::<Seq<char>>::empty());
    }
    while i < entries.len()
        invariant
            i <= entries.len(),
            all == raw_views(entries@),
            crate::text::views(seen@) == all.take(i as int).map_values(|e: RulingEntry| e.id),
            decided(all, seq![]) == (match decided(all.skip(i as int), crate::text::views(seen@)) {
                Err(why) => Err::<Seq<RulingModel>, Seq<char>>(why),
                Ok(rest) => Ok(ruling_views(parsed@) + rest),
            }),
        decreases entries.len() - i,
    {
        let entry = &entries[i];
        let id = chars_of(entry.id.as_str());
        proof {
            assert(all.skip(i as int)[0] == entry@);
            assert(all.skip(i as int).skip(1) =~= all.skip(i + 1));
        }
        if has_id(&seen, &id) {
            let mut why = id;
            push_str(&mut why, " appears twice");
            return Err(string_of(&why));
        }
        let decision = decide(entry)?;
        let ruling = Ruling { id: entry.id.clone(), question: entry.question.clone(), decision };
        let ghost old_seen = seen@;
        seen.push(id);
        proof {
            assert(crate::text::views(seen@) =~= crate::text::views(old_seen).push(entry@.id));
            assert(all.take(i + 1).map_values(|e: RulingEntry| e.id) =~= all.take(i as int).map_values(|e: RulingEntry| e.id).push(entry@.id));
            match decided(all.skip(i + 1), crate::text::views(seen@)) {
                Err(_) => {},
                Ok(rest) => {
                    assert(ruling_views(parsed@.push(ruling)) =~= ruling_views(parsed@).push(ruling@));
                    assert(ruling_views(parsed@) + (seq![ruling@] + rest) =~= ruling_views(parsed@).push(ruling@) + rest);
                },
            }
        }
        parsed.push(ruling);
        i = i + 1;
    }
    proof {
        assert(all.skip(i as int).len() == 0);
        assert(ruling_views(parsed@) + Seq::<RulingModel>::empty() =~= ruling_views(parsed@));
    }
    Ok(parsed)
}

fn prefixed(prefix: &str, why: &String) -> (r: String)
    ensures
        r@ == prefix@ + why@,
{
    let mut out = chars_of(prefix);
    let more = chars_of(why.as_str());
    push_all(&mut out, &more);
    string_of(&out)
}

impl Ruling {
    pub fn is_ruled(&self) -> (r: bool)
        ensures
            r == is_ruled_model(self@.decision),
    {
        match self.decision {
            Decision::Ruled { .. } => true,
            Decision::Open { .. } => false,
        }
    }
}

impl Contract {
    /// The contract this library ships. Loading validates: an incoherent
    /// contract fails here rather than halfway through grading.
    pub fn load() -> (r: Result<Self, String>)
        ensures
            r matches Ok(c) ==> shipped() == Ok::<ContractModel, Seq<char>>(c@),
            r matches Err(why) ==> shipped() == Err::<ContractModel, Seq<char>>(why@),
    {
        Self::parse(LIMITS, RULINGS, GRAMMAR)
    }

    /// Reads a contract from the text of its three data files.
    pub fn parse(limits: &str, rulings: &str, grammar: &str) -> (r: Result<Self, String>)
        ensures
            r matches Ok(c) ==> contract_from(toml_document(limits@), toml_document(rulings@), grammar@) == Ok::<ContractModel, Seq<char>>(c@),
            r matches Err(why) ==> contract_from(toml_document(limits@), toml_document(rulings@), grammar@) == Err::<ContractModel, Seq<char>>(why@),
    {
        let limits = parse_toml(limits);
        let rulings = parse_toml(rulings);
        Self::from_documents(&limits, &rulings, grammar)
    }

    /// A contract from its two data documents, as the TOML reader gave them,
    /// and the text of its grammar: every id used once, every ruled question
    /// with a ruling, every open one with a note, a status that is one of the
    /// two, and a grammar that names its productions.
    pub fn from_documents(
        limits: &Result<Vec<(String, TomlValue)>, String>,
        rulings: &Result<Vec<(String, TomlValue)>, String>,
        grammar: &str,
    ) -> (r: Result<Self, String>)
        ensures
            r matches Ok(c) ==> contract_from(*limits, *rulings, grammar@) == Ok::<ContractModel, Seq<char>>(c@),
            r matches Err(why) ==> contract_from(*limits, *rulings, grammar@) == Err::<ContractModel, Seq<char>>(why@),
    {
        let limits = match limits {
            Err(why) => return Err(prefixed("contract/limits.toml: ", why)),
            Ok(doc) => match crate::raw::Limits::from_document(doc) {
                Err(why) => return Err(prefixed("contract/limits.toml: ", &why)),
                Ok(l) => l,
            },
        };
        let entries = match rulings {
            Err(why) => return Err(prefixed("contract/rulings.toml: ", why)),
            Ok(doc) => match Entries::from_document(doc) {
                Err(why) => return Err(prefixed("contract/rulings.toml: ", &why)),
                Ok(e) => e,
            },
        };
        let parsed = decide_all(&entries.ruling)?;
        let grammar = Grammar::parse(grammar)?;
        Ok(Contract { version: limits.version, limits: limits.limits, rulings: parsed, grammar })
    }

    /// The ruled questions, in order.
    pub fn ruled(&self) -> (r: Vec<&Ruling>)
        ensures
            r@.map_values(|x: &Ruling| x@) == ruled_only(self@.rulings),
    {
        let mut out: Vec<&Ruling> = Vec::new();
        let mut i: usize = 0;
        while i < self.rulings.len()
            invariant
                i <= self.rulings.len(),
                out@.map_values(|x: &Ruling| x@) == ruled_only(self@.rulings.take(i as int)),
            decreases self.rulings.len() - i,
        {
            let ruling = &self.rulings[i];
            proof {
                assert(self@.rulings.take(i + 1).drop_last() =~= self@.rulings.take(i as int));
                assert(self@.rulings.take(i + 1).last() == ruling@);
            }
            if ruling.is_ruled() {
                let ghost before = out@;
                out.push(ruling);
                proof {
                    assert(out@.map_values(|x: &Ruling| x@) =~= before.map_values(|x: &Ruling| x@).push(ruling@));
                }
            }
            i = i + 1;
        }
        proof {
            assert(self@.rulings.take(i as int) =~= self@.rulings);
        }
        out
    }
}

} // verus!
