//! The contract rendered as one document: the narrative with its holes filled
//! from the data, so nothing is stated twice.

use vstd::prelude::*;
use vstd::utf8::*;

use crate::contract::{is_ruled_model, Contract, ContractModel, Decision, DecisionModel, RulingModel};
use crate::data::{GRAMMAR, SAMPLE_INPUT, SAMPLE_OUTPUT, TEMPLATE};
use crate::text::{
    chars_of, decimal, is_unicode_space, lines_chars, lines_of, push_all, push_decimal, push_str,
    slice_chars, string_of, unicode_space,
};

verus! {

/// Whether `pat` occurs in `s` at `at`.
pub open spec fn occurs_at(s: Seq<char>, pat: Seq<char>, at: int) -> bool {
    0 <= at && at + pat.len() <= s.len() && s.subrange(at, at + pat.len()) == pat
}

/// Where `pat` first occurs in `s`.
pub open spec fn find_seq(s: Seq<char>, pat: Seq<char>) -> Option<int>
    decreases s.len(),
{
    if s.len() < pat.len() {
        None
    } else if s.take(pat.len() as int) == pat {
        Some(0)
    } else if s.len() == 0 {
        None
    } else {
        match find_seq(s.skip(1), pat) {
            Some(i) => Some(i + 1),
            None => None,
        }
    }
}

/// What follows the first `pat`, or all of `s` when there is none: the second
/// half of `split_once`, or the whole.
pub open spec fn after_first(s: Seq<char>, pat: Seq<char>) -> Seq<char> {
    match find_seq(s, pat) {
        Some(i) => s.skip(i + pat.len()),
        None => s,
    }
}

/// Every occurrence of `pat`, left to right and not overlapping, replaced.
pub open spec fn replace(s: Seq<char>, pat: Seq<char>, with: Seq<char>) -> Seq<char>
    decreases s.len(),
{
    if s.len() == 0 {
        seq![]
    } else if pat.len() > 0 && s.len() >= pat.len() && s.take(pat.len() as int) == pat {
        with + replace(s.skip(pat.len() as int), pat, with)
    } else {
        seq![s[0]] + replace(s.skip(1), pat, with)
    }
}

/// The text without trailing white space.
pub open spec fn trim_end(s: Seq<char>) -> Seq<char>
    decreases s.len(),
{
    if s.len() > 0 && is_unicode_space(s.last()) { trim_end(s.drop_last()) } else { s }
}

/// The text without leading white space.
pub open spec fn trim_start(s: Seq<char>) -> Seq<char>
    decreases s.len(),
{
    if s.len() > 0 && is_unicode_space(s[0]) { trim_start(s.skip(1)) } else { s }
}

/// `n` spaces.
pub open spec fn spaces(n: int) -> Seq<char>
    decreases n,
{
    if n <= 0 { seq![] } else { spaces(n - 1).push(' ') }
}

/// The text padded with spaces to fifteen characters.
pub open spec fn padded(s: Seq<char>) -> Seq<char> {
    s + spaces(15 - s.len())
}

/// One row of the rulings table.
pub open spec fn table_row(ruling: RulingModel) -> Seq<char> {
    match ruling.decision {
        DecisionModel::Ruled { ruling: said, rationale } => "| "@ + ruling.id + " | "@ + ruling.question + " | "@ + said
            + (match rationale { Some(why) => seq![' '] + why, None => seq![] }) + " |\n"@,
        DecisionModel::Open { .. } => seq![],
    }
}

/// The rows of the ruled questions, in order.
pub open spec fn table_rows(rulings: Seq<RulingModel>) -> Seq<char>
    decreases rulings.len(),
{
    if rulings.len() == 0 { seq![] } else { table_rows(rulings.drop_last()) + table_row(rulings.last()) }
}

/// The rulings table: a header, one row per ruled question.
pub open spec fn rulings_table_text(rulings: Seq<RulingModel>) -> Seq<char> {
    trim_end("| ID | Question the brief leaves open | Ruling |\n|---|---|---|\n"@ + table_rows(rulings))
}

/// One item of the open questions list.
pub open spec fn open_item(ruling: RulingModel) -> Seq<char> {
    match ruling.decision {
        DecisionModel::Open { note } => "- **"@ + ruling.id + "** \u{2014} "@ + ruling.question + seq![' '] + note + seq!['\n'],
        DecisionModel::Ruled { .. } => seq![],
    }
}

pub open spec fn open_items(rulings: Seq<RulingModel>) -> Seq<char>
    decreases rulings.len(),
{
    if rulings.len() == 0 { seq![] } else { open_items(rulings.drop_last()) + open_item(rulings.last()) }
}

/// The open questions, one list item each.
pub open spec fn open_questions_text(rulings: Seq<RulingModel>) -> Seq<char> {
    trim_end(open_items(rulings))
}

/// The grammar's productions, without its opening comment, fenced.
pub open spec fn grammar_block_text(grammar: Seq<char>) -> Seq<char> {
    "```ebnf\n"@ + trim_start(trim_end(after_first(grammar, "*)\n"@))) + "\n```"@
}

/// Input lines beside the answers they produce, then any answers left over.
pub open spec fn sample_rows(inputs: Seq<Seq<char>>, outputs: Seq<Seq<char>>) -> Seq<char>
    decreases inputs.len() + outputs.len(),
{
    if inputs.len() > 0 {
        if outputs.len() > 0 {
            padded(inputs[0]) + outputs[0] + seq!['\n'] + sample_rows(inputs.skip(1), outputs.skip(1))
        } else {
            inputs[0] + seq!['\n'] + sample_rows(inputs.skip(1), outputs)
        }
    } else if outputs.len() > 0 {
        padded(seq![]) + outputs[0] + seq!['\n'] + sample_rows(inputs, outputs.skip(1))
    } else {
        seq![]
    }
}

/// What `String::from_utf8_lossy` makes of some bytes.
pub uninterp spec fn lossy_text(bytes: Seq<u8>) -> Seq<char>;

/// The brief's sample, input beside output, fenced.
pub open spec fn sample_block_text(input: Seq<u8>, output: Seq<u8>) -> Seq<char> {
    "```\n"@ + sample_rows(lines_of(lossy_text(input)), lines_of(lossy_text(output))) + "```"@
}

/// The template's holes, filled in order.
pub open spec fn filled(body: Seq<char>, contract: ContractModel, grammar: Seq<char>) -> Seq<char> {
    let a = replace(body, "{{version}}"@, contract.version);
    let b = replace(a, "{{max_coordinate}}"@, decimal(contract.limits.max_coordinate as nat));
    let c = replace(b, "{{max_instructions}}"@, decimal(contract.limits.max_instructions as nat));
    let d = replace(c, "{{grammar}}"@, grammar_block_text(grammar));
    let e = replace(d, "{{sample}}"@, sample_block_text(SAMPLE_INPUT@, SAMPLE_OUTPUT@));
    let f = replace(e, "{{rulings}}"@, rulings_table_text(contract.rulings));
    replace(f, "{{open_questions}}"@, open_questions_text(contract.rulings))
}

/// The document a template renders to, or the first hole nothing filled.
pub open spec fn rendered(template: Seq<char>, contract: ContractModel, grammar: Seq<char>) -> Result<Seq<char>, Seq<char>> {
    let text = filled(after_first(template, "-->\n"@), contract, grammar);
    match find_seq(text, "{{"@) {
        Some(hole) => {
            let tail = text.skip(hole);
            let name = match find_seq(tail, "}}"@) { Some(end) => tail.take(end + 2), None => tail };
            Err("template has a hole nothing filled: "@ + name)
        },
        None => Ok(text),
    }
}

/// The characters some bytes decode to, invalid sequences replaced.
///
/// Wraps `String::from_utf8_lossy`, which, as documented, gives valid UTF-8
/// back unchanged; what it makes of invalid bytes is named, not stated.
#[verifier::external_body]
pub(crate) fn lossy(bytes: &[u8]) -> (r: Vec<char>)
    ensures
        r@ == lossy_text(bytes@),
        valid_utf8(bytes@) ==> r@ == decode_utf8(bytes@),
{
    String::from_utf8_lossy(bytes).chars().collect()
}

proof fn lemma_occurs_first(s: Seq<char>, pat: Seq<char>, i: int)
    requires
        occurs_at(s, pat, i),
        forall|j: int| 0 <= j < i ==> !occurs_at(s, pat, j),
    ensures
        find_seq(s, pat) == Some(i),
    decreases i,
{
    assert(s.subrange(i, i + pat.len()) == pat);
    if i == 0 {
        assert(s.take(pat.len() as int) =~= s.subrange(0, pat.len() as int));
    } else {
        assert(!occurs_at(s, pat, 0));
        assert(s.take(pat.len() as int) =~= s.subrange(0, pat.len() as int));
        assert(s.len() > 0);
        assert forall|j: int| 0 <= j < i - 1 implies !occurs_at(s.skip(1), pat, j) by {
            assert(s.skip(1).subrange(j, j + pat.len()) =~= s.subrange(j + 1, j + 1 + pat.len()));
            assert(!occurs_at(s, pat, j + 1));
        }
        assert(s.skip(1).subrange(i - 1, i - 1 + pat.len()) =~= s.subrange(i, i + pat.len()));
        lemma_occurs_first(s.skip(1), pat, i - 1);
    }
}

proof fn lemma_occurs_nowhere(s: Seq<char>, pat: Seq<char>)
    requires
        forall|j: int| 0 <= j ==> !occurs_at(s, pat, j),
    ensures
        find_seq(s, pat) is None,
    decreases s.len(),
{
    if s.len() >= pat.len() {
        assert(s.take(pat.len() as int) =~= s.subrange(0, pat.len() as int));
        assert(!occurs_at(s, pat, 0));
        if s.len() > 0 {
            assert forall|j: int| 0 <= j implies !occurs_at(s.skip(1), pat, j) by {
                if j + pat.len() <= s.len() - 1 {
                    assert(s.skip(1).subrange(j, j + pat.len()) =~= s.subrange(j + 1, j + 1 + pat.len()));
                }
                assert(!occurs_at(s, pat, j + 1));
            }
            lemma_occurs_nowhere(s.skip(1), pat);
        }
    }
}

/// Whether `pat` occurs in `s` at `at`.
fn occurs(s: &Vec<char>, pat: &Vec<char>, at: usize) -> (r: bool)
    ensures
        r == occurs_at(s@, pat@, at as int),
{
    if at > s.len() || pat.len() > s.len() - at {
        return false;
    }
    let mut k: usize = 0;
    while k < pat.len()
        invariant
            k <= pat.len(),
            at + pat.len() <= s.len(),
            forall|j: int| 0 <= j < k ==> s@[at + j] == pat@[j],
        decreases pat.len() - k,
    {
        if s[at + k] != pat[k] {
            proof {
                assert(s@.subrange(at as int, at + pat.len())[k as int] != pat@[k as int]);
            }
            return false;
        }
        k = k + 1;
    }
    proof {
        assert(s@.subrange(at as int, at + pat.len()) =~= pat@);
    }
    true
}

/// Where `pat` first occurs in `s`.
pub(crate) fn find_first(s: &Vec<char>, pat: &Vec<char>) -> (r: Option<usize>)
    ensures
        r matches Some(i) ==> find_seq(s@, pat@) == Some(i as int) && occurs_at(s@, pat@, i as int),
        r is None ==> find_seq(s@, pat@) is None,
{
    let mut i: usize = 0;
    while i < s.len()
        invariant
            i <= s.len(),
            forall|j: int| 0 <= j < i ==> !occurs_at(s@, pat@, j),
        decreases s.len() - i,
    {
        if occurs(s, pat, i) {
            proof {
                lemma_occurs_first(s@, pat@, i as int);
            }
            return Some(i);
        }
        i = i + 1;
    }
    if occurs(s, pat, i) {
        proof {
            lemma_occurs_first(s@, pat@, i as int);
        }
        return Some(i);
    }
    proof {
        assert forall|j: int| 0 <= j implies !occurs_at(s@, pat@, j) by {
            if j > i {
                assert(j + pat@.len() > s@.len());
            }
        }
        lemma_occurs_nowhere(s@, pat@);
    }
    None
}

/// What follows the first `pat`, or the whole text.
fn after_first_of(s: &Vec<char>, pat: &Vec<char>) -> (r: Vec<char>)
    ensures
        r@ == after_first(s@, pat@),
{
    match find_first(s, pat) {
        Some(i) => {
            let n = pat.len();
            let total = s.len();
            proof {
                assert(occurs_at(s@, pat@, i as int));
                assert(i + n <= total);
            }
            slice_chars(s, i + n, total)
        },
        None => slice_chars(s, 0, s.len()),
    }
}

/// Every occurrence of `pat` replaced with `with`.
fn replace_all(s: &Vec<char>, pat: &Vec<char>, with: &Vec<char>) -> (r: Vec<char>)
    requires
        pat@.len() > 0,
    ensures
        r@ == replace(s@, pat@, with@),
{
    let mut out: Vec<char> = Vec::new();
    let mut i: usize = 0;
    proof {
        assert(s@.skip(0) =~= s@);
        assert(out@ + replace(s@, pat@, with@) =~= replace(s@, pat@, with@));
    }
    while i < s.len()
        invariant
            i <= s.len(),
            pat@.len() > 0,
            out@ + replace(s@.skip(i as int), pat@, with@) == replace(s@, pat@, with@),
        decreases s.len() - i,
    {
        let ghost rest = s@.skip(i as int);
        if occurs(s, pat, i) {
            proof {
                assert(rest.take(pat@.len() as int) =~= s@.subrange(i as int, i + pat@.len()));
                assert(rest.skip(pat@.len() as int) =~= s@.skip(i + pat@.len()));
                assert(out@ + with@ + replace(s@.skip(i + pat@.len()), pat@, with@) =~= out@ + replace(rest, pat@, with@));
            }
            push_all(&mut out, with);
            i = i + pat.len();
        } else {
            proof {
                if rest.len() >= pat@.len() {
                    assert(rest.take(pat@.len() as int) =~= s@.subrange(i as int, i + pat@.len()));
                }
                assert(rest.skip(1) =~= s@.skip(i + 1));
                assert(out@.push(s@[i as int]) + replace(s@.skip(i + 1), pat@, with@) =~= out@ + replace(rest, pat@, with@));
            }
            out.push(s[i]);
            i = i + 1;
        }
    }
    proof {
        assert(s@.skip(i as int).len() == 0);
        assert(out@ + replace(s@.skip(i as int), pat@, with@) =~= out@);
    }
    out
}

fn trim_end_of(s: &Vec<char>) -> (r: Vec<char>)
    ensures
        r@ == trim_end(s@),
{
    let mut end = s.len();
    proof {
        assert(s@.take(end as int) =~= s@);
    }
    while end > 0 && unicode_space(s[end - 1])
        invariant
            end <= s.len(),
            trim_end(s@.take(end as int)) == trim_end(s@),
        decreases end,
    {
        proof {
            assert(s@.take(end as int).drop_last() =~= s@.take(end - 1));
        }
        end = end - 1;
    }
    proof {
        assert(s@.take(end as int) =~= s@.subrange(0, end as int));
    }
    slice_chars(s, 0, end)
}

fn trim_start_of(s: &Vec<char>) -> (r: Vec<char>)
    ensures
        r@ == trim_start(s@),
{
    let mut start: usize = 0;
    proof {
        assert(s@.skip(0) =~= s@);
    }
    while start < s.len() && unicode_space(s[start])
        invariant
            start <= s.len(),
            trim_start(s@.skip(start as int)) == trim_start(s@),
        decreases s.len() - start,
    {
        proof {
            assert(s@.skip(start as int).skip(1) =~= s@.skip(start + 1));
        }
        start = start + 1;
    }
    proof {
        assert(s@.skip(start as int) =~= s@.subrange(start as int, s@.len() as int));
    }
    slice_chars(s, start, s.len())
}

fn push_padded(out: &mut Vec<char>, s: &Vec<char>)
    ensures
        final(out)@ == old(out)@ + padded(s@),
{
    push_all(out, s);
    let mut n = s.len();
    proof {
        assert(spaces(15 - s@.len()) == spaces(15 - n));
        assert(spaces(0) =~= Seq::<char>::empty());
    }
    let ghost start = out@;
    while n < 15
        invariant
            s@.len() <= n <= 15 || (n == s@.len() && n >= 15),
            out@ + spaces(15 - n) == start + spaces(15 - s@.len()),
        decreases 15 - n,
    {
        proof {
            assert(spaces(15 - n) == spaces(15 - n - 1).push(' '));
            assert(spaces(15 - n - 1) =~= Seq::<char>::empty() || true);
            lemma_spaces_front(15 - n);
        }
        out.push(' ');
        n = n + 1;
    }
    proof {
        assert(spaces(15 - n) =~= Seq::<char>::empty());
        assert(out@ =~= out@ + spaces(15 - n));
    }
}

proof fn lemma_spaces_front(n: int)
    requires
        n > 0,
    ensures
        spaces(n) == seq![' '] + spaces(n - 1),
    decreases n,
{
    if n > 1 {
        lemma_spaces_front(n - 1);
        assert(spaces(n) =~= seq![' '] + spaces(n - 1));
    } else {
        assert(spaces(n) =~= seq![' '] + spaces(n - 1));
    }
}

} // verus!

verus! {

fn push_row(table: &mut Vec<char>, ruling: &crate::contract::Ruling)
    ensures
        final(table)@ == old(table)@ + table_row(ruling@),
{
    match &ruling.decision {
        Decision::Ruled { ruling: said, rationale } => {
            push_str(table, "| ");
            push_str(table, ruling.id.as_str());
            push_str(table, " | ");
            push_str(table, ruling.question.as_str());
            push_str(table, " | ");
            push_str(table, said.as_str());
            let ghost middle = table@;
            match rationale {
                Some(why) => {
                    table.push(' ');
                    push_str(table, why.as_str());
                },
                None => {},
            }
            push_str(table, " |\n");
            proof {
                assert(table@ =~= old(table)@ + table_row(ruling@));
            }
        },
        Decision::Open { .. } => {
            proof {
                assert(old(table)@ + table_row(ruling@) =~= old(table)@);
            }
        },
    }
}

fn push_item(list: &mut Vec<char>, ruling: &crate::contract::Ruling)
    ensures
        final(list)@ == old(list)@ + open_item(ruling@),
{
    match &ruling.decision {
        Decision::Open { note } => {
            push_str(list, "- **");
            push_str(list, ruling.id.as_str());
            push_str(list, "** \u{2014} ");
            push_str(list, ruling.question.as_str());
            list.push(' ');
            push_str(list, note.as_str());
            list.push('\n');
            proof {
                assert(list@ =~= old(list)@ + open_item(ruling@));
            }
        },
        Decision::Ruled { .. } => {
            proof {
                assert(old(list)@ + open_item(ruling@) =~= old(list)@);
            }
        },
    }
}

fn sample_rows_of(inputs: &Vec<Vec<char>>, outputs: &Vec<Vec<char>>) -> (r: Vec<char>)
    ensures
        r@ == sample_rows(crate::text::views(inputs@), crate::text::views(outputs@)),
{
    let ghost ins = crate::text::views(inputs@);
    let ghost outs = crate::text::views(outputs@);
    let mut block: Vec<char> = Vec::new();
    let mut i: usize = 0;
    let mut o: usize = 0;
    proof {
        assert(ins.skip(0) =~= ins);
        assert(outs.skip(0) =~= outs);
        assert(block@ + sample_rows(ins, outs) =~= sample_rows(ins, outs));
    }
    while i < inputs.len()
        invariant
            i <= inputs.len(),
            o <= outputs.len(),
            ins == crate::text::views(inputs@),
            outs == crate::text::views(outputs@),
            block@ + sample_rows(ins.skip(i as int), outs.skip(o as int)) == sample_rows(ins, outs),
        decreases inputs.len() - i,
    {
        proof {
            assert(ins.skip(i as int)[0] == inputs@[i as int]@);
            assert(ins.skip(i as int).skip(1) =~= ins.skip(i + 1));
        }
        if o < outputs.len() {
            proof {
                assert(outs.skip(o as int)[0] == outputs@[o as int]@);
                assert(outs.skip(o as int).skip(1) =~= outs.skip(o + 1));
            }
            let ghost before = block@;
            push_padded(&mut block, &inputs[i]);
            push_all(&mut block, &outputs[o]);
            block.push('\n');
            proof {
                assert(block@ + sample_rows(ins.skip(i + 1), outs.skip(o + 1)) =~= before + sample_rows(ins.skip(i as int), outs.skip(o as int)));
            }
            o = o + 1;
        } else {
            let ghost before = block@;
            push_all(&mut block, &inputs[i]);
            block.push('\n');
            proof {
                assert(block@ + sample_rows(ins.skip(i + 1), outs.skip(o as int)) =~= before + sample_rows(ins.skip(i as int), outs.skip(o as int)));
            }
        }
        i = i + 1;
    }
    let empty: Vec<char> = Vec::new();
    while o < outputs.len()
        invariant
            i == inputs.len(),
            o <= outputs.len(),
            empty@.len() == 0,
            ins == crate::text::views(inputs@),
            outs == crate::text::views(outputs@),
            block@ + sample_rows(ins.skip(i as int), outs.skip(o as int)) == sample_rows(ins, outs),
        decreases outputs.len() - o,
    {
        proof {
            assert(ins.skip(i as int).len() == 0);
            assert(outs.skip(o as int)[0] == outputs@[o as int]@);
            assert(outs.skip(o as int).skip(1) =~= outs.skip(o + 1));
            assert(empty@ =~= Seq::<char>::empty());
        }
        let ghost before = block@;
        push_padded(&mut block, &empty);
        push_all(&mut block, &outputs[o]);
        block.push('\n');
        proof {
            assert(block@ + sample_rows(ins.skip(i as int), outs.skip(o + 1)) =~= before + sample_rows(ins.skip(i as int), outs.skip(o as int)));
        }
        o = o + 1;
    }
    proof {
        assert(ins.skip(i as int).len() == 0);
        assert(outs.skip(o as int).len() == 0);
        assert(block@ + sample_rows(ins.skip(i as int), outs.skip(o as int)) =~= block@);
    }
    block
}

/// The brief's sample, input lines beside the answers they produce, fenced.
pub fn sample_block() -> (r: String)
    ensures
        r@ == sample_block_text(SAMPLE_INPUT@, SAMPLE_OUTPUT@),
{
    let input = lossy(&SAMPLE_INPUT);
    let output = lossy(&SAMPLE_OUTPUT);
    let inputs = lines_chars(&input);
    let outputs = lines_chars(&output);
    let mut block: Vec<char> = Vec::new();
    push_str(&mut block, "```\n");
    let rows = sample_rows_of(&inputs, &outputs);
    push_all(&mut block, &rows);
    push_str(&mut block, "```");
    string_of(&block)
}

/// The grammar's productions, without its opening comment, fenced as EBNF.
pub fn grammar_block(grammar: &str) -> (r: String)
    ensures
        r@ == grammar_block_text(grammar@),
{
    let text = chars_of(grammar);
    let marker = chars_of("*)\n");
    let productions = after_first_of(&text, &marker);
    let trimmed = trim_start_of(&trim_end_of(&productions));
    let mut block: Vec<char> = Vec::new();
    push_str(&mut block, "```ebnf\n");
    push_all(&mut block, &trimmed);
    push_str(&mut block, "\n```");
    string_of(&block)
}

fn replaced(s: Vec<char>, pat: &str, with: &Vec<char>) -> (r: Vec<char>)
    requires
        pat@.len() > 0,
    ensures
        r@ == replace(s@, pat@, with@),
{
    let p = chars_of(pat);
    replace_all(&s, &p, with)
}

impl Contract {
    /// The rulings table: one row per ruled question, with its rationale
    /// where it has one. Open questions stay out of it.
    pub fn rulings_table(&self) -> (r: String)
        ensures
            r@ == rulings_table_text(self@.rulings),
    {
        let mut table: Vec<char> = Vec::new();
        push_str(&mut table, "| ID | Question the brief leaves open | Ruling |\n|---|---|---|\n");
        let ghost header = table@;
        let mut i: usize = 0;
        while i < self.rulings.len()
            invariant
                i <= self.rulings.len(),
                header == "| ID | Question the brief leaves open | Ruling |\n|---|---|---|\n"@,
                table@ == header + table_rows(self@.rulings.take(i as int)),
            decreases self.rulings.len() - i,
        {
            proof {
                assert(self@.rulings.take(i + 1).drop_last() =~= self@.rulings.take(i as int));
                assert(self@.rulings.take(i + 1).last() == self.rulings@[i as int]@);
            }
            push_row(&mut table, &self.rulings[i]);
            i = i + 1;
            proof {
                assert(table@ =~= header + table_rows(self@.rulings.take(i as int)));
            }
        }
        proof {
            assert(self@.rulings.take(i as int) =~= self@.rulings);
        }
        string_of(&trim_end_of(&table))
    }

    /// The open questions, one list item each.
    pub fn open_questions(&self) -> (r: String)
        ensures
            r@ == open_questions_text(self@.rulings),
    {
        let mut list: Vec<char> = Vec::new();
        let mut i: usize = 0;
        while i < self.rulings.len()
            invariant
                i <= self.rulings.len(),
                list@ == open_items(self@.rulings.take(i as int)),
            decreases self.rulings.len() - i,
        {
            proof {
                assert(self@.rulings.take(i + 1).drop_last() =~= self@.rulings.take(i as int));
                assert(self@.rulings.take(i + 1).last() == self.rulings@[i as int]@);
            }
            push_item(&mut list, &self.rulings[i]);
            i = i + 1;
        }
        proof {
            assert(self@.rulings.take(i as int) =~= self@.rulings);
        }
        string_of(&trim_end_of(&list))
    }

    /// The contract as one document: the template this library ships with
    /// its holes filled.
    pub fn render(&self) -> (r: Result<String, String>)
        ensures
            r matches Ok(d) ==> rendered(TEMPLATE@, self@, GRAMMAR@) == Ok::<Seq<char>, Seq<char>>(d@),
            r matches Err(why) ==> rendered(TEMPLATE@, self@, GRAMMAR@) == Err::<Seq<char>, Seq<char>>(why@),
    {
        self.render_with(TEMPLATE, GRAMMAR)
    }

    /// A template rendered with this contract's data and a grammar's text; a
    /// hole that nothing fills is refused by name.
    pub fn render_with(&self, template: &str, grammar: &str) -> (r: Result<String, String>)
        ensures
            r matches Ok(d) ==> rendered(template@, self@, grammar@) == Ok::<Seq<char>, Seq<char>>(d@),
            r matches Err(why) ==> rendered(template@, self@, grammar@) == Err::<Seq<char>, Seq<char>>(why@),
    {
        let text = chars_of(template);
        let marker = chars_of("-->\n");
        let body = after_first_of(&text, &marker);

        let version = chars_of(self.version.as_str());
        let mut max_coordinate: Vec<char> = Vec::new();
        push_decimal(&mut max_coordinate, self.limits.max_coordinate);
        let mut max_instructions: Vec<char> = Vec::new();
        push_decimal(&mut max_instructions, self.limits.max_instructions);
        let grammar_text = chars_of(grammar_block(grammar).as_str());
        let sample = chars_of(sample_block().as_str());
        let table = chars_of(self.rulings_table().as_str());
        let open = chars_of(self.open_questions().as_str());

        proof {
            reveal_strlit("{{version}}");
            reveal_strlit("{{max_coordinate}}");
            reveal_strlit("{{max_instructions}}");
            reveal_strlit("{{grammar}}");
            reveal_strlit("{{sample}}");
            reveal_strlit("{{rulings}}");
            reveal_strlit("{{open_questions}}");
        }
        let a = replaced(body, "{{version}}", &version);
        let b = replaced(a, "{{max_coordinate}}", &max_coordinate);
        let c = replaced(b, "{{max_instructions}}", &max_instructions);
        let d = replaced(c, "{{grammar}}", &grammar_text);
        let e = replaced(d, "{{sample}}", &sample);
        let f = replaced(e, "{{rulings}}", &table);
        let filled_text = replaced(f, "{{open_questions}}", &open);

        let open_marker = chars_of("{{");
        match find_first(&filled_text, &open_marker) {
            Some(hole) => {
                let tail = slice_chars(&filled_text, hole, filled_text.len());
                proof {
                    assert(tail@ =~= filled_text@.skip(hole as int));
                }
                let close_marker = chars_of("}}");
                let name = match find_first(&tail, &close_marker) {
                    Some(end) => {
                        proof {
                            assert(occurs_at(tail@, close_marker@, end as int));
                            reveal_strlit("}}");
                        }
                        slice_chars(&tail, 0, end + 2)
                    },
                    None => tail,
                };
                let mut why: Vec<char> = Vec::new();
                push_str(&mut why, "template has a hole nothing filled: ");
                push_all(&mut why, &name);
                Err(string_of(&why))
            },
            None => Ok(string_of(&filled_text)),
        }
    }
}

/// The rulings table is made of the ruled questions alone: leaving out the
/// open ones changes nothing in it.
pub proof fn law_open_questions_stay_out_of_the_rulings_table(rulings: Seq<RulingModel>)
    ensures
        rulings_table_text(rulings) == rulings_table_text(crate::contract::ruled_only(rulings)),
{
    lemma_rows_of_ruled(rulings);
}

proof fn lemma_rows_of_ruled(rulings: Seq<RulingModel>)
    ensures
        table_rows(rulings) == table_rows(crate::contract::ruled_only(rulings)),
    decreases rulings.len(),
{
    if rulings.len() > 0 {
        lemma_rows_of_ruled(rulings.drop_last());
        let kept = crate::contract::ruled_only(rulings.drop_last());
        if crate::contract::is_ruled_model(rulings.last().decision) {
            assert(kept.push(rulings.last()).drop_last() =~= kept);
        } else {
            assert(table_row(rulings.last()) =~= Seq::<char>::empty());
        }
    }
}

/// Whether a text holds no opening brace, so no hole can start in it.
pub open spec fn brace_free(s: Seq<char>) -> bool {
    forall|i: int| 0 <= i < s.len() ==> #[trigger] s[i] != '{'
}

proof fn lemma_decimal_brace_free(n: nat)
    ensures
        brace_free(decimal(n)),
    decreases n,
{
    if n >= 10 {
        lemma_decimal_brace_free(n / 10);
        assert forall|i: int| 0 <= i < decimal(n).len() implies #[trigger] decimal(n)[i] != '{' by {
            if i < decimal(n / 10).len() {
                assert(decimal(n)[i] == decimal(n / 10)[i]);
            }
        }
    }
}

/// Text with no brace in it passes through a replacement untouched.
proof fn lemma_replace_past_plain(x: Seq<char>, rest: Seq<char>, pat: Seq<char>, with: Seq<char>)
    requires
        brace_free(x),
        pat.len() > 0,
        pat[0] == '{',
    ensures
        replace(x + rest, pat, with) == x + replace(rest, pat, with),
    decreases x.len(),
{
    if x.len() > 0 {
        let s = x + rest;
        assert(s[0] == x[0]);
        if s.len() >= pat.len() {
            assert(s.take(pat.len() as int)[0] == s[0]);
        }
        assert(s.skip(1) =~= x.skip(1) + rest);
        assert(brace_free(x.skip(1))) by {
            assert forall|i: int| 0 <= i < x.skip(1).len() implies #[trigger] x.skip(1)[i] != '{' by {
                assert(x.skip(1)[i] == x[i + 1]);
            }
        }
        lemma_replace_past_plain(x.skip(1), rest, pat, with);
        assert(seq![x[0]] + (x.skip(1) + replace(rest, pat, with)) =~= x + replace(rest, pat, with));
    } else {
        assert(x + rest =~= rest);
        assert(x + replace(rest, pat, with) =~= replace(rest, pat, with));
    }
}

/// Text with no brace in it is what every replacement of a hole leaves it.
proof fn lemma_replace_plain(x: Seq<char>, pat: Seq<char>, with: Seq<char>)
    requires
        brace_free(x),
        pat.len() > 0,
        pat[0] == '{',
    ensures
        replace(x, pat, with) == x,
{
    lemma_replace_past_plain(x, seq![], pat, with);
    assert(x + Seq::<char>::empty() =~= x);
}

/// A hole is replaced by what fills it.
proof fn lemma_replace_hole(pat: Seq<char>, rest: Seq<char>, with: Seq<char>)
    requires
        pat.len() > 0,
    ensures
        replace(pat + rest, pat, with) == with + replace(rest, pat, with),
{
    let s = pat + rest;
    assert(s.take(pat.len() as int) =~= pat);
    assert(s.skip(pat.len() as int) =~= rest);
}

/// A hole of another name is left standing.
proof fn lemma_replace_other_hole(hole: Seq<char>, rest: Seq<char>, pat: Seq<char>, with: Seq<char>, k: int)
    requires
        hole.len() > 2,
        hole[0] == '{',
        hole[1] == '{',
        brace_free(hole.skip(2)),
        pat.len() >= 2,
        pat[0] == '{',
        pat[1] == '{',
        0 <= k < hole.len(),
        k < pat.len(),
        hole[k] != pat[k],
    ensures
        replace(hole + rest, pat, with) == hole + replace(rest, pat, with),
{
    let s = hole + rest;
    assert(hole.skip(2)[0] == hole[2]);
    if s.len() >= pat.len() {
        assert(s.take(pat.len() as int)[k] == hole[k]);
    }
    let s1 = s.skip(1);
    assert(s1[1] == hole[2]);
    if s1.len() >= pat.len() {
        assert(s1.take(pat.len() as int)[1] == s1[1]);
    }
    assert(s1.skip(1) =~= hole.skip(2) + rest);
    lemma_replace_past_plain(hole.skip(2), rest, pat, with);
    assert(replace(s1, pat, with) == seq![s1[0]] + replace(s1.skip(1), pat, with));
    assert(replace(s, pat, with) == seq![s[0]] + replace(s1, pat, with));
    assert(seq![hole[0]] + (seq![hole[1]] + (hole.skip(2) + replace(rest, pat, with))) =~= hole + replace(rest, pat, with));
}

/// Text with no brace in it holds no hole.
proof fn lemma_no_hole_in_plain(s: Seq<char>)
    requires
        brace_free(s),
    ensures
        find_seq(s, "{{"@) is None,
{
    reveal_strlit("{{");
    assert forall|j: int| 0 <= j implies !occurs_at(s, "{{"@, j) by {
        if occurs_at(s, "{{"@, j) {
            assert(s.subrange(j, j + 2)[0] == s[j]);
        }
    }
    lemma_occurs_nowhere(s, "{{"@);
}

/// Each limit fills the hole named for it, and no other: in a template whose
/// only holes are `{{max_coordinate}}` and then `{{max_instructions}}`, the
/// document is the text around them with the decimal spelling of
/// `max_coordinate` in the first and of `max_instructions` in the second,
/// whatever the contract and the grammar.
pub proof fn law_each_limit_fills_the_hole_named_for_it(
    contract: ContractModel,
    grammar: Seq<char>,
    a: Seq<char>,
    b: Seq<char>,
    c: Seq<char>,
)
    requires
        brace_free(a),
        brace_free(b),
        brace_free(c),
    ensures
        rendered("-->\n"@ + a + "{{max_coordinate}}"@ + b + "{{max_instructions}}"@ + c, contract, grammar)
            == Ok::<Seq<char>, Seq<char>>(a + decimal(contract.limits.max_coordinate as nat) + b
                + decimal(contract.limits.max_instructions as nat) + c),
{
    reveal_strlit("-->\n");
    reveal_strlit("{{version}}");
    reveal_strlit("{{max_coordinate}}");
    reveal_strlit("{{max_instructions}}");
    reveal_strlit("{{grammar}}");
    reveal_strlit("{{sample}}");
    reveal_strlit("{{rulings}}");
    reveal_strlit("{{open_questions}}");
    let marker = "-->\n"@;
    let h1 = "{{max_coordinate}}"@;
    let h2 = "{{max_instructions}}"@;
    let dc = decimal(contract.limits.max_coordinate as nat);
    let di = decimal(contract.limits.max_instructions as nat);
    lemma_decimal_brace_free(contract.limits.max_coordinate as nat);
    lemma_decimal_brace_free(contract.limits.max_instructions as nat);
    let body = a + (h1 + (b + (h2 + c)));
    let template = marker + a + h1 + b + h2 + c;
    assert(template =~= marker + body);
    assert(template.take(4) =~= marker);
    assert(after_first(template, marker) == template.skip(4));
    assert(template.skip(4) =~= body);
    assert(brace_free(h1.skip(2)));
    assert(brace_free(h2.skip(2)));

    // `{{version}}` names neither hole.
    let v = "{{version}}"@;
    lemma_replace_plain(c, v, contract.version);
    lemma_replace_other_hole(h2, c, v, contract.version, 2);
    lemma_replace_past_plain(b, h2 + c, v, contract.version);
    lemma_replace_other_hole(h1, b + (h2 + c), v, contract.version, 2);
    lemma_replace_past_plain(a, h1 + (b + (h2 + c)), v, contract.version);
    let t1 = replace(body, v, contract.version);
    assert(t1 == body);

    // `{{max_coordinate}}` is the first hole only.
    assert(h2[6] != h1[6]);
    lemma_replace_plain(c, h1, dc);
    lemma_replace_other_hole(h2, c, h1, dc, 6);
    lemma_replace_past_plain(b, h2 + c, h1, dc);
    lemma_replace_hole(h1, b + (h2 + c), dc);
    lemma_replace_past_plain(a, h1 + (b + (h2 + c)), h1, dc);
    let t2 = replace(t1, h1, dc);
    assert(t2 == a + (dc + (b + (h2 + c))));

    // `{{max_instructions}}` is the second.
    lemma_replace_plain(c, h2, di);
    lemma_replace_hole(h2, c, di);
    lemma_replace_past_plain(b, h2 + c, h2, di);
    lemma_replace_past_plain(dc, b + (h2 + c), h2, di);
    lemma_replace_past_plain(a, dc + (b + (h2 + c)), h2, di);
    let t3 = replace(t2, h2, di);
    let done = a + dc + b + di + c;
    assert(t3 =~= done);
    assert(brace_free(done)) by {
        assert forall|i: int| 0 <= i < done.len() implies #[trigger] done[i] != '{' by {
            if i < a.len() {
                assert(done[i] == a[i]);
            } else if i < a.len() + dc.len() {
                assert(done[i] == dc[i - a.len()]);
            } else if i < a.len() + dc.len() + b.len() {
                assert(done[i] == b[i - a.len() - dc.len()]);
            } else if i < a.len() + dc.len() + b.len() + di.len() {
                assert(done[i] == di[i - a.len() - dc.len() - b.len()]);
            } else {
                assert(done[i] == c[i - a.len() - dc.len() - b.len() - di.len()]);
            }
        }
    }

    // The holes that remain have nothing left to fill.
    lemma_replace_plain(done, "{{grammar}}"@, grammar_block_text(grammar));
    lemma_replace_plain(done, "{{sample}}"@, sample_block_text(SAMPLE_INPUT@, SAMPLE_OUTPUT@));
    lemma_replace_plain(done, "{{rulings}}"@, rulings_table_text(contract.rulings));
    lemma_replace_plain(done, "{{open_questions}}"@, open_questions_text(contract.rulings));
    assert(filled(body, contract, grammar) == done);
    lemma_no_hole_in_plain(done);
}

/// The version fills the hole named for it: in a template whose only hole is
/// `{{version}}`, the document is the text around it with the contract's
/// version in its place, for any version that opens no hole of its own.
pub proof fn law_the_version_fills_the_hole_named_for_it(contract: ContractModel, grammar: Seq<char>, a: Seq<char>, b: Seq<char>)
    requires
        brace_free(a),
        brace_free(b),
        brace_free(contract.version),
    ensures
        rendered("-->\n"@ + a + "{{version}}"@ + b, contract, grammar) == Ok::<Seq<char>, Seq<char>>(a + contract.version + b),
{
    reveal_strlit("-->\n");
    reveal_strlit("{{version}}");
    reveal_strlit("{{max_coordinate}}");
    reveal_strlit("{{max_instructions}}");
    reveal_strlit("{{grammar}}");
    reveal_strlit("{{sample}}");
    reveal_strlit("{{rulings}}");
    reveal_strlit("{{open_questions}}");
    let marker = "-->\n"@;
    let v = "{{version}}"@;
    let body = a + (v + b);
    let template = marker + a + v + b;
    assert(template =~= marker + body);
    assert(template.take(4) =~= marker);
    assert(template.skip(4) =~= body);
    lemma_replace_plain(b, v, contract.version);
    lemma_replace_hole(v, b, contract.version);
    lemma_replace_past_plain(a, v + b, v, contract.version);
    let done = a + contract.version + b;
    assert(replace(body, v, contract.version) =~= done);
    assert(brace_free(done)) by {
        assert forall|i: int| 0 <= i < done.len() implies #[trigger] done[i] != '{' by {
            if i < a.len() {
                assert(done[i] == a[i]);
            } else if i < a.len() + contract.version.len() {
                assert(done[i] == contract.version[i - a.len()]);
            } else {
                assert(done[i] == b[i - a.len() - contract.version.len()]);
            }
        }
    }
    lemma_replace_plain(done, "{{max_coordinate}}"@, decimal(contract.limits.max_coordinate as nat));
    lemma_replace_plain(done, "{{max_instructions}}"@, decimal(contract.limits.max_instructions as nat));
    lemma_replace_plain(done, "{{grammar}}"@, grammar_block_text(grammar));
    lemma_replace_plain(done, "{{sample}}"@, sample_block_text(SAMPLE_INPUT@, SAMPLE_OUTPUT@));
    lemma_replace_plain(done, "{{rulings}}"@, rulings_table_text(contract.rulings));
    lemma_replace_plain(done, "{{open_questions}}"@, open_questions_text(contract.rulings));
    assert(filled(body, contract, grammar) == done);
    lemma_no_hole_in_plain(done);
}

} // verus!
