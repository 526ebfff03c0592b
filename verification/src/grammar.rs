//! The parts of the published grammar a generator has to know, read from the
//! grammar's own text rather than restated: what separates tokens, what ends a
//! line, and which letters the two vocabularies hold.

use vstd::prelude::*;

use crate::text::{
    chars_of, string_views, find_char, has_char, index_of, string_of, is_unicode_space, lemma_index_of, lines_chars, lines_of, push_all, push_str, same_chars,
    slice_chars, unicode_space, views,
};

verus! {

/// The text with its leading white space removed.
pub open spec fn trim_start(s: Seq<char>) -> Seq<char>
    decreases s.len(),
{
    if s.len() > 0 && is_unicode_space(s[0]) { trim_start(s.skip(1)) } else { s }
}

/// The run of characters before the first white space.
pub open spec fn word_prefix(s: Seq<char>) -> Seq<char>
    decreases s.len(),
{
    if s.len() == 0 || is_unicode_space(s[0]) { seq![] } else { seq![s[0]] + word_prefix(s.skip(1)) }
}

/// The first whitespace-separated word of a line, empty when it has none.
pub open spec fn first_word(line: Seq<char>) -> Seq<char> {
    word_prefix(trim_start(line))
}

/// Whether a line is the production of that name: its first word is the name,
/// and it has an `=`.
pub open spec fn defines(line: Seq<char>, production: Seq<char>) -> bool {
    first_word(line).len() > 0 && first_word(line) == production && line.contains('=')
}

/// The first line that defines the production.
pub open spec fn production_line(lines: Seq<Seq<char>>, production: Seq<char>) -> Option<Seq<char>>
    decreases lines.len(),
{
    if lines.len() == 0 {
        None
    } else if defines(lines[0], production) {
        Some(lines[0])
    } else {
        production_line(lines.skip(1), production)
    }
}

/// The quoted stretches of a line, in order, as written; `None` when a quote
/// is left open.
pub open spec fn quoted(rest: Seq<char>) -> Option<Seq<Seq<char>>>
    decreases rest.len(),
{
    match index_of(rest, '"') {
        None => Some(seq![]),
        Some(open) => {
            proof {
                lemma_index_of(rest, '"');
            }
            let after = rest.skip(open + 1);
            match index_of(after, '"') {
                None => None,
                Some(close) => match {
                    proof {
                        lemma_index_of(after, '"');
                    }
                    quoted(after.skip(close + 1))
                } {
                    None => None,
                    Some(more) => Some(seq![after.take(close)] + more),
                },
            }
        },
    }
}

/// What an escape sequence stands for: `\t`, `\n` and `\r` are the control
/// characters they name, and any other escaped character stands for itself.
pub open spec fn escaped(c: char) -> char {
    if c == 't' { '\t' } else if c == 'n' { '\n' } else if c == 'r' { '\r' } else { c }
}

/// A terminal with its escapes resolved. A lone backslash at the end stands
/// for itself.
pub open spec fn unescape(s: Seq<char>) -> Seq<char>
    decreases s.len(),
{
    if s.len() == 0 {
        seq![]
    } else if s[0] == '\\' {
        if s.len() == 1 { seq!['\\'] } else { seq![escaped(s[1])] + unescape(s.skip(2)) }
    } else {
        seq![s[0]] + unescape(s.skip(1))
    }
}

/// The items in order, each kept only the first time it appears.
pub open spec fn without_repeats<T>(items: Seq<T>) -> Seq<T>
    decreases items.len(),
{
    if items.len() == 0 {
        seq![]
    } else {
        let kept = without_repeats(items.drop_last());
        if kept.contains(items.last()) { kept } else { kept.push(items.last()) }
    }
}

/// Every quoted terminal of one production, unescaped, in order, without
/// repeats; or why there are none.
pub open spec fn terminals(grammar: Seq<char>, production: Seq<char>) -> Result<Seq<Seq<char>>, Seq<char>> {
    match production_line(lines_of(grammar), production) {
        None => Err("grammar.ebnf has no "@ + production + " production"@),
        Some(line) => match quoted(line) {
            None => Err("unterminated terminal in "@ + production),
            Some(raw) => {
                let found = without_repeats(raw.map_values(|t: Seq<char>| unescape(t)));
                if found.len() == 0 { Err(production + " names no terminals"@) } else { Ok(found) }
            },
        },
    }
}

/// The terminals of a production that must each be one character.
pub open spec fn single_characters(grammar: Seq<char>, production: Seq<char>) -> Result<Seq<char>, Seq<char>> {
    match terminals(grammar, production) {
        Err(why) => Err(why),
        Ok(found) => if forall|i: int| 0 <= i < found.len() ==> #[trigger] found[i].len() == 1 {
            Ok(found.map_values(|t: Seq<char>| t[0]))
        } else {
            Err(production + " has a terminal that is not one character"@)
        },
    }
}

/// What the grammar states, as values.
pub struct GrammarModel {
    pub separators: Seq<char>,
    pub line_endings: Seq<Seq<char>>,
    pub orientations: Seq<char>,
    pub instructions: Seq<char>,
}

/// The grammar a text states, or the first thing wrong with it: separators
/// (`ws`), then orientations, instructions, and line endings (`eol`).
pub open spec fn grammar_of(text: Seq<char>) -> Result<GrammarModel, Seq<char>> {
    match single_characters(text, "ws"@) {
        Err(why) => Err(why),
        Ok(separators) => match single_characters(text, "orientation"@) {
            Err(why) => Err(why),
            Ok(orientations) => match single_characters(text, "instruction"@) {
                Err(why) => Err(why),
                Ok(instructions) => match terminals(text, "eol"@) {
                    Err(why) => Err(why),
                    Ok(line_endings) => Ok(GrammarModel { separators, line_endings, orientations, instructions }),
                },
            },
        },
    }
}

/// Characters a runtime is liable to treat as white space. The pool is about
/// the world outside the contract, so it cannot be derived from it.
pub open spec fn liable() -> Seq<char> {
    seq!['\u{b}', '\u{c}', '\u{a0}', '\u{1680}', '\u{2002}', '\u{2028}', '\u{3000}', '\u{feff}']
}

/// Whether a character is a separator or part of a line ending.
pub open spec fn admitted(grammar: GrammarModel, c: char) -> bool {
    grammar.separators.contains(c) || exists|i: int| 0 <= i < grammar.line_endings.len() && (#[trigger] grammar.line_endings[i]).contains(c)
}

/// The liable characters the grammar does not admit, in pool order.
pub open spec fn not_separators_of(grammar: GrammarModel) -> Seq<char> {
    liable().filter(|c: char| !admitted(grammar, c))
}

/// What separates tokens, what ends a line, and which letters the two
/// vocabularies hold.
#[derive(Debug)]
pub struct Grammar {
    pub separators: Vec<char>,
    pub line_endings: Vec<String>,
    pub orientations: Vec<char>,
    pub instructions: Vec<char>,
}

impl View for Grammar {
    type V = GrammarModel;

    open spec fn view(&self) -> GrammarModel {
        GrammarModel {
            separators: self.separators@,
            line_endings: string_views(self.line_endings@),
            orientations: self.orientations@,
            instructions: self.instructions@,
        }
    }
}

proof fn lemma_skip_skip(s: Seq<char>, i: int)
    requires
        0 <= i < s.len(),
    ensures
        s.skip(i).skip(1) == s.skip(i + 1),
{
    assert(s.skip(i).skip(1) =~= s.skip(i + 1));
}

/// The first word of a line.
fn first_word_of(line: &Vec<char>) -> (r: Vec<char>)
    ensures
        r@ == first_word(line@),
{
    let mut i: usize = 0;
    proof {
        assert(line@.skip(0) =~= line@);
    }
    while i < line.len() && unicode_space(line[i])
        invariant
            i <= line.len(),
            trim_start(line@.skip(i as int)) == trim_start(line@),
        decreases line.len() - i,
    {
        proof {
            lemma_skip_skip(line@, i as int);
        }
        i = i + 1;
    }
    proof {
        assert(trim_start(line@.skip(i as int)) == line@.skip(i as int));
    }
    let start = i;
    let mut word: Vec<char> = Vec::new();
    while i < line.len() && !unicode_space(line[i])
        invariant
            start <= i <= line.len(),
            word@ + word_prefix(line@.skip(i as int)) == word_prefix(line@.skip(start as int)),
        decreases line.len() - i,
    {
        proof {
            lemma_skip_skip(line@, i as int);
            assert(word@.push(line@[i as int]) + word_prefix(line@.skip(i + 1)) =~= word@ + word_prefix(line@.skip(i as int)));
        }
        word.push(line[i]);
        i = i + 1;
    }
    proof {
        assert(word_prefix(line@.skip(i as int)) == Seq::<char>::empty());
        assert(word@ =~= word@ + word_prefix(line@.skip(i as int)));
    }
    word
}

fn defines_production(line: &Vec<char>, production: &Vec<char>) -> (r: bool)
    ensures
        r == defines(line@, production@),
{
    let word = first_word_of(line);
    word.len() > 0 && same_chars(&word, production) && has_char(line, '=')
}

/// Resolves the escapes of a terminal.
fn unescape_chars(s: &Vec<char>) -> (r: Vec<char>)
    ensures
        r@ == unescape(s@),
{
    let mut out: Vec<char> = Vec::new();
    let mut i: usize = 0;
    proof {
        assert(s@.skip(0) =~= s@);
        assert(out@ + unescape(s@) =~= unescape(s@));
    }
    while i < s.len()
        invariant
            i <= s.len(),
            out@ + unescape(s@.skip(i as int)) == unescape(s@),
        decreases s.len() - i,
    {
        let c = s[i];
        if c == '\\' {
            if i + 1 < s.len() {
                let e = s[i + 1];
                let t = if e == 't' { '\t' } else if e == 'n' { '\n' } else if e == 'r' { '\r' } else { e };
                proof {
                    assert(s@.skip(i as int).skip(2) =~= s@.skip(i + 2));
                    assert(out@.push(t) + unescape(s@.skip(i + 2)) =~= out@ + unescape(s@.skip(i as int)));
                }
                out.push(t);
                i = i + 2;
            } else {
                proof {
                    assert(out@.push('\\') =~= out@ + unescape(s@.skip(i as int)));
                    assert(s@.skip(i + 1).len() == 0);
                    assert(out@.push('\\') + unescape(s@.skip(i + 1)) =~= out@.push('\\'));
                }
                out.push('\\');
                i = i + 1;
            }
        } else {
            proof {
                lemma_skip_skip(s@, i as int);
                assert(out@.push(c) + unescape(s@.skip(i + 1)) =~= out@ + unescape(s@.skip(i as int)));
            }
            out.push(c);
            i = i + 1;
        }
    }
    proof {
        assert(s@.skip(i as int).len() == 0);
        assert(out@ + unescape(s@.skip(i as int)) =~= out@);
    }
    out
}

/// Whether a list of character runs holds this one.
fn has_run(runs: &Vec<Vec<char>>, run: &Vec<char>) -> (r: bool)
    ensures
        r == views(runs@).contains(run@),
{
    let mut i: usize = 0;
    while i < runs.len()
        invariant
            i <= runs.len(),
            forall|j: int| 0 <= j < i ==> views(runs@)[j] != run@,
        decreases runs.len() - i,
    {
        if same_chars(&runs[i], run) {
            proof {
                assert(views(runs@)[i as int] == run@);
            }
            return true;
        }
        i = i + 1;
    }
    false
}

proof fn lemma_without_repeats_push<T>(items: Seq<T>, item: T)
    ensures
        without_repeats(items.push(item)) == (if without_repeats(items).contains(item) { without_repeats(items) } else { without_repeats(items).push(item) }),
{
    assert(items.push(item).drop_last() =~= items);
}

/// Every quoted terminal in one production, unescaped, in order, without
/// repeats.
fn terminals_of(grammar: &Vec<char>, production: &Vec<char>) -> (r: Result<Vec<Vec<char>>, Vec<char>>)
    ensures
        r matches Ok(found) ==> terminals(grammar@, production@) == Ok::<Seq<Seq<char>>, Seq<char>>(views(found@)),
        r matches Err(why) ==> terminals(grammar@, production@) == Err::<Seq<Seq<char>>, Seq<char>>(why@),
{
    let lines = lines_chars(grammar);
    let mut at: usize = 0;
    proof {
        assert(views(lines@).skip(0) =~= views(lines@));
    }
    while at < lines.len() && !defines_production(&lines[at], production)
        invariant
            at <= lines.len(),
            production_line(views(lines@).skip(at as int), production@) == production_line(lines_of(grammar@), production@),
        decreases lines.len() - at,
    {
        proof {
            assert(views(lines@).skip(at as int)[0] == lines@[at as int]@);
            assert(views(lines@).skip(at as int).skip(1) =~= views(lines@).skip(at + 1));
        }
        at = at + 1;
    }
    if at == lines.len() {
        proof {
            assert(views(lines@).skip(at as int).len() == 0);
        }
        let mut why: Vec<char> = Vec::new();
        push_str(&mut why, "grammar.ebnf has no ");
        push_all(&mut why, production);
        push_str(&mut why, " production");
        return Err(why);
    }
    let line = &lines[at];
    proof {
        assert(views(lines@).skip(at as int)[0] == lines@[at as int]@);
        assert(production_line(lines_of(grammar@), production@) == Some(line@));
    }

    let mut found: Vec<Vec<char>> = Vec::new();
    let ghost mut raw: Seq<Seq<char>> = seq![];
    let mut rest: usize = 0;
    proof {
        assert(line@.skip(0) =~= line@);
        match quoted(line@) {
            None => {},
            Some(more) => { assert(raw + more =~= more); },
        }
    }
    loop
        invariant
            rest <= line.len(),
            production_line(lines_of(grammar@), production@) == Some(line@),
            views(found@) == without_repeats(raw.map_values(|t: Seq<char>| unescape(t))),
            quoted(line@) == (match quoted(line@.skip(rest as int)) {
                None => None::<Seq<Seq<char>>>,
                Some(more) => Some(raw + more),
            }),
        ensures
            production_line(lines_of(grammar@), production@) == Some(line@),
            views(found@) == without_repeats(raw.map_values(|t: Seq<char>| unescape(t))),
            quoted(line@) == Some(raw),
        decreases line.len() - rest,
    {
        let open = find_char(line, rest, '"');
        match open {
            None => {
                proof {
                    assert(quoted(line@.skip(rest as int)) == Some(Seq::<Seq<char>>::empty()));
                    assert(raw + Seq::<Seq<char>>::empty() =~= raw);
                }
                break;
            },
            Some(open) => {
                let close = find_char(line, open + 1, '"');
                proof {
                    let r = line@.skip(rest as int);
                    assert(r.skip(open - rest + 1) =~= line@.skip(open + 1));
                }
                match close {
                    None => {
                        proof {
                            let r = line@.skip(rest as int);
                            lemma_index_of(r, '"');
                            assert(r.skip(open - rest + 1) =~= line@.skip(open + 1));
                            assert(quoted(r) is None);
                        }
                        let mut why: Vec<char> = Vec::new();
                        push_str(&mut why, "unterminated terminal in ");
                        push_all(&mut why, production);
                        return Err(why);
                    },
                    Some(close) => {
                        let inner = slice_chars(line, open + 1, close);
                        let terminal = unescape_chars(&inner);
                        proof {
                            let after = line@.skip(open + 1);
                            assert(after.take(close - open - 1) =~= inner@);
                            assert(after.skip(close - open) =~= line@.skip(close + 1));
                            let r = line@.skip(rest as int);
                            assert(r.skip(open - rest + 1) =~= after);
                            assert(quoted(r) == (match quoted(line@.skip(close + 1)) {
                                None => None::<Seq<Seq<char>>>,
                                Some(more) => Some(seq![inner@] + more),
                            }));
                            let mapped = raw.map_values(|t: Seq<char>| unescape(t));
                            assert(raw.push(inner@).map_values(|t: Seq<char>| unescape(t)) =~= mapped.push(terminal@));
                            lemma_without_repeats_push(mapped, terminal@);
                            assert(raw + seq![inner@] =~= raw.push(inner@));
                            match quoted(line@.skip(close + 1)) {
                                None => {},
                                Some(more) => {
                                    assert(raw + (seq![inner@] + more) =~= raw.push(inner@) + more);
                                },
                            }
                        }
                        if !has_run(&found, &terminal) {
                            let ghost before = found@;
                            found.push(terminal);
                            proof {
                                assert(views(found@) =~= views(before).push(terminal@));
                            }
                        }
                        proof {
                            raw = raw.push(inner@);
                        }
                        rest = close + 1;
                    },
                }
            },
        }
    }
    if found.len() == 0 {
        let mut why: Vec<char> = Vec::new();
        push_all(&mut why, production);
        push_str(&mut why, " names no terminals");
        return Err(why);
    }
    Ok(found)
}

} // verus!

verus! {

/// The characters of a production whose terminals must each be one character.
fn single_characters_of(grammar: &Vec<char>, production: &Vec<char>) -> (r: Result<Vec<char>, Vec<char>>)
    ensures
        r matches Ok(found) ==> single_characters(grammar@, production@) == Ok::<Seq<char>, Seq<char>>(found@),
        r matches Err(why) ==> single_characters(grammar@, production@) == Err::<Seq<char>, Seq<char>>(why@),
{
    let found = match terminals_of(grammar, production) {
        Err(why) => return Err(why),
        Ok(found) => found,
    };
    let ghost terms = views(found@);
    let mut out: Vec<char> = Vec::new();
    let mut i: usize = 0;
    while i < found.len()
        invariant
            i <= found.len(),
            terms == views(found@),
            terminals(grammar@, production@) == Ok::<Seq<Seq<char>>, Seq<char>>(terms),
            forall|j: int| 0 <= j < i ==> #[trigger] terms[j].len() == 1,
            out@ == terms.take(i as int).map_values(|t: Seq<char>| t[0]),
        decreases found.len() - i,
    {
        proof {
            assert(terms[i as int] == found@[i as int]@);
        }
        if found[i].len() != 1 {
            proof {
                assert(terms[i as int].len() != 1);
                assert(!(forall|j: int| 0 <= j < terms.len() ==> #[trigger] terms[j].len() == 1));
            }
            let mut why: Vec<char> = Vec::new();
            push_all(&mut why, production);
            push_str(&mut why, " has a terminal that is not one character");
            return Err(why);
        }
        out.push(found[i][0]);
        i = i + 1;
        proof {
            assert(out@ =~= terms.take(i as int).map_values(|t: Seq<char>| t[0]));
        }
    }
    proof {
        assert(terms.take(i as int) =~= terms);
    }
    Ok(out)
}

/// Strings holding these character runs.
fn strings_of(runs: &Vec<Vec<char>>) -> (r: Vec<String>)
    ensures
        string_views(r@) == views(runs@),
{
    let mut out: Vec<String> = Vec::new();
    let mut i: usize = 0;
    while i < runs.len()
        invariant
            i <= runs.len(),
            string_views(out@) == views(runs@).take(i as int),
        decreases runs.len() - i,
    {
        let ghost before = out@;
        out.push(string_of(&runs[i]));
        i = i + 1;
        proof {
            assert(string_views(before).len() == before.len());
            assert(views(runs@).take(i - 1).len() == i - 1);
            assert(before.len() == i - 1);
            assert forall|j: int| 0 <= j < i implies string_views(out@)[j] == views(runs@)[j] by {
                if j < i - 1 {
                    assert(out@[j] == before[j]);
                    assert(string_views(before)[j] == before[j]@);
                }
            }
            assert(string_views(out@) =~= views(runs@).take(i as int));
        }
    }
    proof {
        assert(views(runs@).take(i as int) =~= views(runs@));
    }
    out
}

/// Whether some string holds `c`.
fn any_holds(strings: &Vec<String>, c: char) -> (r: bool)
    ensures
        r == exists|i: int| 0 <= i < strings@.len() && (#[trigger] string_views(strings@)[i]).contains(c),
{
    let ghost seen = string_views(strings@);
    let mut i: usize = 0;
    while i < strings.len()
        invariant
            i <= strings.len(),
            seen == string_views(strings@),
            forall|j: int| 0 <= j < i ==> !(#[trigger] seen[j]).contains(c),
        decreases strings.len() - i,
    {
        let chars = chars_of(strings[i].as_str());
        if has_char(&chars, c) {
            proof {
                assert(seen[i as int] == chars@);
            }
            return true;
        }
        proof {
            assert(seen[i as int] == chars@);
        }
        i = i + 1;
    }
    false
}

/// The liable characters not admitted, one after another.
pub open spec fn unadmitted(grammar: GrammarModel, pool: Seq<char>) -> Seq<char>
    decreases pool.len(),
{
    if pool.len() == 0 {
        seq![]
    } else {
        let kept = unadmitted(grammar, pool.drop_last());
        if admitted(grammar, pool.last()) { kept } else { kept.push(pool.last()) }
    }
}

impl Grammar {
    /// Characters a runtime is liable to treat as white space, minus the ones
    /// this grammar actually admits as separators or line structure. Admit a
    /// character in `ws` and it stops being injected.
    pub fn not_separators(&self) -> (r: Vec<char>)
        ensures
            r@ == unadmitted(self@, liable()),
    {
        let pool: Vec<char> = vec!['\u{b}', '\u{c}', '\u{a0}', '\u{1680}', '\u{2002}', '\u{2028}', '\u{3000}', '\u{feff}'];
        proof {
            assert(pool@ =~= liable());
        }
        let mut out: Vec<char> = Vec::new();
        let mut i: usize = 0;
        while i < pool.len()
            invariant
                i <= pool.len(),
                pool@ == liable(),
                out@ == unadmitted(self@, pool@.take(i as int)),
            decreases pool.len() - i,
        {
            let c = pool[i];
            proof {
                assert(pool@.take(i + 1).drop_last() =~= pool@.take(i as int));
                assert(pool@.take(i + 1).last() == c);
            }
            let in_separators = has_char(&self.separators, c);
            let in_endings = any_holds(&self.line_endings, c);
            proof {
                let g = self@;
                assert(g.line_endings.len() == self.line_endings@.len());
                if in_endings {
                    let k = choose|k: int| 0 <= k < self.line_endings@.len() && (#[trigger] string_views(self.line_endings@)[k]).contains(c);
                    assert(g.line_endings[k].contains(c));
                }
                if admitted(g, c) && !in_separators {
                    let k = choose|k: int| 0 <= k < g.line_endings.len() && (#[trigger] g.line_endings[k]).contains(c);
                    assert(string_views(self.line_endings@)[k].contains(c));
                }
                assert(admitted(g, c) == (in_separators || in_endings));
            }
            if !in_separators && !in_endings {
                out.push(c);
            }
            i = i + 1;
        }
        proof {
            assert(pool@.take(i as int) =~= pool@);
        }
        out
    }

    /// Reads the grammar's productions: separators, orientations,
    /// instructions, and line endings.
    pub fn parse(text: &str) -> (r: Result<Self, String>)
        ensures
            r is Ok <==> grammar_of(text@) is Ok,
            r matches Ok(g) ==> grammar_of(text@) == Ok::<GrammarModel, Seq<char>>(g@),
            r matches Err(why) ==> grammar_of(text@) == Err::<GrammarModel, Seq<char>>(why@),
    {
        let grammar = chars_of(text);
        let ws = chars_of("ws");
        let orientation = chars_of("orientation");
        let instruction = chars_of("instruction");
        let eol = chars_of("eol");
        let separators = match single_characters_of(&grammar, &ws) {
            Ok(found) => found,
            Err(why) => return Err(string_of(&why)),
        };
        let orientations = match single_characters_of(&grammar, &orientation) {
            Ok(found) => found,
            Err(why) => return Err(string_of(&why)),
        };
        let instructions = match single_characters_of(&grammar, &instruction) {
            Ok(found) => found,
            Err(why) => return Err(string_of(&why)),
        };
        let line_endings = match terminals_of(&grammar, &eol) {
            Ok(found) => strings_of(&found),
            Err(why) => return Err(string_of(&why)),
        };
        Ok(Grammar { separators, line_endings, orientations, instructions })
    }
}

} // verus!
