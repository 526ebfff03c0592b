//! Characters, decimal numbers and the conversions between text and bytes.

use vstd::prelude::*;
use vstd::utf8::*;
use vstd::string::StrSliceExecFns;

verus! {

broadcast use vstd::string::axiom_spec_iter;

/// The character of one decimal digit.
pub open spec fn digit_char(d: nat) -> char {
    if d == 0 { '0' }
    else if d == 1 { '1' }
    else if d == 2 { '2' }
    else if d == 3 { '3' }
    else if d == 4 { '4' }
    else if d == 5 { '5' }
    else if d == 6 { '6' }
    else if d == 7 { '7' }
    else if d == 8 { '8' }
    else { '9' }
}

/// The canonical decimal spelling of a number: no sign, no leading zeros.
pub open spec fn decimal(n: nat) -> Seq<char>
    decreases n,
{
    if n < 10 {
        seq![digit_char(n)]
    } else {
        decimal(n / 10).push(digit_char(n % 10))
    }
}

/// Whether a character is an ASCII decimal digit.
pub open spec fn is_digit(c: char) -> bool {
    '0' <= c && c <= '9'
}

/// The value of an ASCII digit.
pub open spec fn digit_value(c: char) -> nat {
    ((c as u32) - ('0' as u32)) as nat
}

pub fn digit(d: u32) -> (c: char)
    requires
        d < 10,
    ensures
        c == digit_char(d as nat),
{
    if d == 0 { '0' }
    else if d == 1 { '1' }
    else if d == 2 { '2' }
    else if d == 3 { '3' }
    else if d == 4 { '4' }
    else if d == 5 { '5' }
    else if d == 6 { '6' }
    else if d == 7 { '7' }
    else if d == 8 { '8' }
    else { '9' }
}

/// Appends the canonical decimal spelling of `n`.
pub fn push_decimal(out: &mut Vec<char>, n: u32)
    ensures
        final(out)@ == old(out)@ + decimal(n as nat),
    decreases n,
{
    if n >= 10 {
        push_decimal(out, n / 10);
    }
    out.push(digit(n % 10));
    proof {
        assert(old(out)@ + decimal(n as nat) =~= out@);
    }
}

/// Appends the canonical decimal spelling of a count.
pub fn push_count(out: &mut Vec<char>, n: usize)
    ensures
        final(out)@ == old(out)@ + decimal(n as nat),
    decreases n,
{
    if n >= 10 {
        push_count(out, n / 10);
    }
    out.push(digit((n % 10) as u32));
    proof {
        assert(old(out)@ + decimal(n as nat) =~= out@);
    }
}

/// Appends every character of `more`.
pub fn push_all(out: &mut Vec<char>, more: &Vec<char>)
    ensures
        final(out)@ == old(out)@ + more@,
{
    let mut i: usize = 0;
    while i < more.len()
        invariant
            i <= more.len(),
            out@ == old(out)@ + more@.take(i as int),
        decreases more.len() - i,
    {
        out.push(more[i]);
        i = i + 1;
        proof {
            assert(out@ =~= old(out)@ + more@.take(i as int));
        }
    }
    proof {
        assert(more@.take(more.len() as int) =~= more@);
    }
}

/// Appends the characters of a string slice.
pub fn push_str(out: &mut Vec<char>, more: &str)
    ensures
        final(out)@ == old(out)@ + more@,
{
    let chars = chars_of(more);
    push_all(out, &chars);
}

/// Whether two runs of characters are the same.
pub fn same_chars(a: &Vec<char>, b: &Vec<char>) -> (r: bool)
    ensures
        r == (a@ == b@),
{
    if a.len() != b.len() {
        return false;
    }
    let mut i: usize = 0;
    while i < a.len()
        invariant
            i <= a.len(),
            a.len() == b.len(),
            forall|j: int| 0 <= j < i ==> a@[j] == b@[j],
        decreases a.len() - i,
    {
        if a[i] != b[i] {
            return false;
        }
        i = i + 1;
    }
    proof {
        assert(a@ =~= b@);
    }
    true
}

/// Whether two byte strings are the same.
pub fn same_bytes(a: &[u8], b: &[u8]) -> (r: bool)
    ensures
        r == (a@ == b@),
{
    if a.len() != b.len() {
        return false;
    }
    let mut i: usize = 0;
    while i < a.len()
        invariant
            i <= a.len(),
            a@.len() == b@.len(),
            forall|j: int| 0 <= j < i ==> a@[j] == b@[j],
        decreases a.len() - i,
    {
        if a[i] != b[i] {
            return false;
        }
        i = i + 1;
    }
    proof {
        assert(a@ =~= b@);
    }
    true
}

/// The characters of a string slice, in order.
pub fn chars_of(s: &str) -> (r: Vec<char>)
    ensures
        r@ == s@,
{
    let mut r: Vec<char> = Vec::new();
    for c in it: s.chars()
        invariant
            it.seq() == s@,
            r@ == it.seq().take(it.index() as int),
    {
        r.push(c);
    }
    r
}

/// A `String` holding these characters.
///
/// Wraps `String`'s `FromIterator<char>`; the contract claims the string
/// holds exactly these characters.
#[verifier::external_body]
pub fn string_of(chars: &Vec<char>) -> (r: String)
    ensures
        r@ == chars@,
{
    chars.iter().collect()
}

/// The UTF-8 encoding of these characters.
pub fn bytes_of(chars: &Vec<char>) -> (r: Vec<u8>)
    ensures
        r@ == encode_utf8(chars@),
{
    let text = string_of(chars);
    text.as_str().as_bytes_vec()
}

/// What `std::str::Utf8Error` says, written out, about these bytes.
pub uninterp spec fn utf8_error_text(bytes: Seq<u8>) -> Seq<char>;

/// The characters these bytes encode, or what is wrong with them.
///
/// Wraps `std::str::from_utf8`. The contract claims what its documentation
/// says: it succeeds exactly on valid UTF-8, and then yields the decoded
/// characters; the error's message is a function of the bytes alone.
#[verifier::external_body]
pub fn decode(bytes: &[u8]) -> (r: Result<Vec<char>, String>)
    ensures
        r is Ok <==> valid_utf8(bytes@),
        r matches Ok(chars) ==> chars@ == decode_utf8(bytes@),
        r matches Err(message) ==> message@ == utf8_error_text(bytes@),
{
    match std::str::from_utf8(bytes) {
        Ok(text) => Ok(text.chars().collect()),
        Err(error) => Err(error.to_string()),
    }
}

/// How Rust's `Debug` writes a character: in single quotes, with escapes.
pub uninterp spec fn char_debug_text(c: char) -> Seq<char>;

/// Appends the `Debug` spelling of a character.
///
/// Wraps `<char as Debug>::fmt`; the contract names its result and claims it
/// depends on the character alone.
#[verifier::external_body]
pub fn push_char_debug(out: &mut Vec<char>, c: char)
    ensures
        final(out)@ == old(out)@ + char_debug_text(c),
{
    let quoted = format!("{:?}", c);
    out.extend(quoted.chars());
}

/// How Rust's `Debug` writes a string: quoted, with escapes.
pub uninterp spec fn debug_text(s: Seq<char>) -> Seq<char>;

/// Appends the `Debug` spelling of these characters.
///
/// Wraps `<str as Debug>::fmt`; the contract names its result and claims it
/// depends on the characters alone.
#[verifier::external_body]
pub fn push_debug(out: &mut Vec<char>, s: &Vec<char>)
    ensures
        final(out)@ == old(out)@ + debug_text(s@),
{
    let quoted = format!("{:?}", s.iter().collect::<String>());
    out.extend(quoted.chars());
}

} // verus!

verus! {

/// The pieces of `s` between occurrences of `sep`, as `str::split` gives them:
/// always at least one, empty pieces included.
pub open spec fn split(s: Seq<char>, sep: char) -> Seq<Seq<char>>
    decreases s.len(),
{
    if s.len() == 0 {
        seq![seq![]]
    } else {
        let before = split(s.drop_last(), sep);
        if s.last() == sep {
            before.push(seq![])
        } else {
            before.update(before.len() - 1, before.last().push(s.last()))
        }
    }
}

pub proof fn lemma_split_nonempty(s: Seq<char>, sep: char)
    ensures
        split(s, sep).len() >= 1,
    decreases s.len(),
{
    if s.len() > 0 {
        lemma_split_nonempty(s.drop_last(), sep);
    }
}

/// The views of a sequence of strings.
pub open spec fn string_views(v: Seq<String>) -> Seq<Seq<char>> {
    v.map_values(|e: String| e@)
}

/// The views of a vector of character vectors.
pub open spec fn views(v: Seq<Vec<char>>) -> Seq<Seq<char>> {
    v.map_values(|piece: Vec<char>| piece@)
}

/// Splits characters at every `sep`, as `str::split` does.
pub fn split_chars(s: &Vec<char>, sep: char) -> (r: Vec<Vec<char>>)
    ensures
        views(r@) == split(s@, sep),
{
    let mut pieces: Vec<Vec<char>> = Vec::new();
    let mut current: Vec<char> = Vec::new();
    let mut i: usize = 0;
    while i < s.len()
        invariant
            i <= s.len(),
            views(pieces@).push(current@) == split(s@.take(i as int), sep),
        decreases s.len() - i,
    {
        let c = s[i];
        proof {
            assert(s@.take(i + 1).drop_last() =~= s@.take(i as int));
            assert(s@.take(i + 1).last() == c);
            lemma_split_nonempty(s@.take(i as int), sep);
        }
        if c == sep {
            let done = current;
            pieces.push(done);
            current = Vec::new();
            proof {
                assert(views(pieces@).push(current@) =~= split(s@.take(i as int), sep).push(seq![]));
            }
        } else {
            let ghost before = current@;
            current.push(c);
            proof {
                let b = split(s@.take(i as int), sep);
                assert(views(pieces@).push(current@) =~= b.update(b.len() - 1, b.last().push(c)));
            }
        }
        i = i + 1;
    }
    pieces.push(current);
    proof {
        assert(s@.take(s.len() as int) =~= s@);
        assert(views(pieces@) =~= split(s@, sep));
    }
    pieces
}

/// Where `c` first occurs in `s`.
pub open spec fn index_of(s: Seq<char>, c: char) -> Option<int>
    decreases s.len(),
{
    if s.len() == 0 {
        None
    } else if s[0] == c {
        Some(0)
    } else {
        match index_of(s.skip(1), c) {
            Some(i) => Some(i + 1),
            None => None,
        }
    }
}

pub proof fn lemma_index_of(s: Seq<char>, c: char)
    ensures
        index_of(s, c) matches Some(i) ==> 0 <= i < s.len() && s[i] == c && forall|j: int| 0 <= j < i ==> s[j] != c,
        index_of(s, c) is None ==> forall|j: int| 0 <= j < s.len() ==> s[j] != c,
    decreases s.len(),
{
    if s.len() > 0 {
        lemma_index_of(s.skip(1), c);
        if s[0] != c {
            assert forall|j: int| 1 <= j < s.len() implies s[j] == s.skip(1)[j - 1] by {}
        }
    }
}

pub proof fn lemma_index_of_is_first(s: Seq<char>, c: char, i: int)
    requires
        0 <= i < s.len(),
        s[i] == c,
        forall|j: int| 0 <= j < i ==> s[j] != c,
    ensures
        index_of(s, c) == Some(i),
    decreases s.len(),
{
    if i > 0 {
        assert forall|j: int| 0 <= j < i - 1 implies s.skip(1)[j] != c by {
            assert(s.skip(1)[j] == s[j + 1]);
        }
        lemma_index_of_is_first(s.skip(1), c, i - 1);
    }
}

pub proof fn lemma_index_of_absent(s: Seq<char>, c: char)
    requires
        forall|j: int| 0 <= j < s.len() ==> s[j] != c,
    ensures
        index_of(s, c) is None,
    decreases s.len(),
{
    if s.len() > 0 {
        assert forall|j: int| 0 <= j < s.len() - 1 implies s.skip(1)[j] != c by {
            assert(s.skip(1)[j] == s[j + 1]);
        }
        lemma_index_of_absent(s.skip(1), c);
    }
}

/// Where `c` first occurs at or after `from`.
pub fn find_char(s: &Vec<char>, from: usize, c: char) -> (r: Option<usize>)
    requires
        from <= s.len(),
    ensures
        r matches Some(i) ==> from <= i < s.len() && index_of(s@.skip(from as int), c) == Some(i - from),
        r is None ==> index_of(s@.skip(from as int), c) is None,
{
    let mut i = from;
    while i < s.len()
        invariant
            from <= i <= s.len(),
            forall|j: int| from <= j < i ==> s@[j] != c,
        decreases s.len() - i,
    {
        if s[i] == c {
            proof {
                let rest = s@.skip(from as int);
                assert forall|j: int| 0 <= j < i - from implies rest[j] != c by {
                    assert(rest[j] == s@[j + from]);
                }
                assert(rest[i - from] == c);
                lemma_index_of_is_first(rest, c, i - from);
            }
            return Some(i);
        }
        i = i + 1;
    }
    proof {
        let rest = s@.skip(from as int);
        assert forall|j: int| 0 <= j < rest.len() implies rest[j] != c by {
            assert(rest[j] == s@[j + from]);
        }
        lemma_index_of_absent(rest, c);
    }
    None
}

/// The characters from `from` up to `to`.
pub fn slice_chars(s: &Vec<char>, from: usize, to: usize) -> (r: Vec<char>)
    requires
        from <= to <= s.len(),
    ensures
        r@ == s@.subrange(from as int, to as int),
{
    let mut out: Vec<char> = Vec::new();
    let mut i = from;
    while i < to
        invariant
            from <= i <= to <= s.len(),
            out@ == s@.subrange(from as int, i as int),
        decreases to - i,
    {
        out.push(s[i]);
        i = i + 1;
        proof {
            assert(out@ =~= s@.subrange(from as int, i as int));
        }
    }
    out
}

/// Whether `c` is one of `set`.
pub fn has_char(set: &Vec<char>, c: char) -> (r: bool)
    ensures
        r == set@.contains(c),
{
    let mut i: usize = 0;
    while i < set.len()
        invariant
            i <= set.len(),
            forall|j: int| 0 <= j < i ==> set@[j] != c,
        decreases set.len() - i,
    {
        if set[i] == c {
            proof {
                assert(set@[i as int] == c);
            }
            return true;
        }
        i = i + 1;
    }
    false
}

/// Whether a character is white space in Unicode's sense, which is what
/// `char::is_whitespace` and `str::split_whitespace` go by.
pub open spec fn is_unicode_space(c: char) -> bool {
    ||| c == '\t' || c == '\n' || c == '\u{b}' || c == '\u{c}' || c == '\r' || c == ' '
    ||| c == '\u{85}' || c == '\u{a0}' || c == '\u{1680}'
    ||| ('\u{2000}' <= c && c <= '\u{200a}')
    ||| c == '\u{2028}' || c == '\u{2029}' || c == '\u{202f}' || c == '\u{205f}' || c == '\u{3000}'
}

pub fn unicode_space(c: char) -> (r: bool)
    ensures
        r == is_unicode_space(c),
{
    c == '\t' || c == '\n' || c == '\u{b}' || c == '\u{c}' || c == '\r' || c == ' ' || c == '\u{85}'
        || c == '\u{a0}' || c == '\u{1680}' || ('\u{2000}' <= c && c <= '\u{200a}') || c == '\u{2028}'
        || c == '\u{2029}' || c == '\u{202f}' || c == '\u{205f}' || c == '\u{3000}'
}

/// The lines of a text as `str::lines` gives them: split at `\n`, a `\r`
/// just before a `\n` dropped, and no line after a final line ending.
pub open spec fn lines_of(s: Seq<char>) -> Seq<Seq<char>> {
    let pieces = split(s, '\n');
    let ended = pieces.drop_last().map_values(|piece: Seq<char>| strip_cr(piece));
    if pieces.last().len() == 0 { ended } else { ended.push(pieces.last()) }
}

/// A piece without the one `\r` it may end with.
pub open spec fn strip_cr(piece: Seq<char>) -> Seq<char> {
    if piece.len() > 0 && piece.last() == '\r' { piece.drop_last() } else { piece }
}

pub fn strip_cr_chars(piece: &Vec<char>) -> (r: Vec<char>)
    ensures
        r@ == strip_cr(piece@),
{
    if piece.len() > 0 && piece[piece.len() - 1] == '\r' {
        slice_chars(piece, 0, piece.len() - 1)
    } else {
        slice_chars(piece, 0, piece.len())
    }
}

/// The lines of a text, as `str::lines` gives them.
pub fn lines_chars(s: &Vec<char>) -> (r: Vec<Vec<char>>)
    ensures
        views(r@) == lines_of(s@),
{
    let pieces = split_chars(s, '\n');
    proof {
        lemma_split_nonempty(s@, '\n');
    }
    let count = pieces.len();
    let mut lines: Vec<Vec<char>> = Vec::new();
    let mut i: usize = 0;
    while i + 1 < count
        invariant
            count == pieces.len(),
            count >= 1,
            i + 1 <= count,
            views(pieces@) == split(s@, '\n'),
            views(lines@) == split(s@, '\n').drop_last().take(i as int).map_values(|piece: Seq<char>| strip_cr(piece)),
        decreases count - i,
    {
        let line = strip_cr_chars(&pieces[i]);
        let ghost before = lines@;
        lines.push(line);
        i = i + 1;
        proof {
            let parts = split(s@, '\n');
            let target = parts.drop_last().take(i as int).map_values(|piece: Seq<char>| strip_cr(piece));
            assert(views(pieces@)[i - 1] == pieces@[i - 1]@);
            assert(parts[i - 1] == pieces@[i - 1]@);
            assert(views(before).len() == before.len());
            assert(parts.drop_last().take(i - 1).len() == i - 1);
            assert(before.len() == i - 1);
            assert(lines@.len() == i);
            assert forall|j: int| 0 <= j < i implies views(lines@)[j] == target[j] by {
                if j < i - 1 {
                    assert(views(lines@)[j] == lines@[j]@);
                    assert(lines@[j] == before[j]);
                    assert(views(before)[j] == before[j]@);
                } else {
                    assert(views(lines@)[j] == lines@[j]@);
                }
            }
            assert(views(lines@) =~= target);
        }
    }
    proof {
        assert(split(s@, '\n').drop_last().take(i as int) =~= split(s@, '\n').drop_last());
        assert(views(pieces@)[count - 1] == pieces@[count - 1]@);
    }
    if pieces[count - 1].len() > 0 {
        let last = slice_chars(&pieces[count - 1], 0, pieces[count - 1].len());
        let ghost before = lines@;
        lines.push(last);
        proof {
            assert forall|j: int| 0 <= j < lines@.len() implies views(lines@)[j] == lines_of(s@)[j] by {
                if j < before.len() {
                    assert(lines@[j] == before[j]);
                    assert(views(before)[j] == before[j]@);
                }
            }
            assert(views(lines@) =~= lines_of(s@));
        }
    }
    lines
}

} // verus!

verus! {

/// Whether a character separates tokens in the grammar: a space or a tab.
pub open spec fn is_blank_char(c: char) -> bool {
    c == ' ' || c == '\t'
}

/// The pieces of a line between spaces and tabs, empty ones included.
pub open spec fn split_blanks(s: Seq<char>) -> Seq<Seq<char>>
    decreases s.len(),
{
    if s.len() == 0 {
        seq![seq![]]
    } else {
        let before = split_blanks(s.drop_last());
        if is_blank_char(s.last()) {
            before.push(seq![])
        } else {
            before.update(before.len() - 1, before.last().push(s.last()))
        }
    }
}

/// The non-empty pieces, in order.
pub open spec fn nonempty(pieces: Seq<Seq<char>>) -> Seq<Seq<char>>
    decreases pieces.len(),
{
    if pieces.len() == 0 {
        seq![]
    } else if pieces.last().len() == 0 {
        nonempty(pieces.drop_last())
    } else {
        nonempty(pieces.drop_last()).push(pieces.last())
    }
}

/// The tokens of a line: the runs between spaces and tabs.
pub open spec fn tokens(line: Seq<char>) -> Seq<Seq<char>> {
    nonempty(split_blanks(line))
}

/// Whether a line is blank: nothing but spaces and tabs.
pub open spec fn is_blank(line: Seq<char>) -> bool {
    forall|i: int| 0 <= i < line.len() ==> is_blank_char(#[trigger] line[i])
}

/// A line without the spaces and tabs at either end.
pub open spec fn trim_blanks(line: Seq<char>) -> Seq<char>
    decreases line.len(),
{
    if line.len() > 0 && is_blank_char(line[0]) {
        trim_blanks(line.skip(1))
    } else if line.len() > 0 && is_blank_char(line.last()) {
        trim_blanks(line.drop_last())
    } else {
        line
    }
}

/// The value of a run of decimal digits.
pub open spec fn digits_value(digits: Seq<char>) -> nat
    decreases digits.len(),
{
    if digits.len() == 0 { 0 } else { digits_value(digits.drop_last()) * 10 + digit_value(digits.last()) }
}

/// A token without the one `+` it may start with.
pub open spec fn unsigned_digits(token: Seq<char>) -> Seq<char> {
    if token.len() > 0 && token[0] == '+' { token.skip(1) } else { token }
}

/// Whether every character is a decimal digit.
pub open spec fn all_digits(s: Seq<char>) -> bool {
    forall|i: int| 0 <= i < s.len() ==> is_digit(#[trigger] s[i])
}

/// What `str::parse::<u32>` makes of a token: an optional `+`, then at least
/// one decimal digit, for a value that fits.
pub open spec fn parse_u32(token: Seq<char>) -> Option<u32> {
    let digits = unsigned_digits(token);
    if digits.len() > 0 && all_digits(digits) && digits_value(digits) <= u32::MAX {
        Some(digits_value(digits) as u32)
    } else {
        None
    }
}

pub fn is_blank_line(line: &Vec<char>) -> (r: bool)
    ensures
        r == is_blank(line@),
{
    let mut i: usize = 0;
    while i < line.len()
        invariant
            i <= line.len(),
            forall|j: int| 0 <= j < i ==> is_blank_char(#[trigger] line@[j]),
        decreases line.len() - i,
    {
        if line[i] != ' ' && line[i] != '\t' {
            return false;
        }
        i = i + 1;
    }
    true
}

pub proof fn lemma_split_blanks_nonempty(s: Seq<char>)
    ensures
        split_blanks(s).len() >= 1,
    decreases s.len(),
{
    if s.len() > 0 {
        lemma_split_blanks_nonempty(s.drop_last());
    }
}

/// The tokens of a line.
pub fn tokens_of(line: &Vec<char>) -> (r: Vec<Vec<char>>)
    ensures
        views(r@) == tokens(line@),
{
    let mut found: Vec<Vec<char>> = Vec::new();
    let mut current: Vec<char> = Vec::new();
    let mut i: usize = 0;
    while i < line.len()
        invariant
            i <= line.len(),
            split_blanks(line@.take(i as int)).last() == current@,
            nonempty(split_blanks(line@.take(i as int)).drop_last()) == views(found@),
            split_blanks(line@.take(i as int)).len() >= 1,
        decreases line.len() - i,
    {
        let c = line[i];
        proof {
            assert(line@.take(i + 1).drop_last() =~= line@.take(i as int));
            assert(line@.take(i + 1).last() == c);
        }
        if c == ' ' || c == '\t' {
            let ghost pieces = split_blanks(line@.take(i as int));
            proof {
                assert(split_blanks(line@.take(i + 1)) == pieces.push(seq![]));
                assert(pieces.push(seq![]).drop_last() =~= pieces);
                assert(pieces.drop_last().push(pieces.last()) =~= pieces);
            }
            if current.len() > 0 {
                let done = current;
                let ghost before = found@;
                found.push(done);
                proof {
                    assert(views(found@) =~= views(before).push(done@));
                }
            }
            current = Vec::new();
        } else {
            let ghost pieces = split_blanks(line@.take(i as int));
            proof {
                let after = pieces.update(pieces.len() - 1, pieces.last().push(c));
                assert(split_blanks(line@.take(i + 1)) == after);
                assert(after.drop_last() =~= pieces.drop_last());
            }
            current.push(c);
        }
        i = i + 1;
    }
    proof {
        assert(line@.take(i as int) =~= line@);
        let pieces = split_blanks(line@);
        assert(pieces.drop_last().push(pieces.last()) =~= pieces);
    }
    if current.len() > 0 {
        let ghost before = found@;
        found.push(current);
        proof {
            assert(views(found@) =~= views(before).push(current@));
        }
    }
    found
}

/// A line without the spaces and tabs at either end.
pub fn trim_blanks_of(line: &Vec<char>) -> (r: Vec<char>)
    ensures
        r@ == trim_blanks(line@),
{
    let mut start: usize = 0;
    let mut end: usize = line.len();
    proof {
        assert(line@.subrange(0, line@.len() as int) =~= line@);
    }
    while start < end && (line[start] == ' ' || line[start] == '\t')
        invariant
            start <= end == line.len(),
            trim_blanks(line@.subrange(start as int, end as int)) == trim_blanks(line@),
        decreases end - start,
    {
        proof {
            assert(line@.subrange(start as int, end as int).skip(1) =~= line@.subrange(start + 1, end as int));
        }
        start = start + 1;
    }
    while start < end && (line[end - 1] == ' ' || line[end - 1] == '\t')
        invariant
            start <= end <= line.len(),
            start < end ==> !is_blank_char(line@[start as int]),
            trim_blanks(line@.subrange(start as int, end as int)) == trim_blanks(line@),
        decreases end - start,
    {
        proof {
            let part = line@.subrange(start as int, end as int);
            assert(part[0] == line@[start as int]);
            assert(part.drop_last() =~= line@.subrange(start as int, end - 1));
        }
        end = end - 1;
    }
    proof {
        let part = line@.subrange(start as int, end as int);
        if part.len() > 0 {
            assert(part[0] == line@[start as int]);
            assert(part.last() == line@[end - 1]);
        }
    }
    slice_chars(line, start, end)
}

/// A token read as a `u32`, the way `str::parse::<u32>` reads it.
pub fn parse_u32_of(token: &Vec<char>) -> (r: Option<u32>)
    ensures
        r == parse_u32(token@),
{
    let start: usize = if token.len() > 0 && token[0] == '+' { 1 } else { 0 };
    let ghost digits = unsigned_digits(token@);
    proof {
        assert(digits =~= token@.skip(start as int));
    }
    if start >= token.len() {
        return None;
    }
    let mut value: u64 = 0;
    let mut i = start;
    while i < token.len()
        invariant
            start <= i <= token.len(),
            digits == token@.skip(start as int),
            digits == unsigned_digits(token@),
            forall|j: int| 0 <= j < i - start ==> is_digit(#[trigger] digits[j]),
            value == digits_value(digits.take(i - start)),
            value <= u32::MAX,
        decreases token.len() - i,
    {
        let c = token[i];
        proof {
            assert(digits[i - start] == c);
        }
        if !('0' <= c && c <= '9') {
            proof {
                assert(!is_digit(digits[i - start]));
                assert(!all_digits(digits));
            }
            return None;
        }
        let d = (c as u32 - '0' as u32) as u64;
        proof {
            assert(digits.take(i - start + 1).drop_last() =~= digits.take(i - start));
            assert(digits.take(i - start + 1).last() == c);
            assert(digit_value(c) == d);
        }
        if value > 429_496_729 || (value == 429_496_729 && d > 5) {
            proof {
                assert(digits_value(digits.take(i - start + 1)) == value * 10 + d);
                assert(value * 10 + d > u32::MAX) by (nonlinear_arith)
                    requires
                        value > 429_496_729 || (value == 429_496_729 && d > 5),
                ;
                lemma_digits_value_grows(digits, i - start + 1);
            }
            return None;
        }
        value = value * 10 + d;
        i = i + 1;
    }
    proof {
        assert(digits.take(digits.len() as int) =~= digits);
    }
    Some(value as u32)
}

/// Once a prefix of a digit run exceeds a bound, so does the whole run.
proof fn lemma_digits_value_grows(digits: Seq<char>, k: int)
    requires
        0 < k <= digits.len(),
        digits_value(digits.take(k)) > u32::MAX,
    ensures
        !all_digits(digits) || digits_value(digits) > u32::MAX,
    decreases digits.len() - k,
{
    if k < digits.len() {
        assert(digits.take(k + 1).drop_last() =~= digits.take(k));
        lemma_digits_value_grows(digits, k + 1);
    } else {
        assert(digits.take(k) =~= digits);
    }
}

} // verus!
