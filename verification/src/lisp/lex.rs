//! The reader: text to tokens, and tokens to one form.

use vstd::prelude::*;
use crate::lisp::laws::lexer::law_word_is_within;
use crate::lisp::number::{Numeral, Reading, may_read, may_write, readings, reads, writes, writings};
use crate::lisp::text::same_text;
use crate::lisp::types::{RLType, Value, models, texts};

verus! {

/// The ways in which a token stream fails to be one form.
#[derive(Clone, Copy, Debug, PartialEq, Eq, Structural)]
pub enum ParseError {
    UnbalancedParens,
    UnrecognizedToken,
    EOFReached,
}

pub type ParseResult = Result<RLType, ParseError>;

/// What a parse error says.
pub open spec fn parse_message(e: ParseError) -> Seq<char> {
    match e {
        ParseError::UnbalancedParens => "Unbalanced parentheses"@,
        ParseError::UnrecognizedToken => "Unrecognized token"@,
        ParseError::EOFReached => "Unexpected end of input"@,
    }
}

impl ParseError {
    /// What the error says.
    pub fn get_message(&self) -> (r: String)
        ensures
            r@ == parse_message(*self),
    {
        match self {
            ParseError::UnbalancedParens => "Unbalanced parentheses".to_owned(),
            ParseError::UnrecognizedToken => "Unrecognized token".to_owned(),
            ParseError::EOFReached => "Unexpected end of input".to_owned(),
        }
    }
}


/// The characters that separate tokens: those that Unicode calls white space.
pub open spec fn is_whitespace(c: char) -> bool {
    let u = c as u32;
    ||| 0x09 <= u <= 0x0d
    ||| u == 0x20
    ||| u == 0x85
    ||| u == 0xa0
    ||| u == 0x1680
    ||| 0x2000 <= u <= 0x200a
    ||| u == 0x2028
    ||| u == 0x2029
    ||| u == 0x202f
    ||| u == 0x205f
    ||| u == 0x3000
}

/// A character as it stands in the spaced text: a parenthesis between two
/// spaces, any other character alone.
pub open spec fn padded(c: char) -> Seq<char> {
    if c == '(' || c == ')' {
        seq![' ', c, ' ']
    } else {
        seq![c]
    }
}

/// The text with a space before and after each parenthesis.
pub open spec fn spaced(text: Seq<char>) -> Seq<char>
    decreases text.len(),
{
    if text.len() == 0 {
        Seq::empty()
    } else {
        spaced(text.drop_last()) + padded(text.last())
    }
}

/// The length of the run of characters at the front that are no white space.
pub open spec fn word_len(text: Seq<char>) -> nat
    decreases text.len(),
{
    if text.len() == 0 || is_whitespace(text[0]) {
        0
    } else {
        1 + word_len(text.drop_first())
    }
}

/// The words of a text: its longest runs of characters that are no white
/// space, in order. (A run that starts at a character that is no white
/// space is at least that character and at most the text, so the test on
/// its length always holds.)
pub open spec fn words(text: Seq<char>) -> Seq<Seq<char>>
    decreases text.len(),
{
    if text.len() == 0 {
        Seq::empty()
    } else if is_whitespace(text[0]) {
        words(text.drop_first())
    } else {
        let n = word_len(text);
        if 0 < n <= text.len() {
            seq![text.take(n as int)] + words(text.skip(n as int))
        } else {
            Seq::empty()
        }
    }
}

/// The number of white space characters at the front of a text.
pub open spec fn leading(text: Seq<char>) -> nat
    decreases text.len(),
{
    if text.len() == 0 || !is_whitespace(text[0]) {
        0
    } else {
        1 + leading(text.drop_first())
    }
}

/// The number of white space characters at the end of a text.
pub open spec fn trailing(text: Seq<char>) -> nat
    decreases text.len(),
{
    if text.len() == 0 || !is_whitespace(text.last()) {
        0
    } else {
        1 + trailing(text.drop_last())
    }
}

/// The text without the white space at its front and at its end.
pub open spec fn trimmed(text: Seq<char>) -> Seq<char> {
    let rest = text.skip(leading(text) as int);
    rest.take(rest.len() - trailing(rest))
}

/// The tokens of a source text: the words of the spaced text.
pub open spec fn tokens_of(text: Seq<char>) -> Seq<Seq<char>> {
    words(spaced(text))
}

/// Whether `c` is white space.
pub fn whitespace(c: char) -> (r: bool)
    ensures
        r == is_whitespace(c),
{
    let u: u32 = c as u32;
    (0x09 <= u && u <= 0x0d) || u == 0x20 || u == 0x85 || u == 0xa0 || u == 0x1680 || (0x2000 <= u && u
        <= 0x200a) || u == 0x2028 || u == 0x2029 || u == 0x202f || u == 0x205f || u == 0x3000
}

/// The text with a space before and after each parenthesis.
fn space_braces(input: &str) -> (r: String)
    ensures
        r@ == spaced(input@),
{
    let n = input.unicode_len();
    let mut out = String::new();
    let mut i: usize = 0;
    proof {
        reveal_strlit(" ( ");
        reveal_strlit(" ) ");
    }
    assert(input@.take(0) =~= Seq::empty());
    while i < n
        invariant
            n == input@.len(),
            i <= n,
            out@ == spaced(input@.take(i as int)),
            " ( "@ == seq![' ', '(', ' '],
            " ) "@ == seq![' ', ')', ' '],
        decreases n - i,
    {
        let c = input.get_char(i);
        assert(input@.take(i + 1).drop_last() =~= input@.take(i as int));
        assert(input@.take(i + 1).last() == c);
        if c == '(' {
            out.append(" ( ");
        } else if c == ')' {
            out.append(" ) ");
        } else {
            out.append(input.substring_char(i, i + 1));
            assert(input@.subrange(i as int, i + 1) =~= seq![c]);
        }
        i += 1;
    }
    assert(input@.take(n as int) =~= input@);
    out
}

/// White space at the front of a text is within the text.
proof fn lemma_leading_within(text: Seq<char>)
    ensures
        leading(text) <= text.len(),
    decreases text.len(),
{
    if text.len() > 0 && is_whitespace(text[0]) {
        lemma_leading_within(text.drop_first());
    }
}

/// White space at the end of a text is within the text.
proof fn lemma_trailing_within(text: Seq<char>)
    ensures
        trailing(text) <= text.len(),
    decreases text.len(),
{
    if text.len() > 0 && is_whitespace(text.last()) {
        lemma_trailing_within(text.drop_last());
    }
}

/// The text without the white space at its front and at its end.
pub fn trim(text: &str) -> (r: String)
    ensures
        r@ == trimmed(text@),
{
    let n = text.unicode_len();
    let mut start: usize = 0;
    assert(text@.skip(0) =~= text@);
    loop
        invariant
            n == text@.len(),
            start <= n,
            leading(text@) == start + leading(text@.skip(start as int)),
        ensures
            leading(text@) == start,
        decreases n - start,
    {
        if start >= n {
            break ;
        }
        let c = text.get_char(start);
        assert(text@.skip(start as int)[0] == c);
        if !whitespace(c) {
            break ;
        }
        assert(text@.skip(start as int).drop_first() =~= text@.skip(start + 1));
        start += 1;
    }
    let ghost rest = text@.skip(start as int);
    let mut end: usize = n;
    assert(rest.take(rest.len() as int) =~= rest);
    loop
        invariant
            n == text@.len(),
            start <= end <= n,
            rest == text@.skip(start as int),
            trailing(rest) == (n - end) + trailing(rest.take(end - start)),
        ensures
            trailing(rest) == n - end,
        decreases end,
    {
        if end <= start {
            break ;
        }
        let c = text.get_char(end - 1);
        assert(rest.take(end - start).last() == c);
        if !whitespace(c) {
            break ;
        }
        assert(rest.take(end - start).drop_last() =~= rest.take(end - start - 1));
        end -= 1;
    }
    let r = text.substring_char(start, end).to_owned();
    assert(r@ =~= trimmed(text@));
    r
}

/// Puts a space before and after each parenthesis, and takes away the
/// white space at the front and at the end of what results.
pub fn format_braces(input: &str) -> (r: String)
    ensures
        r@ == trimmed(spaced(input@)),
{
    let padded = space_braces(input);
    trim(padded.as_str())
}

/// White space after a text does not lengthen the run at its front.
proof fn lemma_word_len_before_space(text: Seq<char>, c: char)
    requires
        is_whitespace(c),
    ensures
        word_len(text.push(c)) == word_len(text),
    decreases text.len(),
{
    if text.len() > 0 && !is_whitespace(text[0]) {
        assert(text.push(c).drop_first() =~= text.drop_first().push(c));
        lemma_word_len_before_space(text.drop_first(), c);
    }
}

/// White space after a text adds no word.
proof fn lemma_words_before_space(text: Seq<char>, c: char)
    requires
        is_whitespace(c),
    ensures
        words(text.push(c)) == words(text),
    decreases text.len(),
{
    let longer = text.push(c);
    if text.len() == 0 {
        assert(longer.drop_first() =~= text);
    } else if is_whitespace(text[0]) {
        assert(longer.drop_first() =~= text.drop_first().push(c));
        lemma_words_before_space(text.drop_first(), c);
    } else {
        law_word_is_within(text);
        lemma_word_len_before_space(text, c);
        let n = word_len(text) as int;
        assert(longer.take(n) =~= text.take(n));
        assert(longer.skip(n) =~= text.skip(n).push(c));
        lemma_words_before_space(text.skip(n), c);
    }
}

/// White space at the front of a text adds no word.
proof fn lemma_words_after_leading(text: Seq<char>)
    ensures
        words(text.skip(leading(text) as int)) == words(text),
    decreases text.len(),
{
    if text.len() > 0 && is_whitespace(text[0]) {
        let rest = text.drop_first();
        lemma_leading_within(rest);
        lemma_words_after_leading(rest);
        assert(text.skip(leading(text) as int) =~= rest.skip(leading(rest) as int));
    } else {
        assert(text.skip(0) =~= text);
    }
}

/// White space at the end of a text adds no word.
proof fn lemma_words_before_trailing(text: Seq<char>)
    ensures
        words(text.take(text.len() - trailing(text))) == words(text),
    decreases text.len(),
{
    if text.len() > 0 && is_whitespace(text.last()) {
        let rest = text.drop_last();
        lemma_trailing_within(rest);
        lemma_words_before_trailing(rest);
        assert(text.take(text.len() - trailing(text)) =~= rest.take(rest.len() - trailing(rest)));
        assert(rest.push(text.last()) =~= text);
        lemma_words_before_space(rest, text.last());
    } else {
        assert(text.take(text.len() as int) =~= text);
    }
}

/// Trimming a text changes none of its words.
pub proof fn law_trimming_keeps_words(text: Seq<char>)
    ensures
        words(trimmed(text)) == words(text),
{
    lemma_words_after_leading(text);
    lemma_words_before_trailing(text.skip(leading(text) as int));
}

/// Splits a source text into its tokens: each parenthesis alone, and each
/// longest run of other characters that holds no white space. Nothing is
/// quoted, escaped or skipped as a comment.
pub fn tokenize(input: &str) -> (r: Vec<String>)
    ensures
        texts(r@) == tokens_of(input@),
{
    let formatted = format_braces(input);
    let text = formatted.as_str();
    let n = text.unicode_len();
    let mut tokens: Vec<String> = Vec::new();
    let mut i: usize = 0;
    assert(text@.skip(0) =~= text@);
    assert(texts(tokens@) =~= Seq::empty());
    while i < n
        invariant
            n == text@.len(),
            i <= n,
            texts(tokens@) + words(text@.skip(i as int)) == words(text@),
        decreases n - i,
    {
        let ghost here = text@.skip(i as int);
        let c = text.get_char(i);
        assert(here[0] == c);
        assert(here.drop_first() =~= text@.skip(i + 1));
        if whitespace(c) {
            i += 1;
        } else {
            let start = i;
            let mut end = i + 1;
            loop
                invariant
                    n == text@.len(),
                    start < end <= n,
                    word_len(text@.skip(start as int)) == (end - start) + word_len(text@.skip(end as int)),
                ensures
                    word_len(text@.skip(end as int)) == 0,
                decreases n - end,
            {
                if end >= n {
                    break ;
                }
                let d = text.get_char(end);
                assert(text@.skip(end as int)[0] == d);
                if whitespace(d) {
                    break ;
                }
                assert(text@.skip(end as int).drop_first() =~= text@.skip(end + 1));
                end += 1;
            }
            assert(word_len(text@.skip(end as int)) == 0);
            let token = text.substring_char(start, end).to_owned();
            let ghost before = texts(tokens@);
            tokens.push(token);
            proof {
                let len = (end - start) as int;
                assert(token@ =~= here.take(len));
                assert(here.skip(len) =~= text@.skip(end as int));
                assert(texts(tokens@) =~= before + seq![here.take(len)]);
                assert(before + (seq![here.take(len)] + words(here.skip(len))) =~= (before + seq![here.take(len)])
                    + words(here.skip(len)));
            }
            i = end;
        }
    }
    assert(texts(tokens@) + Seq::<Seq<char>>::empty() =~= texts(tokens@));
    proof {
        law_trimming_keeps_words(spaced(input@));
    }
    tokens
}

/// What is read from a token stream: a form or an error, and the tokens
/// that are left.
pub struct Parsed {
    pub result: Result<Value, ParseError>,
    pub rest: Seq<Seq<char>>,
}

/// The model of a result of parsing.
pub open spec fn parse_outcome(r: ParseResult) -> Result<Value, ParseError> {
    match r {
        Ok(value) => Ok(value@),
        Err(e) => Err(e),
    }
}

/// What a token that spells no number stands for: one of the three
/// constants, or a symbol.
pub open spec fn word(token: Seq<char>) -> Value {
    if token == "#t"@ {
        Value::True
    } else if token == "#f"@ {
        Value::False
    } else if token == "nil"@ {
        Value::Nil
    } else {
        Value::Symbol(token)
    }
}

/// The atom that a token stands for: a number where it spells one.
pub open spec fn atom(reading: Reading, token: Seq<char>) -> Value {
    match reading(token) {
        Some(bits) => Value::Number(bits),
        None => word(token),
    }
}

/// The form at the front of a token stream. An empty stream holds none; an
/// opening parenthesis starts a list; a closing one stands for nothing; any
/// other token is an atom.
pub open spec fn parsed(reading: Reading, tokens: Seq<Seq<char>>) -> Parsed
    decreases tokens.len(), 0nat,
{
    if tokens.len() == 0 {
        Parsed { result: Err(ParseError::EOFReached), rest: tokens }
    } else if tokens[0] == "("@ {
        parsed_list(reading, tokens.drop_first(), Seq::empty())
    } else if tokens[0] == ")"@ {
        Parsed { result: Err(ParseError::UnbalancedParens), rest: tokens }
    } else {
        Parsed { result: Ok(atom(reading, tokens[0])), rest: tokens.drop_first() }
    }
}

/// The list whose first items are `items` and whose other items, and
/// closing parenthesis, are at the front of the stream. (A form takes at
/// least one token, so the stream left by an item is always shorter.)
pub open spec fn parsed_list(reading: Reading, tokens: Seq<Seq<char>>, items: Seq<Value>) -> Parsed
    decreases tokens.len(), 1nat,
{
    if tokens.len() == 0 {
        Parsed { result: Err(ParseError::UnbalancedParens), rest: tokens }
    } else if tokens[0] == ")"@ {
        Parsed { result: Ok(Value::List(items)), rest: tokens.drop_first() }
    } else {
        let first = parsed(reading, tokens);
        match first.result {
            Ok(item) if first.rest.len() < tokens.len() => parsed_list(reading, first.rest, items.push(item)),
            _ => first,
        }
    }
}

/// A result and the tokens beside it, as a reading of the stream.
pub open spec fn reads_as(r: ParseResult, rest: Seq<String>) -> Parsed {
    Parsed { result: parse_outcome(r), rest: texts(rest) }
}

/// Reads one form from the front of `tokens` and takes its tokens away.
pub fn parse_form<R: Fn(&str) -> Option<u32>>(tokens: &mut Vec<String>, read: &R) -> (r: ParseResult)
    requires
        reads(read),
    ensures
        reads_as(r, final(tokens)@) == parsed(readings(read), texts(old(tokens)@)),
        final(tokens).len() <= old(tokens).len(),
        r is Ok ==> final(tokens).len() < old(tokens).len(),
    decreases old(tokens).len(), 1nat,
{
    if tokens.is_empty() {
        return Err(ParseError::EOFReached);
    }
    assert(texts(tokens@)[0] == tokens@[0]@);
    if same_text(tokens[0].as_str(), "(") {
        parse_list(tokens, read)
    } else if same_text(tokens[0].as_str(), ")") {
        Err(ParseError::UnbalancedParens)
    } else {
        let r = parse_atom(tokens, read);
        assert(texts(tokens@) =~= texts(old(tokens)@).drop_first());
        r
    }
}

/// Reads a list from the front of `tokens`, of which the first is its
/// opening parenthesis.
pub fn parse_list<R: Fn(&str) -> Option<u32>>(tokens: &mut Vec<String>, read: &R) -> (r: ParseResult)
    requires
        reads(read),
        old(tokens).len() > 0,
    ensures
        reads_as(r, final(tokens)@) == parsed_list(
            readings(read),
            texts(old(tokens)@).drop_first(),
            Seq::empty(),
        ),
        final(tokens).len() < old(tokens).len(),
    decreases old(tokens).len(), 0nat,
{
    let ghost reading = readings(read);
    let mut list: Vec<RLType> = Vec::new();
    let ghost opened = texts(tokens@);
    tokens.remove(0);
    assert(texts(tokens@) =~= opened.drop_first());
    assert(models(list@) =~= Seq::empty());
    loop
        invariant
            reads(read),
            reading == readings(read),
            opened == texts(old(tokens)@),
            tokens.len() < old(tokens).len(),
            parsed_list(reading, texts(tokens@), models(list@)) == parsed_list(
                reading,
                opened.drop_first(),
                Seq::empty(),
            ),
        decreases tokens.len(),
    {
        if tokens.is_empty() {
            return Err(ParseError::UnbalancedParens);
        }
        let ghost here = texts(tokens@);
        assert(here[0] == tokens@[0]@);
        if same_text(tokens[0].as_str(), ")") {
            tokens.remove(0);
            assert(texts(tokens@) =~= here.drop_first());
            return Ok(RLType::List(list));
        }
        let ghost before = models(list@);
        let cell = parse_form(tokens, read)?;
        list.push(cell);
        assert(models(list@) =~= before.push(cell@));
    }
}

/// Reads the atom that the first of `tokens` stands for.
pub fn parse_atom<R: Fn(&str) -> Option<u32>>(tokens: &mut Vec<String>, read: &R) -> (r: ParseResult)
    requires
        reads(read),
        old(tokens).len() > 0,
    ensures
        r is Ok,
        r->Ok_0@ == atom(readings(read), old(tokens)@[0]@),
        final(tokens)@ == old(tokens)@.drop_first(),
{
    let token = tokens.remove(0);
    assert(tokens@ =~= old(tokens)@.drop_first());
    match parse_number(token.as_str(), read) {
        Some(cell) => Ok(cell),
        None => Ok(parse_other_values(token.as_str())),
    }
}

/// The number that `text` spells, if the host reads one from it.
pub fn parse_number<R: Fn(&str) -> Option<u32>>(text: &str, read: &R) -> (r: Option<RLType>)
    requires
        reads(read),
    ensures
        match readings(read)(text@) {
            Some(bits) => r is Some && r->Some_0@ == Value::Number(bits),
            None => r is None,
        },
{
    let answer = read(text);
    assert(may_read(read, text@, answer));
    match answer {
        Some(bits) => Some(RLType::Number(bits)),
        None => None,
    }
}

/// What a token that spells no number stands for.
pub fn parse_other_values(text: &str) -> (r: RLType)
    ensures
        r@ == word(text@),
{
    if same_text(text, "#t") {
        RLType::True
    } else if same_text(text, "#f") {
        RLType::False
    } else if same_text(text, "nil") {
        RLType::Nil
    } else {
        RLType::Symbol(text.to_owned())
    }
}

/// The tokens that spell a value: an atom is one token, a list is its
/// items between parentheses. A procedure cannot be spelled.
pub open spec fn written(numeral: Numeral, value: Value) -> Seq<Seq<char>>
    decreases value,
{
    match value {
        Value::Nil => seq!["nil"@],
        Value::True => seq!["#t"@],
        Value::False => seq!["#f"@],
        Value::Symbol(name) => seq![name],
        Value::Number(bits) => seq![numeral(bits)],
        Value::List(items) => seq!["("@] + written_all(numeral, items) + seq![")"@],
        _ => Seq::empty(),
    }
}

/// The tokens that spell each of `items`, in order.
pub open spec fn written_all(numeral: Numeral, items: Seq<Value>) -> Seq<Seq<char>>
    decreases items,
{
    if items.len() == 0 {
        Seq::empty()
    } else {
        written(numeral, items[0]) + written_all(numeral, items.drop_first())
    }
}

/// Puts the tokens that spell `value` after those in `out`.
fn write_into<W: Fn(u32) -> String>(value: &RLType, write: &W, out: &mut Vec<String>)
    requires
        writes(write),
    ensures
        texts(final(out)@) == texts(old(out)@) + written(writings(write), value@),
    decreases value, 1nat,
{
    let ghost numeral = writings(write);
    let ghost start = texts(out@);
    match value {
        RLType::Nil => {
            out.push("nil".to_owned());
            assert(texts(out@) =~= start + seq!["nil"@]);
        },
        RLType::True => {
            out.push("#t".to_owned());
            assert(texts(out@) =~= start + seq!["#t"@]);
        },
        RLType::False => {
            out.push("#f".to_owned());
            assert(texts(out@) =~= start + seq!["#f"@]);
        },
        RLType::Symbol(name) => {
            out.push(name.clone());
            assert(texts(out@) =~= start + seq![name@]);
        },
        RLType::Number(bits) => {
            let text = write(*bits);
            assert(may_write(write, *bits, text@));
            out.push(text);
            assert(texts(out@) =~= start + seq![numeral(*bits)]);
        },
        RLType::List(items) => {
            out.push("(".to_owned());
            assert(texts(out@) =~= start + seq!["("@]);
            write_all_into(items, write, out);
            let ghost inner = texts(out@);
            out.push(")".to_owned());
            assert(texts(out@) =~= inner + seq![")"@]);
            assert(texts(out@) =~= start + (seq!["("@] + written_all(numeral, models(items@)) + seq![")"@]));
        },
        _ => {
            assert(texts(out@) =~= start + Seq::<Seq<char>>::empty());
        },
    }
}

/// Puts the tokens that spell each of `items` after those in `out`.
fn write_all_into<W: Fn(u32) -> String>(items: &Vec<RLType>, write: &W, out: &mut Vec<String>)
    requires
        writes(write),
    ensures
        texts(final(out)@) == texts(old(out)@) + written_all(writings(write), models(items@)),
    decreases items, 0nat,
{
    let ghost numeral = writings(write);
    let ghost all = models(items@);
    let ghost start = texts(out@);
    let mut i: usize = 0;
    assert(all.skip(0) =~= all);
    while i < items.len()
        invariant
            writes(write),
            numeral == writings(write),
            all == models(items@),
            i <= items.len(),
            texts(out@) + written_all(numeral, all.skip(i as int)) == start + written_all(numeral, all),
        decreases items.len() - i,
    {
        let ghost before = texts(out@);
        let ghost here = all.skip(i as int);
        assert(here[0] == all[i as int]);
        assert(here.drop_first() =~= all.skip(i + 1));
        write_into(&items[i], write, out);
        proof {
            let item = written(numeral, all[i as int]);
            let rest = written_all(numeral, all.skip(i + 1));
            assert(before + item + rest =~= before + (item + rest));
        }
        i += 1;
    }
    assert(texts(out@) + Seq::<Seq<char>>::empty() =~= texts(out@));
}

/// The tokens that spell `value`, with its numbers as the host writes them.
pub fn write_form<W: Fn(u32) -> String>(value: &RLType, write: &W) -> (r: Vec<String>)
    requires
        writes(write),
    ensures
        texts(r@) == written(writings(write), value@),
{
    let mut out: Vec<String> = Vec::new();
    assert(texts(out@) =~= Seq::empty());
    write_into(value, write, &mut out);
    assert(Seq::<Seq<char>>::empty() + written(writings(write), value@) =~= written(writings(write), value@));
    out
}

/// The text of the tokens from place `i` on: each but the very first comes
/// after a space.
pub open spec fn joined_from(tokens: Seq<Seq<char>>, i: nat) -> Seq<char>
    decreases tokens.len() - i,
{
    if i >= tokens.len() {
        Seq::empty()
    } else {
        let apart = if i == 0 {
            Seq::empty()
        } else {
            seq![' ']
        };
        apart + tokens[i as int] + joined_from(tokens, i + 1)
    }
}

/// The text of a token stream: its tokens, one space between each two.
pub open spec fn joined(tokens: Seq<Seq<char>>) -> Seq<char> {
    joined_from(tokens, 0)
}

/// The tokens as one text, one space between each two.
pub fn join(tokens: &Vec<String>) -> (r: String)
    ensures
        r@ == joined(texts(tokens@)),
{
    let ghost all = texts(tokens@);
    let mut out = String::new();
    let mut i: usize = 0;
    proof {
        reveal_strlit(" ");
    }
    assert(out@ + joined_from(all, 0) =~= joined_from(all, 0));
    while i < tokens.len()
        invariant
            all == texts(tokens@),
            i <= tokens.len(),
            " "@ == seq![' '],
            out@ + joined_from(all, i as nat) == joined_from(all, 0),
        decreases tokens.len() - i,
    {
        let ghost before = out@;
        if i > 0 {
            out.append(" ");
        }
        let ghost apart = if i == 0 {
            Seq::<char>::empty()
        } else {
            seq![' ']
        };
        assert(out@ =~= before + apart);
        out.append(tokens[i].as_str());
        proof {
            let rest = joined_from(all, (i + 1) as nat);
            assert(all[i as int] == tokens@[i as int]@);
            assert(before + apart + all[i as int] + rest =~= before + (apart + all[i as int] + rest));
        }
        i += 1;
    }
    assert(out@ + Seq::<char>::empty() =~= out@);
    out
}

/// The text that spells `value`, with its numbers as the host writes them.
pub fn write_text<W: Fn(u32) -> String>(value: &RLType, write: &W) -> (r: String)
    requires
        writes(write),
    ensures
        r@ == joined(written(writings(write), value@)),
{
    let tokens = write_form(value, write);
    join(&tokens)
}

} // verus!
