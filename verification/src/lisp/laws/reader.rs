//! Laws of the reader: what is read can be written and read again.

use vstd::prelude::*;
use crate::lisp::laws::lexer::{clean, law_joined_tokens_are_read, law_tokens_can_be_joined};
use crate::lisp::lex::{
    ParseError, Parsed, atom, joined, parsed, parsed_list, tokens_of, word, written, written_all,
};
use crate::lisp::number::{Numeral, Reading};
use crate::lisp::types::Value;

verus! {

/// Whether a token is a parenthesis.
pub open spec fn is_parenthesis(token: Seq<char>) -> bool {
    token == "("@ || token == ")"@
}

/// Whether `numeral` spells every number that some token spells, with a
/// token that reads back as that number.
pub open spec fn faithful(reading: Reading, numeral: Numeral) -> bool {
    forall|token: Seq<char>|
        !is_parenthesis(token) && (#[trigger] reading(token)) is Some ==> {
            let bits = reading(token)->Some_0;
            !is_parenthesis(numeral(bits)) && reading(numeral(bits)) == Some(bits)
        }
}

/// For each number one of the tokens that spell it, where there is one.
pub open spec fn spelling(reading: Reading) -> Numeral {
    |bits: u32| choose|token: Seq<char>| !is_parenthesis(token) && reading(token) == Some(bits)
}

/// Whether a value reads back from the tokens that spell it: its atoms are
/// spelled by tokens that stand for them, and it holds no procedure.
pub open spec fn legible(reading: Reading, numeral: Numeral, value: Value) -> bool
    decreases value,
{
    match value {
        Value::Nil => reading("nil"@) is None,
        Value::True => reading("#t"@) is None,
        Value::False => reading("#f"@) is None,
        Value::Symbol(name) => !is_parenthesis(name) && reading(name) is None && word(name) == value,
        Value::Number(bits) => !is_parenthesis(numeral(bits)) && reading(numeral(bits)) == Some(bits),
        Value::List(items) => forall|i: int| 0 <= i < items.len() ==> legible(reading, numeral, #[trigger] items[i]),
        _ => false,
    }
}

/// The spellings of the constants and of the parentheses differ from each
/// other.
proof fn lemma_spellings()
    ensures
        "("@ != ")"@,
        !is_parenthesis("nil"@),
        !is_parenthesis("#t"@),
        !is_parenthesis("#f"@),
        word("nil"@) == Value::Nil,
        word("#t"@) == Value::True,
        word("#f"@) == Value::False,
{
    reveal_strlit("(");
    reveal_strlit(")");
    reveal_strlit("nil");
    reveal_strlit("#t");
    reveal_strlit("#f");
    assert("("@[0] != ")"@[0]);
    assert("#t"@[1] != "#f"@[1]);
    assert("nil"@.len() != "#t"@.len());
}

/// The spelling that picks, for each number, a token that spells it is
/// faithful.
pub proof fn law_spelling_is_faithful(reading: Reading)
    ensures
        faithful(reading, spelling(reading)),
{
    assert forall|token: Seq<char>| !is_parenthesis(token) && (#[trigger] reading(token)) is Some implies {
        let bits = reading(token)->Some_0;
        !is_parenthesis(spelling(reading)(bits)) && reading(spelling(reading)(bits)) == Some(bits)
    } by {
        let bits = reading(token)->Some_0;
        assert(!is_parenthesis(token) && reading(token) == Some(bits));
    }
}

/// A form takes at least one token: what reading leaves is never longer
/// than the stream, and shorter where a form was read.
pub proof fn law_reading_consumes(reading: Reading, tokens: Seq<Seq<char>>)
    ensures
        parsed(reading, tokens).rest.len() <= tokens.len(),
        parsed(reading, tokens).result is Ok ==> parsed(reading, tokens).rest.len() < tokens.len(),
    decreases tokens.len(), 0nat,
{
    if tokens.len() > 0 && tokens[0] == "("@ {
        lemma_list_consumes(reading, tokens.drop_first(), Seq::empty());
    }
}

proof fn lemma_list_consumes(reading: Reading, tokens: Seq<Seq<char>>, items: Seq<Value>)
    ensures
        parsed_list(reading, tokens, items).rest.len() <= tokens.len(),
    decreases tokens.len(), 1nat,
{
    if tokens.len() > 0 && tokens[0] != ")"@ {
        law_reading_consumes(reading, tokens);
        let first = parsed(reading, tokens);
        if first.result is Ok {
            lemma_list_consumes(reading, first.rest, items.push(first.result->Ok_0));
        }
    }
}

/// What is read from tokens is legible.
proof fn lemma_parsed_legible(reading: Reading, numeral: Numeral, tokens: Seq<Seq<char>>)
    requires
        faithful(reading, numeral),
    ensures
        parsed(reading, tokens).result matches Ok(value) ==> legible(reading, numeral, value),
    decreases tokens.len(), 0nat,
{
    lemma_spellings();
    if tokens.len() == 0 {
    } else if tokens[0] == "("@ {
        lemma_list_legible(reading, numeral, tokens.drop_first(), Seq::empty());
    } else if tokens[0] == ")"@ {
    } else {
        let token = tokens[0];
        if reading(token) is Some {
        } else {
        }
    }
}

proof fn lemma_list_legible(reading: Reading, numeral: Numeral, tokens: Seq<Seq<char>>, items: Seq<Value>)
    requires
        faithful(reading, numeral),
        forall|i: int| 0 <= i < items.len() ==> legible(reading, numeral, #[trigger] items[i]),
    ensures
        parsed_list(reading, tokens, items).result matches Ok(value) ==> legible(reading, numeral, value),
    decreases tokens.len(), 1nat,
{
    if tokens.len() > 0 && tokens[0] != ")"@ {
        lemma_parsed_legible(reading, numeral, tokens);
        law_reading_consumes(reading, tokens);
        let first = parsed(reading, tokens);
        if first.result is Ok {
            lemma_list_legible(reading, numeral, first.rest, items.push(first.result->Ok_0));
        }
    }
}

/// A legible value is spelled by at least one token, and the first is no
/// closing parenthesis.
proof fn lemma_written_starts(reading: Reading, numeral: Numeral, value: Value)
    requires
        legible(reading, numeral, value),
    ensures
        written(numeral, value).len() > 0,
        written(numeral, value)[0] != ")"@,
{
    lemma_spellings();
}

/// The tokens that spell a legible value read back as that value, and leave
/// what follows them.
pub proof fn law_written_reads_back(reading: Reading, numeral: Numeral, value: Value, rest: Seq<Seq<char>>)
    requires
        legible(reading, numeral, value),
    ensures
        parsed(reading, written(numeral, value) + rest) == (Parsed { result: Ok(value), rest }),
    decreases value, 0nat,
{
    lemma_spellings();
    let tokens = written(numeral, value) + rest;
    match value {
        Value::List(items) => {
            let inner = written_all(numeral, items) + seq![")"@] + rest;
            assert(tokens.drop_first() =~= inner);
            lemma_items_read_back(reading, numeral, Seq::empty(), items, rest);
            assert(Seq::<Value>::empty() + items =~= items);
        },
        _ => {
            assert(tokens.drop_first() =~= rest);
        },
    }
}

proof fn lemma_items_read_back(
    reading: Reading,
    numeral: Numeral,
    items: Seq<Value>,
    pending: Seq<Value>,
    rest: Seq<Seq<char>>,
)
    requires
        forall|i: int| 0 <= i < pending.len() ==> legible(reading, numeral, #[trigger] pending[i]),
    ensures
        parsed_list(reading, written_all(numeral, pending) + seq![")"@] + rest, items) == (Parsed {
            result: Ok(Value::List(items + pending)),
            rest,
        }),
    decreases pending, 1nat,
{
    let tokens = written_all(numeral, pending) + seq![")"@] + rest;
    if pending.len() == 0 {
        assert(tokens.drop_first() =~= rest);
        assert(items + pending =~= items);
    } else {
        let after = written_all(numeral, pending.drop_first()) + seq![")"@] + rest;
        assert(legible(reading, numeral, pending[0]));
        lemma_written_starts(reading, numeral, pending[0]);
        assert(tokens =~= written(numeral, pending[0]) + after);
        law_written_reads_back(reading, numeral, pending[0], after);
        assert forall|i: int| 0 <= i < pending.drop_first().len() implies legible(
            reading,
            numeral,
            #[trigger] pending.drop_first()[i],
        ) by {
            assert(pending.drop_first()[i] == pending[i + 1]);
        }
        lemma_items_read_back(reading, numeral, items.push(pending[0]), pending.drop_first(), rest);
        assert(items.push(pending[0]) + pending.drop_first() =~= items + pending);
    }
}

/// Whether no token of the stream closes a list.
pub open spec fn unclosed(tokens: Seq<Seq<char>>) -> bool {
    forall|i: int| 0 <= i < tokens.len() ==> tokens[i] != ")"@
}

proof fn lemma_unclosed_items(reading: Reading, tokens: Seq<Seq<char>>, items: Seq<Value>)
    requires
        unclosed(tokens),
    ensures
        parsed_list(reading, tokens, items).result == Err::<Value, ParseError>(ParseError::UnbalancedParens),
    decreases tokens.len(),
{
    if tokens.len() > 0 {
        let after = tokens.drop_first();
        assert(tokens[0] != ")"@);
        assert forall|i: int| 0 <= i < after.len() implies after[i] != ")"@ by {
            assert(after[i] == tokens[i + 1]);
        }
        let first = parsed(reading, tokens);
        if tokens[0] == "("@ {
            lemma_unclosed_items(reading, after, Seq::empty());
            assert(first == parsed_list(reading, after, Seq::empty()));
        } else {
            lemma_unclosed_items(reading, after, items.push(atom(reading, tokens[0])));
            assert(first == Parsed { result: Ok(atom(reading, tokens[0])), rest: after });
        }
    }
}

/// A list that is opened and never closed is unbalanced: where a stream
/// starts with an opening parenthesis and holds no closing one, reading
/// fails with `UnbalancedParens`.
pub proof fn law_unclosed_list_is_unbalanced(reading: Reading, tokens: Seq<Seq<char>>)
    requires
        tokens.len() > 0,
        tokens[0] == "("@,
        unclosed(tokens),
    ensures
        parsed(reading, tokens).result == Err::<Value, ParseError>(ParseError::UnbalancedParens),
{
    let after = tokens.drop_first();
    assert forall|i: int| 0 <= i < after.len() implies after[i] != ")"@ by {
        assert(after[i] == tokens[i + 1]);
    }
    lemma_unclosed_items(reading, after, Seq::empty());
}

/// A form that was read, written out and read again is the same form: the
/// tokens that spell it read back as it, whatever follows them.
pub proof fn law_reading_is_stable(
    reading: Reading,
    numeral: Numeral,
    tokens: Seq<Seq<char>>,
    rest: Seq<Seq<char>>,
)
    requires
        faithful(reading, numeral),
        parsed(reading, tokens).result is Ok,
    ensures
        parsed(reading, written(numeral, parsed(reading, tokens).result->Ok_0) + rest) == (Parsed {
            result: parsed(reading, tokens).result,
            rest,
        }),
{
    lemma_parsed_legible(reading, numeral, tokens);
    law_written_reads_back(reading, numeral, parsed(reading, tokens).result->Ok_0, rest);
}

/// Whether every token of a stream is clean.
pub open spec fn all_clean(tokens: Seq<Seq<char>>) -> bool {
    forall|k: int| 0 <= k < tokens.len() ==> clean(#[trigger] tokens[k])
}

/// Whether `numeral` spells every number with a clean token.
pub open spec fn neat(numeral: Numeral) -> bool {
    forall|bits: u32| clean(#[trigger] numeral(bits))
}

/// The text that spells a legible value, where its tokens are clean, reads
/// back as that value and leaves nothing.
pub proof fn law_text_reads_back(reading: Reading, numeral: Numeral, value: Value)
    requires
        legible(reading, numeral, value),
        all_clean(written(numeral, value)),
    ensures
        parsed(reading, tokens_of(joined(written(numeral, value)))) == (Parsed {
            result: Ok(value),
            rest: Seq::empty(),
        }),
{
    law_joined_tokens_are_read(written(numeral, value));
    law_written_reads_back(reading, numeral, value, Seq::empty());
    assert(written(numeral, value) + Seq::<Seq<char>>::empty() =~= written(numeral, value));
}

proof fn lemma_clean_together(front: Seq<Seq<char>>, back: Seq<Seq<char>>)
    requires
        all_clean(front),
        all_clean(back),
    ensures
        all_clean(front + back),
{
    assert forall|k: int| 0 <= k < (front + back).len() implies clean(#[trigger] (front + back)[k]) by {
        if k < front.len() {
            assert((front + back)[k] == front[k]);
        } else {
            assert((front + back)[k] == back[k - front.len()]);
        }
    }
}

proof fn lemma_written_one_more(numeral: Numeral, items: Seq<Value>, item: Value)
    ensures
        written_all(numeral, items.push(item)) == written_all(numeral, items) + written(numeral, item),
    decreases items.len(),
{
    let longer = items.push(item);
    if items.len() == 0 {
        assert(longer[0] == item);
        assert(longer.drop_first() =~= Seq::<Value>::empty());
        assert(written_all(numeral, longer.drop_first()) =~= Seq::<Seq<char>>::empty());
        assert(written_all(numeral, longer) =~= written(numeral, item));
        assert(written_all(numeral, items) + written(numeral, item) =~= written(numeral, item));
    } else {
        assert(longer[0] == items[0]);
        assert(longer.drop_first() =~= items.drop_first().push(item));
        lemma_written_one_more(numeral, items.drop_first(), item);
        assert(written(numeral, items[0]) + (written_all(numeral, items.drop_first()) + written(numeral, item))
            =~= written(numeral, items[0]) + written_all(numeral, items.drop_first()) + written(numeral, item));
    }
}

proof fn lemma_parentheses_are_clean()
    ensures
        clean("("@),
        clean(")"@),
{
    reveal_strlit("(");
    reveal_strlit(")");
    assert("("@[0] == '(');
    assert(")"@[0] == ')');
}

proof fn lemma_parsed_tidy(reading: Reading, numeral: Numeral, tokens: Seq<Seq<char>>)
    requires
        all_clean(tokens),
        neat(numeral),
    ensures
        parsed(reading, tokens).result matches Ok(value) ==> all_clean(written(numeral, value)),
    decreases tokens.len(), 0nat,
{
    if tokens.len() == 0 {
    } else if tokens[0] == "("@ {
        let after = tokens.drop_first();
        assert forall|k: int| 0 <= k < after.len() implies clean(#[trigger] after[k]) by {
            assert(after[k] == tokens[k + 1]);
        }
        lemma_list_tidy(reading, numeral, after, Seq::empty());
    } else if tokens[0] == ")"@ {
    } else {
        let token = tokens[0];
        assert(clean(token));
        let value = atom(reading, token);
        match value {
            Value::Number(bits) => {
                assert(clean(numeral(bits)));
                assert(written(numeral, value) =~= seq![numeral(bits)]);
            },
            _ => {
                assert(written(numeral, value) =~= seq![token]);
            },
        }
    }
}

proof fn lemma_list_tidy(reading: Reading, numeral: Numeral, tokens: Seq<Seq<char>>, items: Seq<Value>)
    requires
        all_clean(tokens),
        neat(numeral),
        all_clean(written_all(numeral, items)),
    ensures
        parsed_list(reading, tokens, items).result matches Ok(value) ==> all_clean(written(numeral, value)),
    decreases tokens.len(), 1nat,
{
    if tokens.len() == 0 {
    } else if tokens[0] == ")"@ {
        lemma_parentheses_are_clean();
        let inner = written_all(numeral, items);
        lemma_clean_together(seq!["("@], inner);
        lemma_clean_together(seq!["("@] + inner, seq![")"@]);
    } else {
        lemma_parsed_tidy(reading, numeral, tokens);
        law_reading_consumes(reading, tokens);
        lemma_rest_is_clean(reading, tokens);
        let first = parsed(reading, tokens);
        match first.result {
            Ok(item) => {
                lemma_written_one_more(numeral, items, item);
                lemma_clean_together(written_all(numeral, items), written(numeral, item));
                lemma_list_tidy(reading, numeral, first.rest, items.push(item));
            },
            Err(_) => {},
        }
    }
}

/// What reading leaves of clean tokens is clean.
proof fn lemma_rest_is_clean(reading: Reading, tokens: Seq<Seq<char>>)
    requires
        all_clean(tokens),
    ensures
        all_clean(parsed(reading, tokens).rest),
    decreases tokens.len(), 0nat,
{
    if tokens.len() > 0 {
        let after = tokens.drop_first();
        assert forall|k: int| 0 <= k < after.len() implies clean(#[trigger] after[k]) by {
            assert(after[k] == tokens[k + 1]);
        }
        if tokens[0] == "("@ {
            lemma_list_rest_is_clean(reading, after, Seq::empty());
        }
    }
}

proof fn lemma_list_rest_is_clean(reading: Reading, tokens: Seq<Seq<char>>, items: Seq<Value>)
    requires
        all_clean(tokens),
    ensures
        all_clean(parsed_list(reading, tokens, items).rest),
    decreases tokens.len(), 1nat,
{
    if tokens.len() > 0 {
        let after = tokens.drop_first();
        assert forall|k: int| 0 <= k < after.len() implies clean(#[trigger] after[k]) by {
            assert(after[k] == tokens[k + 1]);
        }
        if tokens[0] != ")"@ {
            lemma_rest_is_clean(reading, tokens);
            let first = parsed(reading, tokens);
            match first.result {
                Ok(item) => {
                    if first.rest.len() < tokens.len() {
                        lemma_list_rest_is_clean(reading, first.rest, items.push(item));
                    }
                },
                Err(_) => {},
            }
        }
    }
}

/// The form that a source text holds, written out as text and read from
/// that text, is the same form: reading, writing and reading again gives
/// what reading gave.
pub proof fn law_source_reads_back(reading: Reading, numeral: Numeral, text: Seq<char>)
    requires
        faithful(reading, numeral),
        neat(numeral),
        parsed(reading, tokens_of(text)).result is Ok,
    ensures
        parsed(reading, tokens_of(joined(written(numeral, parsed(reading, tokens_of(text)).result->Ok_0))))
            == (Parsed { result: parsed(reading, tokens_of(text)).result, rest: Seq::empty() }),
{
    let tokens = tokens_of(text);
    law_tokens_can_be_joined(text);
    lemma_parsed_legible(reading, numeral, tokens);
    lemma_parsed_tidy(reading, numeral, tokens);
    law_text_reads_back(reading, numeral, parsed(reading, tokens).result->Ok_0);
}

} // verus!
