//! Laws of the lexer: what every token is like.

use vstd::prelude::*;
use crate::lisp::lex::{is_whitespace, joined, joined_from, padded, spaced, tokens_of, word_len, words};

verus! {

/// Whether `c` is a parenthesis.
pub open spec fn is_paren(c: char) -> bool {
    c == '(' || c == ')'
}

/// Whether a token holds a parenthesis.
pub open spec fn has_paren(token: Seq<char>) -> bool {
    exists|j: int| 0 <= j < token.len() && is_paren(#[trigger] token[j])
}

/// Whether every parenthesis of a text has white space after it, and
/// before it unless it starts the text.
pub open spec fn fenced(text: Seq<char>) -> bool {
    forall|i: int|
        0 <= i < text.len() && is_paren(#[trigger] text[i]) ==> {
            &&& i == 0 || is_whitespace(text[i - 1])
            &&& i + 1 < text.len() && is_whitespace(text[i + 1])
        }
}

/// The run at the front of a text is within the text, holds no white space,
/// ends at white space or with the text, and is not empty where the text
/// starts with a character that is no white space.
pub proof fn law_word_is_within(text: Seq<char>)
    ensures
        word_len(text) <= text.len(),
        text.len() > 0 && !is_whitespace(text[0]) ==> word_len(text) > 0,
        forall|j: int| 0 <= j < word_len(text) ==> !is_whitespace(#[trigger] text[j]),
        word_len(text) < text.len() ==> is_whitespace(text[word_len(text) as int]),
    decreases text.len(),
{
    if text.len() > 0 && !is_whitespace(text[0]) {
        let rest = text.drop_first();
        law_word_is_within(rest);
        assert forall|j: int| 0 <= j < word_len(text) implies !is_whitespace(#[trigger] text[j]) by {
            if j > 0 {
                assert(text[j] == rest[j - 1]);
            }
        }
        if word_len(text) < text.len() {
            assert(text[word_len(text) as int] == rest[word_len(rest) as int]);
        }
    }
}

/// No word is empty, and no word holds white space.
pub proof fn law_words_hold_no_white_space(text: Seq<char>, i: int)
    requires
        0 <= i < words(text).len(),
    ensures
        words(text)[i].len() > 0,
        forall|j: int| 0 <= j < words(text)[i].len() ==> !is_whitespace(#[trigger] words(text)[i][j]),
    decreases text.len(),
{
    if text.len() == 0 {
    } else if is_whitespace(text[0]) {
        law_words_hold_no_white_space(text.drop_first(), i);
    } else {
        law_word_is_within(text);
        let n = word_len(text) as int;
        if i == 0 {
            assert(words(text)[0] == text.take(n));
        } else {
            assert(words(text)[i] == words(text.skip(n))[i - 1]);
            law_words_hold_no_white_space(text.skip(n), i - 1);
        }
    }
}

proof fn lemma_spaced_is_fenced(text: Seq<char>)
    ensures
        fenced(spaced(text)),
    decreases text.len(),
{
    if text.len() > 0 {
        let before = spaced(text.drop_last());
        let whole = spaced(text);
        lemma_spaced_is_fenced(text.drop_last());
        assert(whole == before + padded(text.last()));
        assert forall|i: int| 0 <= i < whole.len() && is_paren(#[trigger] whole[i]) implies {
            &&& i == 0 || is_whitespace(whole[i - 1])
            &&& i + 1 < whole.len() && is_whitespace(whole[i + 1])
        } by {
            if i < before.len() {
                assert(whole[i] == before[i]);
                assert(is_paren(before[i]));
                assert(whole[i + 1] == before[i + 1]);
                if i > 0 {
                    assert(whole[i - 1] == before[i - 1]);
                }
            } else {
                let k = i - before.len();
                assert(whole[i] == padded(text.last())[k]);
                assert(is_paren(text.last()));
                assert(k == 1);
                assert(whole[i - 1] == padded(text.last())[0]);
                assert(whole[i + 1] == padded(text.last())[2]);
            }
        }
    }
}

proof fn lemma_fenced_words(text: Seq<char>, i: int)
    requires
        fenced(text),
        0 <= i < words(text).len(),
        has_paren(words(text)[i]),
    ensures
        words(text)[i].len() == 1,
    decreases text.len(),
{
    if text.len() == 0 {
    } else if is_whitespace(text[0]) {
        let rest = text.drop_first();
        assert forall|k: int| 0 <= k < rest.len() && is_paren(#[trigger] rest[k]) implies {
            &&& k == 0 || is_whitespace(rest[k - 1])
            &&& k + 1 < rest.len() && is_whitespace(rest[k + 1])
        } by {
            assert(rest[k] == text[k + 1]);
            assert(is_paren(text[k + 1]));
        }
        lemma_fenced_words(rest, i);
    } else {
        law_word_is_within(text);
        let n = word_len(text) as int;
        if i == 0 {
            let word = text.take(n);
            assert(words(text)[0] == word);
            let j = choose|j: int| 0 <= j < word.len() && is_paren(#[trigger] word[j]);
            assert(word[j] == text[j]);
            assert(is_paren(text[j]));
            if j > 0 {
                assert(!is_whitespace(text[j - 1]));
            }
            assert(j == 0);
            assert(is_whitespace(text[1]));
            assert(text.drop_first()[0] == text[1]);
            assert(word_len(text.drop_first()) == 0);
        } else {
            let rest = text.skip(n);
            assert(words(text)[i] == words(rest)[i - 1]);
            assert forall|k: int| 0 <= k < rest.len() && is_paren(#[trigger] rest[k]) implies {
                &&& k == 0 || is_whitespace(rest[k - 1])
                &&& k + 1 < rest.len() && is_whitespace(rest[k + 1])
            } by {
                assert(rest[k] == text[k + n]);
                assert(is_paren(text[k + n]));
            }
            lemma_fenced_words(rest, i - 1);
        }
    }
}

/// Every token of a source text is a run of one character or more that
/// holds no white space, and a parenthesis is always a token by itself.
pub proof fn law_tokens_are_clean(text: Seq<char>, i: int)
    requires
        0 <= i < tokens_of(text).len(),
    ensures
        tokens_of(text)[i].len() > 0,
        forall|j: int| 0 <= j < tokens_of(text)[i].len() ==> !is_whitespace(#[trigger] tokens_of(text)[i][j]),
        has_paren(tokens_of(text)[i]) ==> tokens_of(text)[i].len() == 1,
{
    law_words_hold_no_white_space(spaced(text), i);
    lemma_spaced_is_fenced(text);
    if has_paren(tokens_of(text)[i]) {
        lemma_fenced_words(spaced(text), i);
    }
}

/// Whether a token can stand in a text: it is not empty, it holds no white
/// space, and it holds a parenthesis only where it is one.
pub open spec fn clean(token: Seq<char>) -> bool {
    &&& token.len() > 0
    &&& forall|j: int| 0 <= j < token.len() ==> !is_whitespace(#[trigger] token[j])
    &&& has_paren(token) ==> token.len() == 1
}

/// Spacing goes through a text part by part.
proof fn lemma_spaced_in_parts(front: Seq<char>, back: Seq<char>)
    ensures
        spaced(front + back) == spaced(front) + spaced(back),
    decreases back.len(),
{
    if back.len() == 0 {
        assert(front + back =~= front);
        assert(spaced(front) + spaced(back) =~= spaced(front));
    } else {
        assert((front + back).drop_last() =~= front + back.drop_last());
        assert((front + back).last() == back.last());
        lemma_spaced_in_parts(front, back.drop_last());
        assert(spaced(front) + spaced(back.drop_last()) + padded(back.last()) =~= spaced(front) + (spaced(
            back.drop_last(),
        ) + padded(back.last())));
    }
}

/// Spacing leaves a text without parentheses as it is.
proof fn lemma_spaced_plain(text: Seq<char>)
    requires
        !has_paren(text),
    ensures
        spaced(text) == text,
    decreases text.len(),
{
    if text.len() > 0 {
        let front = text.drop_last();
        assert(!is_paren(text[text.len() - 1]));
        assert(!has_paren(front)) by {
            if has_paren(front) {
                let j = choose|j: int| 0 <= j < front.len() && is_paren(#[trigger] front[j]);
                assert(is_paren(text[j]));
            }
        }
        lemma_spaced_plain(front);
        assert(front + seq![text.last()] =~= text);
    }
}

/// A run that holds no white space, before white space or the end, is as
/// long as it is.
proof fn lemma_run_is_word(run: Seq<char>, rest: Seq<char>)
    requires
        forall|j: int| 0 <= j < run.len() ==> !is_whitespace(#[trigger] run[j]),
        rest.len() == 0 || is_whitespace(rest[0]),
    ensures
        word_len(run + rest) == run.len(),
    decreases run.len(),
{
    if run.len() == 0 {
        assert(run + rest =~= rest);
    } else {
        assert((run + rest)[0] == run[0]);
        assert((run + rest).drop_first() =~= run.drop_first() + rest);
        assert forall|j: int| 0 <= j < run.drop_first().len() implies !is_whitespace(
            #[trigger] run.drop_first()[j],
        ) by {
            assert(run.drop_first()[j] == run[j + 1]);
        }
        lemma_run_is_word(run.drop_first(), rest);
    }
}

/// Such a run is the first word of the text, and the other words are those
/// of what follows it.
proof fn lemma_word_then_rest(run: Seq<char>, rest: Seq<char>)
    requires
        run.len() > 0,
        forall|j: int| 0 <= j < run.len() ==> !is_whitespace(#[trigger] run[j]),
        rest.len() == 0 || is_whitespace(rest[0]),
    ensures
        words(run + rest) == seq![run] + words(rest),
{
    let text = run + rest;
    lemma_run_is_word(run, rest);
    assert(text[0] == run[0]);
    assert(text.take(run.len() as int) =~= run);
    assert(text.skip(run.len() as int) =~= rest);
}

proof fn lemma_joined_is_read(tokens: Seq<Seq<char>>, i: nat)
    requires
        forall|k: int| 0 <= k < tokens.len() ==> clean(#[trigger] tokens[k]),
        i <= tokens.len(),
    ensures
        words(spaced(joined_from(tokens, i))) == tokens.skip(i as int),
        i > 0 ==> {
            let text = spaced(joined_from(tokens, i));
            text.len() == 0 || is_whitespace(text[0])
        },
    decreases tokens.len() - i,
{
    if i >= tokens.len() {
        assert(tokens.skip(i as int) =~= Seq::empty());
    } else {
        let token = tokens[i as int];
        let apart = if i == 0 {
            Seq::<char>::empty()
        } else {
            seq![' ']
        };
        let after = joined_from(tokens, i + 1);
        let rest = spaced(after);
        lemma_joined_is_read(tokens, i + 1);
        assert(clean(token));
        assert(joined_from(tokens, i) == apart + token + after);
        lemma_spaced_in_parts(apart + token, after);
        lemma_spaced_in_parts(apart, token);
        assert(!has_paren(apart)) by {
            if has_paren(apart) {
                let j = choose|j: int| 0 <= j < apart.len() && is_paren(#[trigger] apart[j]);
                assert(apart[j] == ' ');
            }
        }
        lemma_spaced_plain(apart);
        let whole = spaced(joined_from(tokens, i));
        assert(whole == apart + spaced(token) + rest);
        assert(seq![token] + tokens.skip(i as int + 1) =~= tokens.skip(i as int));
        if has_paren(token) {
            let c = token[0];
            let j = choose|j: int| 0 <= j < token.len() && is_paren(#[trigger] token[j]);
            assert(j == 0);
            assert(token =~= seq![c]);
            assert(token.drop_last() =~= Seq::<char>::empty());
            assert(spaced(token) =~= seq![' ', c, ' ']) by {
                assert(spaced(token) == spaced(token.drop_last()) + padded(token.last()));
            }
            let tail = seq![' '] + rest;
            assert(words(tail) == words(rest)) by {
                assert(tail.drop_first() =~= rest);
            }
            lemma_word_then_rest(token, tail);
            let inner = token + tail;
            let once = seq![' '] + inner;
            assert(once[0] == ' ');
            assert(once.drop_first() =~= inner);
            assert(words(once) == words(inner));
            if i == 0 {
                assert(whole =~= once);
            } else {
                let twice = seq![' '] + once;
                assert(twice[0] == ' ');
                assert(twice.drop_first() =~= once);
                assert(words(twice) == words(once));
                assert(whole =~= twice);
            }
            assert(words(whole) == seq![token] + words(rest));
        } else {
            lemma_spaced_plain(token);
            lemma_word_then_rest(token, rest);
            let inner = token + rest;
            if i == 0 {
                assert(whole =~= inner);
            } else {
                let once = seq![' '] + inner;
                assert(once[0] == ' ');
                assert(once.drop_first() =~= inner);
                assert(words(once) == words(inner));
                assert(whole =~= once);
            }
            assert(words(whole) == seq![token] + words(rest));
        }
    }
}

/// Clean tokens, written out with a space between each two, are the tokens
/// of that text.
pub proof fn law_joined_tokens_are_read(tokens: Seq<Seq<char>>)
    requires
        forall|k: int| 0 <= k < tokens.len() ==> clean(#[trigger] tokens[k]),
    ensures
        tokens_of(joined(tokens)) == tokens,
{
    lemma_joined_is_read(tokens, 0);
    assert(tokens.skip(0) =~= tokens);
}

/// Every token of a source text is clean.
pub proof fn law_tokens_can_be_joined(text: Seq<char>)
    ensures
        forall|k: int| 0 <= k < tokens_of(text).len() ==> clean(#[trigger] tokens_of(text)[k]),
{
    assert forall|k: int| 0 <= k < tokens_of(text).len() implies clean(#[trigger] tokens_of(text)[k]) by {
        law_tokens_are_clean(text, k);
    }
}

} // verus!
