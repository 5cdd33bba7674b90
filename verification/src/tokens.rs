//! Tokens: the maximal runs of non-whitespace characters of a text.

use crate::whitespace::{is_separator, is_whitespace};
use vstd::prelude::*;
use vstd::std_specs::iter::IteratorSpec;

verus! {

/// Number of characters at the front of `s` before its first whitespace
/// character (all of them where it has none).
pub open spec fn word_len(s: Seq<char>) -> nat
    decreases s.len(),
{
    if s.len() == 0 || is_whitespace(s[0]) {
        0
    } else {
        1 + word_len(s.drop_first())
    }
}

/// The tokens of `s` in the order in which they stand: each maximal run of
/// characters that are not whitespace.
pub open spec fn tokens_of(s: Seq<char>) -> Seq<Seq<char>>
    decreases s.len(),
    via tokens_of_terminates
{
    if s.len() == 0 {
        Seq::empty()
    } else if is_whitespace(s[0]) {
        tokens_of(s.drop_first())
    } else {
        seq![s.take(word_len(s) as int)] + tokens_of(s.skip(word_len(s) as int))
    }
}

#[via_fn]
proof fn tokens_of_terminates(s: Seq<char>) {
    lemma_word_len(s);
}

/// Whether `w` can be a token: it is not empty and holds no whitespace.
pub open spec fn is_word(w: Seq<char>) -> bool {
    w.len() > 0 && forall|i: int| 0 <= i < w.len() ==> !is_whitespace(#[trigger] w[i])
}

/// `word_len` stops at the first whitespace character and not before.
pub proof fn lemma_word_len(s: Seq<char>)
    ensures
        word_len(s) <= s.len(),
        forall|i: int| 0 <= i < word_len(s) ==> !is_whitespace(#[trigger] s[i]),
        word_len(s) < s.len() ==> is_whitespace(s[word_len(s) as int]),
        s.len() > 0 && !is_whitespace(s[0]) ==> word_len(s) >= 1,
    decreases s.len(),
{
    if s.len() > 0 && !is_whitespace(s[0]) {
        let t = s.drop_first();
        lemma_word_len(t);
        assert forall|i: int| 0 <= i < word_len(s) implies !is_whitespace(#[trigger] s[i]) by {
            if i > 0 {
                assert(s[i] == t[i - 1]);
            }
        }
    }
}

/// A prefix without whitespace that ends where `s` ends or where a whitespace
/// character follows is the first word of `s`.
pub proof fn lemma_word_len_is(s: Seq<char>, n: int)
    requires
        0 <= n <= s.len(),
        forall|i: int| 0 <= i < n ==> !is_whitespace(#[trigger] s[i]),
        n < s.len() ==> is_whitespace(s[n]),
    ensures
        word_len(s) == n,
    decreases s.len(),
{
    if s.len() > 0 && !is_whitespace(s[0]) {
        lemma_word_len_is(s.drop_first(), n - 1);
    }
}

/// A word, then either nothing or text that starts with whitespace: the word
/// is the first token, and the others are those of the text behind it.
pub proof fn lemma_tokens_after_word(w: Seq<char>, rest: Seq<char>)
    requires
        forall|i: int| 0 <= i < w.len() ==> !is_whitespace(#[trigger] w[i]),
        rest.len() > 0 ==> is_whitespace(rest[0]),
    ensures
        tokens_of(w + rest) == if w.len() == 0 {
            tokens_of(rest)
        } else {
            seq![w] + tokens_of(rest)
        },
{
    let s = w + rest;
    if w.len() > 0 {
        lemma_word_len_is(s, w.len() as int);
        assert(s.take(w.len() as int) =~= w);
        assert(s.skip(w.len() as int) =~= rest);
    }
}

/// Text that ends in whitespace closes its last token: what follows it
/// contributes tokens of its own and extends none.
pub proof fn lemma_tokens_concat(a: Seq<char>, b: Seq<char>)
    requires
        a.len() > 0 ==> is_whitespace(a.last()),
    ensures
        tokens_of(a + b) == tokens_of(a) + tokens_of(b),
    decreases a.len(),
{
    if a.len() == 0 {
        // nothing stands before `b`
    } else if is_whitespace(a[0]) {
        let t = a.drop_first();
        assert((a + b).drop_first() =~= t + b);
        lemma_tokens_concat(t, b);
    } else {
        // the last character of `a` is whitespace, so its first word ends
        // before that, and is the first word of `a + b` too
        let n = word_len(a) as int;
        lemma_word_len(a);
        let w = a.take(n);
        let t = a.skip(n);
        assert(a + b =~= w + (t + b));
        lemma_tokens_after_word(w, t + b);
        lemma_tokens_after_word(w, t);
        lemma_tokens_concat(t, b);
    }
}

/// Every token is a word: not empty, and free of whitespace.
pub proof fn lemma_tokens_are_words(s: Seq<char>)
    ensures
        forall|k: int| 0 <= k < tokens_of(s).len() ==> is_word(#[trigger] tokens_of(s)[k]),
    decreases s.len(),
{
    if s.len() == 0 {
        // no text, no token
    } else if is_whitespace(s[0]) {
        lemma_tokens_are_words(s.drop_first());
        assert(tokens_of(s) == tokens_of(s.drop_first()));
    } else {
        let n = word_len(s) as int;
        lemma_word_len(s);
        lemma_tokens_are_words(s.skip(n));
        assert forall|k: int| 0 <= k < tokens_of(s).len() implies is_word(
            #[trigger] tokens_of(s)[k],
        ) by {
            if k > 0 {
                assert(tokens_of(s)[k] == tokens_of(s.skip(n))[k - 1]);
            }
        }
    }
}

/// Splits `text` into its tokens, in the order in which they stand.
pub fn split_tokens(text: &str) -> (tokens: Vec<String>)
    ensures
        tokens.deep_view() == tokens_of(text@),
{
    let mut tokens: Vec<String> = Vec::new();
    let mut word = String::new();
    let mut rest = text.chars();
    loop
        invariant_except_break
            forall|i: int| 0 <= i < word@.len() ==> !is_whitespace(#[trigger] word@[i]),
            tokens.deep_view() + tokens_of(word@ + rest.remaining()) == tokens_of(text@),
            rest.decrease() is Some,
        ensures
            tokens.deep_view() == tokens_of(text@),
        decreases rest.decrease()->0,
    {
        let ghost before = rest.remaining();
        match rest.next() {
            None => {
                proof {
                    lemma_tokens_after_word(word@, before);
                }
                if !word.as_str().is_empty() {
                    tokens.push(word);
                }
                break ;
            },
            Some(c) => {
                if is_separator(c) {
                    proof {
                        lemma_tokens_after_word(word@, before);
                    }
                    if !word.as_str().is_empty() {
                        tokens.push(word);
                        word = String::new();
                    }
                } else {
                    let ghost short = word@;
                    word.push(c);
                    assert(word@ + rest.remaining() =~= short + before);
                }
            },
        }
    }
    tokens
}

} // verus!
