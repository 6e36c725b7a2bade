//! Tokens: the words that the classifier counts.
//!
//! A token is a maximal run of lower-case letters, digits and apostrophes.
//! The runs are found with the `regex` crate.

use vstd::prelude::*;
use regex::Regex;
use crate::dedup::{distinct, lemma_merged_contains};

verus! {

/// Whether a character can stand in a token.
pub open spec fn is_token_char(c: char) -> bool {
    ('a' <= c && c <= 'z') || ('0' <= c && c <= '9') || c == '\''
}

/// The runs of `rest`, read after a run `open` that has not ended yet.
pub open spec fn runs_after(open: Seq<char>, rest: Seq<char>) -> Seq<Seq<char>>
    decreases rest.len(),
{
    if rest.len() == 0 {
        if open.len() > 0 {
            seq![open]
        } else {
            Seq::empty()
        }
    } else if is_token_char(rest[0]) {
        runs_after(open.push(rest[0]), rest.drop_first())
    } else if open.len() > 0 {
        seq![open] + runs_after(Seq::empty(), rest.drop_first())
    } else {
        runs_after(Seq::empty(), rest.drop_first())
    }
}

/// The maximal runs of token characters in a text, from left to right.
pub open spec fn token_runs(text: Seq<char>) -> Seq<Seq<char>> {
    runs_after(Seq::empty(), text)
}

/// Whether a text is a word: not empty, and made of token characters only.
pub open spec fn is_word(t: Seq<char>) -> bool {
    t.len() > 0 && forall|k: int| 0 <= k < t.len() ==> is_token_char(#[trigger] t[k])
}

/// Every run that is read after a run of token characters is a word.
pub proof fn lemma_runs_after_are_words(open: Seq<char>, rest: Seq<char>)
    requires
        forall|k: int| 0 <= k < open.len() ==> is_token_char(#[trigger] open[k]),
    ensures
        forall|i: int|
            0 <= i < runs_after(open, rest).len() ==> is_word(#[trigger] runs_after(open, rest)[i]),
    decreases rest.len(),
{
    let runs = runs_after(open, rest);
    if rest.len() == 0 {
        if open.len() > 0 {
            assert(is_word(open));
            assert(runs =~= seq![open]);
            assert forall|i: int| 0 <= i < runs.len() implies is_word(#[trigger] runs[i]) by {
                assert(runs[i] == open);
            }
        }
    } else if is_token_char(rest[0]) {
        let longer = open.push(rest[0]);
        assert forall|k: int| 0 <= k < longer.len() implies is_token_char(
            #[trigger] longer[k],
        ) by {
            if k < open.len() {
                assert(longer[k] == open[k]);
            }
        }
        lemma_runs_after_are_words(longer, rest.drop_first());
        assert(runs == runs_after(longer, rest.drop_first()));
    } else {
        let later = runs_after(Seq::empty(), rest.drop_first());
        lemma_runs_after_are_words(Seq::empty(), rest.drop_first());
        if open.len() > 0 {
            assert(is_word(open));
            assert(runs =~= seq![open] + later);
            assert forall|i: int| 0 <= i < runs.len() implies is_word(#[trigger] runs[i]) by {
                if i > 0 {
                    assert(runs[i] == later[i - 1]);
                } else {
                    assert(runs[i] == open);
                }
            }
        } else {
            assert(runs == later);
        }
    }
}

/// Every token of a text is a word, and no token occurs twice among the
/// tokens of a text.
pub proof fn lemma_tokens_are_words(text: Seq<char>)
    ensures
        forall|i: int| 0 <= i < token_runs(text).len() ==> is_word(#[trigger] token_runs(text)[i]),
        forall|i: int|
            0 <= i < distinct(token_runs(text)).len() ==> is_word(
                #[trigger] distinct(token_runs(text))[i],
            ),
        distinct(token_runs(text)).no_duplicates(),
{
    lemma_runs_after_are_words(Seq::empty(), text);
    let runs = token_runs(text);
    let tokens = distinct(runs);
    assert forall|i: int| 0 <= i < tokens.len() implies is_word(#[trigger] tokens[i]) by {
        lemma_merged_contains(Seq::empty(), runs, tokens[i]);
        assert(tokens.contains(tokens[i]));
        let j = choose|j: int| 0 <= j < runs.len() && runs[j] == tokens[i];
        assert(is_word(runs[j]));
    }
    crate::dedup::lemma_merged_distinct(Seq::empty(), runs);
}

/// A text without token characters has no tokens.
pub proof fn lemma_no_token_chars_no_tokens(text: Seq<char>)
    requires
        forall|k: int| 0 <= k < text.len() ==> !is_token_char(#[trigger] text[k]),
    ensures
        token_runs(text) == Seq::<Seq<char>>::empty(),
    decreases text.len(),
{
    if text.len() > 0 {
        let rest = text.drop_first();
        assert forall|k: int| 0 <= k < rest.len() implies !is_token_char(#[trigger] rest[k]) by {
            assert(rest[k] == text[k + 1]);
        }
        lemma_no_token_chars_no_tokens(rest);
    }
}

/// The pattern of a token.
pub open spec fn token_pattern() -> Seq<char> {
    "[a-z0-9']+"@
}

/// Calls `Regex::new` on the pattern and `Regex::find_iter` on the text, and
/// copies the matches out in order.
///
/// Assumed, for the pattern of a token only: the pattern compiles, so the
/// result is `Some`; and the successive non-overlapping matches of a
/// repeated character class are the maximal runs of characters of that
/// class, from left to right.
#[verifier::external_body]
fn find_runs(pattern: &str, text: &str) -> (r: Option<Vec<String>>)
    requires
        pattern@ == token_pattern(),
    ensures
        r is Some,
        r matches Some(runs) ==> runs.deep_view() == token_runs(text@),
{
    match Regex::new(pattern) {
        Ok(re) => Some(re.find_iter(text).map(|m| m.as_str().to_string()).collect()),
        Err(_) => None,
    }
}

/// The tokens of a text: its maximal runs of lower-case letters, digits and
/// apostrophes, each once, in the order of their first occurrence.
///
/// Upper-case letters are no token characters: the text is meant to be in
/// lower case already.
pub fn tokenize(lower_case_text: &str) -> (tokens: Vec<String>)
    ensures
        tokens.deep_view() == distinct(token_runs(lower_case_text@)),
{
    let runs = match find_runs("[a-z0-9']+", lower_case_text) {
        Some(runs) => runs,
        None => Vec::new(),
    };
    let ghost all = runs.deep_view();
    let mut tokens: Vec<String> = Vec::new();
    let mut i: usize = 0;
    assert(tokens.deep_view() =~= distinct(all.take(0)));
    while i < runs.len()
        invariant
            i <= runs.len(),
            all == runs.deep_view(),
            tokens.deep_view() == distinct(all.take(i as int)),
        decreases runs.len() - i,
    {
        proof {
            let next = all.take(i + 1);
            assert(next.drop_last() =~= all.take(i as int));
            assert(next.last() == runs[i as int]@);
        }
        if !crate::text::list_contains(&tokens, &runs[i]) {
            let ghost before = tokens.deep_view();
            tokens.push(runs[i].clone());
            assert(tokens.deep_view() =~= before.push(runs[i as int]@));
        }
        i += 1;
    }
    assert(all.take(runs.len() as int) =~= all);
    tokens
}

} // verus!
