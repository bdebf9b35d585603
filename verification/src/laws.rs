//! The general laws of the inference problem, stated over the model that
//! `Solution::alien_order`'s contract speaks of.
use vstd::prelude::*;

use crate::lemmas::{
    lemma_cycle_excludes_valid_order, lemma_letter_set_finite, lemma_norm_words_idempotent,
    lemma_norm_words_lower, lemma_to_lower_letter, lemma_valid_order_length,
};
use crate::model::{
    all_letters, has_cycle, is_ascii_letter, is_cycle, is_valid_order, letter_set, norm_words,
    spec_alien_order, to_lower, word_all_letters,
};

verus! {

/// Whenever any valid ordering exists for a word list, its constraints are
/// not cyclic — so `alien_order`, whose contract promises a valid ordering
/// for every acyclic all-letter input of two or more words, returns a valid
/// ordering on every input that admits one.
pub proof fn lemma_existing_order_implies_no_cycle(ws: Seq<Seq<char>>, r: Seq<char>)
    requires
        is_valid_order(r, ws),
    ensures
        !has_cycle(ws),
{
    if has_cycle(ws) {
        let p = choose|p: Seq<char>| is_cycle(ws, p);
        lemma_cycle_excludes_valid_order(ws, p, r);
    }
}

/// Completeness: every valid ordering — in particular every non-empty
/// result of `alien_order` — has exactly one position per distinct letter
/// of the word list, so its length is the number of distinct letters.
pub proof fn lemma_completeness(ws: Seq<Seq<char>>, r: Seq<char>)
    requires
        is_valid_order(r, ws),
    ensures
        r.len() == letter_set(ws).len(),
{
    lemma_valid_order_length(r, ws);
}

/// The count of distinct letters of an all-letter normalized word list is
/// well defined and never exceeds the size of the alphabet.
pub proof fn lemma_letter_count_bounded(ws: Seq<Seq<char>>)
    requires
        all_letters(ws),
    ensures
        letter_set(norm_words(ws)).finite(),
        letter_set(norm_words(ws)).len() <= 26,
{
    lemma_norm_words_lower(ws);
    lemma_letter_set_finite(norm_words(ws));
}

/// Case-insensitivity: the result of the inference, as `alien_order`'s
/// contract pins it, is the same for a mixed-case word list as for its
/// fully lowercased equivalent.
pub proof fn lemma_case_insensitive(ws: Seq<Seq<char>>)
    ensures
        spec_alien_order(norm_words(ws)) == spec_alien_order(ws),
{
    lemma_normalization_idempotent(ws);
}

/// Case normalization is idempotent over a whole word list, and preserves
/// both the list's length and whether it stays inside the alphabet. A
/// mixed-case input is therefore subject to exactly the same contract of
/// `alien_order` as its fully lowercased form: the same length threshold,
/// the same letter check, the same set of valid orderings, and the same
/// cycle condition.
pub proof fn lemma_normalization_idempotent(ws: Seq<Seq<char>>)
    ensures
        norm_words(norm_words(ws)) == norm_words(ws),
        norm_words(ws).len() == ws.len(),
        all_letters(norm_words(ws)) <==> all_letters(ws),
{
    lemma_norm_words_idempotent(ws);
    let nws = norm_words(ws);
    assert forall|i: int| 0 <= i < ws.len() implies (word_all_letters(#[trigger] nws[i])
        <==> word_all_letters(ws[i])) by {
        assert(nws[i].len() == ws[i].len());
        if word_all_letters(ws[i]) {
            assert forall|j: int| 0 <= j < nws[i].len() implies is_ascii_letter(
                #[trigger] nws[i][j],
            ) by {
                assert(is_ascii_letter(ws[i][j]));
                assert(nws[i][j] == to_lower(ws[i][j]));
                lemma_to_lower_letter(ws[i][j]);
            }
        }
        if word_all_letters(nws[i]) {
            assert forall|j: int| 0 <= j < ws[i].len() implies is_ascii_letter(
                #[trigger] ws[i][j],
            ) by {
                assert(is_ascii_letter(nws[i][j]));
                assert(nws[i][j] == to_lower(ws[i][j]));
                lemma_to_lower_letter(ws[i][j]);
            }
        }
    }
    if all_letters(ws) {
        assert forall|i: int| 0 <= i < nws.len() implies word_all_letters(#[trigger] nws[i]) by {
            assert(word_all_letters(ws[i]));
        }
    }
    if all_letters(nws) {
        assert forall|i: int| 0 <= i < ws.len() implies word_all_letters(#[trigger] ws[i]) by {
            assert(word_all_letters(nws[i]));
        }
    }
}

} // verus!
