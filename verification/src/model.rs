//! The mathematical model of the alphabet-inference problem: normalized
//! letters, the precedence constraints implied by adjacent word pairs, what
//! counts as a valid ordering, and what counts as a contradictory (cyclic)
//! set of constraints.
use vstd::prelude::*;

verus! {

/// A lower-case ASCII letter, the normalized form every letter takes.
pub open spec fn is_lower_letter(c: char) -> bool {
    'a' <= c && c <= 'z'
}

/// An upper-case ASCII letter.
pub open spec fn is_upper_letter(c: char) -> bool {
    'A' <= c && c <= 'Z'
}

/// Any ASCII letter, the only characters the alphabet admits.
pub open spec fn is_ascii_letter(c: char) -> bool {
    is_lower_letter(c) || is_upper_letter(c)
}

/// Case normalization of a single character: upper-case ASCII letters map to
/// their lower-case form, everything else is unchanged.
pub open spec fn to_lower(c: char) -> char {
    if is_upper_letter(c) {
        ((c as int) + 32) as char
    } else {
        c
    }
}

/// A word with every character case-normalized.
pub open spec fn norm_word(w: Seq<char>) -> Seq<char> {
    w.map_values(|c: char| to_lower(c))
}

/// A word list with every word case-normalized.
pub open spec fn norm_words(ws: Seq<Seq<char>>) -> Seq<Seq<char>> {
    ws.map_values(|w: Seq<char>| norm_word(w))
}

/// Every character of the word is an ASCII letter.
pub open spec fn word_all_letters(w: Seq<char>) -> bool {
    forall|j: int| 0 <= j < w.len() ==> is_ascii_letter(#[trigger] w[j])
}

/// Every character of every word is an ASCII letter.
pub open spec fn all_letters(ws: Seq<Seq<char>>) -> bool {
    forall|i: int| 0 <= i < ws.len() ==> word_all_letters(#[trigger] ws[i])
}

/// The index of a lower-case letter in the alphabet: 'a' is 0, 'z' is 25.
pub open spec fn letter_index(c: char) -> int {
    (c as int) - 97
}

/// The lower-case letter standing at an alphabet index: 0 is 'a', 25 is 'z'.
pub open spec fn index_char(l: int) -> char {
    ((l + 97) as char)
}

/// The character occurs somewhere in the word list.
pub open spec fn appears(ws: Seq<Seq<char>>, c: char) -> bool {
    exists|i: int, j: int| 0 <= i < ws.len() && 0 <= j < ws[i].len() && ws[i][j] == c
}

/// The set of distinct characters occurring in the word list.
pub open spec fn letter_set(ws: Seq<Seq<char>>) -> Set<char> {
    Set::new(|c: char| appears(ws, c))
}

/// The first position where two words disagree, reported as the pair of
/// characters found there. `None` when one word is a prefix of the other
/// (that comparison carries no ordering information).
pub open spec fn first_diff(w1: Seq<char>, w2: Seq<char>) -> Option<(char, char)>
    decreases w1.len(),
{
    if w1.len() == 0 || w2.len() == 0 {
        None
    } else if w1[0] == w2[0] {
        first_diff(w1.drop_first(), w2.drop_first())
    } else {
        Some((w1[0], w2[0]))
    }
}

/// The word list asserts the precedence constraint `a` before `b`: some
/// adjacent pair of words first disagrees at a position holding `a` in the
/// earlier word and `b` in the later one.
pub open spec fn has_edge(ws: Seq<Seq<char>>, a: char, b: char) -> bool {
    exists|i: int|
        0 <= i < ws.len() - 1 && #[trigger] first_diff(ws[i], ws[i + 1]) == Some((a, b))
}

/// `r` is a valid ordering for the word list: it lists each distinct
/// character exactly once, and every precedence constraint places its source
/// strictly before its destination.
pub open spec fn is_valid_order(r: Seq<char>, ws: Seq<Seq<char>>) -> bool {
    &&& r.no_duplicates()
    &&& forall|c: char|
        #![trigger r.contains(c)]
        #![trigger appears(ws, c)]
        r.contains(c) <==> appears(ws, c)
    &&& forall|a: char, b: char|
        #[trigger] has_edge(ws, a, b) ==> r.index_of(a) < r.index_of(b)
}

/// `p` is a cycle of precedence constraints: each letter must come before
/// the next, and the last must come before the first.
pub open spec fn is_cycle(ws: Seq<Seq<char>>, p: Seq<char>) -> bool {
    &&& p.len() > 0
    &&& forall|k: int| 0 <= k < p.len() - 1 ==> has_edge(ws, #[trigger] p[k], p[k + 1])
    &&& has_edge(ws, p.last(), p[0])
}

/// The constraints of the word list are contradictory: some cycle exists.
pub open spec fn has_cycle(ws: Seq<Seq<char>>) -> bool {
    exists|p: Seq<char>| is_cycle(ws, p)
}

/// The constraint between two alphabet indices, read off the word list.
pub open spec fn edge_at(ws: Seq<Seq<char>>, a: int, b: int) -> bool {
    has_edge(ws, index_char(a), index_char(b))
}

/// Among the letters still in `alive`, index `j` has in-degree zero.
pub open spec fn m_ready(ws: Seq<Seq<char>>, alive: Set<int>, j: int) -> bool {
    &&& 0 <= j < 26
    &&& alive.contains(j)
    &&& forall|i: int| 0 <= i < 26 && #[trigger] alive.contains(i) ==> !edge_at(ws, i, j)
}

/// The in-degree-zero letters at index `j` and above, in ascending order:
/// the deterministic tie-break of one removal round.
pub open spec fn m_batch(ws: Seq<Seq<char>>, alive: Set<int>, j: int) -> Seq<int>
    decreases 26 - j when j <= 26
{
    if j < 0 || j >= 26 {
        Seq::empty()
    } else if m_ready(ws, alive, j) {
        seq![j] + m_batch(ws, alive, j + 1)
    } else {
        m_batch(ws, alive, j + 1)
    }
}

/// The letter removal order: whole rounds of in-degree-zero letters,
/// smallest letter first within a round, until no letter is removable.
pub open spec fn m_kahn(ws: Seq<Seq<char>>, alive: Set<int>, fuel: nat) -> Seq<int>
    decreases fuel,
{
    if fuel == 0 {
        Seq::empty()
    } else {
        let b = m_batch(ws, alive, 0);
        if b.len() == 0 {
            Seq::empty()
        } else {
            b + m_kahn(ws, alive.difference(b.to_set()), (fuel - 1) as nat)
        }
    }
}

/// The alphabet indices of the letters occurring in the word list.
pub open spec fn initial_letters(ws: Seq<Seq<char>>) -> Set<int> {
    Set::new(|l: int| 0 <= l < 26 && appears(ws, index_char(l)))
}

/// The one result this library computes: empty for fewer than two words,
/// for input outside the ASCII letters, and for constraints under which
/// the removal rounds cannot consume every letter; otherwise the letters
/// of the removal order. Twenty-seven rounds always suffice over a
/// 26-letter alphabet.
pub open spec fn spec_alien_order(ws: Seq<Seq<char>>) -> Seq<char> {
    let nws = norm_words(ws);
    if ws.len() < 2 || !all_letters(ws) {
        Seq::empty()
    } else {
        let out = m_kahn(nws, initial_letters(nws), 27);
        if initial_letters(nws).subset_of(out.to_set()) {
            out.map_values(|l: int| index_char(l))
        } else {
            Seq::empty()
        }
    }
}

} // verus!
