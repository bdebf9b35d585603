//! Proof machinery over the model: properties of case normalization and of
//! first differences, counting arguments on bounded sequences, and the
//! incompatibility of cycles with valid orderings.
use vstd::prelude::*;

use crate::model::{
    all_letters, appears, first_diff, has_edge, index_char, is_ascii_letter, is_cycle,
    is_lower_letter, is_valid_order, letter_index, letter_set, norm_word, norm_words, to_lower,
    word_all_letters,
};
use vstd::set_lib::{lemma_int_range, lemma_len_subset, set_int_range};

verus! {

/// Normalizing a word a second time changes nothing.
pub proof fn lemma_norm_word_idempotent(w: Seq<char>)
    ensures
        norm_word(norm_word(w)) == norm_word(w),
{
    assert(norm_word(norm_word(w)) =~= norm_word(w));
}

/// Normalizing a word list a second time changes nothing.
pub proof fn lemma_norm_words_idempotent(ws: Seq<Seq<char>>)
    ensures
        norm_words(norm_words(ws)) == norm_words(ws),
{
    assert forall|i: int| 0 <= i < ws.len() implies norm_words(norm_words(ws))[i] == norm_words(
        ws,
    )[i] by {
        lemma_norm_word_idempotent(ws[i]);
    }
    assert(norm_words(norm_words(ws)) =~= norm_words(ws));
}

/// A normalized character is a lower-case letter exactly when the original
/// character was an ASCII letter.
pub proof fn lemma_to_lower_letter(c: char)
    ensures
        is_lower_letter(to_lower(c)) <==> is_ascii_letter(c),
{
}

/// Every character of a normalized all-letter word list is a lower-case
/// letter whose index lies in the alphabet.
pub proof fn lemma_norm_words_lower(ws: Seq<Seq<char>>)
    requires
        all_letters(ws),
    ensures
        forall|i: int, j: int|
            0 <= i < norm_words(ws).len() && 0 <= j < norm_words(ws)[i].len()
                ==> is_lower_letter(#[trigger] norm_words(ws)[i][j]),
{
    assert forall|i: int, j: int|
        0 <= i < norm_words(ws).len() && 0 <= j < norm_words(ws)[i].len() implies is_lower_letter(
        #[trigger] norm_words(ws)[i][j],
    ) by {
        assert(word_all_letters(ws[i]));
        assert(is_ascii_letter(ws[i][j]));
        lemma_to_lower_letter(ws[i][j]);
    }
}

/// The index of a lower-case letter and the letter of an alphabet index are
/// mutually inverse.
pub proof fn lemma_index_char_bijection(l: int)
    requires
        0 <= l < 26,
    ensures
        is_lower_letter(index_char(l)),
        letter_index(index_char(l)) == l,
{
}

/// A lower-case letter is the letter of its own alphabet index.
pub proof fn lemma_letter_index_char(c: char)
    requires
        is_lower_letter(c),
    ensures
        0 <= letter_index(c) < 26,
        index_char(letter_index(c)) == c,
{
}

/// The two characters of a first difference come from their respective
/// words, and differ.
pub proof fn lemma_first_diff_chars(w1: Seq<char>, w2: Seq<char>, a: char, b: char)
    requires
        first_diff(w1, w2) == Some((a, b)),
    ensures
        w1.contains(a),
        w2.contains(b),
        a != b,
    decreases w1.len(),
{
    if w1.len() == 0 || w2.len() == 0 {
    } else if w1[0] == w2[0] {
        lemma_first_diff_chars(w1.drop_first(), w2.drop_first(), a, b);
        let i = choose|i: int| 0 <= i < w1.drop_first().len() && w1.drop_first()[i] == a;
        assert(w1[i + 1] == a);
        let j = choose|j: int| 0 <= j < w2.drop_first().len() && w2.drop_first()[j] == b;
        assert(w2[j + 1] == b);
    } else {
        assert(w1[0] == a && w2[0] == b);
    }
}

/// Both endpoints of a precedence constraint occur in the word list.
pub proof fn lemma_edge_endpoints_appear(ws: Seq<Seq<char>>, a: char, b: char)
    requires
        has_edge(ws, a, b),
    ensures
        appears(ws, a),
        appears(ws, b),
        a != b,
{
    let i = choose|i: int|
        0 <= i < ws.len() - 1 && #[trigger] first_diff(ws[i], ws[i + 1]) == Some((a, b));
    lemma_first_diff_chars(ws[i], ws[i + 1], a, b);
    let j = choose|j: int| 0 <= j < ws[i].len() && ws[i][j] == a;
    assert(0 <= i < ws.len() && 0 <= j < ws[i].len() && ws[i][j] == a);
    let k = choose|k: int| 0 <= k < ws[i + 1].len() && #[trigger] ws[i + 1][k] == b;
    assert(0 <= i + 1 < ws.len() && 0 <= k < ws[i + 1].len() && ws[i + 1][k] == b);
}

/// A sequence of distinct integers drawn from `0..n` has at most `n`
/// elements.
pub proof fn lemma_distinct_bounded_len(s: Seq<int>, n: int)
    requires
        0 <= n,
        s.no_duplicates(),
        forall|k: int| 0 <= k < s.len() ==> 0 <= #[trigger] s[k] < n,
    ensures
        s.len() <= n,
{
    s.unique_seq_to_set();
    lemma_int_range(0, n);
    assert(s.to_set().subset_of(set_int_range(0, n)));
    lemma_len_subset(s.to_set(), set_int_range(0, n));
}

/// A sequence of more than `n` integers drawn from `0..n` repeats a value.
pub proof fn lemma_pigeonhole(s: Seq<int>, n: int)
    ensures
        0 <= n && s.len() > n && (forall|k: int| 0 <= k < s.len() ==> 0 <= #[trigger] s[k] < n)
            ==> exists|i: int, j: int| 0 <= i < j < s.len() && s[i] == s[j],
{
    if 0 <= n && s.len() > n && (forall|k: int| 0 <= k < s.len() ==> 0 <= #[trigger] s[k] < n) {
        if s.no_duplicates() {
            lemma_distinct_bounded_len(s, n);
        } else {
            let (i, j) = choose|i: int, j: int|
                (0 <= i < s.len() && 0 <= j < s.len() && i != j && s[i] == s[j]);
            if i < j {
                assert(0 <= i < j < s.len() && s[i] == s[j]);
            } else {
                assert(0 <= j < i < s.len() && s[j] == s[i]);
            }
        }
    }
}

/// Membership in a byte sequence widened to integers is membership in the
/// byte sequence itself.
pub proof fn lemma_cast_map_contains(s: Seq<u8>, l: int)
    ensures
        s.map_values(|x: u8| x as int).contains(l) <==> (0 <= l < 256 && s.contains(l as u8)),
        s.map_values(|x: u8| x as int).to_set().contains(l) <==> (0 <= l < 256 && s.contains(
            l as u8,
        )),
{
    let f = |x: u8| x as int;
    let m = s.map_values(f);
    s.lemma_to_set_map_commutes(f);
    if m.to_set().contains(l) {
        assert(s.to_set().map(f).contains(l));
        let a = choose|a: u8| #[trigger] s.to_set().contains(a) && f(a) == l;
        assert(s.contains(a));
        assert(a == (l as u8));
    }
    if 0 <= l < 256 && s.contains(l as u8) {
        let i = choose|i: int| 0 <= i < s.len() && #[trigger] s[i] == (l as u8);
        assert(m[i] == l);
        assert(m.contains(l));
        assert(m.to_set().contains(l));
    }
    assert(m.contains(l) <==> m.to_set().contains(l));
}

/// A sequence of distinct alphabet indices has at most 26 elements.
pub proof fn lemma_bounded_u8_len(s: Seq<u8>)
    requires
        s.no_duplicates(),
        forall|k: int| 0 <= k < s.len() ==> #[trigger] s[k] < 26,
    ensures
        s.len() <= 26,
{
    let si = s.map_values(|b: u8| b as int);
    assert(si.no_duplicates()) by {
        assert forall|i: int, j: int|
            0 <= i < si.len() && 0 <= j < si.len() && i != j implies si[i] != si[j] by {
            assert(s[i] != s[j]);
        }
    }
    lemma_distinct_bounded_len(si, 26);
}

/// In a duplicate-free sequence, the position reported by `index_of` is the
/// one position holding the element.
pub proof fn lemma_index_of_unique<A>(s: Seq<A>, k: int, x: A)
    requires
        s.no_duplicates(),
        0 <= k < s.len(),
        s[k] == x,
    ensures
        s.index_of(x) == k,
{
    assert(s.contains(x));
}

/// Along a cycle of constraints, positions in a valid ordering strictly
/// increase; stepping `k` letters from the start can never come back down.
proof fn lemma_cycle_positions_increase(
    ws: Seq<Seq<char>>,
    p: Seq<char>,
    r: Seq<char>,
    k: int,
)
    requires
        is_cycle(ws, p),
        is_valid_order(r, ws),
        0 <= k < p.len(),
    ensures
        r.index_of(p[0]) <= r.index_of(p[k]),
    decreases k,
{
    if k > 0 {
        lemma_cycle_positions_increase(ws, p, r, k - 1);
        assert(has_edge(ws, p[k - 1], p[k]));
    }
}

/// No ordering can satisfy a cyclic set of constraints: a cycle would force
/// some letter's position to lie strictly before itself.
pub proof fn lemma_cycle_excludes_valid_order(ws: Seq<Seq<char>>, p: Seq<char>, r: Seq<char>)
    requires
        is_cycle(ws, p),
    ensures
        !is_valid_order(r, ws),
{
    if is_valid_order(r, ws) {
        let n = p.len() as int;
        lemma_cycle_positions_increase(ws, p, r, n - 1);
        assert(has_edge(ws, p[n - 1], p[0]));
    }
}

/// All distinct characters of an all-letter normalized word list form a
/// finite set: a subset of the 26-letter alphabet.
pub proof fn lemma_letter_set_finite(ws: Seq<Seq<char>>)
    requires
        forall|i: int, j: int|
            0 <= i < ws.len() && 0 <= j < ws[i].len() ==> is_lower_letter(#[trigger] ws[i][j]),
    ensures
        letter_set(ws).finite(),
        letter_set(ws).len() <= 26,
{
    lemma_int_range(97, 123);
    let alphabet = Set::new(|c: char| is_lower_letter(c));
    assert(alphabet =~= set_int_range(97, 123).map(|l: int| index_char(l - 97))) by {
        assert forall|c: char| alphabet.contains(c) implies set_int_range(97, 123).map(
            |l: int| index_char(l - 97),
        ).contains(c) by {
            assert(set_int_range(97, 123).contains(c as int));
            assert(index_char((c as int) - 97) == c);
        }
    }
    vstd::set_lib::lemma_map_size_bound(
        set_int_range(97, 123),
        alphabet,
        |l: int| index_char(l - 97),
    );
    assert(letter_set(ws).subset_of(alphabet)) by {
        assert forall|c: char| letter_set(ws).contains(c) implies alphabet.contains(c) by {
            let (i, j) = choose|i: int, j: int|
                0 <= i < ws.len() && 0 <= j < ws[i].len() && ws[i][j] == c;
            assert(is_lower_letter(ws[i][j]));
        }
    }
    lemma_len_subset(letter_set(ws), alphabet);
}

/// A valid ordering is exactly as long as the set of distinct characters it
/// must cover.
pub proof fn lemma_valid_order_length(r: Seq<char>, ws: Seq<Seq<char>>)
    requires
        is_valid_order(r, ws),
    ensures
        r.len() == letter_set(ws).len(),
{
    r.unique_seq_to_set();
    assert(r.to_set() =~= letter_set(ws)) by {
        assert forall|c: char| r.to_set().contains(c) implies letter_set(ws).contains(c) by {
            assert(r.contains(c));
        }
        assert forall|c: char| letter_set(ws).contains(c) implies r.to_set().contains(c) by {
            assert(appears(ws, c));
        }
    }
}

} // verus!
