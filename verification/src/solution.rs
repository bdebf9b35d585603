//! The inference pipeline: collect the distinct letters of a word list,
//! extract precedence constraints from adjacent word pairs, linearize the
//! resulting graph, and assemble the output string.
use vstd::prelude::*;

use crate::graph::{
    alive_set, edges_view, has_index_cycle, is_index_cycle, is_topo_of,
    lemma_mat_batch_no_alive, lemma_mat_kahn_matches_model, lemma_stuck_graph_has_cycle,
    mat_batch, mat_kahn, mat_ready, LetterGraph,
};
use crate::lemmas::{
    lemma_bounded_u8_len, lemma_cycle_excludes_valid_order, lemma_edge_endpoints_appear,
    lemma_index_of_unique, lemma_norm_words_lower,
};
use crate::model::{
    all_letters, appears, edge_at, first_diff, has_cycle, has_edge, index_char, initial_letters,
    is_cycle, is_lower_letter, is_valid_order, letter_index, m_kahn, norm_word, norm_words,
    spec_alien_order, to_lower, word_all_letters,
};
use vstd::string::{StrSliceExecFns, StringExecFns};

verus! {

/// The alphabet-order inference algorithm, exposed as associated functions.
#[derive(Debug, PartialEq)]
pub struct Solution {}

/// Case normalization of one character, as `to_lower` describes it.
fn lower_char(c: char) -> (r: char)
    ensures
        r == to_lower(c),
{
    if 'A' <= c && c <= 'Z' {
        (((c as u32) + 32) as u8) as char
    } else {
        c
    }
}

/// Scans two words for their first disagreement, as `first_diff` describes
/// it: the pair of characters at the first differing position, or `None`
/// when one word is a prefix of the other.
fn first_diff_pair(w1: &Vec<char>, w2: &Vec<char>) -> (r: Option<(char, char)>)
    ensures
        r == first_diff(w1@, w2@),
{
    let mut pos: usize = 0;
    proof {
        assert(w1@.skip(0) =~= w1@);
        assert(w2@.skip(0) =~= w2@);
    }
    while pos < w1.len() && pos < w2.len()
        invariant
            pos <= w1@.len(),
            pos <= w2@.len(),
            first_diff(w1@, w2@) == first_diff(w1@.skip(pos as int), w2@.skip(pos as int)),
        decreases w1@.len() - pos,
    {
        let c1 = w1[pos];
        let c2 = w2[pos];
        if c1 != c2 {
            proof {
                assert(w1@.skip(pos as int)[0] == c1);
                assert(w2@.skip(pos as int)[0] == c2);
            }
            return Some((c1, c2));
        }
        proof {
            assert(w1@.skip(pos as int)[0] == w2@.skip(pos as int)[0]);
            assert(w1@.skip(pos as int).drop_first() =~= w1@.skip(pos as int + 1));
            assert(w2@.skip(pos as int).drop_first() =~= w2@.skip(pos as int + 1));
        }
        pos = pos + 1;
    }
    proof {
        assert(w1@.skip(pos as int).len() == 0 || w2@.skip(pos as int).len() == 0);
    }
    None
}

/// Whether some present letter has a constraint edge into letter `j`.
fn has_alive_pred(g: &LetterGraph, j: usize) -> (r: bool)
    requires
        g.wf(),
        j < 26,
    ensures
        r == exists|i: int| 0 <= i < 26 && #[trigger] g.alive@[i] && g.edges@[i]@[j as int],
{
    let mut i: usize = 0;
    while i < 26
        invariant
            g.wf(),
            j < 26,
            i <= 26,
            forall|k: int| 0 <= k < i && #[trigger] g.alive@[k] ==> !g.edges@[k]@[j as int],
        decreases 26 - i,
    {
        if g.alive[i] && g.edges[i][j] {
            proof {
                assert(g.alive@[i as int] && g.edges@[i as int]@[j as int]);
            }
            return true;
        }
        i = i + 1;
    }
    false
}

/// The first still-present letter, if any is left.
fn any_alive(g: &LetterGraph) -> (r: Option<u8>)
    requires
        g.wf(),
    ensures
        match r {
            Some(l) => l < 26 && g.alive@[l as int],
            None => forall|l: int| 0 <= l < 26 ==> !(#[trigger] g.alive@[l]),
        },
{
    let mut l: usize = 0;
    while l < 26
        invariant
            g.wf(),
            l <= 26,
            forall|k: int| 0 <= k < l ==> !(#[trigger] g.alive@[k]),
        decreases 26 - l,
    {
        if g.alive[l] {
            return Some(l as u8);
        }
        l = l + 1;
    }
    None
}

/// Whether every character of the word is a lower-case letter.
fn word_is_lower(w: &Vec<char>) -> (r: bool)
    ensures
        r == (forall|j: int| 0 <= j < w@.len() ==> is_lower_letter(#[trigger] w@[j])),
{
    let mut j: usize = 0;
    while j < w.len()
        invariant
            j <= w@.len(),
            forall|k: int| 0 <= k < j ==> is_lower_letter(#[trigger] w@[k]),
        decreases w@.len() - j,
    {
        let c = w[j];
        if !('a' <= c && c <= 'z') {
            proof {
                assert(!is_lower_letter(w@[j as int]));
            }
            return false;
        }
        j = j + 1;
    }
    true
}

/// Normalizes every word of the list, or reports that some character is
/// not an ASCII letter and therefore outside the alphabet.
fn normalize_words(list: &Vec<String>) -> (r: Option<Vec<Vec<char>>>)
    ensures
        match r {
            Some(v) => {
                &&& v.deep_view() == norm_words(list.deep_view())
                &&& all_letters(list.deep_view())
            },
            None => !all_letters(list.deep_view()),
        },
{
    let ghost ws = list.deep_view();
    let mut v: Vec<Vec<char>> = Vec::new();
    let mut i: usize = 0;
    while i < list.len()
        invariant
            ws == list.deep_view(),
            ws.len() == list@.len(),
            i <= ws.len(),
            v@.len() == i,
            forall|k: int| 0 <= k < i ==> #[trigger] v@[k]@ == norm_word(ws[k]),
            forall|k: int| 0 <= k < i ==> word_all_letters(#[trigger] ws[k]),
        decreases list@.len() - i,
    {
        let w = Solution::to_char_vec(&list[i]);
        proof {
            assert(list@[i as int]@ == ws[i as int]);
        }
        if !word_is_lower(&w) {
            proof {
                let j = choose|j: int| 0 <= j < w@.len() && !is_lower_letter(#[trigger] w@[j]);
                assert(w@[j] == to_lower(ws[i as int][j]));
                crate::lemmas::lemma_to_lower_letter(ws[i as int][j]);
                assert(!word_all_letters(ws[i as int]));
            }
            return None;
        }
        proof {
            assert forall|j: int| 0 <= j < ws[i as int].len() implies crate::model::is_ascii_letter(
                #[trigger] ws[i as int][j],
            ) by {
                assert(w@[j] == to_lower(ws[i as int][j]));
                assert(is_lower_letter(w@[j]));
                crate::lemmas::lemma_to_lower_letter(ws[i as int][j]);
            }
            assert(word_all_letters(ws[i as int]));
        }
        let ghost v0 = v@;
        let ghost wv = w@;
        v.push(w);
        proof {
            assert forall|k: int| 0 <= k < i + 1 implies #[trigger] v@[k]@ == norm_word(
                ws[k],
            ) by {
                if k < i {
                    assert(v@[k] == v0[k]);
                } else {
                    assert(v@[k]@ == wv);
                }
            }
        }
        i = i + 1;
    }
    proof {
        assert forall|k: int| 0 <= k < v@.len() implies #[trigger] v.deep_view()[k]
            == norm_words(ws)[k] by {
            assert(v.deep_view()[k] =~= v@[k]@);
        }
        assert(v.deep_view() =~= norm_words(ws));
    }
    Some(v)
}

/// Registers every letter occurring in the normalized word list as a
/// present graph node.
fn collect_letters(words: &Vec<Vec<char>>, g: &mut LetterGraph)
    requires
        old(g).wf(),
        forall|l: int| 0 <= l < 26 ==> !(#[trigger] old(g).alive@[l]),
        forall|i: int, j: int|
            0 <= i < words.deep_view().len() && 0 <= j < words.deep_view()[i].len()
                ==> is_lower_letter(#[trigger] words.deep_view()[i][j]),
    ensures
        final(g).wf(),
        final(g).edges@ == old(g).edges@,
        forall|l: int|
            0 <= l < 26 ==> (#[trigger] final(g).alive@[l] <==> appears(
                words.deep_view(),
                index_char(l),
            )),
{
    let ghost dv = words.deep_view();
    let mut i: usize = 0;
    while i < words.len()
        invariant
            dv == words.deep_view(),
            dv.len() == words@.len(),
            i <= dv.len(),
            g.wf(),
            g.edges@ == old(g).edges@,
            forall|i2: int, j2: int|
                0 <= i2 < dv.len() && 0 <= j2 < dv[i2].len() ==> is_lower_letter(
                    #[trigger] dv[i2][j2],
                ),
            forall|l: int|
                0 <= l < 26 ==> (#[trigger] g.alive@[l] <==> exists|a: int, b: int|
                    0 <= a < i && 0 <= b < dv[a].len() && dv[a][b] == index_char(l)),
        decreases words@.len() - i,
    {
        let w = &words[i];
        proof {
            assert(words@[i as int]@ == dv[i as int]);
        }
        let n = w.len();
        let mut j: usize = 0;
        while j < n
            invariant
                dv == words.deep_view(),
                dv.len() == words@.len(),
                i < dv.len(),
                w@ == dv[i as int],
                n == dv[i as int].len(),
                j <= n,
                g.wf(),
                g.edges@ == old(g).edges@,
                forall|i2: int, j2: int|
                    0 <= i2 < dv.len() && 0 <= j2 < dv[i2].len() ==> is_lower_letter(
                        #[trigger] dv[i2][j2],
                    ),
                forall|l: int|
                    0 <= l < 26 ==> (#[trigger] g.alive@[l] <==> (exists|a: int, b: int|
                        0 <= a < i && 0 <= b < dv[a].len() && dv[a][b] == index_char(l)) || (
                    exists|b: int| 0 <= b < j && dv[i as int][b] == index_char(l))),
            decreases n - j,
        {
            let c = w[j];
            proof {
                assert(is_lower_letter(dv[i as int][j as int]));
            }
            let li: usize = ((c as u32) - 97) as usize;
            let ghost g_pre = *g;
            g.alive[li] = true;
            j = j + 1;
            proof {
                assert(index_char(li as int) == c);
                assert(g.alive@ =~= g_pre.alive@.update(li as int, true));
                assert forall|l: int|
                    0 <= l < 26 implies (#[trigger] g.alive@[l] <==> (exists|a: int, b: int|
                    0 <= a < i && 0 <= b < dv[a].len() && dv[a][b] == index_char(l)) || (
                exists|b: int| 0 <= b < j && dv[i as int][b] == index_char(l))) by {
                    if l == li as int {
                        assert(g.alive@[l]);
                        assert(dv[i as int][j - 1] == index_char(l));
                    } else {
                        assert(index_char(l) != index_char(li as int));
                        assert(g.alive@[l] == g_pre.alive@[l]);
                        if exists|b: int| 0 <= b < j && dv[i as int][b] == index_char(l) {
                            let b = choose|b: int|
                                0 <= b < j && dv[i as int][b] == index_char(l);
                            assert(b < j - 1);
                        }
                    }
                }
            }
        }
        i = i + 1;
        proof {
            assert forall|l: int|
                0 <= l < 26 implies (#[trigger] g.alive@[l] <==> exists|a: int, b: int|
                0 <= a < i && 0 <= b < dv[a].len() && dv[a][b] == index_char(l)) by {
                if exists|a: int, b: int|
                    0 <= a < i && 0 <= b < dv[a].len() && dv[a][b] == index_char(l) {
                    let (a, b) = choose|a: int, b: int|
                        0 <= a < i && 0 <= b < dv[a].len() && dv[a][b] == index_char(l);
                    if a < i - 1 {
                        assert(g.alive@[l]);
                    } else {
                        assert(g.alive@[l]);
                    }
                }
            }
        }
    }
    proof {
        assert forall|l: int|
            0 <= l < 26 implies (#[trigger] g.alive@[l] <==> appears(dv, index_char(l))) by {
            if g.alive@[l] {
                let (a, b) = choose|a: int, b: int|
                    0 <= a < i && 0 <= b < dv[a].len() && dv[a][b] == index_char(l);
                assert(0 <= a < dv.len() && 0 <= b < dv[a].len() && dv[a][b] == index_char(l));
            }
            if appears(dv, index_char(l)) {
                let (a, b) = choose|a: int, b: int|
                    0 <= a < dv.len() && 0 <= b < dv[a].len() && dv[a][b] == index_char(l);
                assert(0 <= a < i && 0 <= b < dv[a].len() && dv[a][b] == index_char(l));
            }
        }
    }
}

/// Records one constraint edge for each adjacent word pair that has a
/// first difference.
fn add_constraints(words: &Vec<Vec<char>>, g: &mut LetterGraph)
    requires
        old(g).wf(),
        forall|a: int, b: int| 0 <= a < 26 && 0 <= b < 26 ==> !(#[trigger] old(g).edges@[a]@[b]),
        forall|i: int, j: int|
            0 <= i < words.deep_view().len() && 0 <= j < words.deep_view()[i].len()
                ==> is_lower_letter(#[trigger] words.deep_view()[i][j]),
        forall|l: int|
            0 <= l < 26 ==> (#[trigger] old(g).alive@[l] <==> appears(
                words.deep_view(),
                index_char(l),
            )),
    ensures
        final(g).wf(),
        final(g).alive@ == old(g).alive@,
        forall|a: int, b: int|
            0 <= a < 26 && 0 <= b < 26 ==> (#[trigger] final(g).edges@[a]@[b] <==> has_edge(
                words.deep_view(),
                index_char(a),
                index_char(b),
            )),
        final(g).edges_within_alive(),
{
    let ghost dv = words.deep_view();
    if words.len() < 2 {
        proof {
            assert forall|a: int, b: int|
                0 <= a < 26 && 0 <= b < 26 implies (#[trigger] g.edges@[a]@[b] <==> has_edge(
                dv,
                index_char(a),
                index_char(b),
            )) by {
                if has_edge(dv, index_char(a), index_char(b)) {
                    let p = choose|p: int|
                        0 <= p < dv.len() - 1 && #[trigger] first_diff(dv[p], dv[p + 1]) == Some(
                            (index_char(a), index_char(b)),
                        );
                }
            }
        }
        return ;
    }
    let n1 = words.len() - 1;
    let mut i: usize = 0;
    while i < n1
        invariant
            dv == words.deep_view(),
            dv.len() == words@.len(),
            words@.len() >= 2,
            n1 == words@.len() - 1,
            i <= n1,
            g.wf(),
            g.alive@ == old(g).alive@,
            forall|i2: int, j2: int|
                0 <= i2 < dv.len() && 0 <= j2 < dv[i2].len() ==> is_lower_letter(
                    #[trigger] dv[i2][j2],
                ),
            forall|a: int, b: int|
                0 <= a < 26 && 0 <= b < 26 ==> (#[trigger] g.edges@[a]@[b] <==> exists|p: int|
                    0 <= p < i && #[trigger] first_diff(dv[p], dv[p + 1]) == Some(
                        (index_char(a), index_char(b)),
                    )),
        decreases words@.len() - i,
    {
        proof {
            assert(words@[i as int]@ == dv[i as int]);
            assert(words@[i as int + 1]@ == dv[i as int + 1]);
        }
        let d = first_diff_pair(&words[i], &words[i + 1]);
        match d {
            None => {
                proof {
                    assert forall|a: int, b: int|
                        0 <= a < 26 && 0 <= b < 26 implies (#[trigger] g.edges@[a]@[b] <==> exists|
                        p: int,
                    |
                        0 <= p < i + 1 && #[trigger] first_diff(dv[p], dv[p + 1]) == Some(
                            (index_char(a), index_char(b)),
                        )) by {
                        if exists|p: int|
                            0 <= p < i + 1 && #[trigger] first_diff(dv[p], dv[p + 1]) == Some(
                                (index_char(a), index_char(b)),
                            ) {
                            let p = choose|p: int|
                                0 <= p < i + 1 && #[trigger] first_diff(dv[p], dv[p + 1]) == Some(
                                    (index_char(a), index_char(b)),
                                );
                            assert(p < i);
                        }
                    }
                }
            },
            Some((c1, c2)) => {
                proof {
                    crate::lemmas::lemma_first_diff_chars(dv[i as int], dv[i as int + 1], c1, c2);
                    let k1 = choose|k: int|
                        0 <= k < dv[i as int].len() && #[trigger] dv[i as int][k] == c1;
                    assert(is_lower_letter(c1));
                    let k2 = choose|k: int|
                        0 <= k < dv[i as int + 1].len() && #[trigger] dv[i as int + 1][k] == c2;
                    assert(is_lower_letter(c2));
                }
                let ea: usize = ((c1 as u32) - 97) as usize;
                let eb: usize = ((c2 as u32) - 97) as usize;
                let ghost g_pre = *g;
                let row = &mut g.edges[ea];
                row[eb] = true;
                proof {
                    assert(index_char(ea as int) == c1);
                    assert(index_char(eb as int) == c2);
                    assert(g.edges@[ea as int]@ =~= g_pre.edges@[ea as int]@.update(
                        eb as int,
                        true,
                    ));
                    assert(forall|x: int|
                        0 <= x < 26 && x != ea as int ==> g.edges@[x] == #[trigger] g_pre.edges@[x]);
                    assert forall|a: int, b: int|
                        0 <= a < 26 && 0 <= b < 26 implies (#[trigger] g.edges@[a]@[b] <==> exists|
                        p: int,
                    |
                        0 <= p < i + 1 && #[trigger] first_diff(dv[p], dv[p + 1]) == Some(
                            (index_char(a), index_char(b)),
                        )) by {
                        if a == ea as int && b == eb as int {
                            assert(g.edges@[a]@[b]);
                            assert(first_diff(dv[i as int], dv[i as int + 1]) == Some(
                                (index_char(a), index_char(b)),
                            ));
                        } else {
                            assert(g.edges@[a]@[b] == g_pre.edges@[a]@[b]);
                            if exists|p: int|
                                0 <= p < i + 1 && #[trigger] first_diff(dv[p], dv[p + 1]) == Some(
                                    (index_char(a), index_char(b)),
                                ) {
                                let p = choose|p: int|
                                    0 <= p < i + 1 && #[trigger] first_diff(dv[p], dv[p + 1])
                                        == Some((index_char(a), index_char(b)));
                                if p == i {
                                    assert(index_char(a) == c1 && index_char(b) == c2);
                                    assert(a == ea as int && b == eb as int);
                                }
                            }
                        }
                    }
                }
            },
        }
        i = i + 1;
    }
    proof {
        assert forall|a: int, b: int|
            0 <= a < 26 && 0 <= b < 26 implies (#[trigger] g.edges@[a]@[b] <==> has_edge(
            dv,
            index_char(a),
            index_char(b),
        )) by {
            if g.edges@[a]@[b] {
                let p = choose|p: int|
                    0 <= p < i && #[trigger] first_diff(dv[p], dv[p + 1]) == Some(
                        (index_char(a), index_char(b)),
                    );
                assert(0 <= p < dv.len() - 1 && first_diff(dv[p], dv[p + 1]) == Some(
                    (index_char(a), index_char(b)),
                ));
            }
            if has_edge(dv, index_char(a), index_char(b)) {
                let p = choose|p: int|
                    0 <= p < dv.len() - 1 && #[trigger] first_diff(dv[p], dv[p + 1]) == Some(
                        (index_char(a), index_char(b)),
                    );
                assert(0 <= p < i && first_diff(dv[p], dv[p + 1]) == Some(
                    (index_char(a), index_char(b)),
                ));
            }
        }
        assert forall|a: int, b: int|
            0 <= a < 26 && 0 <= b < 26 && #[trigger] g.edges@[a]@[b] implies g.alive@[a]
            && g.alive@[b] by {
            lemma_edge_endpoints_appear(dv, index_char(a), index_char(b));
        }
    }
}

/// The letters standing at a sequence of alphabet indices.
fn indices_to_chars(v: &Vec<u8>) -> (r: Vec<char>)
    requires
        forall|k: int| #![trigger v@[k]] 0 <= k < v@.len() ==> v@[k] < 26,
    ensures
        r@.len() == v@.len(),
        forall|k: int| #![trigger r@[k]] 0 <= k < r@.len() ==> r@[k] == index_char(v@[k] as int),
{
    let mut r: Vec<char> = Vec::new();
    let mut k: usize = 0;
    while k < v.len()
        invariant
            k <= v@.len(),
            r@.len() == k,
            forall|m: int| #![trigger v@[m]] 0 <= m < v@.len() ==> v@[m] < 26,
            forall|m: int| #![trigger r@[m]] 0 <= m < k ==> r@[m] == index_char(v@[m] as int),
        decreases v@.len() - k,
    {
        let b = v[k];
        r.push((b + 97) as char);
        k = k + 1;
    }
    r
}

/// A topological order of the fully built constraint graph, read back as
/// letters, is a valid ordering of the normalized word list.
proof fn lemma_valid_output(
    out: Seq<u8>,
    chars: Seq<char>,
    gsnap: LetterGraph,
    ws: Seq<Seq<char>>,
)
    requires
        gsnap.wf(),
        is_topo_of(out, gsnap),
        chars.len() == out.len(),
        forall|k: int| #![trigger chars[k]] 0 <= k < chars.len() ==> chars[k] == index_char(
            out[k] as int,
        ),
        all_letters(ws),
        forall|l: int|
            0 <= l < 26 ==> (#[trigger] gsnap.alive@[l] <==> appears(
                norm_words(ws),
                index_char(l),
            )),
        forall|a: int, b: int|
            0 <= a < 26 && 0 <= b < 26 ==> (#[trigger] gsnap.edges@[a]@[b] <==> has_edge(
                norm_words(ws),
                index_char(a),
                index_char(b),
            )),
        gsnap.edges_within_alive(),
    ensures
        is_valid_order(chars, norm_words(ws)),
{
    let nws = norm_words(ws);
    lemma_norm_words_lower(ws);
    assert(chars.no_duplicates()) by {
        assert forall|i: int, j: int|
            0 <= i < chars.len() && 0 <= j < chars.len() && i != j implies chars[i] != chars[j] by {
            crate::lemmas::lemma_index_char_bijection(out[i] as int);
            crate::lemmas::lemma_index_char_bijection(out[j] as int);
            assert(out[i] != out[j]);
        }
    }
    assert forall|c: char| chars.contains(c) implies appears(nws, c) by {
        let k = choose|k: int| 0 <= k < chars.len() && chars[k] == c;
        let l = out[k] as int;
        assert(out.contains(l as u8)) by {
            assert(out[k] == (l as u8));
        }
        assert(gsnap.alive@[l]);
        assert(appears(nws, index_char(l)));
    }
    assert forall|c: char| appears(nws, c) implies chars.contains(c) by {
        let (i, j) = choose|i: int, j: int|
            0 <= i < nws.len() && 0 <= j < nws[i].len() && nws[i][j] == c;
        assert(is_lower_letter(c));
        crate::lemmas::lemma_letter_index_char(c);
        let l = letter_index(c);
        assert(gsnap.alive@[l]);
        assert(out.contains(l as u8));
        let k = choose|k: int| 0 <= k < out.len() && #[trigger] out[k] == (l as u8);
        assert(chars[k] == index_char(l));
        assert(chars[k] == c);
    }
    assert forall|a: char, b: char| #[trigger]
        has_edge(nws, a, b) implies chars.index_of(a) < chars.index_of(b) by {
        lemma_edge_endpoints_appear(nws, a, b);
        let (ia, ja) = choose|i: int, j: int|
            0 <= i < nws.len() && 0 <= j < nws[i].len() && nws[i][j] == a;
        let (ib, jb) = choose|i: int, j: int|
            0 <= i < nws.len() && 0 <= j < nws[i].len() && nws[i][j] == b;
        assert(is_lower_letter(a) && is_lower_letter(b));
        crate::lemmas::lemma_letter_index_char(a);
        crate::lemmas::lemma_letter_index_char(b);
        let la = letter_index(a);
        let lb = letter_index(b);
        assert(gsnap.edges@[la]@[lb]);
        assert(gsnap.alive@[la] && gsnap.alive@[lb]);
        assert(out.contains(la as u8) && out.contains(lb as u8));
        let ka = out.index_of(la as u8);
        let kb = out.index_of(lb as u8);
        assert(0 <= ka < out.len() && out[ka] == (la as u8));
        assert(0 <= kb < out.len() && out[kb] == (lb as u8));
        assert(ka < kb);
        assert(chars[ka] == a && chars[kb] == b);
        lemma_index_of_unique(chars, ka, a);
        lemma_index_of_unique(chars, kb, b);
    }
}

/// The one-character string of the letter at an alphabet index.
fn letter_str(l: u8) -> (r: &'static str)
    requires
        l < 26,
    ensures
        r@.len() == 1,
        r@[0] == index_char(l as int),
{
    match l {
            0 => {
                proof {
                    reveal_strlit("a");
                }
                "a"
            },
            1 => {
                proof {
                    reveal_strlit("b");
                }
                "b"
            },
            2 => {
                proof {
                    reveal_strlit("c");
                }
                "c"
            },
            3 => {
                proof {
                    reveal_strlit("d");
                }
                "d"
            },
            4 => {
                proof {
                    reveal_strlit("e");
                }
                "e"
            },
            5 => {
                proof {
                    reveal_strlit("f");
                }
                "f"
            },
            6 => {
                proof {
                    reveal_strlit("g");
                }
                "g"
            },
            7 => {
                proof {
                    reveal_strlit("h");
                }
                "h"
            },
            8 => {
                proof {
                    reveal_strlit("i");
                }
                "i"
            },
            9 => {
                proof {
                    reveal_strlit("j");
                }
                "j"
            },
            10 => {
                proof {
                    reveal_strlit("k");
                }
                "k"
            },
            11 => {
                proof {
                    reveal_strlit("l");
                }
                "l"
            },
            12 => {
                proof {
                    reveal_strlit("m");
                }
                "m"
            },
            13 => {
                proof {
                    reveal_strlit("n");
                }
                "n"
            },
            14 => {
                proof {
                    reveal_strlit("o");
                }
                "o"
            },
            15 => {
                proof {
                    reveal_strlit("p");
                }
                "p"
            },
            16 => {
                proof {
                    reveal_strlit("q");
                }
                "q"
            },
            17 => {
                proof {
                    reveal_strlit("r");
                }
                "r"
            },
            18 => {
                proof {
                    reveal_strlit("s");
                }
                "s"
            },
            19 => {
                proof {
                    reveal_strlit("t");
                }
                "t"
            },
            20 => {
                proof {
                    reveal_strlit("u");
                }
                "u"
            },
            21 => {
                proof {
                    reveal_strlit("v");
                }
                "v"
            },
            22 => {
                proof {
                    reveal_strlit("w");
                }
                "w"
            },
            23 => {
                proof {
                    reveal_strlit("x");
                }
                "x"
            },
            24 => {
                proof {
                    reveal_strlit("y");
                }
                "y"
            },
            _ => {
                proof {
                    reveal_strlit("z");
                }
                "z"
            },
        }
}

/// Kahn's algorithm: repeatedly emits every letter whose in-degree is zero
/// and removes it from the graph, until all letters are consumed. Returns
/// the emission order, or `None` when letters remain but each of them is
/// still constrained behind another — the certificate of a cycle.
pub fn topo_sort(g: &mut LetterGraph) -> (r: Option<Vec<u8>>)
    requires
        old(g).wf(),
        old(g).edges_within_alive(),
    ensures
        match r {
            Some(out) => {
                &&& is_topo_of(out@, *old(g))
                &&& out@.map_values(|x: u8| x as int) == mat_kahn(
                    edges_view(*old(g)),
                    alive_set(*old(g)),
                    27,
                )
            },
            None => {
                &&& has_index_cycle(*old(g))
                &&& !alive_set(*old(g)).subset_of(
                    mat_kahn(edges_view(*old(g)), alive_set(*old(g)), 27).to_set(),
                )
            },
        },
{
    let ghost ev = edges_view(*old(g));
    let ghost a0 = alive_set(*old(g));
    let ghost mut rounds: int = 0;
    let mut out: Vec<u8> = Vec::new();
    proof {
        assert(out@.map_values(|x: u8| x as int) =~= Seq::<int>::empty());
        assert(Seq::<int>::empty() + mat_kahn(ev, a0, 27) =~= mat_kahn(ev, a0, 27));
    }
    let mut cur = any_alive(g);
    while cur.is_some()
        invariant
            g.wf(),
            old(g).wf(),
            old(g).edges_within_alive(),
            g.edges@ == old(g).edges@,
            out@.no_duplicates(),
            out@.len() <= 26,
            forall|k: int| #![trigger out@[k]] 0 <= k < out@.len() ==> out@[k] < 26,
            forall|l: int|
                0 <= l < 26 ==> ((out@.contains(l as u8) || g.alive@[l]) <==> old(g).alive@[l]),
            forall|l: int| 0 <= l < 26 && #[trigger] g.alive@[l] ==> !out@.contains(l as u8),
            forall|kb: int, a: int|
                #![trigger old(g).edges@[a]@[out@[kb] as int]]
                0 <= kb < out@.len() && 0 <= a < 26 && old(g).edges@[a]@[out@[kb] as int]
                    ==> exists|ka: int| 0 <= ka < kb && out@[ka] == (a as u8),
            match cur {
                Some(l) => l < 26 && g.alive@[l as int],
                None => forall|l: int| 0 <= l < 26 ==> !(#[trigger] g.alive@[l]),
            },
            ev == edges_view(*g),
            a0 == alive_set(*old(g)),
            0 <= rounds <= out@.len(),
            mat_kahn(ev, a0, 27) == out@.map_values(|x: u8| x as int) + mat_kahn(
                ev,
                alive_set(*g),
                (27 - rounds) as nat,
            ),
        decreases 26 - out@.len(),
    {
        let batch = Solution::get_zero_degree(g);
        if batch.len() == 0 {
            proof {
                assert forall|j: int| 0 <= j < 26 && #[trigger] g.alive@[j] implies exists|i: int|
                    0 <= i < 26 && #[trigger] g.alive@[i] && g.edges@[i]@[j] by {
                    if !(exists|i: int| 0 <= i < 26 && #[trigger] g.alive@[i] && g.edges@[i]@[j]) {
                        assert forall|i: int|
                            0 <= i < 26 && #[trigger] g.alive@[i] implies !g.edges@[i]@[j] by {}
                        assert(g.ready(j));
                        assert(batch@.contains(j as u8));
                    }
                }
                let j0 = choose|l: int| 0 <= l < 26 && #[trigger] g.alive@[l];
                lemma_stuck_graph_has_cycle(*g, j0);
                let p = choose|p: Seq<int>| is_index_cycle(*g, p);
                assert forall|k: int| 0 <= k < p.len() - 1 implies old(
                    g,
                ).edges@[#[trigger] p[k]]@[p[k + 1]] by {
                    assert(g.edges@[p[k]]@[p[k + 1]]);
                }
                assert(old(g).edges@[p.last()]@[p[0]]) by {
                    assert(g.edges@[p.last()]@[p[0]]);
                }
                assert(is_index_cycle(*old(g), p));
                assert(mat_batch(ev, alive_set(*g), 0).len() == 0) by {
                    assert(batch@.map_values(|x: u8| x as int).len() == 0);
                }
                assert(mat_kahn(ev, alive_set(*g), (27 - rounds) as nat) == Seq::<int>::empty());
                assert(mat_kahn(ev, a0, 27) == out@.map_values(|x: u8| x as int)) by {
                    assert(out@.map_values(|x: u8| x as int) + Seq::<int>::empty() =~= out@.map_values(
                        |x: u8| x as int,
                    ));
                }
                let l = choose|l: int| 0 <= l < 26 && #[trigger] g.alive@[l];
                assert(a0.contains(l));
                assert(!mat_kahn(ev, a0, 27).to_set().contains(l)) by {
                    crate::lemmas::lemma_cast_map_contains(out@, l);
                }
            }
            return None;
        }
        let ghost g1 = *g;
        let ghost out0 = out@;
        let mut bi: usize = 0;
        while bi < batch.len()
            invariant
                g.wf(),
                g1.wf(),
                old(g).wf(),
                old(g).edges_within_alive(),
                g.edges@ == old(g).edges@,
                g1.edges@ == old(g).edges@,
                bi <= batch@.len(),
                batch@.len() > 0,
                forall|k: int| #![trigger batch@[k]] 0 <= k < batch@.len() ==> g1.ready(
                    batch@[k] as int,
                ),
                forall|k1: int, k2: int|
                    0 <= k1 < k2 < batch@.len() ==> batch@[k1] < batch@[k2],
                out@ == out0 + batch@.subrange(0, bi as int),
                out@.no_duplicates(),
                forall|k: int| #![trigger out@[k]] 0 <= k < out@.len() ==> out@[k] < 26,
                forall|l: int|
                    0 <= l < 26 ==> ((out@.contains(l as u8) || g.alive@[l]) <==> old(
                        g,
                    ).alive@[l]),
                forall|l: int| 0 <= l < 26 && #[trigger] g.alive@[l] ==> !out@.contains(l as u8),
                forall|l: int|
                    0 <= l < 26 ==> (#[trigger] g.alive@[l] <==> (g1.alive@[l] && !batch@.subrange(
                        0,
                        bi as int,
                    ).contains(l as u8))),
                forall|kb: int, a: int|
                    #![trigger old(g).edges@[a]@[out@[kb] as int]]
                    0 <= kb < out@.len() && 0 <= a < 26 && old(g).edges@[a]@[out@[kb] as int]
                        ==> exists|ka: int| 0 <= ka < kb && out@[ka] == (a as u8),
            decreases batch@.len() - bi,
        {
            let b = batch[bi];
            let ghost out_pre = out@;
            let ghost g_pre = *g;
            proof {
                assert(g1.ready(b as int));
                assert(!batch@.subrange(0, bi as int).contains(b)) by {
                    if batch@.subrange(0, bi as int).contains(b) {
                        let k = choose|k: int|
                            0 <= k < bi && #[trigger] batch@.subrange(0, bi as int)[k] == b;
                        assert(batch@[k] < batch@[bi as int]);
                    }
                }
                assert(g.alive@[b as int]);
                assert(!out@.contains(b));
            }
            out.push(b);
            let bu = b as usize;
            g.alive[bu] = false;
            bi = bi + 1;
            proof {
                assert(out@ =~= out0 + batch@.subrange(0, bi as int)) by {
                    assert(batch@.subrange(0, bi as int) =~= batch@.subrange(
                        0,
                        bi as int - 1,
                    ).push(b));
                }
                assert(out@.no_duplicates()) by {
                    assert forall|i: int, j: int|
                        0 <= i < j < out@.len() implies out@[i] != out@[j] by {
                        if j < out@.len() - 1 {
                            assert(out_pre[i] != out_pre[j]);
                        } else {
                            assert(out@[i] == out_pre[i]);
                            if out@[i] == b {
                                assert(out_pre.contains(b));
                            }
                        }
                    }
                }
                assert(g.alive@ =~= g_pre.alive@.update(b as int, false));
                assert forall|l: int|
                    0 <= l < 26 implies ((out@.contains(l as u8) || g.alive@[l]) <==> old(
                    g,
                ).alive@[l]) by {
                    assert((out_pre.contains(l as u8) || g_pre.alive@[l]) <==> old(g).alive@[l]);
                    if g.alive@[l] {
                        assert(g_pre.alive@[l]);
                    }
                    if l == b as int {
                        assert(out@[out@.len() - 1] == (l as u8));
                        assert(out@.contains(l as u8));
                    }
                    if g_pre.alive@[l] && l != b as int {
                        assert(g.alive@[l]);
                    }
                    if out@.contains(l as u8) {
                        let k = choose|k: int| 0 <= k < out@.len() && #[trigger] out@[k] == (
                        l as u8);
                        if k < out@.len() - 1 {
                            assert(out_pre.contains(l as u8));
                        } else {
                            assert(l == b as int);
                            assert(g_pre.alive@[l]);
                        }
                    }
                    if out_pre.contains(l as u8) {
                        let k = choose|k: int| 0 <= k < out_pre.len() && #[trigger] out_pre[k] == (
                        l as u8);
                        assert(out@[k] == (l as u8));
                    }
                }
                assert forall|l: int|
                    0 <= l < 26 && #[trigger] g.alive@[l] implies !out@.contains(l as u8) by {
                    if out@.contains(l as u8) {
                        let k = choose|k: int| 0 <= k < out@.len() && #[trigger] out@[k] == (
                        l as u8);
                        if k < out@.len() - 1 {
                            assert(out_pre.contains(l as u8));
                            assert(g_pre.alive@[l]);
                        } else {
                            assert(l == b as int);
                        }
                    }
                }
                assert forall|l: int|
                    0 <= l < 26 implies (#[trigger] g.alive@[l] <==> (g1.alive@[l]
                    && !batch@.subrange(0, bi as int).contains(l as u8))) by {
                    let sub_pre = batch@.subrange(0, bi as int - 1);
                    let sub = batch@.subrange(0, bi as int);
                    assert(sub =~= sub_pre.push(b));
                    if sub.contains(l as u8) {
                        let k = choose|k: int| 0 <= k < sub.len() && #[trigger] sub[k] == (l as u8);
                        if k < sub.len() - 1 {
                            assert(sub_pre.contains(l as u8));
                        } else {
                            assert(l == b as int);
                        }
                    }
                    if sub_pre.contains(l as u8) {
                        let k = choose|k: int|
                            0 <= k < sub_pre.len() && #[trigger] sub_pre[k] == (l as u8);
                        assert(sub[k] == (l as u8));
                    }
                }
                assert forall|kb: int, a: int|
                    0 <= kb < out@.len() && 0 <= a < 26 && #[trigger] old(
                        g,
                    ).edges@[a]@[out@[kb] as int] implies exists|ka: int|
                    0 <= ka < kb && out@[ka] == (a as u8) by {
                    if kb < out@.len() - 1 {
                        assert(old(g).edges@[a]@[out_pre[kb] as int]);
                        let ka = choose|ka: int| 0 <= ka < kb && out_pre[ka] == (a as u8);
                        assert(out@[ka] == (a as u8));
                    } else {
                        assert(out@[kb] == b);
                        assert(g1.edges@[a]@[b as int]);
                        assert(old(g).alive@[a]);
                        if g_pre.alive@[a] {
                            assert(g1.alive@[a]);
                            assert(g1.ready(b as int));
                        }
                        assert(out_pre.contains(a as u8));
                        let ka = choose|ka: int|
                            0 <= ka < out_pre.len() && #[trigger] out_pre[ka] == (a as u8);
                        assert(out@[ka] == (a as u8));
                        assert(ka < kb);
                    }
                }
            }
        }
        proof {
            lemma_bounded_u8_len(out@);
            assert(out@.len() > out0.len());
            let bm = batch@.map_values(|x: u8| x as int);
            assert(bm == mat_batch(ev, alive_set(g1), 0));
            assert(bm.len() > 0);
            let fuel_head = (27 - rounds) as nat;
            assert(fuel_head > 0);
            assert(mat_kahn(ev, alive_set(g1), fuel_head) == bm + mat_kahn(
                ev,
                alive_set(g1).difference(bm.to_set()),
                (fuel_head - 1) as nat,
            ));
            assert(alive_set(*g) =~= alive_set(g1).difference(bm.to_set())) by {
                assert(batch@.subrange(0, batch@.len() as int) =~= batch@);
                assert forall|l: int|
                    #![trigger alive_set(g1).difference(bm.to_set()).contains(l)]
                    true implies (alive_set(*g).contains(l) <==> alive_set(g1).difference(
                    bm.to_set(),
                ).contains(l)) by {
                    if 0 <= l < 26 {
                        assert(g.alive@[l] <==> (g1.alive@[l] && !batch@.subrange(
                            0,
                            batch@.len() as int,
                        ).contains(l as u8)));
                        assert(batch@.contains(l as u8) <==> bm.to_set().contains(l)) by {
                            crate::lemmas::lemma_cast_map_contains(batch@, l);
                        }
                    }
                }
            }
            assert(out@.map_values(|x: u8| x as int) =~= out0.map_values(|x: u8| x as int) + bm);
            rounds = rounds + 1;
            assert(mat_kahn(ev, a0, 27) == out@.map_values(|x: u8| x as int) + mat_kahn(
                ev,
                alive_set(*g),
                (27 - rounds) as nat,
            )) by {
                assert(out0.map_values(|x: u8| x as int) + (bm + mat_kahn(
                    ev,
                    alive_set(*g),
                    (27 - rounds) as nat,
                )) =~= (out0.map_values(|x: u8| x as int) + bm) + mat_kahn(
                    ev,
                    alive_set(*g),
                    (27 - rounds) as nat,
                ));
            }
        }
        cur = any_alive(g);
    }
    proof {
        assert forall|l: int| !(#[trigger] alive_set(*g).contains(l)) by {}
        lemma_mat_batch_no_alive(ev, alive_set(*g), 0);
        assert(mat_kahn(ev, alive_set(*g), (27 - rounds) as nat) == Seq::<int>::empty());
        assert(mat_kahn(ev, a0, 27) == out@.map_values(|x: u8| x as int)) by {
            assert(out@.map_values(|x: u8| x as int) + Seq::<int>::empty() =~= out@.map_values(
                |x: u8| x as int,
            ));
        }
        assert forall|l: int| #[trigger] a0.contains(l) implies mat_kahn(
            ev,
            a0,
            27,
        ).to_set().contains(l) by {
            assert(old(g).alive@[l]);
            assert(out@.contains(l as u8));
            crate::lemmas::lemma_cast_map_contains(out@, l);
        }
        assert(a0.subset_of(mat_kahn(ev, a0, 27).to_set()));
        assert forall|a: int, b: int|
            0 <= a < 26 && 0 <= b < 26 && #[trigger] old(g).edges@[a]@[b] implies out@.index_of(
            a as u8,
        ) < out@.index_of(b as u8) by {
            assert(old(g).alive@[a] && old(g).alive@[b]);
            assert(out@.contains(b as u8));
            let kb = choose|k: int| 0 <= k < out@.len() && #[trigger] out@[k] == (b as u8);
            assert(old(g).edges@[a]@[out@[kb] as int]);
            let ka = choose|ka: int| 0 <= ka < kb && out@[ka] == (a as u8);
            lemma_index_of_unique(out@, ka, a as u8);
            lemma_index_of_unique(out@, kb, b as u8);
        }
        assert(is_topo_of(out@, *old(g)));
    }
    Some(out)
}

impl Solution {
    /// The characters of a word, each case-normalized.
    pub fn to_char_vec(input: &String) -> (r: Vec<char>)
        ensures
            r@ == norm_word(input@),
    {
        let s = input.as_str();
        let n = s.unicode_len();
        let mut r: Vec<char> = Vec::new();
        let mut i: usize = 0;
        while i < n
            invariant
                s@ == input@,
                n == s@.len(),
                i <= n,
                r@.len() == i,
                forall|k: int| 0 <= k < i ==> r@[k] == to_lower(s@[k]),
            decreases n - i,
        {
            let c = s.get_char(i);
            r.push(lower_char(c));
            i = i + 1;
        }
        proof {
            assert(r@ =~= norm_word(input@));
        }
        r
    }

    /// All letters whose in-degree is currently zero: the present letters
    /// that no unconsumed constraint forces behind another present letter.
    /// They are reported in ascending alphabet order, the deterministic
    /// tie-break of this implementation.
    pub fn get_zero_degree(g: &LetterGraph) -> (r: Vec<u8>)
        requires
            g.wf(),
        ensures
            forall|k: int| #![trigger r@[k]] 0 <= k < r@.len() ==> g.ready(r@[k] as int),
            forall|j: int| 0 <= j < 26 && #[trigger] g.ready(j) ==> r@.contains(j as u8),
            forall|k1: int, k2: int| 0 <= k1 < k2 < r@.len() ==> r@[k1] < r@[k2],
            r@.map_values(|x: u8| x as int) == mat_batch(edges_view(*g), alive_set(*g), 0),
    {
        let ghost ev = edges_view(*g);
        let ghost living = alive_set(*g);
        let mut r: Vec<u8> = Vec::new();
        let mut j: usize = 0;
        proof {
            assert(r@.map_values(|x: u8| x as int) =~= Seq::<int>::empty());
        }
        while j < 26
            invariant
                g.wf(),
                j <= 26,
                ev == edges_view(*g),
                living == alive_set(*g),
                forall|k: int| #![trigger r@[k]] 0 <= k < r@.len() ==> g.ready(r@[k] as int),
                forall|k: int| #![trigger r@[k]] 0 <= k < r@.len() ==> r@[k] < j,
                forall|l: int| 0 <= l < j && #[trigger] g.ready(l) ==> r@.contains(l as u8),
                forall|k1: int, k2: int| 0 <= k1 < k2 < r@.len() ==> r@[k1] < r@[k2],
                mat_batch(ev, living, 0) == r@.map_values(|x: u8| x as int) + mat_batch(
                    ev,
                    living,
                    j as int,
                ),
            decreases 26 - j,
        {
            proof {
                assert(ev[j as int] == g.edges@[j as int]@);
                assert forall|i: int| 0 <= i < 26 implies ev[i] == g.edges@[i]@ by {}
                assert(mat_ready(ev, living, j as int) <==> g.ready(j as int)) by {
                    if mat_ready(ev, living, j as int) {
                        assert forall|i: int|
                            0 <= i < 26 && #[trigger] g.alive@[i] implies !g.edges@[i]@[j as int] by {
                            assert(living.contains(i));
                            assert(!ev[i][j as int]);
                        }
                    }
                    if g.ready(j as int) {
                        assert forall|i: int|
                            0 <= i < 26 && #[trigger] living.contains(i) implies !ev[i][j as int] by {
                            assert(g.alive@[i]);
                        }
                    }
                }
            }
            if g.alive[j] && !has_alive_pred(g, j) {
                let ghost r0 = r@;
                r.push(j as u8);
                proof {
                    assert(g.ready(j as int));
                    assert forall|l: int| 0 <= l < j + 1 && #[trigger] g.ready(l) implies
                        r@.contains(l as u8) by {
                        if l < j {
                            let k = choose|k: int| 0 <= k < r0.len() && r0[k] == (l as u8);
                            assert(r@[k] == (l as u8));
                        } else {
                            assert(r@[r@.len() - 1] == (l as u8));
                        }
                    }
                    assert(mat_batch(ev, living, j as int) == seq![j as int] + mat_batch(
                        ev,
                        living,
                        j as int + 1,
                    ));
                    assert(r@.map_values(|x: u8| x as int) =~= r0.map_values(|x: u8| x as int)
                        + seq![j as int]);
                    assert(r@.map_values(|x: u8| x as int) + mat_batch(ev, living, j as int + 1)
                        =~= r0.map_values(|x: u8| x as int) + mat_batch(ev, living, j as int));
                }
            } else {
                proof {
                    if g.ready(j as int) {
                        assert(g.alive@[j as int]);
                    }
                    assert(!mat_ready(ev, living, j as int));
                    assert(mat_batch(ev, living, j as int) == mat_batch(ev, living, j as int + 1));
                }
            }
            j = j + 1;
        }
        proof {
            assert(mat_batch(ev, living, 26) == Seq::<int>::empty());
            assert(r@.map_values(|x: u8| x as int) + Seq::<int>::empty() =~= r@.map_values(
                |x: u8| x as int,
            ));
        }
        r
    }

    /// Infers one valid ordering of the alphabet's letters from a word
    /// list known to be sorted under that alphabet. Returns the empty
    /// string when fewer than two words are given, when a character
    /// outside the ASCII letters occurs, or when the constraints implied
    /// by adjacent word pairs are contradictory; otherwise the result
    /// lists every distinct (case-normalized) letter of the input exactly
    /// once, in an order respecting every implied constraint.
    pub fn alien_order(list: &Vec<String>) -> (r: String)
        ensures
            ({
                let ws = list.deep_view();
                let nws = norm_words(ws);
                &&& ws.len() < 2 ==> r@ == Seq::<char>::empty()
                &&& !all_letters(ws) ==> r@ == Seq::<char>::empty()
                &&& r@.len() > 0 ==> is_valid_order(r@, nws)
                &&& (ws.len() >= 2 && all_letters(ws) && !has_cycle(nws)) ==> is_valid_order(
                    r@,
                    nws,
                )
                &&& has_cycle(nws) ==> r@ == Seq::<char>::empty()
                &&& r@ == spec_alien_order(ws)
            }),
    {
        let ghost ws = list.deep_view();
        let ghost nws = norm_words(ws);
        if list.len() < 2 {
            return String::new();
        }
        let nvecs = match normalize_words(list) {
            None => {
                return String::new();
            },
            Some(v) => v,
        };
        proof {
            assert(nvecs.deep_view() == nws);
            lemma_norm_words_lower(ws);
        }
        let mut g = LetterGraph::new();
        collect_letters(&nvecs, &mut g);
        add_constraints(&nvecs, &mut g);
        let ghost gsnap = g;
        match topo_sort(&mut g) {
            None => {
                proof {
                    let p = choose|p: Seq<int>| is_index_cycle(gsnap, p);
                    let pc = p.map_values(|l: int| index_char(l));
                    assert forall|k: int| 0 <= k < pc.len() - 1 implies has_edge(
                        nws,
                        #[trigger] pc[k],
                        pc[k + 1],
                    ) by {
                        assert(gsnap.edges@[p[k]]@[p[k + 1]]);
                    }
                    assert(has_edge(nws, pc.last(), pc[0])) by {
                        assert(gsnap.edges@[p.last()]@[p[0]]);
                        assert(pc.last() == index_char(p.last()));
                    }
                    assert(is_cycle(nws, pc));
                    let ev = edges_view(gsnap);
                    assert forall|a: int, b: int|
                        0 <= a < 26 && 0 <= b < 26 implies (#[trigger] ev[a][b] <==> edge_at(
                        nws,
                        a,
                        b,
                    )) by {
                        assert(ev[a] == gsnap.edges@[a]@);
                        assert(gsnap.edges@[a]@[b] <==> has_edge(nws, index_char(a), index_char(b)));
                    }
                    assert(alive_set(gsnap) =~= initial_letters(nws)) by {
                        assert forall|l: int|
                            0 <= l < 26 implies (alive_set(gsnap).contains(l)
                            <==> initial_letters(nws).contains(l)) by {
                            assert(gsnap.alive@[l] <==> appears(nws, index_char(l)));
                        }
                    }
                    lemma_mat_kahn_matches_model(ev, nws, initial_letters(nws), 27);
                    assert(!initial_letters(nws).subset_of(
                        m_kahn(nws, initial_letters(nws), 27).to_set(),
                    ));
                }
                String::new()
            },
            Some(out) => {
                let chars = indices_to_chars(&out);
                let res = Solution::to_string(&chars);
                proof {
                    lemma_valid_output(out@, chars@, gsnap, ws);
                    assert(res@ == chars@);
                    let ev = edges_view(gsnap);
                    assert forall|a: int, b: int|
                        0 <= a < 26 && 0 <= b < 26 implies (#[trigger] ev[a][b] <==> edge_at(
                        nws,
                        a,
                        b,
                    )) by {
                        assert(ev[a] == gsnap.edges@[a]@);
                        assert(gsnap.edges@[a]@[b] <==> has_edge(nws, index_char(a), index_char(b)));
                    }
                    assert(alive_set(gsnap) =~= initial_letters(nws)) by {
                        assert forall|l: int|
                            0 <= l < 26 implies (alive_set(gsnap).contains(l)
                            <==> initial_letters(nws).contains(l)) by {
                            assert(gsnap.alive@[l] <==> appears(nws, index_char(l)));
                        }
                    }
                    lemma_mat_kahn_matches_model(ev, nws, initial_letters(nws), 27);
                    let out_m = m_kahn(nws, initial_letters(nws), 27);
                    assert(out@.map_values(|x: u8| x as int) == out_m);
                    assert forall|l: int| #[trigger]
                        initial_letters(nws).contains(l) implies out_m.to_set().contains(l) by {
                        assert(alive_set(gsnap).contains(l));
                        assert(gsnap.alive@[l]);
                        assert(out@.contains(l as u8));
                        crate::lemmas::lemma_cast_map_contains(out@, l);
                    }
                    assert(initial_letters(nws).subset_of(out_m.to_set()));
                    assert(chars@ =~= out_m.map_values(|l: int| index_char(l))) by {
                        assert(out_m.len() == out@.len());
                        assert forall|k: int|
                            0 <= k < chars@.len() implies chars@[k] == out_m.map_values(
                            |l: int| index_char(l),
                        )[k] by {
                            assert(out_m[k] == out@[k] as int);
                        }
                    }
                    assert(spec_alien_order(ws) == res@);
                    assert forall|p: Seq<char>| !is_cycle(nws, p) by {
                        if is_cycle(nws, p) {
                            lemma_cycle_excludes_valid_order(nws, p, res@);
                        }
                    }
                    assert(!has_cycle(nws));
                }
                res
            },
        }
    }

    /// Concatenates the letters into a string.
    pub fn to_string(input: &Vec<char>) -> (r: String)
        requires
            forall|k: int| 0 <= k < input@.len() ==> is_lower_letter(#[trigger] input@[k]),
        ensures
            r@ == input@,
    {
        let mut r = String::new();
        let mut k: usize = 0;
        proof {
            assert(r@ =~= input@.take(0));
        }
        while k < input.len()
            invariant
                k <= input@.len(),
                r@ == input@.take(k as int),
                forall|m: int| 0 <= m < input@.len() ==> is_lower_letter(#[trigger] input@[m]),
            decreases input@.len() - k,
        {
            let c = input[k];
            proof {
                crate::lemmas::lemma_letter_index_char(c);
            }
            let li: u8 = ((c as u32) - 97) as u8;
            r.append(letter_str(li));
            proof {
                assert(index_char(li as int) == c);
                assert(r@ =~= input@.take(k as int + 1)) by {
                    assert(input@.take(k as int + 1) =~= input@.take(k as int).push(c));
                }
            }
            k = k + 1;
        }
        proof {
            assert(input@.take(input@.len() as int) =~= input@);
        }
        r
    }

    /// A sorted word list over the alphabet ordering "wertf".
    pub fn test_fixture_1() -> (r: Vec<String>)
        ensures
            r@.len() == 5,
            r@[0]@ == "wrt"@,
            r@[1]@ == "wrf"@,
            r@[2]@ == "er"@,
            r@[3]@ == "ett"@,
            r@[4]@ == "rftt"@,
    {
        let mut r: Vec<String> = Vec::new();
        r.push(String::from_str("wrt"));
        r.push(String::from_str("wrf"));
        r.push(String::from_str("er"));
        r.push(String::from_str("ett"));
        r.push(String::from_str("rftt"));
        r
    }

    /// A two-word list whose single constraint puts 'z' before 'x'.
    pub fn test_fixture_2() -> (r: Vec<String>)
        ensures
            r@.len() == 2,
            r@[0]@ == "z"@,
            r@[1]@ == "x"@,
    {
        let mut r: Vec<String> = Vec::new();
        r.push(String::from_str("z"));
        r.push(String::from_str("x"));
        r
    }

    /// A word list with contradictory constraints: 'z' before 'x' and 'x'
    /// before 'z'.
    pub fn test_fixture_3() -> (r: Vec<String>)
        ensures
            r@.len() == 3,
            r@[0]@ == "z"@,
            r@[1]@ == "x"@,
            r@[2]@ == "z"@,
    {
        let mut r: Vec<String> = Vec::new();
        r.push(String::from_str("z"));
        r.push(String::from_str("x"));
        r.push(String::from_str("z"));
        r
    }
}

} // verus!
