//! Word counts over a window of words, and the ranking of counted words:
//! higher counts first, equal counts in string order.

use vstd::prelude::*;
use crate::order::{
    lemma_word_lt_irreflexive, lemma_word_lt_total, lemma_word_lt_transitive, word_lt,
};

verus! {

/// How many times `w` occurs in `s`.
pub open spec fn occurrences(s: Seq<Seq<char>>, w: Seq<char>) -> nat
    decreases s.len(),
{
    if s.len() == 0 {
        0
    } else {
        occurrences(s.drop_last(), w) + (if s.last() == w { 1nat } else { 0nat })
    }
}

/// The count of every word that occurs in `s`.
pub open spec fn frequency_map(s: Seq<Seq<char>>) -> Map<Seq<char>, u32> {
    Map::new(|w: Seq<char>| occurrences(s, w) > 0, |w: Seq<char>| occurrences(s, w) as u32)
}

pub proof fn lemma_occurrences_push(s: Seq<Seq<char>>, x: Seq<char>, w: Seq<char>)
    ensures
        occurrences(s.push(x), w) == occurrences(s, w) + (if x == w { 1nat } else { 0nat }),
{
    assert(s.push(x).drop_last() =~= s);
}

pub proof fn lemma_occurrences_drop_first(s: Seq<Seq<char>>, w: Seq<char>)
    requires
        s.len() > 0,
    ensures
        occurrences(s, w) == occurrences(s.drop_first(), w) + (if s[0] == w { 1nat } else { 0nat }),
    decreases s.len(),
{
    if s.len() == 1 {
        assert(s.drop_first() =~= Seq::<Seq<char>>::empty());
        assert(s.drop_last() =~= Seq::<Seq<char>>::empty());
    } else {
        lemma_occurrences_drop_first(s.drop_last(), w);
        assert(s.drop_last().drop_first() =~= s.drop_first().drop_last());
    }
}

pub proof fn lemma_occurrences_contains(s: Seq<Seq<char>>, w: Seq<char>)
    ensures
        occurrences(s, w) > 0 <==> s.contains(w),
    decreases s.len(),
{
    if s.len() > 0 {
        lemma_occurrences_contains(s.drop_last(), w);
        if s.drop_last().contains(w) {
            let i = choose|i: int| 0 <= i < s.drop_last().len() && s.drop_last()[i] == w;
            assert(s[i] == w);
        }
        if s.contains(w) && s.last() != w {
            let i = choose|i: int| 0 <= i < s.len() && s[i] == w;
            assert(s.drop_last()[i] == w);
        }
        if s.last() == w {
            assert(s[s.len() - 1] == w);
        }
    }
}

pub proof fn lemma_occurrences_bounded(s: Seq<Seq<char>>, w: Seq<char>)
    ensures
        occurrences(s, w) <= s.len(),
    decreases s.len(),
{
    if s.len() > 0 {
        lemma_occurrences_bounded(s.drop_last(), w);
    }
}

/// A counted word `a` is shown before `b`: it has the higher count, or the
/// same count and sorts first as a string.
pub open spec fn ranks_before(a: (Seq<char>, u32), b: (Seq<char>, u32)) -> bool {
    a.1 > b.1 || (a.1 == b.1 && word_lt(a.0, b.0))
}

pub proof fn lemma_ranks_before_irreflexive(a: (Seq<char>, u32))
    ensures
        !ranks_before(a, a),
{
    lemma_word_lt_irreflexive(a.0);
}

pub proof fn lemma_ranks_before_transitive(
    a: (Seq<char>, u32),
    b: (Seq<char>, u32),
    c: (Seq<char>, u32),
)
    requires
        ranks_before(a, b),
        ranks_before(b, c),
    ensures
        ranks_before(a, c),
{
    if a.1 == b.1 && b.1 == c.1 {
        lemma_word_lt_transitive(a.0, b.0, c.0);
    }
}

pub proof fn lemma_ranks_before_asymmetric(a: (Seq<char>, u32), b: (Seq<char>, u32))
    ensures
        !(ranks_before(a, b) && ranks_before(b, a)),
{
    if ranks_before(a, b) && ranks_before(b, a) {
        lemma_ranks_before_transitive(a, b, a);
        lemma_ranks_before_irreflexive(a);
    }
}

pub proof fn lemma_ranks_before_total(a: (Seq<char>, u32), b: (Seq<char>, u32))
    requires
        a.0 != b.0,
    ensures
        ranks_before(a, b) || ranks_before(b, a),
{
    lemma_word_lt_total(a.0, b.0);
}

/// Some entry of `s` is for the word `w`.
pub open spec fn lists_word(s: Seq<(Seq<char>, u32)>, w: Seq<char>) -> bool {
    exists|i: int| 0 <= i < s.len() && #[trigger] s[i].0 == w
}

/// Every entry of `s` ranks before every later entry.
pub open spec fn strictly_ranked(s: Seq<(Seq<char>, u32)>) -> bool {
    forall|i: int, j: int| 0 <= i < j < s.len() ==> ranks_before(#[trigger] s[i], #[trigger] s[j])
}

/// Every entry of `s` is a word of `m` with its count.
pub open spec fn entries_of(m: Map<Seq<char>, u32>, s: Seq<(Seq<char>, u32)>) -> bool {
    forall|i: int| 0 <= i < s.len() ==> m.contains_key(#[trigger] s[i].0) && m[s[i].0] == s[i].1
}

/// `s` holds the `k` best-ranked words of `m` (all of them, if `m` has fewer),
/// best first.
pub open spec fn is_top_ranked(m: Map<Seq<char>, u32>, k: int, s: Seq<(Seq<char>, u32)>) -> bool {
    &&& s.len() <= k
    &&& strictly_ranked(s)
    &&& entries_of(m, s)
    &&& forall|w: Seq<char>|
        #[trigger] m.contains_key(w) && !lists_word(s, w) ==> {
            &&& s.len() == k
            &&& forall|i: int| 0 <= i < s.len() ==> ranks_before(#[trigger] s[i], (w, m[w]))
        }
}

/// The `k` best-ranked words of `m`, best first.
pub open spec fn top_ranked(m: Map<Seq<char>, u32>, k: int) -> Seq<(Seq<char>, u32)> {
    choose|s: Seq<(Seq<char>, u32)>| is_top_ranked(m, k, s)
}

proof fn lemma_top_ranked_prefix_equal(
    m: Map<Seq<char>, u32>,
    k: int,
    s1: Seq<(Seq<char>, u32)>,
    s2: Seq<(Seq<char>, u32)>,
    n: int,
)
    requires
        is_top_ranked(m, k, s1),
        is_top_ranked(m, k, s2),
        0 <= n <= s1.len(),
        n <= s2.len(),
    ensures
        forall|i: int| 0 <= i < n ==> s1[i] == s2[i],
    decreases n,
{
    if n > 0 {
        lemma_top_ranked_prefix_equal(m, k, s1, s2, n - 1);
        let i = n - 1;
        if s1[i] != s2[i] {
            assert(s1[i].0 != s2[i].0);
            lemma_ranks_before_total(s1[i], s2[i]);
            if ranks_before(s1[i], s2[i]) {
                lemma_top_ranked_first_difference(m, k, s1, s2, i);
            } else {
                lemma_top_ranked_first_difference(m, k, s2, s1, i);
            }
        }
    }
}

proof fn lemma_top_ranked_first_difference(
    m: Map<Seq<char>, u32>,
    k: int,
    s1: Seq<(Seq<char>, u32)>,
    s2: Seq<(Seq<char>, u32)>,
    i: int,
)
    requires
        is_top_ranked(m, k, s1),
        is_top_ranked(m, k, s2),
        0 <= i < s1.len(),
        i < s2.len(),
        forall|j: int| 0 <= j < i ==> s1[j] == s2[j],
    ensures
        !ranks_before(s1[i], s2[i]),
{
    let w = s1[i].0;
    if ranks_before(s1[i], s2[i]) {
        assert(m.contains_key(w) && m[w] == s1[i].1);
        if lists_word(s2, w) {
            let j = choose|j: int| 0 <= j < s2.len() && #[trigger] s2[j].0 == w;
            assert(s2[j] == s1[i]);
            if j < i {
                assert(s1[j] == s2[j]);
                assert(ranks_before(s1[j], s1[i]));
                lemma_ranks_before_irreflexive(s1[i]);
            } else if j == i {
                lemma_ranks_before_irreflexive(s1[i]);
            } else {
                assert(ranks_before(s2[i], s2[j]));
                lemma_ranks_before_asymmetric(s1[i], s2[i]);
            }
        } else {
            assert(ranks_before(s2[i], (w, m[w])));
            lemma_ranks_before_asymmetric(s1[i], s2[i]);
        }
    }
}

/// There is only one list of the `k` best-ranked words.
pub proof fn lemma_top_ranked_unique(
    m: Map<Seq<char>, u32>,
    k: int,
    s1: Seq<(Seq<char>, u32)>,
    s2: Seq<(Seq<char>, u32)>,
)
    requires
        is_top_ranked(m, k, s1),
        is_top_ranked(m, k, s2),
    ensures
        s1 == s2,
{
    if s1.len() < s2.len() {
        lemma_top_ranked_prefix_equal(m, k, s1, s2, s1.len() as int);
        lemma_top_ranked_longer(m, k, s1, s2);
    } else if s2.len() < s1.len() {
        lemma_top_ranked_prefix_equal(m, k, s2, s1, s2.len() as int);
        lemma_top_ranked_longer(m, k, s2, s1);
    } else {
        lemma_top_ranked_prefix_equal(m, k, s1, s2, s1.len() as int);
        assert(s1 =~= s2);
    }
}

proof fn lemma_top_ranked_longer(
    m: Map<Seq<char>, u32>,
    k: int,
    s1: Seq<(Seq<char>, u32)>,
    s2: Seq<(Seq<char>, u32)>,
)
    requires
        is_top_ranked(m, k, s1),
        is_top_ranked(m, k, s2),
        s1.len() <= s2.len(),
        forall|i: int| 0 <= i < s1.len() ==> s1[i] == s2[i],
    ensures
        s1.len() == s2.len(),
{
    let n = s1.len() as int;
    if n < s2.len() {
        let x = s2[n];
        assert(m.contains_key(x.0));
        if lists_word(s1, x.0) {
            let j = choose|j: int| 0 <= j < s1.len() && #[trigger] s1[j].0 == x.0;
            assert(s2[j] == s1[j]);
            assert(ranks_before(s2[j], s2[n]));
            assert(s2[j] == s2[n]);
            lemma_ranks_before_irreflexive(s2[n]);
        }
    }
}

/// The entries of `d` that are words of `m`, in the order of `d`, with their counts.
pub open spec fn listed_entries(m: Map<Seq<char>, u32>, d: Seq<Seq<char>>) -> Seq<(Seq<char>, u32)>
    decreases d.len(),
{
    if d.len() == 0 {
        Seq::empty()
    } else {
        let rest = listed_entries(m, d.drop_last());
        if m.contains_key(d.last()) {
            rest.push((d.last(), m[d.last()]))
        } else {
            rest
        }
    }
}

/// `w` is the best-ranked word of `m` that is not in `d`.
pub open spec fn is_next_display_word(m: Map<Seq<char>, u32>, d: Seq<Seq<char>>, w: Seq<char>) -> bool {
    &&& m.contains_key(w)
    &&& !d.contains(w)
    &&& forall|v: Seq<char>|
        #[trigger] m.contains_key(v) && !d.contains(v) && v != w ==> ranks_before((w, m[w]), (v, m[v]))
}

/// `d` with the best-ranked word of `m` that it lacks appended, if it lacks any.
pub open spec fn with_next_display_word(m: Map<Seq<char>, u32>, d: Seq<Seq<char>>) -> Seq<Seq<char>> {
    if exists|w: Seq<char>| is_next_display_word(m, d, w) {
        d.push(choose|w: Seq<char>| is_next_display_word(m, d, w))
    } else {
        d
    }
}

pub proof fn lemma_next_display_word_unique(
    m: Map<Seq<char>, u32>,
    d: Seq<Seq<char>>,
    w1: Seq<char>,
    w2: Seq<char>,
)
    requires
        is_next_display_word(m, d, w1),
        is_next_display_word(m, d, w2),
    ensures
        w1 == w2,
{
    if w1 != w2 {
        assert(m.contains_key(w2));
        assert(m.contains_key(w1));
        lemma_ranks_before_asymmetric((w1, m[w1]), (w2, m[w2]));
    }
}

} // verus!
