//! What holds of a word cloud over any sequence of operations.

use vstd::prelude::*;
use crate::model::{
    added_words, keeps_ramp_rate, last_article, ramp_advances, CloudModel, CloudOp,
};
use crate::single::{
    lemma_ceil_of_exact_int, lemma_product_with_one, lemma_quotient_of_itself,
    lemma_round_single_normalized, lemma_small_int_exact, single_from_int,
};
use crate::ranking::{
    frequency_map, occurrences, is_next_display_word, listed_entries, with_next_display_word,
};

verus! {

/// The most words the window holds: its size, or one word when the size is 0
/// (the newest word is always kept).
pub open spec fn window_capacity(max_queue_size: usize) -> int {
    if max_queue_size == 0 {
        1
    } else {
        max_queue_size as int
    }
}

/// The last `c` elements of `s` (all of them, if there are fewer).
pub open spec fn latest<A>(s: Seq<A>, c: int) -> Seq<A> {
    if s.len() <= c {
        s
    } else {
        s.subrange(s.len() - c, s.len() as int)
    }
}

/// The sliding window always holds the most recent words, up to its
/// capacity, oldest first; adding words changes nothing but the window and
/// the running total, and the counts are those of the words in the window.
pub proof fn lemma_window_holds_latest_words(m: CloudModel, ws: Seq<Seq<char>>)
    requires
        m.window.len() <= window_capacity(m.max_queue_size),
    ensures
        m.after_adding_all(ws).window == latest(m.window + ws, window_capacity(m.max_queue_size)),
        m.after_adding_all(ws).window.len() <= window_capacity(m.max_queue_size),
        m.after_adding_all(ws).frequencies() == frequency_map(
            latest(m.window + ws, window_capacity(m.max_queue_size)),
        ),
        m.after_adding_all(ws) == (CloudModel {
            window: m.after_adding_all(ws).window,
            total_words_processed: m.after_adding_all(ws).total_words_processed,
            ..m
        }),
    decreases ws.len(),
{
    let c = window_capacity(m.max_queue_size);
    if ws.len() == 0 {
        assert(m.window + ws =~= m.window);
    } else {
        lemma_window_holds_latest_words(m, ws.drop_last());
        let all = m.window + ws;
        let a = m.window + ws.drop_last();
        let x = ws.last();
        assert(all =~= a.push(x));
        let prev = m.after_adding_all(ws.drop_last());
        if a.len() < c {
            assert(prev.window == a);
            assert(all.len() <= c);
        } else {
            assert(prev.window.drop_first().push(x) =~= all.subrange(
                all.len() - c,
                all.len() as int,
            ));
        }
    }
}

/// Every added word is counted in the running total.
pub proof fn lemma_total_counts_every_word(m: CloudModel, ws: Seq<Seq<char>>)
    requires
        m.total_words_processed + ws.len() <= u64::MAX,
    ensures
        m.after_adding_all(ws).total_words_processed == m.total_words_processed + ws.len(),
    decreases ws.len(),
{
    if ws.len() > 0 {
        lemma_total_counts_every_word(m, ws.drop_last());
    }
}

/// A cloud that starts empty counts, after any words, exactly the last
/// words that fit in its window.
pub proof fn lemma_fresh_cloud_counts_latest_words(
    max_queue_size: usize,
    max_display_words: usize,
    ws: Seq<Seq<char>>,
)
    ensures
        CloudModel::initial(max_queue_size, max_display_words).after_adding_all(ws).frequencies()
            == frequency_map(latest(ws, window_capacity(max_queue_size))),
{
    let m = CloudModel::initial(max_queue_size, max_display_words);
    lemma_window_holds_latest_words(m, ws);
    assert(m.window + ws =~= ws);
}

/// The display during the ramp only ever grows at its end, by at most two
/// words a frame, while the ramp limit rises by at most one and never past
/// the number of words to display.
pub proof fn lemma_ramp_only_extends_display(m: CloudModel)
    ensures
        ({
            let n = m.after_advance_ramp();
            &&& m.displayed_words.len() <= n.displayed_words.len() <= m.displayed_words.len() + 2
            &&& n.displayed_words.take(m.displayed_words.len() as int) == m.displayed_words
            &&& m.ramp_current <= n.ramp_current <= m.ramp_current + 1
            &&& (m.ramp_current <= m.max_display_words ==> n.ramp_current <= n.max_display_words)
            &&& n.window == m.window
            &&& n.max_display_words == m.max_display_words
        }),
{
    let f = m.frequencies();
    let d = m.displayed_words;
    let d1 = with_next_display_word(f, d);
    let d2 = with_next_display_word(f, d1);
    assert(d1.take(d.len() as int) =~= d);
    assert(d2.take(d1.len() as int) =~= d1);
    assert(d2.take(d.len() as int) =~= d);
    assert(d.take(d.len() as int) =~= d);
}

/// While the ramp runs, only locked-in words are shown, each with its count.
pub proof fn lemma_ramp_shows_only_locked_words(m: CloudModel)
    requires
        m.ramping(),
    ensures
        forall|i: int|
            0 <= i < m.top_words().len() ==> {
                &&& m.displayed_words.contains(#[trigger] m.top_words()[i].0)
                &&& m.frequencies().contains_key(m.top_words()[i].0)
                &&& m.frequencies()[m.top_words()[i].0] == m.top_words()[i].1
            },
{
    lemma_listed_entries_are_listed(m.frequencies(), m.displayed_words);
}

proof fn lemma_listed_entries_are_listed(f: Map<Seq<char>, u32>, d: Seq<Seq<char>>)
    ensures
        forall|i: int|
            0 <= i < listed_entries(f, d).len() ==> {
                &&& d.contains(#[trigger] listed_entries(f, d)[i].0)
                &&& f.contains_key(listed_entries(f, d)[i].0)
                &&& f[listed_entries(f, d)[i].0] == listed_entries(f, d)[i].1
            },
    decreases d.len(),
{
    if d.len() > 0 {
        lemma_listed_entries_are_listed(f, d.drop_last());
        let rest = listed_entries(f, d.drop_last());
        assert forall|i: int| 0 <= i < listed_entries(f, d).len() implies d.contains(
            #[trigger] listed_entries(f, d)[i].0,
        ) by {
            if i < rest.len() {
                let w = rest[i].0;
                assert(d.drop_last().contains(w));
                let k = choose|k: int| 0 <= k < d.drop_last().len() && d.drop_last()[k] == w;
                assert(d[k] == w);
            } else {
                assert(d[d.len() - 1] == d.last());
            }
        }
    }
}

/// Once the ramp has reached the number of words to display (or when there
/// is no ramp), a frame of the ramp changes nothing.
pub proof fn lemma_ramp_ends(m: CloudModel)
    requires
        !m.ramping(),
    ensures
        m.after_advance_ramp() == m,
{
}

/// A word is locked in for display at most once.
pub proof fn lemma_ramp_locks_each_word_once(m: CloudModel)
    requires
        m.displayed_words.no_duplicates(),
    ensures
        m.after_advance_ramp().displayed_words.no_duplicates(),
{
    let f = m.frequencies();
    let d = m.displayed_words;
    lemma_next_word_is_new(f, d);
    lemma_next_word_is_new(f, with_next_display_word(f, d));
}

proof fn lemma_next_word_is_new(f: Map<Seq<char>, u32>, d: Seq<Seq<char>>)
    requires
        d.no_duplicates(),
    ensures
        with_next_display_word(f, d).no_duplicates(),
{
    if exists|w: Seq<char>| is_next_display_word(f, d, w) {
        let w = choose|w: Seq<char>| is_next_display_word(f, d, w);
        let n = d.push(w);
        assert forall|i: int, j: int| 0 <= i < n.len() && 0 <= j < n.len() && i != j implies n[i]
            != n[j] by {
            if i == d.len() {
                assert(!d.contains(w));
                assert(n[j] == d[j]);
            } else if j == d.len() {
                assert(!d.contains(w));
                assert(n[i] == d[i]);
            }
        }
    }
}

/// Whatever operations are applied, the window holds the most recent added
/// words up to its capacity, the total counts every added word, the article
/// is the last one set, and the sizes of the cloud stay as they were.
pub proof fn lemma_window_after_any_operations(m: CloudModel, ops: Seq<CloudOp>)
    requires
        m.window.len() <= window_capacity(m.max_queue_size),
        m.total_words_processed + added_words(ops).len() <= u64::MAX,
    ensures
        m.after_ops(ops).window == latest(
            m.window + added_words(ops),
            window_capacity(m.max_queue_size),
        ),
        m.after_ops(ops).window.len() <= window_capacity(m.max_queue_size),
        m.after_ops(ops).frequencies() == frequency_map(
            latest(m.window + added_words(ops), window_capacity(m.max_queue_size)),
        ),
        m.after_ops(ops).total_words_processed == m.total_words_processed + added_words(ops).len(),
        m.after_ops(ops).current_article == last_article(ops, m.current_article),
        m.after_ops(ops).max_queue_size == m.max_queue_size,
        m.after_ops(ops).max_display_words == m.max_display_words,
    decreases ops.len(),
{
    let c = window_capacity(m.max_queue_size);
    if ops.len() == 0 {
        assert(m.window + added_words(ops) =~= m.window);
    } else {
        let prev_ops = ops.drop_last();
        lemma_window_after_any_operations(m, prev_ops);
        let prev = m.after_ops(prev_ops);
        let a = m.window + added_words(prev_ops);
        match ops.last() {
            CloudOp::AddWord(x) => {
                let all = m.window + added_words(ops);
                assert(all =~= a.push(x));
                if a.len() < c {
                    assert(prev.window == a);
                } else {
                    assert(prev.window.drop_first().push(x) =~= all.subrange(
                        all.len() - c,
                        all.len() as int,
                    ));
                }
            },
            _ => {
                assert(added_words(ops) == added_words(prev_ops));
            },
        }
    }
}

/// Progress of the ramp: frames counted since it started.
pub open spec fn ramp_progress(m: CloudModel) -> int {
    (m.ramp_current - 1) * m.ramp_frames_per_word + m.ramp_frame_count
}

/// While the ramp's rate is kept, every frame of the ramp counts once
/// towards the ramp's progress, until the display is full: the limit rises
/// by one every `ramp_frames_per_word` frames.
pub proof fn lemma_ramp_progress(m: CloudModel, ops: Seq<CloudOp>)
    requires
        keeps_ramp_rate(ops),
        m.ramp_frames_per_word > 0,
        m.ramp_current >= 1,
        m.ramp_frame_count < m.ramp_frames_per_word,
        ramp_progress(m) + ramp_advances(ops) <= (m.max_display_words - 1)
            * m.ramp_frames_per_word,
    ensures
        m.after_ops(ops).ramp_frames_per_word == m.ramp_frames_per_word,
        m.after_ops(ops).max_display_words == m.max_display_words,
        m.after_ops(ops).ramp_current >= 1,
        m.after_ops(ops).ramp_frame_count < m.ramp_frames_per_word,
        ramp_progress(m.after_ops(ops)) == ramp_progress(m) + ramp_advances(ops),
    decreases ops.len(),
{
    if ops.len() > 0 {
        let prev_ops = ops.drop_last();
        assert(keeps_ramp_rate(prev_ops)) by {
            assert forall|i: int| 0 <= i < prev_ops.len() implies !(#[trigger] prev_ops[i] is SetRampFramesPerWord) by {
                assert(prev_ops[i] == ops[i]);
            }
        }
        lemma_ramp_progress(m, prev_ops);
        let p = m.after_ops(prev_ops);
        let n = m.ramp_frames_per_word as int;
        let d = m.max_display_words as int;
        let r = p.ramp_current as int;
        let c = p.ramp_frame_count as int;
        assert(!(ops[ops.len() - 1] is SetRampFramesPerWord));
        if ops.last() is AdvanceRamp {
            // The ramp is still running: its progress is below the full display.
            assert((r - 1) * n + c < (d - 1) * n);
            assert(r < d) by (nonlinear_arith)
                requires
                    (r - 1) * n + c < (d - 1) * n,
                    0 <= c,
                    n > 0,
            ;
            assert(p.ramping());
            if c + 1 >= n {
                assert((r - 1) * n + c + 1 == r * n) by (nonlinear_arith)
                    requires
                        c + 1 == n,
                ;
            }
        }
    }
}

/// After the ramp starts at one word, `(max_display_words - 1) *
/// ramp_frames_per_word` frames of the ramp (with any words and articles in
/// between) bring the limit to `max_display_words`, and the ramp is over.
pub proof fn lemma_ramp_completes(m: CloudModel, ops: Seq<CloudOp>)
    requires
        keeps_ramp_rate(ops),
        m.ramp_frames_per_word > 0,
        m.ramp_current == 1,
        m.ramp_frame_count == 0,
        m.max_display_words >= 1,
        ramp_advances(ops) == (m.max_display_words - 1) * m.ramp_frames_per_word,
    ensures
        m.after_ops(ops).ramp_current == m.max_display_words,
        !m.after_ops(ops).ramping(),
        m.after_ops(ops).display_count() == m.max_display_words,
{
    assert(ramp_progress(m) == 0);
    lemma_ramp_progress(m, ops);
    let a = m.after_ops(ops);
    let n = m.ramp_frames_per_word as int;
    let d = m.max_display_words as int;
    let r = a.ramp_current as int;
    let c = a.ramp_frame_count as int;
    assert((r - 1) * n + c == (d - 1) * n);
    vstd::arithmetic::div_mod::lemma_fundamental_div_mod_converse((d - 1) * n, n, r - 1, c);
    vstd::arithmetic::div_mod::lemma_fundamental_div_mod_converse((d - 1) * n, n, d - 1, 0);
}

/// The sum of the counts of the words `ks` in `s`.
pub open spec fn count_sum(s: Seq<Seq<char>>, ks: Seq<Seq<char>>) -> int
    decreases ks.len(),
{
    if ks.len() == 0 {
        0
    } else {
        count_sum(s, ks.drop_last()) + occurrences(s, ks.last())
    }
}

proof fn lemma_count_sum_push(s: Seq<Seq<char>>, x: Seq<char>, ks: Seq<Seq<char>>)
    requires
        ks.no_duplicates(),
    ensures
        count_sum(s.push(x), ks) == count_sum(s, ks) + (if ks.contains(x) { 1int } else { 0int }),
    decreases ks.len(),
{
    if ks.len() > 0 {
        let rest = ks.drop_last();
        assert(rest.no_duplicates()) by {
            assert forall|i: int, j: int| 0 <= i < rest.len() && 0 <= j < rest.len() && i != j implies rest[i] != rest[j] by {
                assert(rest[i] == ks[i] && rest[j] == ks[j]);
            }
        }
        lemma_count_sum_push(s, x, rest);
        crate::ranking::lemma_occurrences_push(s, x, ks.last());
        if ks.contains(x) {
            let i = choose|i: int| 0 <= i < ks.len() && ks[i] == x;
            if i < ks.len() - 1 {
                assert(rest[i] == x);
                assert(ks.last() != x) by {
                    assert(ks[ks.len() - 1] != ks[i]);
                }
            } else {
                assert(!rest.contains(x)) by {
                    if rest.contains(x) {
                        let j = choose|j: int| 0 <= j < rest.len() && rest[j] == x;
                        assert(ks[j] == ks[i]);
                    }
                }
            }
        } else {
            assert(!rest.contains(x)) by {
                if rest.contains(x) {
                    let j = choose|j: int| 0 <= j < rest.len() && rest[j] == x;
                    assert(ks[j] == x);
                }
            }
            assert(ks.last() != x) by {
                assert(ks[ks.len() - 1] == ks.last());
            }
        }
    }
}

proof fn lemma_count_sum_covers(s: Seq<Seq<char>>, ks: Seq<Seq<char>>)
    requires
        ks.no_duplicates(),
        forall|i: int| 0 <= i < s.len() ==> ks.contains(#[trigger] s[i]),
    ensures
        count_sum(s, ks) == s.len(),
    decreases s.len(),
{
    if s.len() == 0 {
        lemma_count_sum_empty(ks);
        assert(s =~= Seq::<Seq<char>>::empty());
    } else {
        let rest = s.drop_last();
        assert forall|i: int| 0 <= i < rest.len() implies ks.contains(#[trigger] rest[i]) by {
            assert(rest[i] == s[i]);
        }
        lemma_count_sum_covers(rest, ks);
        assert(rest.push(s.last()) =~= s);
        assert(ks.contains(s[s.len() - 1]));
        lemma_count_sum_push(rest, s.last(), ks);
    }
}

proof fn lemma_count_sum_empty(ks: Seq<Seq<char>>)
    ensures
        count_sum(Seq::empty(), ks) == 0,
    decreases ks.len(),
{
    if ks.len() > 0 {
        lemma_count_sum_empty(ks.drop_last());
    }
}

/// The sum of the values of `m` at the keys `ks`.
pub open spec fn value_sum(m: Map<Seq<char>, u32>, ks: Seq<Seq<char>>) -> int
    decreases ks.len(),
{
    if ks.len() == 0 {
        0
    } else {
        value_sum(m, ks.drop_last()) + m[ks.last()]
    }
}

/// Every word of the window has a count of at least one, and the counts of
/// all the words (each listed once) add up to the number of words in the
/// window.
pub proof fn lemma_counts_add_up_to_window(s: Seq<Seq<char>>, ks: Seq<Seq<char>>)
    requires
        forall|w: Seq<char>| occurrences(s, w) <= u32::MAX,
        ks.no_duplicates(),
        ks.to_set() == frequency_map(s).dom(),
    ensures
        forall|w: Seq<char>| #[trigger]
            frequency_map(s).contains_key(w) ==> frequency_map(s)[w] >= 1,
        value_sum(frequency_map(s), ks) == s.len(),
{
    assert forall|i: int| 0 <= i < s.len() implies ks.contains(#[trigger] s[i]) by {
        crate::ranking::lemma_occurrences_contains(s, s[i]);
        assert(s.contains(s[i]));
        assert(frequency_map(s).dom().contains(s[i]));
        assert(ks.to_set().contains(s[i]));
    }
    lemma_count_sum_covers(s, ks);
    lemma_value_sum_is_count_sum(s, ks);
}

proof fn lemma_value_sum_is_count_sum(s: Seq<Seq<char>>, ks: Seq<Seq<char>>)
    requires
        forall|w: Seq<char>| occurrences(s, w) <= u32::MAX,
        forall|i: int| 0 <= i < ks.len() ==> frequency_map(s).contains_key(#[trigger] ks[i]),
    ensures
        value_sum(frequency_map(s), ks) == count_sum(s, ks),
    decreases ks.len(),
{
    if ks.len() > 0 {
        let rest = ks.drop_last();
        assert forall|i: int| 0 <= i < rest.len() implies frequency_map(s).contains_key(#[trigger] rest[i]) by {
            assert(rest[i] == ks[i]);
        }
        lemma_value_sum_is_count_sum(s, rest);
        assert(frequency_map(s).contains_key(ks[ks.len() - 1]));
        assert(occurrences(s, ks.last()) <= u32::MAX);
    }
}

/// Adding a word never changes the article, and the snapshot taken after it
/// shows the word as the latest one and counts it in the total.
pub proof fn lemma_add_keeps_article(m: CloudModel, w: Seq<char>)
    ensures
        m.after_add(w).current_article == m.current_article,
        m.after_add(w).snapshot().current_article == m.snapshot().current_article,
        m.after_add(w).snapshot().latest_word == Some(w),
        m.after_add(w).snapshot().total_words_processed == (m.total_words_processed + 1) as u64,
{
}

/// Without a ramp, how many words are shown depends on the window only
/// through its length (words counted with their repeats), not on which
/// words it holds or how many of them differ.
pub proof fn lemma_display_count_depends_on_window_length(m1: CloudModel, m2: CloudModel)
    requires
        m1.ramp_frames_per_word == 0,
        m2.ramp_frames_per_word == 0,
        m1.max_queue_size == m2.max_queue_size,
        m1.max_display_words == m2.max_display_words,
        m1.window.len() == m2.window.len(),
    ensures
        m1.display_count() == m2.display_count(),
{
}

/// Without a ramp, once the window is full, `max_display_words` words are
/// shown (when that is at least three and below `2^24`, where single
/// precision holds every count exactly), however often words repeat.
pub proof fn lemma_full_window_shows_max_words(m: CloudModel)
    requires
        m.ramp_frames_per_word == 0,
        m.max_queue_size >= 1,
        m.window.len() == m.max_queue_size,
        3 <= m.max_display_words < 16777216,
    ensures
        m.display_count() == m.max_display_words,
{
    let d = m.max_display_words as nat;
    let q = m.max_queue_size as nat;
    let x = single_from_int(q);
    lemma_round_single_normalized(q, 1, 0);
    lemma_quotient_of_itself(x);
    let t = lemma_small_int_exact(d);
    let y = single_from_int(d);
    lemma_product_with_one(y);
    lemma_ceil_of_exact_int(d, t);
}

} // verus!
