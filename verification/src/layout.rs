//! The decisions of the layout engine that do not depend on geometry: when
//! to lay all words out afresh, and which words start to fade.

use vstd::prelude::*;
use crate::cloud::entry_views;

verus! {

/// `a - b`, or 0 when `b` is larger.
pub open spec fn saturating_difference(a: u32, b: u32) -> int {
    if a >= b {
        a - b
    } else {
        0
    }
}

/// How many of the top words must already be placed: half of them, but at
/// least five (or all, if there are fewer).
pub open spec fn checked_top_count(n: int) -> int {
    let half = n / 2;
    let wanted = if half < 5 {
        5
    } else {
        half
    };
    if wanted < n {
        wanted
    } else {
        n
    }
}

/// The first (up to) three words of `s`.
pub open spec fn first_three(s: Seq<Seq<char>>) -> Seq<Seq<char>> {
    if s.len() < 3 {
        s
    } else {
        s.take(3)
    }
}

/// Whether the layout must be redone from scratch.
///
/// Never when relayout is disabled (once a first layout exists); always for
/// the first layout; otherwise only once the cooldown since the last full
/// layout has passed, and then when one of the leading top words has no
/// place yet or the three biggest words changed.
pub open spec fn relayout_needed(
    no_relayout: bool,
    last_top_words: Seq<Seq<char>>,
    frame_count: u32,
    last_relayout_frame: u32,
    relayout_cooldown: u32,
    top_words: Seq<Seq<char>>,
    placed: Seq<Seq<char>>,
) -> bool {
    if no_relayout && last_top_words.len() > 0 {
        false
    } else if last_top_words.len() == 0 {
        true
    } else if saturating_difference(frame_count, last_relayout_frame) < relayout_cooldown {
        false
    } else if exists|i: int|
        0 <= i < checked_top_count(top_words.len() as int) && !placed.contains(
            #[trigger] top_words[i],
        ) {
        true
    } else {
        first_three(last_top_words) != first_three(top_words)
    }
}

/// The words of `(word, count)` entries.
pub open spec fn words_of_entries(s: Seq<(Seq<char>, u32)>) -> Seq<Seq<char>> {
    s.map_values(|e: (Seq<char>, u32)| e.0)
}

fn contains_word(words: &Vec<String>, w: &String) -> (r: bool)
    ensures
        r == words.deep_view().contains(w@),
{
    let mut i: usize = 0;
    while i < words.len()
        invariant
            i <= words@.len(),
            forall|j: int| 0 <= j < i ==> words.deep_view()[j] != w@,
        decreases words@.len() - i,
    {
        if words[i] == *w {
            assert(words.deep_view()[i as int] == w@);
            return true;
        }
        i = i + 1;
    }
    false
}

/// Check if layout needs full recalculation: the word set changed
/// significantly (new words entered top positions) and the cooldown has
/// elapsed. `placed` lists the words that currently have a position.
pub fn needs_full_relayout(
    no_relayout: bool,
    last_top_words: &Vec<String>,
    frame_count: u32,
    last_relayout_frame: u32,
    relayout_cooldown: u32,
    top_words: &Vec<(String, u32)>,
    placed: &Vec<String>,
) -> (r: bool)
    ensures
        r == relayout_needed(
            no_relayout,
            last_top_words.deep_view(),
            frame_count,
            last_relayout_frame,
            relayout_cooldown,
            words_of_entries(entry_views(top_words@)),
            placed.deep_view(),
        ),
{
    let ghost tw = words_of_entries(entry_views(top_words@));
    if no_relayout && last_top_words.len() > 0 {
        return false;
    }
    if last_top_words.len() == 0 {
        return true;
    }
    let frames_since_relayout = if frame_count >= last_relayout_frame {
        frame_count - last_relayout_frame
    } else {
        0
    };
    if frames_since_relayout < relayout_cooldown {
        return false;
    }
    let n = top_words.len();
    let half = n / 2;
    let wanted = if half < 5 {
        5
    } else {
        half
    };
    let checked = if wanted < n {
        wanted
    } else {
        n
    };
    let mut i: usize = 0;
    while i < checked
        invariant
            !(no_relayout && last_top_words@.len() > 0),
            last_top_words@.len() > 0,
            saturating_difference(frame_count, last_relayout_frame) >= relayout_cooldown,
            checked == checked_top_count(tw.len() as int),
            checked <= top_words@.len(),
            tw == words_of_entries(entry_views(top_words@)),
            i <= checked,
            forall|j: int| 0 <= j < i ==> placed.deep_view().contains(#[trigger] tw[j]),
        decreases checked - i,
    {
        assert(tw[i as int] == top_words@[i as int].0@);
        if !contains_word(placed, &top_words[i].0) {
            assert(!placed.deep_view().contains(tw[i as int]));
            return true;
        }
        i = i + 1;
    }
    let k_old = if last_top_words.len() < 3 {
        last_top_words.len()
    } else {
        3
    };
    let k_new = if n < 3 {
        n
    } else {
        3
    };
    assert(checked == checked_top_count(tw.len() as int));
    if k_old != k_new {
        proof {
            assert(first_three(last_top_words.deep_view()).len() != first_three(tw).len());
        }
        return true;
    }
    let mut j: usize = 0;
    while j < k_old
        invariant
            !(no_relayout && last_top_words@.len() > 0),
            last_top_words@.len() > 0,
            saturating_difference(frame_count, last_relayout_frame) >= relayout_cooldown,
            forall|q: int| 0 <= q < checked_top_count(tw.len() as int) ==> placed.deep_view().contains(#[trigger] tw[q]),
            k_old == k_new,
            k_old <= last_top_words@.len(),
            k_old <= top_words@.len(),
            k_old == first_three(tw).len(),
            k_old == first_three(last_top_words.deep_view()).len(),
            tw == words_of_entries(entry_views(top_words@)),
            j <= k_old,
            forall|q: int| 0 <= q < j ==> last_top_words.deep_view()[q] == tw[q],
        decreases k_old - j,
    {
        assert(tw[j as int] == top_words@[j as int].0@);
        if last_top_words[j] != top_words[j].0 {
            proof {
                assert(first_three(last_top_words.deep_view())[j as int] != first_three(tw)[j as int]);
            }
            return true;
        }
        j = j + 1;
    }
    proof {
        assert(first_three(last_top_words.deep_view()) =~= first_three(tw));
    }
    false
}

/// Which of the placed words start fading out: those no longer among the top
/// words, or all of them when there are no top words.
pub fn fading_words(placed: &Vec<String>, top_words: &Vec<(String, u32)>) -> (r: Vec<bool>)
    ensures
        r@.len() == placed@.len(),
        forall|i: int|
            0 <= i < r@.len() ==> r@[i] == !words_of_entries(entry_views(top_words@)).contains(
                #[trigger] placed@[i]@,
            ),
{
    let ghost tw = words_of_entries(entry_views(top_words@));
    let mut out: Vec<bool> = Vec::new();
    let mut i: usize = 0;
    while i < placed.len()
        invariant
            tw == words_of_entries(entry_views(top_words@)),
            i <= placed@.len(),
            out@.len() == i,
            forall|k: int| 0 <= k < i ==> out@[k] == !tw.contains(#[trigger] placed@[k]@),
        decreases placed@.len() - i,
    {
        let mut found = false;
        let mut j: usize = 0;
        while j < top_words.len()
            invariant
                tw == words_of_entries(entry_views(top_words@)),
                i < placed@.len(),
                j <= top_words@.len(),
                found == exists|q: int| 0 <= q < j && tw[q] == placed@[i as int]@,
            decreases top_words@.len() - j,
        {
            assert(tw[j as int] == top_words@[j as int].0@);
            if top_words[j].0 == placed[i] {
                found = true;
            }
            j = j + 1;
        }
        out.push(!found);
        i = i + 1;
    }
    out
}

/// Once a first layout exists, relayout is allowed and the cooldown has
/// passed, and every current top word has a place, the layout is redone
/// exactly when the first three words (or all, if fewer) of the last top
/// list and of the current one differ, in which words or in their order.
pub proof fn lemma_relayout_follows_top_three(
    last_top_words: Seq<Seq<char>>,
    frame_count: u32,
    last_relayout_frame: u32,
    relayout_cooldown: u32,
    top_words: Seq<Seq<char>>,
    placed: Seq<Seq<char>>,
)
    requires
        last_top_words.len() > 0,
        frame_count >= last_relayout_frame + relayout_cooldown,
        forall|i: int| 0 <= i < top_words.len() ==> placed.contains(#[trigger] top_words[i]),
    ensures
        relayout_needed(
            false,
            last_top_words,
            frame_count,
            last_relayout_frame,
            relayout_cooldown,
            top_words,
            placed,
        ) == (last_top_words.take(
            if last_top_words.len() < 3 {
                last_top_words.len() as int
            } else {
                3
            },
        ) != top_words.take(
            if top_words.len() < 3 {
                top_words.len() as int
            } else {
                3
            },
        )),
{
    assert(last_top_words.len() < 3 ==> last_top_words.take(last_top_words.len() as int)
        =~= last_top_words);
    assert(top_words.len() < 3 ==> top_words.take(top_words.len() as int) =~= top_words);
    assert forall|i: int| 0 <= i < checked_top_count(top_words.len() as int) implies placed.contains(
        #[trigger] top_words[i],
    ) by {
        assert(checked_top_count(top_words.len() as int) <= top_words.len());
    }
}

/// The first layout is always made; once one exists, nothing is redone while
/// relayout is disabled, nor before the cooldown has passed since the last
/// full layout; and past the cooldown, a new word among the first five top
/// words (or the first half, if that is more) forces a new layout.
pub proof fn lemma_relayout_timing(
    no_relayout: bool,
    last_top_words: Seq<Seq<char>>,
    frame_count: u32,
    last_relayout_frame: u32,
    relayout_cooldown: u32,
    top_words: Seq<Seq<char>>,
    placed: Seq<Seq<char>>,
    i: int,
)
    ensures
        last_top_words.len() == 0 ==> relayout_needed(
            no_relayout,
            last_top_words,
            frame_count,
            last_relayout_frame,
            relayout_cooldown,
            top_words,
            placed,
        ),
        last_top_words.len() > 0 && (no_relayout || (last_relayout_frame <= frame_count
            < last_relayout_frame + relayout_cooldown)) ==> !relayout_needed(
            no_relayout,
            last_top_words,
            frame_count,
            last_relayout_frame,
            relayout_cooldown,
            top_words,
            placed,
        ),
        last_top_words.len() > 0 && !no_relayout && frame_count >= last_relayout_frame
            + relayout_cooldown && 0 <= i < top_words.len() && (i < 5 || 2 * i < top_words.len()
            - 1) && !placed.contains(top_words[i]) ==> relayout_needed(
            no_relayout,
            last_top_words,
            frame_count,
            last_relayout_frame,
            relayout_cooldown,
            top_words,
            placed,
        ),
{
    if 0 <= i < top_words.len() && (i < 5 || 2 * i < top_words.len() - 1) {
        assert(i < checked_top_count(top_words.len() as int));
    }
}

} // verus!
