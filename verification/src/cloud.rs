//! The sliding window of words and the counts of the words in it.

use std::collections::VecDeque;
use vstd::hash_map::StringHashMap;
use vstd::prelude::*;
use crate::model::{CloudModel, CloudStateView};
use crate::single::{single_ceil_saturating, single_divide, single_from_count, single_multiply};
use crate::order::str_lt;
use crate::ranking::{
    entries_of, frequency_map, is_next_display_word, is_top_ranked, lemma_next_display_word_unique,
    lemma_occurrences_bounded, lemma_occurrences_contains, lemma_occurrences_drop_first,
    lemma_occurrences_push, lemma_ranks_before_irreflexive, lemma_ranks_before_total,
    lemma_ranks_before_transitive, lemma_top_ranked_unique, listed_entries, lists_word,
    occurrences, ranks_before, strictly_ranked, top_ranked, with_next_display_word,
};

verus! {

/// Metadata about the current article being processed
#[derive(Debug, Clone, Default)]
pub struct ArticleInfo {
    pub date: String,
    pub title: String,
    pub image_path: Option<String>,
}

/// A copy of `s`, equal to it.
pub(crate) fn copy_string_option(s: &Option<String>) -> (r: Option<String>)
    ensures
        r == *s,
{
    match s {
        Some(v) => Some(v.clone()),
        None => None,
    }
}

impl ArticleInfo {
    /// A copy of this article's metadata.
    pub fn duplicate(&self) -> (r: ArticleInfo)
        ensures
            r == *self,
    {
        ArticleInfo {
            date: self.date.clone(),
            title: self.title.clone(),
            image_path: copy_string_option(&self.image_path),
        }
    }
}

/// State of the word cloud at a point in time
pub struct CloudState {
    pub word_frequencies: StringHashMap<u32>,
    pub top_words: Vec<(String, u32)>,
    pub total_words_processed: u64,
    pub current_queue_size: usize,
    pub latest_word: Option<String>,
    pub current_article: Option<ArticleInfo>,
}

/// The `(word, count)` entries of `s`, each word by its characters.
pub open spec fn entry_views(s: Seq<(String, u32)>) -> Seq<(Seq<char>, u32)> {
    s.map_values(|p: (String, u32)| (p.0@, p.1))
}

/// The characters of each string of `s`.
pub open spec fn string_views(s: Seq<String>) -> Seq<Seq<char>> {
    s.map_values(|w: String| w@)
}

impl View for CloudState {
    type V = CloudStateView;

    open spec fn view(&self) -> CloudStateView {
        CloudStateView {
            word_frequencies: self.word_frequencies@,
            top_words: entry_views(self.top_words@),
            total_words_processed: self.total_words_processed,
            current_queue_size: self.current_queue_size,
            latest_word: match self.latest_word {
                Some(w) => Some(w@),
                None => None,
            },
            current_article: self.current_article,
        }
    }
}

/// The counted words: `words[i]` occurs `counts[i]` times in `window`, every
/// word of `window` is counted, and no word twice.
pub open spec fn counts_match(words: Seq<Seq<char>>, counts: Seq<u32>, window: Seq<Seq<char>>) -> bool {
    &&& words.len() == counts.len()
    &&& forall|i: int| 0 <= i < words.len() ==> counts[i] == occurrences(window, #[trigger] words[i])
    &&& forall|i: int| 0 <= i < words.len() ==> counts[i] > 0
    &&& forall|i: int, j: int| 0 <= i < j < words.len() ==> words[i] != words[j]
    &&& forall|w: Seq<char>| occurrences(window, w) > 0 ==> words.contains(w)
}

/// Sliding window frequency tracker
pub struct TimeCloud {
    queue: VecDeque<String>,
    /// The distinct words of the window, with their counts beside them.
    words: Vec<String>,
    counts: Vec<u32>,
    /// The position of each word in `words`.
    index: StringHashMap<usize>,
    max_queue_size: usize,
    max_display_words: usize,
    total_words_processed: u64,
    current_article: Option<ArticleInfo>,
    /// Current ramp limit (grows over time if ramp is enabled)
    ramp_current: usize,
    /// Frames between adding each word during ramp (0 = disabled)
    ramp_frames_per_word: u32,
    /// Frame counter for ramp
    ramp_frame_count: u32,
    /// Words currently being displayed (locked in during ramp)
    displayed_words: Vec<String>,
}

impl View for TimeCloud {
    type V = CloudModel;

    closed spec fn view(&self) -> CloudModel {
        CloudModel {
            window: string_views(self.queue@),
            max_queue_size: self.max_queue_size,
            max_display_words: self.max_display_words,
            total_words_processed: self.total_words_processed,
            current_article: self.current_article,
            ramp_current: self.ramp_current,
            ramp_frames_per_word: self.ramp_frames_per_word,
            ramp_frame_count: self.ramp_frame_count,
            displayed_words: string_views(self.displayed_words@),
        }
    }
}

/// How many words make one batch: `batch_size`, where a batch of 0 words
/// still yields a state after every word.
pub open spec fn batch_period(batch_size: usize) -> int {
    if batch_size == 0 {
        1
    } else {
        batch_size as int
    }
}

/// Finds `w` among `words`.
fn find_word(words: &Vec<String>, w: &String) -> (r: Option<usize>)
    ensures
        match r {
            Some(i) => i < words@.len() && words@[i as int]@ == w@,
            None => !string_views(words@).contains(w@),
        },
{
    let mut i: usize = 0;
    while i < words.len()
        invariant
            i <= words@.len(),
            forall|j: int| 0 <= j < i ==> words@[j]@ != w@,
        decreases words@.len() - i,
    {
        if words[i] == *w {
            return Some(i);
        }
        i = i + 1;
    }
    proof {
        if string_views(words@).contains(w@) {
            let j = choose|j: int| 0 <= j < words@.len() && string_views(words@)[j] == w@;
            assert(words@[j]@ == w@);
        }
    }
    None
}

/// `index` gives the position of each of `words`, and nothing else.
pub open spec fn index_matches(index: Map<Seq<char>, usize>, words: Seq<Seq<char>>) -> bool {
    &&& forall|i: int| 0 <= i < words.len() ==> #[trigger] index.contains_key(words[i]) && index[words[i]] == i
    &&& forall|k: Seq<char>| #[trigger] index.contains_key(k) ==> index[k] < words.len() && words[index[k] as int] == k
}

/// Finds `w` among `words` through their index.
fn find_counted(index: &StringHashMap<usize>, words: &Vec<String>, w: &String) -> (r: Option<usize>)
    requires
        index_matches(index@, string_views(words@)),
    ensures
        match r {
            Some(i) => i < words@.len() && words@[i as int]@ == w@,
            None => !string_views(words@).contains(w@),
        },
{
    match index.get(w.as_str()) {
        Some(i) => {
            let i = *i;
            proof {
                assert(string_views(words@)[i as int] == words@[i as int]@);
            }
            Some(i)
        },
        None => {
            proof {
                if string_views(words@).contains(w@) {
                    let j = choose|j: int| 0 <= j < words@.len() && string_views(words@)[j] == w@;
                    assert(index@.contains_key(string_views(words@)[j]));
                }
            }
            None
        },
    }
}

/// Counts one occurrence of `w` less: `w` is the oldest word of `window` and
/// leaves it.
fn count_removed(
    words: &mut Vec<String>,
    counts: &mut Vec<u32>,
    index: &mut StringHashMap<usize>,
    w: &String,
    Ghost(window): Ghost<Seq<Seq<char>>>,
)
    requires
        counts_match(string_views(old(words)@), old(counts)@, window),
        index_matches(old(index)@, string_views(old(words)@)),
        window.len() > 0,
        window[0] == w@,
    ensures
        counts_match(string_views(final(words)@), final(counts)@, window.drop_first()),
        index_matches(final(index)@, string_views(final(words)@)),
{
    let ghost next = window.drop_first();
    proof {
        lemma_occurrences_drop_first(window, w@);
        assert forall|v: Seq<char>| v != w@ implies occurrences(next, v) == occurrences(window, v) by {
            lemma_occurrences_drop_first(window, v);
        }
        lemma_occurrences_contains(window, w@);
        assert(window.contains(w@)) by {
            assert(window[0] == w@);
        }
    }
    let found = find_counted(index, words, w);
    match found {
        Some(i) => {
            let c = counts[i];
            proof {
                assert(string_views(words@)[i as int] == w@);
            }
            if c <= 1 {
                let ghost ows = string_views(words@);
                let ghost ocs = counts@;
                let last = words.len() - 1;
                words.swap_remove(i);
                counts.swap_remove(i);
                if i < last {
                    let moved = words[i].clone();
                    proof {
                        assert(moved@ == ows[last as int]);
                    }
                    index.insert(moved, i);
                }
                index.remove(w.as_str());
                proof {
                    let ws = string_views(words@);
                    assert(ws.len() == last);
                    // Where each new position's word came from.
                    assert forall|j: int| 0 <= j < ws.len() implies ws[j] == ows[if j == i { last as int } else { j }] && counts@[j] == ocs[if j == i { last as int } else { j }] by {
                    }
                    assert forall|j: int| 0 <= j < ws.len() implies counts@[j] == occurrences(
                        next,
                        #[trigger] ws[j],
                    ) && counts@[j] > 0 by {
                        let oj = if j == i { last as int } else { j };
                        assert(ws[j] == ows[oj]);
                        assert(oj != i);
                    }
                    assert forall|a: int, b: int| 0 <= a < b < ws.len() implies ws[a] != ws[b] by {
                        let oa = if a == i { last as int } else { a };
                        let ob = if b == i { last as int } else { b };
                        assert(ws[a] == ows[oa]);
                        assert(ws[b] == ows[ob]);
                        if oa < ob {
                            assert(ows[oa] != ows[ob]);
                        } else {
                            assert(ows[ob] != ows[oa]);
                        }
                    }
                    assert forall|v: Seq<char>| occurrences(next, v) > 0 implies ws.contains(v) by {
                        assert(v != w@);
                        assert(ows.contains(v));
                        let k = choose|k: int| 0 <= k < ows.len() && ows[k] == v;
                        assert(k != i);
                        let nk = if k == last { i as int } else { k };
                        assert(ws[nk] == v);
                    }
                    assert forall|j: int| 0 <= j < ws.len() implies #[trigger] index@.contains_key(ws[j])
                        && index@[ws[j]] == j by {
                        let oj = if j == i { last as int } else { j };
                        assert(ws[j] == ows[oj]);
                        assert(ows[oj] != ows[i as int]);
                        assert(old(index)@.contains_key(ows[oj]));
                        assert(old(index)@[ows[oj]] == oj);
                        if j != i {
                            assert(ows[j] != ows[last as int]);
                        }
                    }
                    assert forall|k: Seq<char>| #[trigger] index@.contains_key(k) implies index@[k] < ws.len()
                        && ws[index@[k] as int] == k by {
                        assert(k != w@);
                        if i < last && k == ows[last as int] {
                        } else {
                            assert(old(index)@.contains_key(k));
                            let ok = old(index)@[k] as int;
                            assert(ows[ok] == k);
                            assert(ok != i);
                            assert(ok != last);
                        }
                    }
                }
            } else {
                counts.set(i, c - 1);
                proof {
                    let ws = string_views(words@);
                    assert forall|j: int| 0 <= j < ws.len() implies counts@[j] == occurrences(
                        next,
                        #[trigger] ws[j],
                    ) && counts@[j] > 0 by {
                        if j != i {
                            assert(ws[j] != ws[i as int]);
                        }
                    }
                }
            }
        },
        None => {},
    }
}

/// Counts one occurrence of `w` more: `w` joins the end of `window`.
fn count_added(
    words: &mut Vec<String>,
    counts: &mut Vec<u32>,
    index: &mut StringHashMap<usize>,
    w: &String,
    Ghost(window): Ghost<Seq<Seq<char>>>,
)
    requires
        counts_match(string_views(old(words)@), old(counts)@, window),
        index_matches(old(index)@, string_views(old(words)@)),
        occurrences(window, w@) < u32::MAX,
    ensures
        counts_match(string_views(final(words)@), final(counts)@, window.push(w@)),
        index_matches(final(index)@, string_views(final(words)@)),
{
    let ghost next = window.push(w@);
    proof {
        assert forall|v: Seq<char>|
            occurrences(next, v) == occurrences(window, v) + (if v == w@ { 1nat } else { 0nat }) by {
            lemma_occurrences_push(window, w@, v);
        }
    }
    let found = find_counted(index, words, w);
    match found {
        Some(i) => {
            let c = counts[i];
            proof {
                assert(string_views(words@)[i as int] == w@);
            }
            counts.set(i, c + 1);
            proof {
                let ws = string_views(words@);
                assert forall|j: int| 0 <= j < ws.len() implies counts@[j] == occurrences(
                    next,
                    #[trigger] ws[j],
                ) && counts@[j] > 0 by {
                    if j != i {
                        assert(ws[j] != ws[i as int]);
                    }
                }
            }
        },
        None => {
            let n = words.len();
            words.push(w.clone());
            counts.push(1);
            index.insert(w.clone(), n);
            proof {
                let ws = string_views(words@);
                let ows = string_views(old(words)@);
                assert(ws =~= ows.push(w@));
                lemma_occurrences_contains(window, w@);
                assert forall|j: int| 0 <= j < ws.len() implies counts@[j] == occurrences(
                    next,
                    #[trigger] ws[j],
                ) && counts@[j] > 0 by {
                    if j < ows.len() {
                        assert(ws[j] == ows[j]);
                        assert(ows.contains(ows[j]));
                    }
                }
                assert forall|v: Seq<char>| occurrences(next, v) > 0 implies ws.contains(v) by {
                    if v == w@ {
                        assert(ws[ows.len() as int] == v);
                    } else {
                        lemma_occurrences_push(window, w@, v);
                        assert(occurrences(window, v) > 0);
                        assert(ows.contains(v));
                        let k = choose|k: int| 0 <= k < ows.len() && ows[k] == v;
                        assert(ws[k] == v);
                    }
                }
                assert forall|j: int| 0 <= j < ws.len() implies #[trigger] index@.contains_key(ws[j])
                    && index@[ws[j]] == j by {
                    if j < ows.len() {
                        assert(ws[j] == ows[j]);
                        assert(ows[j] != w@) by {
                            assert(ows.contains(ows[j]));
                        }
                        assert(old(index)@.contains_key(ows[j]));
                    } else {
                        assert(ws[j] == w@);
                    }
                }
                assert forall|k: Seq<char>| #[trigger] index@.contains_key(k) implies index@[k] < ws.len()
                    && ws[index@[k] as int] == k by {
                    if k != w@ {
                        assert(old(index)@.contains_key(k));
                    }
                }
            }
        },
    }
}

/// `a` is shown before `b`.
fn ranks_before_exec(a: &String, a_count: u32, b: &String, b_count: u32) -> (r: bool)
    ensures
        r == ranks_before((a@, a_count), (b@, b_count)),
{
    a_count > b_count || (a_count == b_count && str_lt(a.as_str(), b.as_str()))
}

impl TimeCloud {
    /// The counts kept beside the window agree with it, and the window fits.
    pub closed spec fn wf(&self) -> bool {
        &&& counts_match(string_views(self.words@), self.counts@, string_views(self.queue@))
        &&& index_matches(self.index@, string_views(self.words@))
        &&& self.queue@.len() <= self.max_queue_size || self.queue@.len() <= 1
        &&& self.ramp_frame_count < u32::MAX
    }

    /// A well-formed cloud's window fits its capacity, and no word occurs
    /// in it more often than a count can hold.
    pub proof fn lemma_window_fits(&self)
        requires
            self.wf(),
        ensures
            self@.window.len() <= crate::laws::window_capacity(self@.max_queue_size),
            forall|w: Seq<char>| occurrences(self@.window, w) <= u32::MAX,
    {
        assert forall|w: Seq<char>| occurrences(self@.window, w) <= u32::MAX by {
            if occurrences(self@.window, w) > 0 {
                let ws = string_views(self.words@);
                assert(ws.contains(w));
                let i = choose|i: int| 0 <= i < ws.len() && ws[i] == w;
                assert(self.counts@[i] == occurrences(self@.window, ws[i]));
            }
        }
    }

    proof fn lemma_word_of_window_is_counted(&self, w: Seq<char>) -> (i: int)
        requires
            self.wf(),
            self@.frequencies().contains_key(w),
        ensures
            0 <= i < self.words@.len(),
            self.words@[i]@ == w,
            self.counts@[i] == self@.frequencies()[w],
    {
        let ws = string_views(self.words@);
        assert(ws.contains(w));
        let i = choose|i: int| 0 <= i < ws.len() && ws[i] == w;
        assert(ws[i] == self.words@[i]@);
        i
    }

    proof fn lemma_counted_word_in_window(&self, i: int)
        requires
            self.wf(),
            0 <= i < self.words@.len(),
        ensures
            self@.frequencies().contains_key(self.words@[i]@),
            self@.frequencies()[self.words@[i]@] == self.counts@[i],
    {
        assert(string_views(self.words@)[i] == self.words@[i]@);
    }

    /// How many words to show when the ramp does not lock the display.
    fn display_count(&self) -> (r: usize)
        requires
            self.wf(),
        ensures
            r == self@.display_count(),
    {
        let wanted = if self.ramp_frames_per_word > 0 {
            self.ramp_current
        } else {
            let len = self.queue.len();
            let mq = self.max_queue_size;
            let md = self.max_display_words;
            let scaled: usize = if mq == 0 {
                if len == 0 || md == 0 {
                    0
                } else {
                    usize::MAX
                }
            } else {
                let displayed = single_from_count(md as u64);
                let filled = single_from_count(len as u64);
                let capacity = single_from_count(mq as u64);
                let ratio = single_divide(&filled, &capacity);
                let product = single_multiply(&displayed, &ratio);
                single_ceil_saturating(&product)
            };
            if scaled < 3 {
                3
            } else {
                scaled
            }
        };
        if wanted < self.max_display_words {
            wanted
        } else {
            self.max_display_words
        }
    }

    /// A table of every word of the window with its count.
    fn frequency_table(&self) -> (r: StringHashMap<u32>)
        requires
            self.wf(),
        ensures
            r@ == self@.frequencies(),
    {
        let mut table: StringHashMap<u32> = StringHashMap::new();
        let mut i: usize = 0;
        let ghost window = self@.window;
        let ghost ws = string_views(self.words@);
        while i < self.words.len()
            invariant
                self.wf(),
                window == self@.window,
                ws == string_views(self.words@),
                i <= self.words@.len(),
                forall|w: Seq<char>| #[trigger]
                    table@.contains_key(w) <==> exists|j: int| 0 <= j < i && ws[j] == w,
                forall|w: Seq<char>| #[trigger]
                    table@.contains_key(w) ==> table@[w] == occurrences(window, w) as u32,
            decreases self.words@.len() - i,
        {
            proof {
                assert(ws[i as int] == self.words@[i as int]@);
            }
            table.insert(self.words[i].clone(), self.counts[i]);
            proof {
                assert forall|w: Seq<char>| #[trigger]
                    table@.contains_key(w) <==> exists|j: int| 0 <= j < i + 1 && ws[j] == w by {
                    if w == ws[i as int] {
                        assert(exists|j: int| 0 <= j < i + 1 && ws[j] == w);
                    }
                }
            }
            i = i + 1;
        }
        proof {
            assert forall|w: Seq<char>| #[trigger]
                table@.contains_key(w) <==> frequency_map(window).contains_key(w) by {
                if occurrences(window, w) > 0 {
                    assert(ws.contains(w));
                    let j = choose|j: int| 0 <= j < ws.len() && ws[j] == w;
                    assert(exists|j: int| 0 <= j < i && ws[j] == w);
                }
                if table@.contains_key(w) {
                    let j = choose|j: int| 0 <= j < i && ws[j] == w;
                    assert(self.counts@[j] > 0);
                }
            }
            assert(table@ =~= frequency_map(window));
        }
        table
    }

    /// The `k` best-ranked words of the window, best first.
    fn top_ranked_words(&self, k: usize) -> (r: Vec<(String, u32)>)
        requires
            self.wf(),
        ensures
            is_top_ranked(self@.frequencies(), k as int, entry_views(r@)),
    {
        let ghost m = self@.frequencies();
        let mut result: Vec<(String, u32)> = Vec::new();
        let n = self.words.len();
        while result.len() < k
            invariant
                self.wf(),
                m == self@.frequencies(),
                n == self.words@.len(),
                result@.len() <= k,
                strictly_ranked(entry_views(result@)),
                entries_of(m, entry_views(result@)),
                forall|w: Seq<char>| #[trigger]
                    m.contains_key(w) && !lists_word(entry_views(result@), w) ==> forall|i: int|
                        0 <= i < result@.len() ==> ranks_before(
                            #[trigger] entry_views(result@)[i],
                            (w, m[w]),
                        ),
            ensures
                result@.len() == k || forall|w: Seq<char>| #[trigger]
                    m.contains_key(w) ==> lists_word(entry_views(result@), w),
            decreases k - result@.len(),
        {
            let ghost rs = entry_views(result@);
            let mut best: Option<usize> = None;
            let mut j: usize = 0;
            while j < n
                invariant
                    self.wf(),
                    m == self@.frequencies(),
                    n == self.words@.len(),
                    rs == entry_views(result@),
                    j <= n,
                    match best {
                        Some(b) => {
                            &&& b < n
                            &&& (rs.len() == 0 || ranks_before(
                                rs.last(),
                                (self.words@[b as int]@, self.counts@[b as int]),
                            ))
                            &&& forall|jj: int|
                                0 <= jj < j && (rs.len() == 0 || ranks_before(
                                    rs.last(),
                                    (self.words@[jj]@, self.counts@[jj]),
                                )) ==> jj == b || ranks_before(
                                    (self.words@[b as int]@, self.counts@[b as int]),
                                    (#[trigger] self.words@[jj]@, self.counts@[jj]),
                                )
                        },
                        None => forall|jj: int|
                            0 <= jj < j ==> !(rs.len() == 0 || ranks_before(
                                rs.last(),
                                (#[trigger] self.words@[jj]@, self.counts@[jj]),
                            )),
                    },
                decreases n - j,
            {
                let candidate = if result.len() == 0 {
                    true
                } else {
                    let last = result.len() - 1;
                    proof {
                        assert(rs.last() == (result@[last as int].0@, result@[last as int].1));
                    }
                    ranks_before_exec(&result[last].0, result[last].1, &self.words[j], self.counts[j])
                };
                if candidate {
                    match best {
                        None => {
                            best = Some(j);
                        },
                        Some(b) => {
                            if ranks_before_exec(&self.words[j], self.counts[j], &self.words[b], self.counts[b]) {
                                proof {
                                    assert forall|jj: int|
                                        0 <= jj < j + 1 && (rs.len() == 0 || ranks_before(
                                            rs.last(),
                                            (self.words@[jj]@, self.counts@[jj]),
                                        )) implies jj == j || ranks_before(
                                            (self.words@[j as int]@, self.counts@[j as int]),
                                            (#[trigger] self.words@[jj]@, self.counts@[jj]),
                                        ) by {
                                        if jj != j && jj != b {
                                            lemma_ranks_before_transitive(
                                                (self.words@[j as int]@, self.counts@[j as int]),
                                                (self.words@[b as int]@, self.counts@[b as int]),
                                                (self.words@[jj]@, self.counts@[jj]),
                                            );
                                        }
                                    }
                                }
                                best = Some(j);
                            } else {
                                proof {
                                    if j != b {
                                        self.lemma_counted_words_distinct(j as int, b as int);
                                        lemma_ranks_before_total(
                                            (self.words@[j as int]@, self.counts@[j as int]),
                                            (self.words@[b as int]@, self.counts@[b as int]),
                                        );
                                    }
                                }
                            }
                        },
                    }
                }
                j = j + 1;
            }
            match best {
                None => {
                    proof {
                        assert forall|w: Seq<char>| #[trigger] m.contains_key(w) implies lists_word(rs, w) by {
                            if !lists_word(rs, w) {
                                let jj = self.lemma_word_of_window_is_counted(w);
                                assert(self.words@[jj]@ == w);
                            }
                        }
                    }
                    break;
                },
                Some(b) => {
                    let entry = (self.words[b].clone(), self.counts[b]);
                    result.push(entry);
                    proof {
                        let x = (self.words@[b as int]@, self.counts@[b as int]);
                        let rs2 = entry_views(result@);
                        assert(rs2 =~= rs.push(x));
                        self.lemma_counted_word_in_window(b as int);
                        assert forall|a: int, c: int| 0 <= a < c < rs2.len() implies ranks_before(
                            #[trigger] rs2[a],
                            #[trigger] rs2[c],
                        ) by {
                            if c == rs.len() && a < rs.len() - 1 {
                                lemma_ranks_before_transitive(rs[a], rs.last(), x);
                            }
                        }
                        assert forall|w: Seq<char>| #[trigger]
                            m.contains_key(w) && !lists_word(rs2, w) implies forall|i: int|
                            0 <= i < rs2.len() ==> ranks_before(#[trigger] rs2[i], (w, m[w])) by {
                            if !lists_word(rs, w) {
                                assert(w != x.0) by {
                                    assert(rs2[rs.len() as int].0 == x.0);
                                }
                                let jj = self.lemma_word_of_window_is_counted(w);
                                assert(self.words@[jj]@ == w);
                                if rs.len() > 0 {
                                    assert(ranks_before(rs[rs.len() - 1], (w, m[w])));
                                }
                                assert(jj != b);
                            } else {
                                let i = choose|i: int| 0 <= i < rs.len() && #[trigger] rs[i].0 == w;
                                assert(rs2[i].0 == w);
                            }
                        }
                    }
                },
            }
        }
        result
    }

    /// The locked-in display words that are still in the window, with their counts.
    fn displayed_entries(&self) -> (r: Vec<(String, u32)>)
        requires
            self.wf(),
        ensures
            entry_views(r@) == listed_entries(self@.frequencies(), self@.displayed_words),
    {
        let ghost m = self@.frequencies();
        let ghost d = self@.displayed_words;
        let mut result: Vec<(String, u32)> = Vec::new();
        let mut i: usize = 0;
        assert(d.take(0) =~= Seq::<Seq<char>>::empty());
        while i < self.displayed_words.len()
            invariant
                self.wf(),
                m == self@.frequencies(),
                d == self@.displayed_words,
                i <= d.len(),
                entry_views(result@) == listed_entries(m, d.take(i as int)),
            decreases d.len() - i,
        {
            proof {
                assert(d.take(i + 1).drop_last() =~= d.take(i as int));
                assert(d.take(i + 1).last() == self.displayed_words@[i as int]@);
            }
            let found = find_counted(&self.index, &self.words, &self.displayed_words[i]);
            match found {
                Some(j) => {
                    proof {
                        self.lemma_counted_word_in_window(j as int);
                    }
                    result.push((self.displayed_words[i].clone(), self.counts[j]));
                    proof {
                        assert(entry_views(result@) =~= listed_entries(m, d.take(i as int)).push(
                            (d[i as int], m[d[i as int]]),
                        ));
                    }
                },
                None => {
                    proof {
                        if m.contains_key(d[i as int]) {
                            let jj = self.lemma_word_of_window_is_counted(d[i as int]);
                            assert(string_views(self.words@)[jj] == d[i as int]);
                        }
                    }
                },
            }
            i = i + 1;
        }
        assert(d.take(d.len() as int) =~= d);
        result
    }

    /// `displayed_words` holds `w`.
    fn is_displayed(&self, w: &String) -> (r: bool)
        ensures
            r == string_views(self.displayed_words@).contains(w@),
    {
        match find_word(&self.displayed_words, w) {
            Some(i) => {
                proof {
                    assert(string_views(self.displayed_words@)[i as int] == w@);
                }
                true
            },
            None => false,
        }
    }

    /// Add the next highest-frequency word to displayed_words
    fn add_next_display_word(&mut self)
        requires
            old(self).wf(),
        ensures
            final(self).wf(),
            final(self)@ == old(self)@.after_next_display_word(),
    {
        let ghost m = self@.frequencies();
        let ghost d = self@.displayed_words;
        let n = self.words.len();
        let mut best: Option<usize> = None;
        let mut j: usize = 0;
        while j < n
            invariant
                self.wf(),
                m == self@.frequencies(),
                d == self@.displayed_words,
                n == self.words@.len(),
                j <= n,
                match best {
                    Some(b) => {
                        &&& b < n
                        &&& !d.contains(self.words@[b as int]@)
                        &&& forall|jj: int|
                            0 <= jj < j && !d.contains(self.words@[jj]@) ==> jj == b || ranks_before(
                                (self.words@[b as int]@, self.counts@[b as int]),
                                (#[trigger] self.words@[jj]@, self.counts@[jj]),
                            )
                    },
                    None => forall|jj: int| 0 <= jj < j ==> d.contains(#[trigger] self.words@[jj]@),
                },
            decreases n - j,
        {
            if !self.is_displayed(&self.words[j]) {
                match best {
                    None => {
                        best = Some(j);
                    },
                    Some(b) => {
                        if ranks_before_exec(&self.words[j], self.counts[j], &self.words[b], self.counts[b]) {
                            proof {
                                assert forall|jj: int|
                                    0 <= jj < j + 1 && !d.contains(self.words@[jj]@) implies jj == j
                                    || ranks_before(
                                    (self.words@[j as int]@, self.counts@[j as int]),
                                    (#[trigger] self.words@[jj]@, self.counts@[jj]),
                                ) by {
                                    if jj != j && jj != b {
                                        lemma_ranks_before_transitive(
                                            (self.words@[j as int]@, self.counts@[j as int]),
                                            (self.words@[b as int]@, self.counts@[b as int]),
                                            (self.words@[jj]@, self.counts@[jj]),
                                        );
                                    }
                                }
                            }
                            best = Some(j);
                        } else {
                            proof {
                                if j != b {
                                    self.lemma_counted_words_distinct(j as int, b as int);
                                    lemma_ranks_before_total(
                                        (self.words@[j as int]@, self.counts@[j as int]),
                                        (self.words@[b as int]@, self.counts@[b as int]),
                                    );
                                }
                            }
                        }
                    },
                }
            }
            j = j + 1;
        }
        match best {
            None => {
                proof {
                    assert forall|w: Seq<char>| !is_next_display_word(m, d, w) by {
                        if m.contains_key(w) && !d.contains(w) {
                            self.lemma_word_of_window_is_counted(w);
                        }
                    }
                }
            },
            Some(b) => {
                let ghost x = self.words@[b as int]@;
                proof {
                    self.lemma_counted_word_in_window(b as int);
                    assert forall|v: Seq<char>| #[trigger]
                        m.contains_key(v) && !d.contains(v) && v != x implies ranks_before(
                        (x, m[x]),
                        (v, m[v]),
                    ) by {
                        self.lemma_word_of_window_is_counted(v);
                    }
                    assert(is_next_display_word(m, d, x));
                    let c = choose|w: Seq<char>| is_next_display_word(m, d, w);
                    lemma_next_display_word_unique(m, d, x, c);
                }
                let w = self.words[b].clone();
                self.displayed_words.push(w);
                proof {
                    assert(string_views(self.displayed_words@) =~= d.push(x));
                }
            },
        }
    }

    /// Get the current state without modifying it
    pub fn get_state(&self) -> (state: CloudState)
        requires
            self.wf(),
        ensures
            state@ == self@.snapshot(),
            !self@.ramping() ==> is_top_ranked(
                self@.frequencies(),
                self@.display_count(),
                state@.top_words,
            ),
            self@.display_count() <= self@.max_display_words,
            self@.ramp_frames_per_word == 0 ==> self@.display_count() >= if self@.max_display_words
                < 3 {
                self@.max_display_words as int
            } else {
                3
            },
    {
        let top_words = if self.ramp_frames_per_word > 0 && self.ramp_current < self.max_display_words {
            self.displayed_entries()
        } else {
            let k = self.display_count();
            let r = self.top_ranked_words(k);
            proof {
                let t = choose|s: Seq<(Seq<char>, u32)>| is_top_ranked(self@.frequencies(), k as int, s);
                lemma_top_ranked_unique(self@.frequencies(), k as int, entry_views(r@), t);
            }
            r
        };
        let len = self.queue.len();
        let latest_word = if len > 0 {
            Some(self.queue[len - 1].clone())
        } else {
            None
        };
        let current_article = match &self.current_article {
            Some(a) => Some(a.duplicate()),
            None => None,
        };
        let state = CloudState {
            word_frequencies: self.frequency_table(),
            top_words,
            total_words_processed: self.total_words_processed,
            current_queue_size: len,
            latest_word,
            current_article,
        };
        proof {
            if len > 0 {
                assert(string_views(self.queue@).last() == self.queue@[len - 1]@);
            }
        }
        state
    }

    /// Whether `word` can be added without a count or the total overflowing.
    pub fn can_add_word(&self, word: &String) -> (r: bool)
        requires
            self.wf(),
        ensures
            r == self@.can_add(word@),
    {
        if self.total_words_processed == u64::MAX {
            return false;
        }
        let len = self.queue.len();
        let evicts = len >= self.max_queue_size && len > 0;
        let ghost ev = self@.evicted_window();
        let mut count: u32 = match find_counted(&self.index, &self.words, word) {
            Some(i) => {
                proof {
                    assert(string_views(self.words@)[i as int] == self.words@[i as int]@);
                }
                self.counts[i]
            },
            None => {
                proof {
                    if occurrences(self@.window, word@) > 0 {
                        assert(string_views(self.words@).contains(word@));
                    }
                }
                0
            },
        };
        proof {
            assert(count == occurrences(self@.window, word@));
            if evicts {
                lemma_occurrences_drop_first(self@.window, word@);
            }
        }
        if evicts && self.queue[0] == *word {
            count = count - 1;
        }
        proof {
            if evicts {
                assert(self@.window[0] == self.queue@[0]@);
            }
        }
        count < u32::MAX
    }

    /// Add a word to the sliding window, returning the new state
    pub fn add_word(&mut self, word: String) -> (state: CloudState)
        requires
            old(self).wf(),
            old(self)@.can_add(word@),
        ensures
            final(self).wf(),
            final(self)@ == old(self)@.after_add(word@),
            state@ == final(self)@.snapshot(),
            !final(self)@.ramping() ==> is_top_ranked(
                final(self)@.frequencies(),
                final(self)@.display_count(),
                state@.top_words,
            ),
    {
        let ghost window = self@.window;
        if self.queue.len() >= self.max_queue_size {
            let evicted = self.queue.pop_front();
            match evicted {
                Some(old_word) => {
                    proof {
                        assert(window[0] == old_word@);
                    }
                    count_removed(&mut self.words, &mut self.counts, &mut self.index, &old_word, Ghost(window));
                    proof {
                        assert(string_views(self.queue@) =~= window.drop_first());
                    }
                },
                None => {},
            }
        }
        let ghost evicted_window = string_views(self.queue@);
        assert(evicted_window == old(self)@.evicted_window());
        count_added(&mut self.words, &mut self.counts, &mut self.index, &word, Ghost(evicted_window));
        self.queue.push_back(word);
        proof {
            assert(string_views(self.queue@) =~= evicted_window.push(word@));
        }
        self.total_words_processed = self.total_words_processed + 1;
        self.get_state()
    }

    /// Call each frame to advance the ramp
    pub fn advance_ramp(&mut self)
        requires
            old(self).wf(),
        ensures
            final(self).wf(),
            final(self)@ == old(self)@.after_advance_ramp(),
    {
        if self.ramp_frames_per_word > 0 && self.ramp_current < self.max_display_words {
            // Seed the first word if we haven't yet
            proof {
                self.lemma_words_empty_iff_window_empty();
            }
            if self.displayed_words.len() == 0 && self.words.len() > 0 {
                self.add_next_display_word();
                proof {
                    assert(string_views(self.displayed_words@).len() == self.displayed_words@.len());
                }
            }
            self.ramp_frame_count = self.ramp_frame_count + 1;
            if self.ramp_frame_count >= self.ramp_frames_per_word {
                self.ramp_frame_count = 0;
                self.ramp_current = self.ramp_current + 1;
                self.add_next_display_word();
            }
        }
    }

    proof fn lemma_words_empty_iff_window_empty(&self)
        requires
            self.wf(),
        ensures
            (self.words@.len() > 0) == (self@.window.len() > 0),
            self@.displayed_words.len() == self.displayed_words@.len(),
    {
        let window = self@.window;
        if window.len() > 0 {
            lemma_occurrences_contains(window, window[0]);
            assert(window.contains(window[0]));
            assert(string_views(self.words@).contains(window[0]));
        }
        if self.words@.len() > 0 {
            assert(string_views(self.words@)[0] == self.words@[0]@);
            lemma_occurrences_bounded(window, self.words@[0]@);
        }
    }

    /// Process words, yielding state every N words
    pub fn process_words_batched(&mut self, words: Vec<String>, batch_size: usize) -> (states: Vec<
        CloudState,
    >)
        requires
            old(self).wf(),
            old(self)@.can_add_all(string_views(words@)),
        ensures
            final(self).wf(),
            final(self)@ == old(self)@.after_adding_all(string_views(words@)),
            states@.len() == (words@.len() as int) / batch_period(batch_size),
            forall|j: int|
                0 <= j < states@.len() ==> (#[trigger] states@[j])@ == old(self)@.after_adding_all(
                    string_views(words@).take((j + 1) * batch_period(batch_size)),
                ).snapshot(),
    {
        let ghost ws = string_views(words@);
        let ghost start = self@;
        let ghost period = batch_period(batch_size);
        let mut states: Vec<CloudState> = Vec::new();
        let mut count: usize = 0;
        let mut i: usize = 0;
        assert(ws.take(0) =~= Seq::<Seq<char>>::empty());
        while i < words.len()
            invariant
                self.wf(),
                ws == string_views(words@),
                period == batch_period(batch_size),
                start.can_add_all(ws),
                i <= words@.len(),
                self@ == start.after_adding_all(ws.take(i as int)),
                states@.len() * period + count == i,
                count < period,
                forall|j: int|
                    0 <= j < states@.len() ==> (#[trigger] states@[j])@ == start.after_adding_all(
                        ws.take((j + 1) * period),
                    ).snapshot(),
            decreases words@.len() - i,
        {
            proof {
                start.lemma_can_add_prefix(ws, i + 1);
                assert(ws.take(i + 1).drop_last() =~= ws.take(i as int));
                assert(ws.take(i + 1).last() == words@[i as int]@);
            }
            self.add_word(words[i].clone());
            count = count + 1;
            if count >= batch_size {
                count = 0;
                let state = self.get_state();
                proof {
                    let n = states@.len();
                    assert((n + 1) * period == n * period + period) by (nonlinear_arith);
                }
                states.push(state);
            }
            i = i + 1;
        }
        proof {
            assert(ws.take(words@.len() as int) =~= ws);
            vstd::arithmetic::div_mod::lemma_fundamental_div_mod_converse(
                words@.len() as int,
                period,
                states@.len() as int,
                count as int,
            );
        }
        states
    }

    proof fn lemma_counted_words_distinct(&self, i: int, j: int)
        requires
            self.wf(),
            0 <= i < self.words@.len(),
            0 <= j < self.words@.len(),
            i != j,
        ensures
            self.words@[i]@ != self.words@[j]@,
    {
        let ws = string_views(self.words@);
        assert(ws[i] == self.words@[i]@);
        assert(ws[j] == self.words@[j]@);
        if i < j {
            assert(ws[i] != ws[j]);
        } else {
            assert(ws[j] != ws[i]);
        }
    }

    pub fn new(max_queue_size: usize, max_display_words: usize) -> (r: Self)
        ensures
            r.wf(),
            r@ == CloudModel::initial(max_queue_size, max_display_words),
    {
        let r = TimeCloud {
            queue: VecDeque::new(),
            words: Vec::new(),
            counts: Vec::new(),
            index: StringHashMap::new(),
            max_queue_size,
            max_display_words,
            total_words_processed: 0,
            current_article: None,
            ramp_current: 1,
            ramp_frames_per_word: 0,
            ramp_frame_count: 0,
            displayed_words: Vec::new(),
        };
        assert(string_views(r.queue@) =~= Seq::<Seq<char>>::empty());
        assert(string_views(r.words@) =~= Seq::<Seq<char>>::empty());
        assert(string_views(r.displayed_words@) =~= Seq::<Seq<char>>::empty());
        r
    }

    /// Set the ramp-up rate (frames between adding each word to display limit)
    /// 0 = disabled (use queue fill ratio), >0 = add one word every N frames
    pub fn set_ramp_frames_per_word(&mut self, frames: u32)
        requires
            old(self).wf(),
        ensures
            final(self).wf(),
            final(self)@ == old(self)@.after_set_ramp(frames),
    {
        self.ramp_frames_per_word = frames;
        if frames > 0 {
            self.ramp_current = 1;
        }
    }

    /// Set the current article being processed
    pub fn set_article(&mut self, article: ArticleInfo)
        requires
            old(self).wf(),
        ensures
            final(self).wf(),
            final(self)@ == old(self)@.after_set_article(article),
    {
        self.current_article = Some(article);
    }
}

} // verus!
