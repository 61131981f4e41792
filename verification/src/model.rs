//! The abstract state of a word cloud and how each operation changes it.

use vstd::prelude::*;
use crate::cloud::ArticleInfo;
use crate::ranking::{frequency_map, listed_entries, top_ranked, with_next_display_word};
use crate::single::{saturate, single_ceil, single_from_int, single_product, single_quotient};

verus! {

/// What a word cloud is, as far as its users can tell.
pub struct CloudModel {
    /// The words in the sliding window, oldest first.
    pub window: Seq<Seq<char>>,
    pub max_queue_size: usize,
    pub max_display_words: usize,
    pub total_words_processed: u64,
    pub current_article: Option<ArticleInfo>,
    /// How many words the ramp currently lets through.
    pub ramp_current: usize,
    /// Frames between two words added during the ramp (0: no ramp).
    pub ramp_frames_per_word: u32,
    pub ramp_frame_count: u32,
    /// Words locked in for display during the ramp, in the order they were added.
    pub displayed_words: Seq<Seq<char>>,
}

/// What one snapshot of a word cloud shows.
pub struct CloudStateView {
    pub word_frequencies: Map<Seq<char>, u32>,
    pub top_words: Seq<(Seq<char>, u32)>,
    pub total_words_processed: u64,
    pub current_queue_size: usize,
    pub latest_word: Option<Seq<char>>,
    pub current_article: Option<ArticleInfo>,
}

/// `ceil(max_display * (len / max_queue))` computed in single precision:
/// each count converted to single precision, the fill ratio and the product
/// each rounded to the nearest single-precision value, then the ceiling taken and converted to `usize`
/// (saturating). Rounding can push the product just past an integer: with
/// `max_queue = 28`, `max_display = 21` and 4 words in the window, the
/// product is `3.0000002` and the count 4. With an empty capacity the ratio
/// is infinite, or undefined (which converts to zero) when the window or the
/// display is empty.
pub open spec fn scaled_display_count(max_display: int, len: int, max_queue: int) -> int {
    if max_queue == 0 {
        if len == 0 || max_display == 0 {
            0
        } else {
            usize::MAX as int
        }
    } else {
        let ratio = single_quotient(
            single_from_int(len as nat),
            single_from_int(max_queue as nat),
        );
        saturate(single_ceil(single_product(single_from_int(max_display as nat), ratio))) as int
    }
}

/// One operation on a word cloud that changes it.
pub enum CloudOp {
    AddWord(Seq<char>),
    SetArticle(ArticleInfo),
    SetRampFramesPerWord(u32),
    AdvanceRamp,
}

/// The words added by `ops`, in order.
pub open spec fn added_words(ops: Seq<CloudOp>) -> Seq<Seq<char>>
    decreases ops.len(),
{
    if ops.len() == 0 {
        Seq::empty()
    } else {
        let rest = added_words(ops.drop_last());
        match ops.last() {
            CloudOp::AddWord(w) => rest.push(w),
            _ => rest,
        }
    }
}

/// The article of the last `SetArticle` of `ops`, or `before` if there is none.
pub open spec fn last_article(ops: Seq<CloudOp>, before: Option<ArticleInfo>) -> Option<ArticleInfo>
    decreases ops.len(),
{
    if ops.len() == 0 {
        before
    } else {
        match ops.last() {
            CloudOp::SetArticle(a) => Some(a),
            _ => last_article(ops.drop_last(), before),
        }
    }
}

/// The number of `AdvanceRamp` operations of `ops`.
pub open spec fn ramp_advances(ops: Seq<CloudOp>) -> nat
    decreases ops.len(),
{
    if ops.len() == 0 {
        0
    } else {
        ramp_advances(ops.drop_last()) + (if ops.last() is AdvanceRamp {
            1nat
        } else {
            0nat
        })
    }
}

/// `ops` never changes the ramp's rate.
pub open spec fn keeps_ramp_rate(ops: Seq<CloudOp>) -> bool {
    forall|i: int| 0 <= i < ops.len() ==> !(#[trigger] ops[i] is SetRampFramesPerWord)
}

impl CloudModel {
    /// The cloud after `op`.
    pub open spec fn apply(self, op: CloudOp) -> CloudModel {
        match op {
            CloudOp::AddWord(w) => self.after_add(w),
            CloudOp::SetArticle(a) => self.after_set_article(a),
            CloudOp::SetRampFramesPerWord(f) => self.after_set_ramp(f),
            CloudOp::AdvanceRamp => self.after_advance_ramp(),
        }
    }

    /// The cloud after each operation of `ops` in turn.
    pub open spec fn after_ops(self, ops: Seq<CloudOp>) -> CloudModel
        decreases ops.len(),
    {
        if ops.len() == 0 {
            self
        } else {
            self.after_ops(ops.drop_last()).apply(ops.last())
        }
    }

    /// A cloud that has seen nothing yet.
    pub open spec fn initial(max_queue_size: usize, max_display_words: usize) -> CloudModel {
        CloudModel {
            window: Seq::empty(),
            max_queue_size,
            max_display_words,
            total_words_processed: 0,
            current_article: None,
            ramp_current: 1,
            ramp_frames_per_word: 0,
            ramp_frame_count: 0,
            displayed_words: Seq::empty(),
        }
    }

    /// Each word of the window with the number of times it occurs there.
    pub open spec fn frequencies(self) -> Map<Seq<char>, u32> {
        frequency_map(self.window)
    }

    /// The window once the oldest word has made room, if it is full.
    pub open spec fn evicted_window(self) -> Seq<Seq<char>> {
        if self.window.len() >= self.max_queue_size && self.window.len() > 0 {
            self.window.drop_first()
        } else {
            self.window
        }
    }

    /// Adding `w` keeps every count within `u32` and the total within `u64`.
    pub open spec fn can_add(self, w: Seq<char>) -> bool {
        &&& crate::ranking::occurrences(self.evicted_window(), w) < u32::MAX
        &&& self.total_words_processed < u64::MAX
    }

    /// Any word can be added while the window holds fewer than `u32::MAX`
    /// words and the total has not reached `u64::MAX`.
    pub proof fn lemma_can_add_short_window(self, w: Seq<char>)
        requires
            self.window.len() < u32::MAX,
            self.total_words_processed < u64::MAX,
        ensures
            self.can_add(w),
    {
        crate::ranking::lemma_occurrences_bounded(self.evicted_window(), w);
    }

    pub open spec fn after_add(self, w: Seq<char>) -> CloudModel {
        CloudModel {
            window: self.evicted_window().push(w),
            total_words_processed: (self.total_words_processed + 1) as u64,
            ..self
        }
    }

    /// The cloud after adding each word of `ws` in turn.
    pub open spec fn after_adding_all(self, ws: Seq<Seq<char>>) -> CloudModel
        decreases ws.len(),
    {
        if ws.len() == 0 {
            self
        } else {
            self.after_adding_all(ws.drop_last()).after_add(ws.last())
        }
    }

    /// Every word of `ws` can be added in turn.
    pub open spec fn can_add_all(self, ws: Seq<Seq<char>>) -> bool
        decreases ws.len(),
    {
        ws.len() == 0 || (self.can_add_all(ws.drop_last()) && self.after_adding_all(
            ws.drop_last(),
        ).can_add(ws.last()))
    }

    /// Words that can be added in turn can also be added up to any point.
    pub proof fn lemma_can_add_prefix(self, ws: Seq<Seq<char>>, n: int)
        requires
            self.can_add_all(ws),
            0 <= n <= ws.len(),
        ensures
            self.can_add_all(ws.take(n)),
        decreases ws.len(),
    {
        if n < ws.len() {
            self.lemma_can_add_prefix(ws.drop_last(), n);
            assert(ws.drop_last().take(n) =~= ws.take(n));
        } else {
            assert(ws.take(n) =~= ws);
        }
    }

    /// The ramp is still growing the display.
    pub open spec fn ramping(self) -> bool {
        self.ramp_frames_per_word > 0 && self.ramp_current < self.max_display_words
    }

    /// How many words are shown when the display is not locked by the ramp:
    /// never more than `max_display_words`.
    pub open spec fn display_count(self) -> int {
        let wanted = self.uncapped_display_count();
        if wanted < self.max_display_words {
            wanted
        } else {
            self.max_display_words as int
        }
    }

    /// The ramp limit, or the share of the display that the window's fill
    /// allows (at least three words).
    pub open spec fn uncapped_display_count(self) -> int {
        if self.ramp_frames_per_word > 0 {
            self.ramp_current as int
        } else {
            let scaled = scaled_display_count(
                self.max_display_words as int,
                self.window.len() as int,
                self.max_queue_size as int,
            );
            if scaled < 3 {
                3
            } else {
                scaled
            }
        }
    }

    /// The words shown, with their counts.
    pub open spec fn top_words(self) -> Seq<(Seq<char>, u32)> {
        if self.ramping() {
            listed_entries(self.frequencies(), self.displayed_words)
        } else {
            top_ranked(self.frequencies(), self.display_count())
        }
    }

    pub open spec fn snapshot(self) -> CloudStateView {
        CloudStateView {
            word_frequencies: self.frequencies(),
            top_words: self.top_words(),
            total_words_processed: self.total_words_processed,
            current_queue_size: self.window.len() as usize,
            latest_word: if self.window.len() > 0 {
                Some(self.window.last())
            } else {
                None
            },
            current_article: self.current_article,
        }
    }

    pub open spec fn after_set_ramp(self, frames: u32) -> CloudModel {
        CloudModel {
            ramp_frames_per_word: frames,
            ramp_current: if frames > 0 {
                1
            } else {
                self.ramp_current
            },
            ..self
        }
    }

    pub open spec fn after_set_article(self, article: ArticleInfo) -> CloudModel {
        CloudModel { current_article: Some(article), ..self }
    }

    /// The display during the ramp grows by the best word not shown yet.
    pub open spec fn after_next_display_word(self) -> CloudModel {
        CloudModel {
            displayed_words: with_next_display_word(self.frequencies(), self.displayed_words),
            ..self
        }
    }

    /// One frame of the ramp: seed the display with the best word if it is
    /// empty, and every `ramp_frames_per_word` frames let one more word in.
    pub open spec fn after_advance_ramp(self) -> CloudModel {
        if self.ramping() {
            let m = self.frequencies();
            let seeded = if self.displayed_words.len() == 0 && self.window.len() > 0 {
                with_next_display_word(m, self.displayed_words)
            } else {
                self.displayed_words
            };
            let count = self.ramp_frame_count + 1;
            if count >= self.ramp_frames_per_word {
                CloudModel {
                    ramp_frame_count: 0,
                    ramp_current: (self.ramp_current + 1) as usize,
                    displayed_words: with_next_display_word(m, seeded),
                    ..self
                }
            } else {
                CloudModel { ramp_frame_count: count as u32, displayed_words: seeded, ..self }
            }
        } else {
            self
        }
    }
}

} // verus!
