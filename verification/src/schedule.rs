//! When frames are rendered while the words of the articles are fed to the
//! word cloud: preloading, warm-up frames, one frame every few words, and a
//! last frame for the words left over.

use vstd::prelude::*;
use crate::cloud::{ArticleInfo, TimeCloud};
use crate::model::CloudModel;
use crate::tokenizer::TokenizedWord;

verus! {

/// What the renderer is to do after a word.
#[derive(Debug, Clone, Copy, PartialEq, Eq, Structural)]
pub enum FrameAction {
    Nothing,
    Render,
}

/// How many of `n` words are preloaded before rendering starts.
pub open spec fn preload_limit(preload: usize, n: usize) -> usize {
    if preload < n {
        preload
    } else {
        n
    }
}

/// How many of `n` words are preloaded before rendering starts.
pub fn preload_count(preload: usize, n: usize) -> (r: usize)
    ensures
        r == preload_limit(preload, n),
{
    if preload < n {
        preload
    } else {
        n
    }
}

/// How many warm-up frames are rendered after preloading: none unless
/// some words were preloaded.
pub fn warmup_frame_count(preloaded: usize, warmup_frames: u32) -> (r: u32)
    ensures
        r == if preloaded > 0 {
            warmup_frames
        } else {
            0
        },
{
    if preloaded > 0 {
        warmup_frames
    } else {
        0
    }
}

/// What a frame plan keeps: how many words make a frame, how many words
/// were added since the last frame, and the date and title of the article
/// of the last word.
pub struct FramePlanView {
    pub words_per_frame: usize,
    pub pending: usize,
    pub article: (Seq<char>, Seq<char>),
}

/// The schedule of frames over a stream of words.
pub struct FramePlan {
    words_per_frame: usize,
    pending: usize,
    article: (String, String),
}

impl View for FramePlan {
    type V = FramePlanView;

    closed spec fn view(&self) -> FramePlanView {
        FramePlanView {
            words_per_frame: self.words_per_frame,
            pending: self.pending,
            article: (self.article.0@, self.article.1@),
        }
    }
}

/// The word belongs to another article (date or title) than the last one.
pub open spec fn article_changes(plan: FramePlanView, w: TokenizedWord) -> bool {
    plan.article != (w.article_date@, w.article_title@)
}

/// A frame is due after this word.
pub open spec fn frame_due(plan: FramePlanView, render_due: bool) -> bool {
    render_due && plan.pending + 1 >= plan.words_per_frame
}

/// The cloud after one word: its article is set if it changed, the word is
/// added, and the ramp advances if a frame is due.
pub open spec fn step_model(
    plan: FramePlanView,
    cloud: CloudModel,
    w: TokenizedWord,
    render_due: bool,
) -> CloudModel {
    let c1 = if article_changes(plan, w) {
        cloud.after_set_article(
            ArticleInfo {
                date: w.article_date,
                title: w.article_title,
                image_path: w.article_image,
            },
        )
    } else {
        cloud
    };
    let c2 = c1.after_add(w.word@);
    if frame_due(plan, render_due) {
        c2.after_advance_ramp()
    } else {
        c2
    }
}

impl FramePlan {
    /// Fewer words are pending than make a frame.
    pub open spec fn wf(&self) -> bool {
        self@.pending == 0 || self@.pending < self@.words_per_frame
    }

    /// A plan that renders a frame every `words_per_frame` words (every word
    /// when it is 0); no article has been seen yet.
    pub fn new(words_per_frame: usize) -> (r: FramePlan)
        ensures
            r.wf(),
            r@.words_per_frame == words_per_frame,
            r@.pending == 0,
            r@.article == (Seq::<char>::empty(), Seq::<char>::empty()),
    {
        FramePlan { words_per_frame, pending: 0, article: (String::new(), String::new()) }
    }

    /// Feeds one word to the cloud: sets its article when the date or title
    /// changed, adds the word, and, when frames are rendered (`render_due`)
    /// and enough words are pending, advances the ramp and asks for a frame.
    pub fn on_word(&mut self, cloud: &mut TimeCloud, w: TokenizedWord, render_due: bool) -> (a:
        FrameAction)
        requires
            old(self).wf(),
            old(cloud).wf(),
            old(cloud)@.can_add(w.word@),
        ensures
            final(self).wf(),
            final(cloud).wf(),
            final(cloud)@ == step_model(old(self)@, old(cloud)@, w, render_due),
            a == if frame_due(old(self)@, render_due) {
                FrameAction::Render
            } else {
                FrameAction::Nothing
            },
            final(self)@.pending == if frame_due(old(self)@, render_due) {
                0
            } else if render_due {
                old(self)@.pending + 1
            } else {
                old(self)@.pending as int
            },
            final(self)@.words_per_frame == old(self)@.words_per_frame,
            final(self)@.article == (w.article_date@, w.article_title@),
            (a == FrameAction::Render) == (render_due && old(self)@.pending + 1
                >= old(self)@.words_per_frame),
            old(self)@.article != (w.article_date@, w.article_title@)
                ==> final(cloud)@.current_article == Some(
                (ArticleInfo {
                    date: w.article_date,
                    title: w.article_title,
                    image_path: w.article_image,
                }),
            ),
            old(self)@.article == (w.article_date@, w.article_title@)
                ==> final(cloud)@.current_article == old(cloud)@.current_article,
    {
        let changed = !(self.article.0 == w.article_date && self.article.1 == w.article_title);
        let TokenizedWord { word, article_date, article_title, article_image } = w;
        if changed {
            self.article = (article_date.clone(), article_title.clone());
            cloud.set_article(
                ArticleInfo { date: article_date, title: article_title, image_path: article_image },
            );
        }
        let _ = cloud.add_word(word);
        if render_due {
            if self.pending + 1 >= self.words_per_frame {
                self.pending = 0;
                cloud.advance_ramp();
                FrameAction::Render
            } else {
                self.pending = self.pending + 1;
                FrameAction::Nothing
            }
        } else {
            FrameAction::Nothing
        }
    }

    /// Words were added since the last frame, so a last frame is due.
    pub fn needs_final_frame(&self) -> (r: bool)
        ensures
            r == (self@.pending > 0),
    {
        self.pending > 0
    }
}

/// Feeding a word whose date or title differs from the last word's makes its
/// article the cloud's current article; a word of the same article leaves
/// the current article as it was. The words of the window are then those
/// before with the new word added.
pub proof fn lemma_step_sets_article(
    plan: FramePlanView,
    cloud: CloudModel,
    w: TokenizedWord,
    render_due: bool,
)
    ensures
        plan.article != (w.article_date@, w.article_title@) ==> step_model(
            plan,
            cloud,
            w,
            render_due,
        ).current_article == Some(
            (ArticleInfo {
                date: w.article_date,
                title: w.article_title,
                image_path: w.article_image,
            }),
        ),
        plan.article == (w.article_date@, w.article_title@) ==> step_model(
            plan,
            cloud,
            w,
            render_due,
        ).current_article == cloud.current_article,
        step_model(plan, cloud, w, render_due).window == cloud.evicted_window().push(w.word@),
{
}

} // verus!
