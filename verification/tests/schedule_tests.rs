use timecloud::schedule::{preload_count, warmup_frame_count, FrameAction, FramePlan};
use timecloud::{TimeCloud, TokenizedWord};

fn word(w: &str, date: &str, title: &str) -> TokenizedWord {
    TokenizedWord {
        word: w.to_string(),
        article_date: date.to_string(),
        article_title: title.to_string(),
        article_image: None,
    }
}

#[test]
fn frames_every_few_words_and_articles_follow_words() {
    let mut tc = TimeCloud::new(10, 10);
    let mut plan = FramePlan::new(2);
    assert_eq!(plan.on_word(&mut tc, word("a", "2024-01-01", "First"), true), FrameAction::Nothing);
    assert_eq!(plan.on_word(&mut tc, word("b", "2024-01-01", "First"), true), FrameAction::Render);
    assert!(!plan.needs_final_frame());
    assert_eq!(tc.get_state().current_article.unwrap().title, "First");
    assert_eq!(plan.on_word(&mut tc, word("c", "2024-02-01", "Second"), true), FrameAction::Nothing);
    assert!(plan.needs_final_frame());
    let state = tc.get_state();
    assert_eq!(state.total_words_processed, 3);
    assert_eq!(state.current_article.unwrap().date, "2024-02-01");
}

#[test]
fn no_frames_while_preloading() {
    let mut tc = TimeCloud::new(10, 10);
    let mut plan = FramePlan::new(1);
    for w in ["a", "b", "c"] {
        assert_eq!(plan.on_word(&mut tc, word(w, "d", "t"), false), FrameAction::Nothing);
    }
    assert!(!plan.needs_final_frame());
    assert_eq!(tc.get_state().total_words_processed, 3);
}

#[test]
fn zero_words_per_frame_renders_every_word() {
    let mut tc = TimeCloud::new(10, 10);
    let mut plan = FramePlan::new(0);
    assert_eq!(plan.on_word(&mut tc, word("a", "d", "t"), true), FrameAction::Render);
    assert_eq!(plan.on_word(&mut tc, word("b", "d", "t"), true), FrameAction::Render);
}

#[test]
fn empty_article_names_match_the_start() {
    // The plan starts with an empty date and title, so such a word sets no article.
    let mut tc = TimeCloud::new(10, 10);
    let mut plan = FramePlan::new(1);
    plan.on_word(&mut tc, word("a", "", ""), true);
    assert!(tc.get_state().current_article.is_none());
}

#[test]
fn ramp_advances_with_frames() {
    let mut tc = TimeCloud::new(10, 3);
    tc.set_ramp_frames_per_word(1);
    let mut plan = FramePlan::new(1);
    plan.on_word(&mut tc, word("a", "d", "t"), true);
    // the frame seeded "a" and raised the limit to 2, adding no other word
    assert_eq!(tc.get_state().top_words, vec![("a".to_string(), 1)]);
}

#[test]
fn preload_and_warmup_counts() {
    assert_eq!(preload_count(1500, 100), 100);
    assert_eq!(preload_count(10, 100), 10);
    assert_eq!(warmup_frame_count(0, 5), 0);
    assert_eq!(warmup_frame_count(3, 5), 5);
}
