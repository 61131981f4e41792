use timecloud::{ArticleInfo, TimeCloud};

#[test]
fn test_add_word() {
    let mut tc = TimeCloud::new(100, 10);
    let state = tc.add_word("hello".to_string());
    assert_eq!(state.total_words_processed, 1);
    assert_eq!(state.top_words.len(), 1);
    assert_eq!(state.top_words[0], ("hello".to_string(), 1));
}

#[test]
fn test_frequency_tracking() {
    let mut tc = TimeCloud::new(100, 10);
    tc.add_word("hello".to_string());
    tc.add_word("world".to_string());
    let state = tc.add_word("hello".to_string());

    assert_eq!(state.top_words[0], ("hello".to_string(), 2));
    assert_eq!(state.top_words[1], ("world".to_string(), 1));
}

#[test]
fn test_eviction() {
    let mut tc = TimeCloud::new(3, 10);
    tc.add_word("a".to_string());
    tc.add_word("b".to_string());
    tc.add_word("c".to_string());
    let state = tc.add_word("d".to_string()); // evicts "a"

    assert_eq!(state.current_queue_size, 3);
    assert!(!state.word_frequencies.contains_key("a"));
}

#[test]
fn window_keeps_latest_words_and_counts() {
    let mut tc = TimeCloud::new(4, 10);
    for w in ["x", "y", "x", "z", "x", "y"] {
        tc.add_word(w.to_string());
    }
    let state = tc.get_state();
    // window is now [x, z, x, y]
    assert_eq!(state.current_queue_size, 4);
    assert_eq!(state.total_words_processed, 6);
    assert_eq!(state.word_frequencies.get("x"), Some(&2));
    assert_eq!(state.word_frequencies.get("y"), Some(&1));
    assert_eq!(state.word_frequencies.get("z"), Some(&1));
    assert_eq!(state.latest_word, Some("y".to_string()));
    assert_eq!(
        state.top_words,
        vec![("x".to_string(), 2), ("y".to_string(), 1), ("z".to_string(), 1)]
    );
}

#[test]
fn ties_are_broken_by_string_order() {
    let mut tc = TimeCloud::new(100, 10);
    for w in ["pear", "apple", "Zebra", "apple", "pear", "fig"] {
        tc.add_word(w.to_string());
    }
    let state = tc.get_state();
    assert_eq!(
        state.top_words,
        vec![
            ("apple".to_string(), 2),
            ("pear".to_string(), 2),
            ("Zebra".to_string(), 1),
        ]
    );
}

#[test]
fn display_count_follows_window_fill() {
    // ceil(10 * 5 / 10) = 5 words shown once the window is half full
    let mut tc = TimeCloud::new(10, 10);
    for w in ["a", "b", "c", "d", "e"] {
        tc.add_word(w.to_string());
    }
    assert_eq!(tc.get_state().top_words.len(), 5);
    // ceil(10 * 1 / 10) = 1, but at least 3 are shown
    let mut tc = TimeCloud::new(10, 10);
    for w in ["a", "b", "c", "d", "e"] {
        tc.add_word(w.to_string());
        if w == "a" {
            assert_eq!(tc.get_state().top_words.len(), 1);
        }
    }
    let mut tc = TimeCloud::new(100, 18);
    for w in ["a", "b", "c", "d", "e", "f"] {
        tc.add_word(w.to_string());
    }
    // ceil(18 * 6 / 100) = 2, raised to 3
    assert_eq!(tc.get_state().top_words.len(), 3);
}

#[test]
fn zero_capacity_keeps_only_newest_word() {
    let mut tc = TimeCloud::new(0, 5);
    tc.add_word("a".to_string());
    let state = tc.add_word("b".to_string());
    assert_eq!(state.current_queue_size, 1);
    assert!(!state.word_frequencies.contains_key("a"));
    assert_eq!(state.top_words, vec![("b".to_string(), 1)]);
}

#[test]
fn ramp_locks_displayed_words() {
    let mut tc = TimeCloud::new(100, 3);
    tc.set_ramp_frames_per_word(2);
    for w in ["b", "a", "a", "c", "c", "c"] {
        tc.add_word(w.to_string());
    }
    // No word is locked in yet.
    assert!(tc.get_state().top_words.is_empty());
    tc.advance_ramp(); // seeds "c"
    assert_eq!(tc.get_state().top_words, vec![("c".to_string(), 3)]);
    tc.advance_ramp(); // second frame: limit rises to 2, adds "a"
    assert_eq!(
        tc.get_state().top_words,
        vec![("c".to_string(), 3), ("a".to_string(), 2)]
    );
    tc.add_word("b".to_string());
    tc.add_word("b".to_string());
    tc.add_word("b".to_string());
    // still locked to c and a, with current counts
    assert_eq!(
        tc.get_state().top_words,
        vec![("c".to_string(), 3), ("a".to_string(), 2)]
    );
    tc.advance_ramp();
    tc.advance_ramp(); // limit reaches 3 = max: normal ranking again
    assert_eq!(
        tc.get_state().top_words,
        vec![("b".to_string(), 4), ("c".to_string(), 3), ("a".to_string(), 2)]
    );
}

#[test]
fn batched_processing_yields_every_batch() {
    let mut tc = TimeCloud::new(10, 10);
    let words: Vec<String> = ["a", "b", "c", "d", "e", "f", "g"].iter().map(|s| s.to_string()).collect();
    let states = tc.process_words_batched(words, 3);
    assert_eq!(states.len(), 2);
    assert_eq!(states[0].total_words_processed, 3);
    assert_eq!(states[1].total_words_processed, 6);
    assert_eq!(tc.get_state().total_words_processed, 7);
    let mut tc = TimeCloud::new(10, 10);
    let states = tc.process_words_batched(vec!["a".to_string(), "b".to_string()], 0);
    assert_eq!(states.len(), 2);
}

#[test]
fn article_is_reported_in_state() {
    let mut tc = TimeCloud::new(10, 10);
    tc.set_article(ArticleInfo {
        date: "2024-01-15".to_string(),
        title: "Hello".to_string(),
        image_path: None,
    });
    let state = tc.add_word("w".to_string());
    let article = state.current_article.unwrap();
    assert_eq!(article.date, "2024-01-15");
    assert_eq!(article.title, "Hello");
}

#[test]
fn never_more_words_than_max_display() {
    let mut tc = TimeCloud::new(100, 1);
    for w in ["a", "b", "c"] {
        tc.add_word(w.to_string());
    }
    assert_eq!(tc.get_state().top_words, vec![("a".to_string(), 1)]);
    let mut tc = TimeCloud::new(0, 2);
    tc.add_word("x".to_string());
    let state = tc.add_word("y".to_string());
    assert_eq!(state.top_words.len(), 1);
}

#[test]
fn adding_a_word_keeps_the_article() {
    let mut tc = TimeCloud::new(3, 5);
    tc.set_article(ArticleInfo {
        date: "2024-02-01".to_string(),
        title: "First".to_string(),
        image_path: None,
    });
    tc.add_word("one".to_string());
    let added = tc.add_word("two".to_string());
    let state = tc.get_state();
    assert_eq!(added.current_article.unwrap().title, "First");
    assert_eq!(state.latest_word, Some("two".to_string()));
    assert_eq!(added.latest_word, state.latest_word);
    assert_eq!(added.total_words_processed, 2);
    assert_eq!(added.top_words, state.top_words);
    assert_eq!(added.word_frequencies.len(), state.word_frequencies.len());
}

#[test]
fn display_count_rounds_like_single_precision() {
    // 21 * (4 / 28) is 3.0000002 in single precision, so 4 words are shown
    let mut tc = TimeCloud::new(28, 21);
    for w in ["a", "b", "c", "d"] {
        tc.add_word(w.to_string());
    }
    assert_eq!(tc.get_state().top_words.len(), 4);
}
