use timecloud::tokenizer::{
    article_base_name, image_candidates, is_article_file_name, parse_filename, parse_stopwords,
    select_article_files,
};
use timecloud::Tokenizer;

/// A small stopword file.
const STOPWORDS: &str = "# common English words\nthe\na\nan\nand\nof\n";

#[test]
fn test_tokenize_basic() {
    // lowercase on, stopwords off, stemming off, minimum length 2
    let tokenizer = Tokenizer::new(true, false, false, 2, None).unwrap();
    let words = tokenizer.tokenize("Hello World");
    assert_eq!(words, vec!["hello", "world"]);
}

#[test]
fn test_stopword_filtering() {
    let tokenizer = Tokenizer::new(true, true, false, 2, Some(STOPWORDS)).unwrap();
    let words = tokenizer.tokenize("the quick brown fox");
    assert!(!words.contains(&"the".to_string()));
    assert!(words.contains(&"quick".to_string()));
}

#[test]
fn test_contraction_stripping() {
    let tokenizer = Tokenizer::new(true, false, false, 2, None).unwrap();

    // Contractions are stripped, leaving just the base word
    let words = tokenizer.tokenize("don't won't isn't");
    assert!(words.contains(&"do".to_string()));
    assert!(words.contains(&"wo".to_string()));
    assert!(words.contains(&"is".to_string()));
    assert!(!words.contains(&"not".to_string()));
    assert!(!words.iter().any(|w| w.contains("n't") || w.contains("t")));

    // Possessives are stripped too
    let words = tokenizer.tokenize("John's car");
    assert!(words.contains(&"john".to_string()));
    assert!(words.contains(&"car".to_string()));
    assert!(!words.iter().any(|w| w.contains("'s")));
}

#[test]
fn missing_stopword_list_is_an_error() {
    let r = Tokenizer::new(true, true, false, 2, None);
    assert!(matches!(r, Err(timecloud::TokenizerError::StopwordsPathMissing)));
    assert_eq!(
        r.err().unwrap().message(),
        "stopwords_path must be set when filter_stopwords is enabled"
    );
}

#[test]
fn short_words_and_case() {
    let tokenizer = Tokenizer::new(false, false, false, 3, None).unwrap();
    assert_eq!(tokenizer.tokenize("An Owl ate 42 figs!"), vec!["Owl", "ate", "figs"]);
}

#[test]
fn stopwords_compare_in_lower_case() {
    let tokenizer = Tokenizer::new(false, true, false, 1, Some("The\n")).unwrap();
    assert_eq!(tokenizer.tokenize("The cat THE end"), vec!["cat", "end"]);
}

#[test]
fn stemming_uses_english_stemmer() {
    let tokenizer = Tokenizer::new(true, false, true, 2, None).unwrap();
    assert_eq!(tokenizer.tokenize("running cats"), vec!["run", "cat"]);
}

#[test]
fn select_tokens_filters_given_matches() {
    let tokenizer = Tokenizer::new(true, true, false, 3, Some("and\n")).unwrap();
    let matches = vec!["cats".to_string(), "and".to_string(), "ox".to_string(), "dogs".to_string()];
    assert_eq!(tokenizer.select_tokens(&matches), vec!["cats", "dogs"]);
}

#[test]
fn stopword_file_lines() {
    let words = parse_stopwords("  The \r\n# comment\n\nAND\nof");
    assert_eq!(words, vec!["the", "and", "of"]);
    assert!(parse_stopwords("").is_empty());
}

#[test]
fn filename_with_date_and_slug() {
    let (date, title) = parse_filename("2024-01-15_article-title.txt");
    assert_eq!(date, "2024-01-15");
    assert_eq!(title, "Article Title");
    let (date, title) = parse_filename("2024-02-01_the--big_day.txt.txt");
    assert_eq!(date, "2024-02-01");
    assert_eq!(title, "The Big_day");
}

#[test]
fn filename_without_date() {
    let (date, title) = parse_filename("just-a-title.txt");
    assert_eq!(date, "");
    assert_eq!(title, "just a title");
}

#[test]
fn article_files_are_txt_sorted_by_name() {
    let names = vec![
        "2024-03-01_c.txt".to_string(),
        "notes.md".to_string(),
        "2024-01-01_a.txt".to_string(),
        ".txt".to_string(),
        "2024-02-01_b.txt".to_string(),
        "image.png".to_string(),
    ];
    assert_eq!(
        select_article_files(&names),
        vec!["2024-01-01_a.txt", "2024-02-01_b.txt", "2024-03-01_c.txt"]
    );
    assert!(is_article_file_name("..txt"));
    assert!(!is_article_file_name("txt"));
}

#[test]
fn image_names_tried_in_order() {
    assert_eq!(article_base_name("2024-01-01_a.txt"), "2024-01-01_a");
    let c = image_candidates("base");
    assert_eq!(c.len(), 12);
    assert_eq!(c[0], "base.png");
    assert_eq!(c[1], "base.PNG");
    assert_eq!(c[4], "base.jpeg");
    assert_eq!(c[11], "base.GIF");
}

#[test]
fn article_words_carry_metadata() {
    let tokenizer = Tokenizer::new(true, false, false, 2, None).unwrap();
    let words = tokenizer.tokenize_article(
        "2024-01-15_big-news.txt",
        "Big news today",
        &Some("dir/2024-01-15_big-news.png".to_string()),
    );
    assert_eq!(words.len(), 3);
    assert_eq!(words[1].word, "news");
    assert_eq!(words[1].article_date, "2024-01-15");
    assert_eq!(words[1].article_title, "Big News");
    assert_eq!(words[1].article_image.as_deref(), Some("dir/2024-01-15_big-news.png"));
}

#[test]
fn unicode_white_space_splits_titles() {
    let (_, title) = parse_filename("2024-01-01_a\u{3000}b\u{a0}c.txt");
    assert_eq!(title, "A B C");
    assert_eq!(parse_stopwords("\u{2003}the\u{85}\n"), vec!["the"]);
}
