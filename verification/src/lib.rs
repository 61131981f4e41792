//! Sliding-window word frequencies for animated word clouds, with the
//! tokenizer and the integer parts of the layout and rendering rules.

pub mod order;
pub mod ranking;
pub mod single;
pub mod model;
pub mod cloud;
pub mod laws;
pub mod config;
pub mod text;
pub mod tokenizer;
pub mod layout;
pub mod color;
pub mod render;
pub mod report;
pub mod schedule;

pub use cloud::{ArticleInfo, CloudState, TimeCloud};
pub use config::LayoutMode;
pub use tokenizer::{TokenizedWord, Tokenizer, TokenizerError};
