pub mod grid;
pub mod random;
pub mod progress;
pub mod word_search;
pub mod word_list;
pub mod request;
pub mod config;
