//! Chinese word segmentation for web novels.
pub mod strs;
pub mod text;
pub mod word;
pub mod postag;
pub mod options;
pub mod dict;
pub mod re;
pub mod cjk;
pub mod segment;
pub mod pipeline;
pub mod tokenizers;
pub mod dict_tokenizer;
pub mod optimizers;
pub mod zht;
pub mod run;
pub mod loader;
pub mod json;
pub mod tables;
pub mod dicts;
pub mod service;
pub mod cli;
