//! Language and grammar processing over ternary sentiment: tokenization,
//! sentiment classification, context-free grammars, recursive-descent
//! parsing and a Markov-chain model over the states {-1, 0, +1}.

pub mod classifier;
pub mod grammar;
pub mod language_model;
pub mod parse_tree;
pub mod parser;
pub mod sentiment;
pub mod text;
pub mod tokenizer;

pub use classifier::SentimentClassifier;
pub use grammar::{ProductionRule, TernaryGrammar, TernarySymbol};
pub use language_model::TernaryLanguageModel;
pub use parse_tree::ParseNode;
pub use parser::TernaryParser;
pub use sentiment::{Sentiment, TernaryToken};
pub use text::is_unicode_whitespace;
pub use tokenizer::TernaryTokenizer;
