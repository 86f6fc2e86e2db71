//! Verified core of 人工無脳君, a dialogue program without a language model.
pub mod adapt;
pub mod alias;
pub mod bigram;
pub mod bits;
pub mod charclass;
pub mod cli;
pub mod count;
pub mod embed;
pub mod engine;
pub mod entropy;
pub mod eval;
pub mod explain;
pub mod fabricate;
pub mod fx;
pub mod generate;
pub mod ids;
pub mod induced;
pub mod intern;
pub mod interest;
pub mod interject;
pub mod lcs;
pub mod log;
pub mod memory;
pub mod milestone;
pub mod mix;
pub mod nexts;
pub mod observe;
pub mod params;
pub mod propose;
pub mod reduced;
pub mod report;
pub mod respond;
pub mod retrieve;
pub mod rng;
pub mod route;
pub mod sais;
pub mod same;
pub mod select;
pub mod smoothing;
pub mod snapshot;
pub mod sort;
pub mod store;
pub mod suffix;
pub mod tally;
pub mod text;
pub mod tokenizer;
pub mod trigger;
pub mod turn;
pub mod weather;
