//! Cross-bookmaker fixture matching and arbitrage detection.
//!
//! Each bookmaker contributes a list of odds records. The matcher groups the
//! records that quote the same fixture, whatever the order and letter case in
//! which a bookmaker names the two sides, and the evaluator picks the best
//! odds per outcome across a group and decides whether staking on every
//! outcome guarantees a profit.
//!
//! `models` holds the odds record, `matching` the matcher, `arbitrage` the
//! evaluator and the pipeline, `laws` what is proved of them on every input,
//! `listing` the rules that turn the texts of a listing row into a quote, and
//! `text` the case folding of names.
//!
//! Odds are fixed-point decimals: a `u32` counts thousandths, so decimal odds
//! of 2.10 are held as `2100`. All arithmetic on them is exact.

pub mod models;
pub mod text;
pub mod matching;
pub mod arbitrage;
pub mod laws;
pub mod listing;
