//! Consensus building over the answers that several agents gave to one prompt.
//!
//! Two strategies are offered: a quorum vote over clusters of similar
//! answers, and an iterated prisoner's dilemma in which agents that agree
//! with the weighted majority cooperate.  Text similarity is the ratio of
//! the longest common subsequence of two normalised answers to their
//! combined length.
//!
//! All numbers are exact integers: confidences and similarity thresholds
//! are fixed-point values in millionths, and similarity scores and the
//! other ratios that the caller may want as decimals are exact fractions.
pub mod engine;
pub mod models;
pub mod natural;
pub mod similarity;
pub mod strategies;
