//! A verified core for a random-forest deck classifier: page and cache
//! formats, deck features, training rows, decision trees and voting.

pub mod ascii;
pub mod cache;
pub mod candidates;
pub mod dataset;
pub mod decimal;
pub mod deck;
pub mod forest;
pub mod json;
pub mod logfmt;
pub mod order;
pub mod players;
pub mod page;
pub mod random;
pub mod search;
pub mod tree;
