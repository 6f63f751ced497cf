//! Verified core of a novelty-search maze-navigation experiment.
use vstd::prelude::*;

pub mod order_key;
pub mod rng;
pub mod grid;

pub mod eller;
pub mod segments;
pub mod selection;
pub mod evolution;
pub mod novelty;
pub mod explainer;
