//! Frequency tables over a discrete data set, the mixed-radix numbering of value
//! combinations, and the degrees of freedom of the G test, as used in Markov
//! blanket discovery.
pub mod radix;
pub mod varset;
pub mod combs;
pub mod metadata;
pub mod random;
pub mod dataset;
pub mod prob_map;
pub mod bitset;
pub mod join;
pub mod prob_tids;
pub mod g2test;
pub mod mb;
pub mod search;
