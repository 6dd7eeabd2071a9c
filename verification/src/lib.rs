//! Verified core of a symbolic prime hunter: candidates are base-4 digit
//! strings over the alphabet {-1, 0, 1, 2}, filtered by cheap residue
//! checks and confirmed by a Miller-Rabin test.
pub mod bignat;
pub mod cli;
pub mod discovery;
pub mod pipeline;
pub mod primality;
pub mod report;
pub mod search;
pub mod symbols;
pub mod text;
pub mod theory;
pub mod token;
pub mod training;
