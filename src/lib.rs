//! A solver for the "Letter Boxed" word puzzle.
//!
//! Letters sit on the four sides of a square. A solution is a chain of
//! dictionary words, each starting with the last letter of the previous one,
//! that together use every letter, where no two consecutive letters of a word
//! come from the same side.
pub mod bound;
pub mod coverage;
pub mod graph;
pub mod lexicon;
pub mod search;
pub mod solutions;
pub mod words;
