//! A terminal trivia quiz: questions are read from a markup document, turned
//! into well-formed question records, and asked one by one with shuffled
//! options while a tally of right and wrong answers is kept.

pub mod markup;
pub mod assemble;
pub mod quiz;
