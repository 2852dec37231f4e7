//! Finds every set of five five-letter words whose twenty-five letters are
//! all distinct: a search for the size-five cliques of the letter-disjointness
//! graph over a dictionary's candidate words.

pub mod clique;
pub mod graph;
pub mod words;
