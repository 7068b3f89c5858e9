//! Kogu: the query-normalisation, gloss-matching, ranking and character-graph logic of a
//! dictionary of Mandarin, Cantonese and Japanese.

pub mod chars;
pub mod script;
pub mod fold;
pub mod gloss;
pub mod words;
pub mod graph;
pub mod rank;
pub mod plan;
pub mod model;
pub mod segment;
pub mod relation;
pub mod entry;
pub mod forms;
pub mod showcase;
pub mod params;
pub mod proxy;
