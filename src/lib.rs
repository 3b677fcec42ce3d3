//! Disambiguation core of a citation processor: interned edges and the
//! automata that match them, name-expansion passes and global name
//! disambiguation, the intermediate representation of a cite, and cite
//! grouping and collapsing.

pub mod ranges;
pub mod style;
pub mod names;
pub mod edges;
pub mod render;
pub mod ir;
pub mod transforms;
pub mod collapse;
pub mod nfa;
