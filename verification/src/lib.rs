//! A finite-category modeling engine.
//!
//! A [`category::Category`] owns a flat list of named objects and a flat list
//! of named arrows; an arrow refers to its domain and codomain by index into
//! the object list, and carries an explicit table of index pairs declaring
//! which compositions it equals.  Composition is resolved purely from that
//! declared table ([`compose`]), the category laws are checked (never
//! enforced) by the predicates in [`laws`], and an object's outgoing
//! attribute arrows can be partitioned into independent sub-categories by
//! the schema splitter in [`split`].

pub mod category;
pub mod compose;
pub mod entity;
pub mod errors;
pub mod laws;
pub mod model;
pub mod render;
pub mod split;
