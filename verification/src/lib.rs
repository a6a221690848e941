//! Extraction of rule articles and interpretive rulings from the linearized
//! text of the German American-football rulebook.
//!
//! The library turns the raw text (as produced by a fixed-geometry PDF text
//! extraction) into an ordered collection of [`rule::Rule`] values keyed by
//! their hierarchical [`rule::ArticleNr`], with each rule's interpretive
//! rulings attached.

pub mod body;
pub mod interpret;
pub mod normalize;
pub mod parser;
pub mod roman;
pub mod rule;
pub mod segment;
pub mod text;

