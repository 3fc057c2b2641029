//! The proof-state engine of a puzzle game in which players build proofs of
//! propositional statements as wiring diagrams.
pub mod case;
pub mod case_tree;
pub mod congruence;
pub mod expression;
pub mod game_data;
pub mod interactions;
pub mod level_spec;
pub mod small;
pub mod union_find;
