//! A reversible second-order block cellular automaton engine.
//!
//! A grid of small-alphabet cell states evolves under permutation-defined
//! local rules applied over a Margolus neighborhood: the grid is partitioned
//! into 2x2 blocks, each block is encoded as a single integer, replaced
//! through a permutation table, and decoded back; the partition alternates
//! its origin by one cell between steps. Because every block transform is a
//! permutation, stepping is exactly invertible, and `step_back` undoes
//! `step` bit for bit.

pub mod bignum;
pub mod codec;
pub mod permutation;
pub mod permutation_string;
pub mod rules;
pub mod world;
