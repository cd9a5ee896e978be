//! A cellular automaton whose cell states are multivectors of a geometric
//! algebra over tristate scalars.
//!
//! Every cell of an N-dimensional toroidal grid carries a multivector and a
//! lifecycle phase. In one step each cell is multiplied by the sum of its
//! neighbours, cells are observed, decay or fluctuate at random, and an
//! observation reaches the entangled partner of the observed cell, wherever
//! on the grid it lies.
//!
//! - [`ga_core`]: the scalars and multivectors, [`ga_laws`]: their laws;
//! - [`existon`]: the cell and its lifecycle;
//! - [`lattice`]: coordinates and neighbourhoods of the grid;
//! - [`dynamics`]: the automaton as a mathematical value, and its step;
//! - [`universe`]: the automaton itself;
//! - [`chance`]: probabilities and the random source.

pub mod chance;
pub mod dynamics;
pub mod existon;
pub mod ga_core;
pub mod ga_laws;
pub mod lattice;
pub mod universe;
