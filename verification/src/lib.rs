//! Text generation with a Markov chain over groupings of characters.
//!
//! A sample text is cut into groupings of a fixed number of characters, the
//! order. The transition table records, for every grouping, the groupings
//! that follow it in the sample, as often as they follow it. New text is a
//! random walk over the table.
//!
//! - [`model`] defines what the table of a sample holds, and proves what
//!   follows from that.
//! - [`table`] builds the table and looks things up in it.
//! - [`generate`] walks a table, with the picks of a [`random`] source.
//! - [`order`] reads an order from a line of input and checks it against a
//!   sample.
//! - [`text`] converts and trims text, [`listing`] writes a table out.
//! - [`menu`] holds the decisions of the interactive program.

pub mod generate;
pub mod listing;
pub mod menu;
pub mod model;
pub mod order;
pub mod random;
pub mod table;
pub mod text;
