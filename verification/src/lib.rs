//! A positional bead-to-value numeral model, as found in an abacus.
//!
//! An [`Abacus`] is an ordered sequence of [`Column`]s, index 0 being the
//! least significant. Each column holds two decks of beads: a lower deck
//! whose active beads count 1 each, and an upper deck that contributes a
//! configurable weight when active. The board interprets the column values
//! as digits of a positional numeral in a configurable radix, and supports
//! reading the aggregate value, writing a target value (distributed greedily
//! from the most significant column down), and the click-toggle operation a
//! physical abacus user performs on a single bead.

use vstd::prelude::*;

pub mod board;
pub mod column;
pub mod laws;
pub mod numeral;

pub use board::build_board;
pub use board::Abacus;
pub use column::Column;

verus! {

/// How an operation on the numeral model can fail.
///
/// Every failure leaves the board it was addressed to unchanged.
#[derive(Clone, Copy, Debug, PartialEq, Eq, Structural)]
pub enum AbacusError {
    /// Construction parameters describe no valid board: the radix is below 2,
    /// or a single column's largest value would not fit in a machine word.
    ConfigError,
    /// A column index at or beyond the column count, or a bead position
    /// outside its deck, was addressed.
    IndexError,
    /// The total the columns show, or the board's ceiling, does not fit in
    /// a machine word.
    OverflowError,
}

} // verus!
