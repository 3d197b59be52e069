//! A verified chess rules engine: board model, pseudo-legal move generation,
//! attacked-square computation, check detection, and a turn controller that
//! rejects moves which would leave the mover's own king in check.

pub mod attack;
pub mod board;
pub mod control;
pub mod moves;
pub mod types;
pub mod util;
