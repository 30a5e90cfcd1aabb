//! Live-session engine of a collaborative retrospective board: board state and
//! its mutations, the join handshake, the command dispatcher, the one-step
//! merge undo, the per-board session registry, and the administration rules.
pub mod ids;
pub mod keyed;
pub mod text;
pub mod model;
pub mod board;
pub mod protocol;
pub mod session;
pub mod error;
pub mod state;
pub mod admin;
