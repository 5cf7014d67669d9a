//! Nodus: a logic gate simulator.
//!
//! The library holds the simulated world of logic components, connectors and
//! connection lines, the transition functions of every gate, the propagation
//! of signals, the undo history, the save snapshot and the decisions of the
//! user interface. Drawing, input devices and file access live in the
//! program around it.

pub mod logic;
pub mod world;
pub mod save;
pub mod undo;
pub mod load;
pub mod systems;
pub mod menu;
