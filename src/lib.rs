//! A resource-bounded search wave that branches through an 8x8 maze,
//! spending a shared energy budget while it looks for the exit.

pub mod grid;
pub mod fork;
pub mod model;
pub mod engine;
pub mod laws;

pub use engine::{
    LivingWave, StepOutcome, WaveError, birth_wave, get_energy, get_wave_state, init_maze,
    is_complete, step,
};
pub use fork::WaveFork;
pub use grid::Cell;
