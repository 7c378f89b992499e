//! An instrumented sorting engine: five classic in-memory sorting algorithms
//! that hand a snapshot of the working sequence to a renderer after every
//! significant operation, together with the bar layout rules a frontend needs
//! to draw those snapshots.

pub mod analytics;
pub mod args;
pub mod cost;
pub mod count;
pub mod error;
pub mod input;
pub mod layout;
pub mod renderer;
pub mod script;
pub mod sequence;
pub mod shuffle;
pub mod sort;
pub mod sort_type;
pub mod text;
pub mod trace;
