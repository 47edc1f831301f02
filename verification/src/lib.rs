//! A circuit simulator: netlists are read into circuits, and operating points,
//! source sweeps, transient and small signal analyses are computed of them.
//!
//! The arithmetic is a parameter, see [`num`]. What a netlist means is said in
//! [`netlist`] and what an analysis prints in [`sweep`], [`transient`] and
//! [`small_signal`]; the modules whose names end in `laws`, and [`exact`],
//! [`stamps`], [`kirchhoff`], [`predictor`], [`energy`] and [`device_lines`], state
//! what follows from that.

// numbers
pub mod num;
pub mod field;
pub mod complex_laws;
pub mod seven;

// netlists
pub mod text;
pub mod number;
pub mod circuit;
pub mod fault;
pub mod netlist;
pub mod netlist_laws;
pub mod reading_laws;
pub mod source_laws;
pub mod device_lines;
pub mod token_laws;
pub mod parser;

// linear systems
pub mod equations;
pub mod exact;
pub mod stamps;
pub mod sparse;

// devices
pub mod models;
pub mod signs;
pub mod assembly;
pub mod kirchhoff;
pub mod model_laws;
pub mod transistor_laws;
pub mod junction_laws;
pub mod device_laws;
pub mod wave_laws;

// analyses
pub mod solver;
pub mod solver_laws;
pub mod mirror;
pub mod output;
pub mod sweep;
pub mod sorting;
pub mod breaks;
pub mod transient;
pub mod transient_laws;
pub mod time_laws;
pub mod start_laws;
pub mod step_laws;
pub mod predictor;
pub mod energy;
pub mod small_signal;
pub mod sweep_laws;
pub mod response_laws;
pub mod report_laws;
pub mod session;
