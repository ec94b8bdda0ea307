//! Stack depth analysis over execution graphs.
pub mod abstract_interpreter;
pub mod cycle_detector;
pub mod diff_engine;
