//! Symbol resolution for a sampling profiler: the perf-map symbol table
//! that JIT engines write, and the frame labels that the renderer shows.

pub mod jitsym;
pub mod symbolize;
pub mod text;
