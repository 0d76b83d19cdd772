//! An interpreter core for a small assembly language with selectable memory
//! semantics: sequential consistency, total store order and partial store
//! order.
//!
//! Programs are read from text into instructions (`instruction`, `utils`).
//! Under sequential consistency an engine steps through them by program
//! counters; under total and partial store order an engine fires the leaves
//! of a dependency graph, and stores wait in per-thread buffers until they
//! are propagated (`thread_subsystem`, `memory_subsystem`,
//! `dependency_graph`). The graph is specified as a mathematical value with
//! its invariants (`graph_model`, `graph_search`) and can be written as
//! a DOT document (`dot`). The interactive interpreters answer lines of input
//! (`interpreter`).
pub mod dependency_graph;
pub mod dot;
pub mod graph_model;
pub mod graph_search;
pub mod instruction;
pub mod interpreter;
pub mod memory_subsystem;
pub mod text;
pub mod thread_subsystem;
pub mod utils;

pub use instruction::{
    ArithCommand, Command, Error, Instruction, LabeledInstruction, MemoryAccessMode, Reference,
};
pub use interpreter::{InterpretorSC, InterpretorTSO};
pub use memory_subsystem::Memory;
pub use thread_subsystem::{SequentialConsistency, TSO};
pub use utils::programs_to_instructions;
