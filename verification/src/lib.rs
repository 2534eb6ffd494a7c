//! A two-symbol Turing machine: the grammar of its description, the builder
//! of its table and the engine that runs it, each with its contract.

pub mod machine;
pub mod counter;
pub mod grammar;
pub mod parser;
pub mod builder;
pub mod engine;

pub use builder::{make_tm, name_table, read_blocks, resolve_states, BuildError};
pub use counter::{StepCounter, FOLD_THRESHOLD};
pub use engine::{
    read_cell, write_cell, Fault, Simulation, Status, StepReport, TraceLine, FIRST_HEAD,
};
pub use machine::{is_terminal, Direction, State, Symbol, Tm, Transition, RESERVED};
pub use parser::{parse_header, parse_state, StateInfo, TransitionInfo};
