//! Static instruction scheduling and register allocation for the VLIW-470 machine.
pub mod text;
pub mod instruction;
pub mod dependency;
pub mod scheduler;
pub mod parser;
pub mod pip_scheduler;
pub mod pip_reg_alloc;
pub mod listing;
pub mod compile;
pub mod round_trip;
