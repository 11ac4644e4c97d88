//! A mark-sweep-compact garbage collector for the CLR object model, with the
//! heap, the GC handles and the finalization queue modelled as plain values.

pub mod utils;
pub mod objects;
pub mod bits;
pub mod type_table;
pub mod segment;
pub mod handle_table;
pub mod handle_manager;
pub mod heap_segment;
pub mod gc;
pub mod allocation;
pub mod interface;
pub mod laws;
