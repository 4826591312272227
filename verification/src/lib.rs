//! Decoding of crash dumps in the serial output of ESP chips.
use vstd::prelude::*;

pub mod backtrace_laws;
pub mod call_graph;
pub mod cfi_section;
pub mod cfi_table;
pub mod cfi_unwind;
pub mod code_laws;
pub mod debug_info;
pub mod dump_laws;
pub mod line_endings;
pub mod object_file;
pub mod output;
pub mod parser;
pub mod patterns;
pub mod printer_laws;
pub mod registers;
pub mod resolve_laws;
pub mod resolving_printer;
pub mod riscv;
pub mod scan;
pub mod stack_dump;
pub mod symbol_laws;
pub mod symbols;
pub mod table_laws;
pub mod text;
pub mod text_laws;
pub mod unwind_data;
pub mod unwind_laws;
pub mod utf8_merger;

verus! {

} // verus!
