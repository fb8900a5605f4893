//! Dynamic-linking ABI surface of ELF binaries: what a binary imports, what it
//! exports and which shared objects it depends on, together with a report that
//! cross-references many such captures.

pub mod byte_order;
pub mod capture;
pub mod extract;
pub mod index_order;
pub mod laws;
pub mod linkage;
pub mod natural;
pub mod report;
pub mod tables;

pub use capture::{AbiCapture, CaptureError, ElfKind};
pub use extract::{load_tables, parse_elf, parse_elf_or_static};
pub use report::{AbiReport, AggregationError};
