//! Static audit of Linux binaries for privacy-sensitive X11, input and screen
//! capture APIs.
//!
//! [`elf`] parses each object, [`loader`] resolves the `DT_NEEDED` closure
//! inside a bundle the way ld.so would, [`analysis`] matches undefined imports
//! and read-only strings against the [`capdb`] database, and [`scan`] assembles
//! a report that [`diff`] compares and [`output`] renders. [`walk`] lists the
//! files of a bundle, and [`options`] reads the command line.
//!
//! The library touches no file. Where a path has to be opened or a directory
//! listed, it says which one, and the program hands back what is there.
//!
//! Each function states in its contract, over the mathematical models beside
//! it, what it returns. The modules whose names end in `_laws` state what holds
//! of several functions taken together.

pub mod analysis;
pub mod analysis_laws;
pub mod builtin;
pub mod builtin_laws;
pub mod capdb;
pub mod capdb_laws;
pub mod capdb_read_laws;
pub mod comparison_laws;
pub mod diff;
pub mod diff_laws;
pub mod elf;
pub mod elf_append_laws;
pub mod elf_bytes_laws;
pub mod elf_file_laws;
pub mod elf_laws;
pub mod elf_model;
pub mod elf_read_laws;
pub mod evidence_laws;
pub mod json_laws;
pub mod loader;
pub mod loader_laws;
pub mod message_laws;
pub mod options;
pub mod options_laws;
pub mod order;
pub mod output;
pub mod output_laws;
pub mod path_laws;
pub mod paths;
pub mod print_laws;
pub mod print_report_laws;
pub mod report_json_laws;
pub mod report_laws;
pub mod resolve_laws;
pub mod scan;
pub mod scan_laws;
pub mod search_laws;
pub mod sort;
pub mod sort_laws;
pub mod text;
pub mod text_laws;
pub mod textmap;
pub mod view_laws;
pub mod walk;

pub use analysis::{analyze, Confidence, Evidence, ObjectAnalysis};
pub use capdb::{CapDb, Capability, DbError};
pub use diff::{diff, Diff};
pub use elf::{ElfError, ElfFile};
pub use scan::{Finding, Report, Scan, ScanError};
