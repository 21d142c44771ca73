//! Compiler for a line-oriented branching-dialogue script format.
//!
//! A script is a sequence of lines: prose, choices (`+ [prompt] -> target`),
//! labels (`=== name`), and end markers (`-> END`). The compiler serializes
//! the lines into one linear byte stream in which every choice carries a
//! fixed-width 5-digit decimal field holding the absolute byte offset of its
//! target label, filled in by a backpatch pass once all labels are known.

pub mod ascii;
pub mod bytestr;
pub mod choice;
pub mod emit;
pub mod line;
pub mod patch;
pub mod reader;
pub mod table;
pub mod writer;

pub use choice::Question;
pub use line::Line;
pub use line::LineType;
pub use reader::Reader;
pub use table::BranchTable;
pub use table::SymbolTable;
pub use writer::ParseError;
pub use writer::PatchError;
pub use writer::Writer;
