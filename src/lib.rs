//! Front end for RISC-V assembly: the statement model and its canonical text,
//! string-literal unescaping, the line driver, and the label, reference and
//! data-object analyses.

pub mod model;
pub mod names;
pub mod data_objects;
pub mod unescape;
pub mod analysis;
pub mod lines;
pub mod text;
pub mod format;
pub mod type_processor;
pub mod laws;

pub use model::{Argument, AsmError, Constant, Register, Statement};
pub use analysis::{extract_label_references, extract_labels};
pub use data_objects::extract_data_objects;
pub use format::format_arguments;
pub use lines::{parse_asm, source_lines};
pub use type_processor::TypeProcessor;
pub use unescape::unescape_string;
