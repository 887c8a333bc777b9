//! A compiler from device tree source text to the flattened device tree
//! blob: a source parser, a label manager, and the writer of the blob.
pub mod bytes;
pub mod dtb;
pub mod generate;
pub mod label;
pub mod tree_labels;
pub mod number;
pub mod parser;
pub mod table;

pub use generate::{create_dtb, create_mmap, DtbMmap, FdtHeader};
pub use tree_labels::LabelManager;
pub use parser::{make_tree, DtsError, FdtTokenKind, Token};
