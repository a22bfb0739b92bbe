//! The core of a two-pass assembler for a small fixed-width instruction set:
//! the tokenizer, the groups between labels, the data directive, the label
//! table and the driver of the two passes.

pub mod assemble;
pub mod directive;
pub mod error;
pub mod group;
pub mod label;
pub mod number;
pub mod raw;
pub mod resolve;
pub mod state;
pub mod text;
pub mod token;

pub use assemble::{Assemble, Disassemble};
pub use directive::{parse_bytes_directive, Consumed, DataType, DirectiveError};
pub use error::AssemblyError;
pub use group::{Group, GroupItem, GroupIter};
pub use label::LabelTable;
pub use number::Number;
pub use raw::{Outcome, Raw, Status, MAX_SOURCE};
pub use resolve::{Resolve, Resolver, PLACEHOLDER};
pub use state::Pass;
pub use token::{tokenize, Tokens};
