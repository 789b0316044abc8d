pub mod file_generator;
pub mod text_code_fsa;

pub use file_generator::{escape_default_text, generate_file, generated_lines};
pub use text_code_fsa::{Fragment, Part, TextCodeFSA, TextCodeFSAState, TokenClass};
