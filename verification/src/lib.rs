//! Java generic signatures (class, method and field signatures of the JVM class file
//! format): reading them from text, writing them back, and the laws that relate the two.

pub mod types;
pub mod signature;
mod text;
pub mod grammar;
pub mod parser;
pub mod render;
mod duplicate;
pub mod utf8_facts;
pub mod laws;
pub mod wellformed;
pub mod read_back;
pub mod read_wf;
pub mod str_input;
pub mod window;
