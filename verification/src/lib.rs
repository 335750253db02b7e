pub mod val;
pub mod parser;
pub mod machine;
pub mod eval;
pub mod builtins;
pub mod analysis;
pub mod laws;
pub mod show;
pub mod word_laws;
