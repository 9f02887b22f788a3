pub mod ast;
pub mod tokenizer;
pub mod parser;
pub mod codegen;
pub mod compiler;
pub mod machine;
pub mod laws;
