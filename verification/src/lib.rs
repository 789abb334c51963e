//! An Objective-J compiler, assembler and method tree-shaker, with its
//! lexer, preprocessor and analyses verified.
pub mod analyzer;
pub mod assembler;
pub mod buffer;
pub mod classes;
pub mod compiler;
pub mod expr;
pub mod lexer;
pub mod paths;
pub mod scan;
pub mod tables;
pub mod text;
