//! Restores the indentation of blank lines in C# source.
pub mod danger;
pub mod lines;
pub mod syntax;
pub mod trusted;
pub mod fix;
pub mod csharp;
pub mod hook;
pub mod laws;
