//! An Unlimited Register Machine: a program loader that turns text into
//! instructions, and a machine that runs them over unbounded registers.
pub mod machine;
pub mod parser;
pub mod shell;
pub mod text;
