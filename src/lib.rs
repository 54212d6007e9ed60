//! Resolution of command-line options and commands for a market-ticker
//! terminal tool: a sorted glossary of options searched by short form or by
//! unambiguous long-name prefix, and a single left-to-right pass over the
//! argument list that reports what the arguments ask for.
pub mod choice;
pub mod glossary;
pub mod parser;
pub mod stream;
pub mod text;
