//! An interpreter for a small Logo dialect.
//!
//! A program is a list of commands, one per line, each a list of
//! whitespace-separated tokens. The engine validates a command, substitutes
//! variables and turtle queries into its arguments, reduces an embedded prefix
//! expression, and then carries out the command: it moves the program counter
//! through blocks, loops and procedure calls and updates the turtle.
//!
//! Values are text throughout. Whatever needs real-number arithmetic or the
//! drawing surface is asked of the caller as a [`expression::Request`]; the
//! caller hands the answers back and the engine goes on from there.

pub mod command;
pub mod error;
pub mod expression;
pub mod interpreter;
pub mod text;
pub mod turtle;
pub mod variables;
