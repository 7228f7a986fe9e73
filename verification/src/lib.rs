//! A decoder for compiled Lua 5.3 chunks and a register machine that runs
//! them. Every function states what it returns and changes, and Verus proves
//! that it does so.
//!
//! The modules, leaves first: `reader` reads bytes, `chunk` decodes the
//! header and the function prototypes, `number`, `value`, `table` and `arith`
//! hold the values and what can be computed with them, `instruction` takes
//! instruction words apart, `state` is the stack of one running function, and
//! `vm` carries the instructions out. `host` says which work on doubles is
//! left to the caller.

pub mod error;
pub mod reader;
pub mod chunk;
pub mod number;
pub mod assoc;
pub mod host;
pub mod value;
pub mod table;
pub mod arith;
pub mod instruction;
pub mod state;
pub mod vm;
