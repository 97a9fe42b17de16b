//! A stack-based bytecode virtual machine with lexical closures, a
//! mark-sweep collected object heap, and a compiler from a resolved
//! expression tree to its bytecode.

pub mod value;
pub mod chunk;
pub mod object;
pub mod frame;
pub mod heap;
pub mod globals;
pub mod compiler;
pub mod vm;
