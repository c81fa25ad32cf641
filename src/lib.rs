//! An EVM execution environment over a host account store: the account
//! header layout, the storage trie kept inside an account blob, the
//! instruction and call-hook wire formats, and the frame-stack machine that
//! drives the interpreter.

pub mod bytes;
pub mod error;
pub mod layout;
pub mod instruction;
pub mod exit;
pub mod cpi;
pub mod hamt;
pub mod crypto;
pub mod account;
pub mod backend;
pub mod state;
pub mod executor;
pub mod machine;
pub mod emulator;
pub mod processor;
pub mod persist;
