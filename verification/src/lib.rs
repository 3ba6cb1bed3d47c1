//! Memory management and window messaging of the Aether kernel.
//!
//! Every piece of kernel-global state is an ordinary value here: the functions
//! take the tables they work on as arguments, so that each contract says what a
//! call does to them.
pub mod mm;
pub mod msg;
pub mod proc;
