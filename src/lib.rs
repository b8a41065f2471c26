//! Verified core of a keyed, epoch-ordered stream-processing runtime:
//! the stateful batch operator and the partitioned output operator.

pub mod key;
pub mod keymap;
pub mod time;
pub mod inbuf;
pub mod logic;
pub mod snapshot;
pub mod stateful;
pub mod epochs;
pub mod operator;
pub mod outputs;
pub mod routing;
pub mod laws;
