//! The memory manager, the network stack and the boot parsers of a small
//! kernel, written as values and transitions and proved against contracts.
//!
//! Nothing here touches hardware. Registers, clocks, random numbers and cards
//! are arguments; what has to be sent, written or flushed is a result. The
//! code around the library performs it.

pub mod boot_laws;
pub mod bytes;
pub mod device_tree;
pub mod errno;
pub mod mm;
pub mod mmc;
pub mod multiboot;
pub mod net;
pub mod text;
