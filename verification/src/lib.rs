//! bit-maze: a tile game whose world is binary.
//!
//! The engine's core is the `.bm` level format ([`format`]): bitplanes for
//! walls, items and hazards, a trigger plane and a table of BitVM scripts
//! ([`vm`]) written in a tiny assembly language ([`assembler`]). A [`World`]
//! plays a level deterministically; runs are recorded as `.rec` replays
//! ([`replay`]) and drawn through 1-bit sprites ([`sprite`], [`framebuffer`]).
pub mod assembler;
pub mod bytes;
pub mod check;
pub mod dump;
pub mod format;
pub mod format_laws;
pub mod framebuffer;
pub mod keys;
pub mod newlevel;
pub mod paint;
pub mod play;
pub mod replay;
pub mod samples;
pub mod sprite;
pub mod text;
pub mod vm;
pub mod vm_laws;
pub mod world;
pub mod world_laws;

pub use format::{BmError, Level, Script};
pub use vm::{Halt, VmHost};
pub use world::{Move, StepResult, World};
