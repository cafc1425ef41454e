//! A heap of objects addressed by slot, updated by transactions that apply
//! several compare-and-swaps at once (multi-word compare-and-swap through a
//! descriptor), with epoch-based reclamation of the objects they replace.

use vstd::prelude::*;

pub mod arena;
pub mod collector;
pub mod descriptor;
pub mod heap;
pub mod slots;
