//! Block-versioning core of a method JIT: type contexts, code buffers, the
//! version table of compiled blocks and the tracker that invalidates blocks
//! when a runtime assumption they rely on stops holding.
use vstd::prelude::*;

pub mod codebuf;
pub mod codegen;
pub mod context;
pub mod cruby;
pub mod block;
pub mod branch;
pub mod invariants;
pub mod options;
pub mod stats;
pub mod utils;
