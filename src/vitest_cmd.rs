//! The Vitest subcommands.
use vstd::prelude::*;

verus! {

/// The Vitest subcommands whose output is condensed.
#[derive(Debug, Clone, Copy, PartialEq, Eq, Structural)]
pub enum VitestCommand {
    Run,
}

} // verus!
