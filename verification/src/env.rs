//! What the host platform can do.

use vstd::prelude::*;

verus! {

/// What a host environment guarantees.
///
/// The database keeps working on a host that lacks one of these, but the
/// guarantee is narrower there, and this is where it says so.
#[derive(Debug, Clone, Copy, PartialEq, Eq, Structural)]
pub struct Capabilities {
    /// The host can start background threads.
    pub threads: bool,
    /// A sync makes what was written durable.
    pub durable_sync: bool,
}

/// A host environment: its name, and what it can do.
#[derive(Debug, Clone, Copy)]
pub struct Env {
    pub name: &'static str,
    pub capabilities: Capabilities,
    /// The host has a monotonic clock. Without one, nothing is timed.
    pub monotonic_clock: bool,
}

impl Env {
    /// What the environment can do.
    pub fn capabilities(&self) -> (r: Capabilities)
        ensures
            r == self.capabilities,
    {
        self.capabilities
    }
}

/// An operating system's own environment, which can do everything.
pub open spec fn is_std_env(env: Env) -> bool {
    &&& env.name@ == "StdEnv"@
    &&& env.capabilities == (Capabilities { threads: true, durable_sync: true })
    &&& env.monotonic_clock
}

/// The in-memory environment, which can do none of it.
pub open spec fn is_mem_env(env: Env) -> bool {
    &&& env.name@ == "MemEnv"@
    &&& env.capabilities == (Capabilities { threads: false, durable_sync: false })
    &&& !env.monotonic_clock
}

/// The environment of an ordinary operating system, which can do
/// everything.
pub fn std_env() -> (r: Env)
    ensures
        is_std_env(r),
{
    Env {
        name: "StdEnv",
        capabilities: Capabilities { threads: true, durable_sync: true },
        monotonic_clock: true,
    }
}

/// An environment that keeps everything in memory: it starts no threads,
/// nothing it syncs outlives the process, and it has no clock.
pub fn mem_env() -> (r: Env)
    ensures
        is_mem_env(r),
{
    Env {
        name: "MemEnv",
        capabilities: Capabilities { threads: false, durable_sync: false },
        monotonic_clock: false,
    }
}

} // verus!
