//! The connection pool's accounting: a bounded set of live backend
//! connections, the decision each acquisition takes, and the utilization
//! counters.  The pool is the system's only back-pressure mechanism:
//! callers beyond capacity wait for a release rather than being rejected.

use vstd::prelude::*;

verus! {

/// Why the pool could not be built or used.
#[derive(Clone, Copy, PartialEq, Eq, Structural, Debug)]
pub enum PoolError {
    /// The connection string or the size bounds are unusable; fatal at
    /// startup.
    InvalidConfiguration,
    /// The backend could not be reached.
    ConnectionFailure,
}

/// What one acquisition does.
#[derive(Clone, Copy, PartialEq, Eq, Structural, Debug)]
pub enum AcquireAction {
    /// Hand out an idle connection.
    ReuseIdle,
    /// Open a new connection: none is idle and the pool is below its
    /// ceiling.
    OpenNew,
    /// Block until a connection is released: the pool is at its ceiling.
    Wait,
}

/// What the pool is built from.  Whether the connection URL parsed is
/// decided by the driver before the pool exists.
pub struct PoolConfig {
    pub max_size: u32,
    pub min_idle: u32,
    pub url_well_formed: bool,
}

/// A usable configuration: a parsed URL and consistent size bounds.
pub open spec fn config_valid(c: PoolConfig) -> bool {
    c.url_well_formed && c.max_size >= 1 && c.min_idle <= c.max_size
}

/// The pool's accounting: how many connections are idle and in use under
/// a fixed ceiling.
#[derive(Debug)]
pub struct Pool {
    max_size: u32,
    idle: u32,
    in_use: u32,
}

impl Pool {
    /// The configured ceiling.
    pub closed spec fn max_size_spec(self) -> u32 {
        self.max_size
    }

    /// How many connections sit idle.
    pub closed spec fn idle_spec(self) -> u32 {
        self.idle
    }

    /// How many connections are handed out.
    pub closed spec fn in_use_spec(self) -> u32 {
        self.in_use
    }

    /// The pool never holds more connections than its ceiling.
    pub closed spec fn wf(self) -> bool {
        self.idle + self.in_use <= self.max_size
    }

    /// A pool over a configuration; fails fatally, before any connection
    /// is made, on an unusable configuration.  Connections are opened
    /// lazily, so the pool starts empty.
    pub fn new(config: PoolConfig) -> (r: Result<Pool, PoolError>)
        ensures
            match r {
                Ok(p) => config_valid(config) && p.wf() && p.max_size_spec() == config.max_size
                    && p.idle_spec() == 0 && p.in_use_spec() == 0,
                Err(e) => e == PoolError::InvalidConfiguration && !config_valid(config),
            },
    {
        if !config.url_well_formed || config.max_size == 0 || config.min_idle > config.max_size {
            Err(PoolError::InvalidConfiguration)
        } else {
            Ok(Pool { max_size: config.max_size, idle: 0, in_use: 0 })
        }
    }

    /// One acquisition: reuse an idle connection if any, open a new one
    /// below the ceiling, and otherwise wait for a release.
    pub fn acquire(&mut self) -> (a: AcquireAction)
        requires
            old(self).wf(),
        ensures
            final(self).wf(),
            final(self).max_size_spec() == old(self).max_size_spec(),
            match a {
                AcquireAction::ReuseIdle => old(self).idle_spec() > 0 && final(self).idle_spec()
                    == old(self).idle_spec() - 1 && final(self).in_use_spec() == old(
                    self).in_use_spec() + 1,
                AcquireAction::OpenNew => old(self).idle_spec() == 0 && old(self).idle_spec()
                    + old(self).in_use_spec() < old(self).max_size_spec() && final(
                    self).idle_spec() == 0 && final(self).in_use_spec() == old(self).in_use_spec() + 1,
                AcquireAction::Wait => old(self).idle_spec() == 0 && old(self).in_use_spec()
                    == old(self).max_size_spec() && *final(self) == *old(self),
            },
    {
        if self.idle > 0 {
            self.idle = self.idle - 1;
            self.in_use = self.in_use + 1;
            AcquireAction::ReuseIdle
        } else if self.in_use < self.max_size {
            self.in_use = self.in_use + 1;
            AcquireAction::OpenNew
        } else {
            AcquireAction::Wait
        }
    }

    /// One release: the connection returns to the idle set.
    pub fn release(&mut self)
        requires
            old(self).wf(),
            old(self).in_use_spec() > 0,
        ensures
            final(self).wf(),
            final(self).max_size_spec() == old(self).max_size_spec(),
            final(self).in_use_spec() == old(self).in_use_spec() - 1,
            final(self).idle_spec() == old(self).idle_spec() + 1,
    {
        self.in_use = self.in_use - 1;
        self.idle = self.idle + 1;
    }

    /// How many connections are handed out; informational only.
    pub fn used_connections(&self) -> (r: u32)
        ensures
            r == self.in_use_spec(),
    {
        self.in_use
    }

    /// How many connections sit idle; informational only.
    pub fn idle_connections(&self) -> (r: u32)
        ensures
            r == self.idle_spec(),
    {
        self.idle
    }

    /// The configured ceiling.
    pub fn max_size(&self) -> (r: u32)
        ensures
            r == self.max_size_spec(),
    {
        self.max_size
    }
}

} // verus!
