//! Per-crate sandbox resource limits: fixed defaults, overridden field by
//! field by a package's sandbox-override row in the catalog.

use crate::catalog::{has_override_named, override_named, Catalog, OverrideRow};
use vstd::prelude::*;

verus! {

/// The resource limits one documentation build runs under.
#[derive(Clone, Copy, PartialEq, Eq, Structural, Debug)]
pub struct Limits {
    pub memory: u64,
    pub targets: u64,
    pub timeout_seconds: u64,
    pub networking: bool,
    pub max_log_size: u64,
}

/// The limits of a crate without an override row: 3 GiB of memory, a
/// 15-minute timeout, ten targets, no networking, 100 KiB of log.
pub open spec fn default_limits() -> Limits {
    Limits {
        memory: 3221225472,
        targets: 10,
        timeout_seconds: 900,
        networking: false,
        max_log_size: 102400,
    }
}

/// The defaults overridden field by field: memory and timeout directly;
/// targets directly, or down to one when only a timeout was overridden.
pub open spec fn with_override(base: Limits, o: OverrideRow) -> Limits {
    Limits {
        memory: match o.max_memory_bytes {
            Some(m) => m,
            None => base.memory,
        },
        timeout_seconds: match o.timeout_seconds {
            Some(s) => s,
            None => base.timeout_seconds,
        },
        targets: match o.max_targets {
            Some(v) => v,
            None => if o.timeout_seconds is Some {
                1
            } else {
                base.targets
            },
        },
        networking: base.networking,
        max_log_size: base.max_log_size,
    }
}

/// The limits the catalog assigns to this crate name.
pub open spec fn limits_for(overrides: Seq<OverrideRow>, name: Seq<char>) -> Limits {
    if has_override_named(overrides, name) {
        with_override(default_limits(), override_named(overrides, name))
    } else {
        default_limits()
    }
}

impl Default for Limits {
    /// The fixed defaults.
    fn default() -> (r: Limits)
        ensures
            r == default_limits(),
    {
        Limits {
            memory: 3221225472,
            targets: 10,
            timeout_seconds: 900,
            networking: false,
            max_log_size: 102400,
        }
    }
}

impl Limits {
    /// The limits for one crate: the defaults, overridden field by field
    /// by the crate's sandbox-override row if the catalog holds one.
    pub fn for_crate(catalog: &Catalog, name: &str) -> (r: Limits)
        requires
            catalog.wf(),
        ensures
            r == limits_for(catalog.sandbox_overrides(), name@),
    {
        let limits = Limits::default();
        match catalog.sandbox_override_for(name) {
            None => limits,
            Some(o) => {
                let memory = match o.max_memory_bytes {
                    Some(m) => m,
                    None => limits.memory,
                };
                let timeout_seconds = match o.timeout_seconds {
                    Some(s) => s,
                    None => limits.timeout_seconds,
                };
                let targets = match o.max_targets {
                    Some(v) => v,
                    None => if o.timeout_seconds.is_some() {
                        1
                    } else {
                        limits.targets
                    },
                };
                Limits {
                    memory,
                    targets,
                    timeout_seconds,
                    networking: limits.networking,
                    max_log_size: limits.max_log_size,
                }
            },
        }
    }

    /// The memory ceiling, in bytes.
    pub fn memory(&self) -> (r: u64)
        ensures
            r == self.memory,
    {
        self.memory
    }

    /// The build timeout, in seconds.
    pub fn timeout(&self) -> (r: u64)
        ensures
            r == self.timeout_seconds,
    {
        self.timeout_seconds
    }

    /// Whether the build may reach the network.
    pub fn networking(&self) -> (r: bool)
        ensures
            r == self.networking,
    {
        self.networking
    }

    /// The log-size ceiling, in bytes.
    pub fn max_log_size(&self) -> (r: u64)
        ensures
            r == self.max_log_size,
    {
        self.max_log_size
    }

    /// How many targets are documented.
    pub fn targets(&self) -> (r: u64)
        ensures
            r == self.targets,
    {
        self.targets
    }
}

} // verus!
