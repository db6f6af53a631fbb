//! The host/runtime overlay of a create configuration, reduced to what
//! the core decides about: whether an overlay and a restart policy were
//! supplied. Every other overlay field passes through the core untouched,
//! so it is not modelled here.

use vstd::prelude::*;

verus! {

/// A container restart policy, as the runtime understands it.
#[derive(Clone, Copy, Debug, PartialEq, Eq, Structural)]
pub enum RestartPolicy {
    No,
    Always,
    OnFailure,
    UnlessStopped,
}

/// What the core reads of a host/runtime overlay.
#[derive(Clone, Copy, Debug)]
pub struct HostSettings {
    pub restart_policy: Option<RestartPolicy>,
}

/// Merge-with-default-on-absence: an absent overlay is synthesized, and
/// an absent restart policy becomes restart-unless-manually-stopped. An
/// explicitly supplied policy is never overridden.
pub fn merge_host_defaults(host: Option<HostSettings>) -> (r: HostSettings)
    ensures
        r.restart_policy == (match host {
            Some(h) => match h.restart_policy {
                Some(p) => Some(p),
                None => Some(RestartPolicy::UnlessStopped),
            },
            None => Some(RestartPolicy::UnlessStopped),
        }),
{
    match host {
        Some(h) => match h.restart_policy {
            Some(p) => HostSettings { restart_policy: Some(p) },
            None => HostSettings { restart_policy: Some(RestartPolicy::UnlessStopped) },
        },
        None => HostSettings { restart_policy: Some(RestartPolicy::UnlessStopped) },
    }
}

} // verus!
