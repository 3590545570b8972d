//! The health monitor: keeping backend health flags current.
//!
//! On a fixed cadence the surrounding process walks a snapshot of the
//! directory's hosts and, per host, refreshes the backend membership
//! (discarding any error) and forces a probe pass over the pool. The
//! functions here apply those outcomes to the directory: they mutate health
//! state inside one host's backend set and nothing else, and tolerate the
//! entry having been replaced (or removed) underneath the monitor between
//! the snapshot and the pass.

use vstd::prelude::*;

verus! {

use crate::addr::AddrModel;
use crate::addr::UpstreamAddr;
use crate::backend::probed_backends;
use crate::backend::refreshed_backends;
use crate::directory::RouteDirectory;
use crate::route::EntryModel;

/// Seconds between two health passes over the directory.
pub const HEALTH_CHECK_INTERVAL_SECS: u64 = 20;

/// The entry after one forced probe pass over its pool.
pub open spec fn probed_entry(e: EntryModel, rs: Seq<bool>) -> EntryModel {
    EntryModel { backends: probed_backends(e.backends, rs), ..e }
}

pub open spec fn refresh_opt_model(r: Option<Vec<UpstreamAddr>>) -> Option<Seq<AddrModel>> {
    match r {
        None => None,
        Some(v) => Some(crate::backend::addrs_model(v@)),
    }
}

/// The entry after one membership refresh: a failed refresh (`None`) leaves
/// it untouched; a successful one replaces the membership, carrying over the
/// health flags of addresses already present.
pub open spec fn refreshed_entry(e: EntryModel, refreshed: Option<Seq<AddrModel>>) -> EntryModel {
    match refreshed {
        None => e,
        Some(addrs) => EntryModel {
            backends: refreshed_backends(e.backends, addrs),
            cursor: 0,
            ..e
        },
    }
}

/// The periodic health monitor.
pub struct HealthService {}

impl HealthService {
    pub fn new() -> (s: HealthService) {
        HealthService {}
    }

    /// Applies one forced probe pass for one host: backend `i` of that host's
    /// pool is marked healthy exactly when `results[i]` reports the probe
    /// reached it. No other host's entry is touched. Returns false — and
    /// leaves the directory unchanged — when the host is no longer routed or
    /// the pool no longer matches the probed membership, as happens when
    /// discovery replaced the entry underneath the monitor.
    pub fn apply_probe_results(
        &self,
        dir: &mut RouteDirectory,
        host: &String,
        results: &Vec<bool>,
    ) -> (r: bool)
        requires
            old(dir).wf(),
        ensures
            final(dir).wf(),
            old(dir)@.contains_key(host@) && results@.len() == old(dir)@[host@].backends.len()
                ==> r && final(dir)@ == old(dir)@.insert(
                host@,
                probed_entry(old(dir)@[host@], results@),
            ),
            !(old(dir)@.contains_key(host@) && results@.len()
                == old(dir)@[host@].backends.len()) ==> !r && final(dir)@ == old(dir)@,
    {
        let e = match dir.get(host) {
            None => {
                return false;
            },
            Some(e) => e,
        };
        if e.backends.len() != results.len() {
            return false;
        }
        let mut ne = e.clone();
        ne.backends.apply_probe_results(results);
        proof {
            assert(ne@ == probed_entry(old(dir)@[host@], results@));
        }
        dir.upsert(ne);
        true
    }

    /// Applies one membership refresh for one host; a refresh error (`None`)
    /// keeps the existing pool rather than emptying it. No other host's entry
    /// is touched. Returns false when the host is no longer routed.
    pub fn apply_refresh(
        &self,
        dir: &mut RouteDirectory,
        host: &String,
        refreshed: &Option<Vec<UpstreamAddr>>,
    ) -> (r: bool)
        requires
            old(dir).wf(),
        ensures
            final(dir).wf(),
            old(dir)@.contains_key(host@) ==> r && final(dir)@ == old(dir)@.insert(
                host@,
                refreshed_entry(old(dir)@[host@], refresh_opt_model(*refreshed)),
            ),
            !old(dir)@.contains_key(host@) ==> !r && final(dir)@ == old(dir)@,
    {
        let e = match dir.get(host) {
            None => {
                return false;
            },
            Some(e) => e,
        };
        let mut ne = e.clone();
        ne.backends.refresh_membership(refreshed);
        proof {
            assert(ne@ == refreshed_entry(old(dir)@[host@], refresh_opt_model(*refreshed)));
        }
        dir.upsert(ne);
        true
    }
}

} // verus!
