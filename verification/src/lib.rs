//! Dynamic-routing core of a reverse proxy: a directory of per-host route
//! entries, populated from static configuration and a control-plane event
//! stream, with backend health tracked by a periodic monitor.

use vstd::prelude::*;

pub mod addr;
pub mod backend;
pub mod directory;
pub mod discovery;
pub mod headers;
pub mod health;
pub mod route;

verus! {

/// View of a list of strings.
pub open spec fn strs_model(v: Seq<String>) -> Seq<Seq<char>> {
    v.map_values(|s: String| s@)
}

/// View of a list of name/value string pairs.
pub open spec fn pairs_model(v: Seq<(String, String)>) -> Seq<(Seq<char>, Seq<char>)> {
    v.map_values(|p: (String, String)| (p.0@, p.1@))
}

/// Copies a list of strings.
pub fn clone_strings(v: &Vec<String>) -> (r: Vec<String>)
    ensures
        strs_model(r@) == strs_model(v@),
{
    let mut r: Vec<String> = Vec::new();
    let mut i: usize = 0;
    while i < v.len()
        invariant
            i <= v@.len(),
            r@.len() == i,
            forall|k: int| 0 <= k < i ==> (#[trigger] r@[k])@ == v@[k]@,
        decreases v@.len() - i,
    {
        r.push(v[i].clone());
        i += 1;
    }
    proof {
        assert(strs_model(r@) =~= strs_model(v@));
    }
    r
}

/// Copies a list of name/value string pairs.
pub fn clone_pairs(v: &Vec<(String, String)>) -> (r: Vec<(String, String)>)
    ensures
        pairs_model(r@) == pairs_model(v@),
{
    let mut r: Vec<(String, String)> = Vec::new();
    let mut i: usize = 0;
    while i < v.len()
        invariant
            i <= v@.len(),
            r@.len() == i,
            forall|k: int|
                0 <= k < i ==> (#[trigger] r@[k]).0@ == v@[k].0@ && r@[k].1@ == v@[k].1@,
        decreases v@.len() - i,
    {
        r.push((v[i].0.clone(), v[i].1.clone()));
        i += 1;
    }
    proof {
        assert(pairs_model(r@) =~= pairs_model(v@));
    }
    r
}

/// Liveness of one backend endpoint. A backend starts as `Unknown`, which is
/// treated as eligible for selection until the first probe completes.
#[derive(Clone, Copy, PartialEq, Eq, Structural, Debug)]
pub enum Health {
    Unknown,
    Healthy,
    Unhealthy,
}

impl Health {
    /// A backend is eligible for selection unless a probe has marked it down.
    pub open spec fn spec_eligible(self) -> bool {
        self != Health::Unhealthy
    }

    /// Executable form of `spec_eligible`.
    pub fn eligible(self) -> (r: bool)
        ensures
            r == self.spec_eligible(),
    {
        match self {
            Health::Unhealthy => false,
            _ => true,
        }
    }
}

} // verus!
