//! Backends and backend sets.
//!
//! A backend is one upstream endpoint plus its health flag; its identity is
//! the address alone, so set-diffing and duplicate removal compare addresses
//! and ignore health. A backend set is one virtual host's pool of backends
//! together with a round-robin selection cursor. A set is built fresh whenever
//! the declared membership changes; health flags are mutated in place by the
//! health monitor.

use vstd::prelude::*;

verus! {

use crate::Health;
use crate::addr::AddrModel;
use crate::addr::UpstreamAddr;
use crate::addr::addr_eq;

/// Mathematical value of one backend.
pub ghost struct BackendModel {
    pub addr: AddrModel,
    pub health: Health,
}

/// One upstream endpoint with its current health flag.
pub struct Backend {
    pub addr: UpstreamAddr,
    pub health: Health,
}

impl View for Backend {
    type V = BackendModel;

    open spec fn view(&self) -> BackendModel {
        BackendModel { addr: self.addr@, health: self.health }
    }
}

impl Clone for Backend {
    fn clone(&self) -> (r: Self)
        ensures
            r@ == self@,
    {
        Backend { addr: self.addr.clone(), health: self.health }
    }
}

pub open spec fn backends_model(v: Seq<Backend>) -> Seq<BackendModel> {
    v.map_values(|b: Backend| b@)
}

pub open spec fn addrs_model(v: Seq<UpstreamAddr>) -> Seq<AddrModel> {
    v.map_values(|a: UpstreamAddr| a@)
}

pub open spec fn addrs_of(bs: Seq<BackendModel>) -> Seq<AddrModel> {
    bs.map_values(|b: BackendModel| b.addr)
}

/// No two backends share an address.
pub open spec fn unique_addrs(bs: Seq<BackendModel>) -> bool {
    forall|i: int, j: int|
        0 <= i < j < bs.len() ==> (#[trigger] bs[i]).addr != (#[trigger] bs[j]).addr
}

/// Address list with duplicates removed, keeping each first occurrence.
pub open spec fn dedup_addrs(s: Seq<AddrModel>) -> Seq<AddrModel>
    decreases s.len(),
{
    if s.len() == 0 {
        Seq::empty()
    } else {
        let d = dedup_addrs(s.drop_last());
        if d.contains(s.last()) {
            d
        } else {
            d.push(s.last())
        }
    }
}

pub proof fn lemma_dedup_addrs(s: Seq<AddrModel>)
    ensures
        forall|a: AddrModel| #[trigger] dedup_addrs(s).contains(a) <==> s.contains(a),
        dedup_addrs(s).len() <= s.len(),
        forall|i: int, j: int|
            0 <= i < j < dedup_addrs(s).len() ==> dedup_addrs(s)[i] != dedup_addrs(s)[j],
    decreases s.len(),
{
    if s.len() == 0 {
        assert forall|a: AddrModel| #[trigger] dedup_addrs(s).contains(a) <==> s.contains(
            a,
        ) by {
            if s.contains(a) {
                let i = choose|i: int| 0 <= i < s.len() && s[i] == a;
                assert(false);
            }
        }
    } else {
        let t = s.drop_last();
        lemma_dedup_addrs(t);
        assert forall|a: AddrModel| #[trigger] dedup_addrs(s).contains(a) <==> s.contains(
            a,
        ) by {
            if dedup_addrs(s).contains(a) {
                let i = choose|i: int| 0 <= i < dedup_addrs(s).len() && dedup_addrs(s)[i] == a;
                if dedup_addrs(t).contains(s.last()) || i < dedup_addrs(t).len() {
                    assert(dedup_addrs(t).contains(a));
                    let j = choose|j: int| 0 <= j < t.len() && t[j] == a;
                    assert(s[j] == a);
                    assert(s.contains(a));
                } else {
                    assert(a == s.last());
                    assert(s[s.len() - 1] == a);
                    assert(s.contains(a));
                }
            }
            if s.contains(a) {
                let i = choose|i: int| 0 <= i < s.len() && s[i] == a;
                if i < s.len() - 1 {
                    assert(t[i] == a);
                    assert(t.contains(a));
                    assert(dedup_addrs(t).contains(a));
                    let j = choose|j: int|
                        0 <= j < dedup_addrs(t).len() && dedup_addrs(t)[j] == a;
                    assert(dedup_addrs(s)[j] == a);
                    assert(dedup_addrs(s).contains(a));
                } else {
                    assert(a == s.last());
                    if dedup_addrs(t).contains(a) {
                        let j = choose|j: int|
                            0 <= j < dedup_addrs(t).len() && dedup_addrs(t)[j] == a;
                        assert(dedup_addrs(s)[j] == a);
                        assert(dedup_addrs(s).contains(a));
                    } else {
                        assert(dedup_addrs(s).last() == a);
                        assert(dedup_addrs(s).contains(a));
                    }
                }
            }
        }
        assert forall|i: int, j: int|
            0 <= i < j < dedup_addrs(s).len() implies dedup_addrs(s)[i] != dedup_addrs(s)[j] by {
            if !dedup_addrs(t).contains(s.last()) && j == dedup_addrs(s).len() - 1 {
                assert(dedup_addrs(s)[j] == s.last());
                assert(dedup_addrs(s)[i] == dedup_addrs(t)[i]);
                if dedup_addrs(t)[i] == s.last() {
                    assert(dedup_addrs(t).contains(s.last()));
                }
            }
        }
    }
}

/// A fresh pool built from declared addresses: duplicates dropped, every
/// backend starting with unknown health.
pub open spec fn fresh_backends(addrs: Seq<AddrModel>) -> Seq<BackendModel> {
    dedup_addrs(addrs).map_values(|a: AddrModel| BackendModel { addr: a, health: Health::Unknown })
}

pub proof fn lemma_fresh_backends(addrs: Seq<AddrModel>)
    ensures
        fresh_backends(addrs).len() == dedup_addrs(addrs).len(),
        forall|i: int|
            0 <= i < fresh_backends(addrs).len() ==> #[trigger] fresh_backends(addrs)[i]
                == (BackendModel { addr: dedup_addrs(addrs)[i], health: Health::Unknown }),
        addrs_of(fresh_backends(addrs)) =~= dedup_addrs(addrs),
        unique_addrs(fresh_backends(addrs)),
{
    lemma_dedup_addrs(addrs);
}

/// Mathematical value of a backend set: the pool plus the round-robin cursor.
pub ghost struct BackendSetModel {
    pub backends: Seq<BackendModel>,
    pub cursor: int,
}

/// One virtual host's pool of backends with a round-robin selection cursor.
pub struct BackendSet {
    pub backends: Vec<Backend>,
    pub cursor: usize,
}

impl View for BackendSet {
    type V = BackendSetModel;

    open spec fn view(&self) -> BackendSetModel {
        BackendSetModel { backends: backends_model(self.backends@), cursor: self.cursor as int }
    }
}

impl Clone for BackendSet {
    fn clone(&self) -> (r: Self)
        ensures
            r@ == self@,
    {
        let mut out: Vec<Backend> = Vec::new();
        let mut i: usize = 0;
        while i < self.backends.len()
            invariant
                i <= self.backends.len(),
                out@.len() == i,
                forall|k: int| 0 <= k < i ==> out@[k]@ == self.backends@[k]@,
            decreases self.backends.len() - i,
        {
            out.push(self.backends[i].clone());
            i += 1;
        }
        let r = BackendSet { backends: out, cursor: self.cursor };
        proof {
            assert(backends_model(r.backends@) =~= backends_model(self.backends@));
        }
        r
    }
}

/// Whether some backend in `v` has address `a`.
pub fn contains_addr(v: &Vec<Backend>, a: &UpstreamAddr) -> (r: bool)
    ensures
        r == addrs_of(backends_model(v@)).contains(a@),
{
    let mut j: usize = 0;
    while j < v.len()
        invariant
            j <= v.len(),
            forall|k: int| 0 <= k < j ==> v@[k]@.addr != a@,
        decreases v.len() - j,
    {
        if addr_eq(&v[j].addr, a) {
            proof {
                assert(addrs_of(backends_model(v@))[j as int] == a@);
            }
            return true;
        }
        j += 1;
    }
    proof {
        if addrs_of(backends_model(v@)).contains(a@) {
            let k = choose|k: int|
                0 <= k < addrs_of(backends_model(v@)).len() && addrs_of(backends_model(v@))[k]
                    == a@;
            assert(v@[k]@.addr == a@);
        }
    }
    false
}

impl BackendSet {
    /// Well-formed: addresses unique, cursor inside the pool (or zero when empty).
    pub open spec fn wf(self) -> bool {
        &&& unique_addrs(self@.backends)
        &&& self@.backends.len() == 0 ==> self@.cursor == 0
        &&& self@.backends.len() > 0 ==> 0 <= self@.cursor < self@.backends.len()
    }

    /// Builds a fresh set from declared addresses.
    #[verifier::loop_isolation(false)]
    pub fn new(addrs: &Vec<UpstreamAddr>) -> (r: BackendSet)
        ensures
            r.wf(),
            r@.backends == fresh_backends(addrs_model(addrs@)),
            r@.cursor == 0,
    {
        let mut out: Vec<Backend> = Vec::new();
        let mut i: usize = 0;
        while i < addrs.len()
            invariant
                i <= addrs.len(),
                backends_model(out@) == fresh_backends(addrs_model(addrs@.take(i as int))),
            decreases addrs.len() - i,
        {
            let ghost t = addrs_model(addrs@.take(i as int));
            let ghost t2 = addrs_model(addrs@.take(i + 1));
            proof {
                assert(t2 =~= t.push(addrs@[i as int]@));
                lemma_dedup_addrs(t);
                lemma_fresh_backends(t);
                lemma_fresh_backends(t2);
                assert(dedup_addrs(t2.drop_last()) =~= dedup_addrs(t)) by {
                    assert(t2.drop_last() =~= t);
                }
            }
            let a = &addrs[i];
            if !contains_addr(&out, a) {
                out.push(Backend { addr: a.clone(), health: Health::Unknown });
                proof {
                    assert(!dedup_addrs(t).contains(a@)) by {
                        if dedup_addrs(t).contains(a@) {
                            let k = choose|k: int|
                                0 <= k < dedup_addrs(t).len() && dedup_addrs(t)[k] == a@;
                            assert(addrs_of(fresh_backends(t))[k] == a@);
                            assert(addrs_of(fresh_backends(t)).contains(a@));
                        }
                    }
                    assert(dedup_addrs(t2) =~= dedup_addrs(t).push(a@));
                    assert(backends_model(out@) =~= fresh_backends(t2));
                }
            } else {
                proof {
                    assert(dedup_addrs(t).contains(a@)) by {
                        let k = choose|k: int|
                            0 <= k < addrs_of(fresh_backends(t)).len() && addrs_of(
                                fresh_backends(t),
                            )[k] == a@;
                        assert(dedup_addrs(t)[k] == a@);
                    }
                    assert(dedup_addrs(t2) =~= dedup_addrs(t));
                    assert(backends_model(out@) =~= fresh_backends(t2));
                }
            }
            i += 1;
        }
        proof {
            assert(addrs@.take(addrs@.len() as int) =~= addrs@);
            lemma_fresh_backends(addrs_model(addrs@));
        }
        BackendSet { backends: out, cursor: 0 }
    }

    /// How many backends the pool holds.
    pub fn len(&self) -> (r: usize)
        ensures
            r == self@.backends.len(),
    {
        self.backends.len()
    }
}

/// The pool after one forced probe pass: addresses kept, each health flag set
/// from the probe outcome for that backend.
pub open spec fn probed_backends(bs: Seq<BackendModel>, rs: Seq<bool>) -> Seq<BackendModel> {
    Seq::new(
        bs.len(),
        |i: int|
            BackendModel {
                addr: bs[i].addr,
                health: if rs[i] {
                    Health::Healthy
                } else {
                    Health::Unhealthy
                },
            },
    )
}

impl BackendSet {
    /// Applies the outcome of one probe pass: backend `i` is marked healthy
    /// exactly when `results[i]` reports the probe reached it. Membership and
    /// the cursor are untouched.
    #[verifier::loop_isolation(false)]
    pub fn apply_probe_results(&mut self, results: &Vec<bool>)
        requires
            old(self).wf(),
            results@.len() == old(self)@.backends.len(),
        ensures
            final(self).wf(),
            final(self)@.backends == probed_backends(old(self)@.backends, results@),
            final(self)@.cursor == old(self)@.cursor,
    {
        let n = self.backends.len();
        let mut i: usize = 0;
        while i < n
            invariant
                i <= n,
                n == self.backends@.len(),
                self.cursor == old(self).cursor,
                forall|k: int|
                    i <= k < n ==> self.backends@[k]@ == old(self)@.backends[k],
                forall|k: int|
                    0 <= k < i ==> self.backends@[k]@ == probed_backends(
                        old(self)@.backends,
                        results@,
                    )[k],
            decreases n - i,
        {
            let h = if results[i] {
                Health::Healthy
            } else {
                Health::Unhealthy
            };
            let a = self.backends[i].addr.clone();
            self.backends[i] = Backend { addr: a, health: h };
            i += 1;
        }
        proof {
            assert(final(self)@.backends =~= probed_backends(old(self)@.backends, results@));
            assert(unique_addrs(final(self)@.backends)) by {
                let fb = final(self)@.backends;
                assert(forall|k: int|
                    0 <= k < fb.len() ==> (#[trigger] fb[k]).addr == old(self)@.backends[k].addr);
            }
        }
    }
}

pub open spec fn eligible(b: BackendModel) -> bool {
    b.health.spec_eligible()
}

/// First eligible index at or after `start` (wrapping around the pool),
/// looking at most `k` positions ahead.
pub open spec fn first_eligible(bs: Seq<BackendModel>, start: int, k: nat) -> Option<int>
    recommends
        bs.len() > 0,
    decreases k,
{
    if k == 0 {
        None
    } else {
        let i = start % (bs.len() as int);
        if eligible(bs[i]) {
            Some(i)
        } else {
            first_eligible(bs, start + 1, (k - 1) as nat)
        }
    }
}

/// The index round-robin selection picks: the first backend at or after the
/// cursor that is not marked unhealthy; when every backend is marked
/// unhealthy, the pool falls back to treating all as eligible and the cursor
/// position itself is picked.
pub open spec fn chosen_index(m: BackendSetModel) -> int {
    match first_eligible(m.backends, m.cursor, m.backends.len() as nat) {
        Some(i) => i,
        None => m.cursor,
    }
}

impl BackendSet {
    /// Deterministic round-robin selection over the currently-eligible
    /// backends. Returns the chosen backend's address and advances the cursor
    /// past it; `None` only when the pool is empty.
    #[verifier::loop_isolation(false)]
    pub fn select(&mut self) -> (r: Option<UpstreamAddr>)
        requires
            old(self).wf(),
        ensures
            final(self).wf(),
            final(self)@.backends == old(self)@.backends,
            old(self)@.backends.len() == 0 ==> r is None && final(self)@ == old(self)@,
            old(self)@.backends.len() > 0 ==> r is Some && r->0@ == old(self)@.backends[
                chosen_index(old(self)@)
            ].addr && final(self)@.cursor == (chosen_index(old(self)@) + 1) % (old(
                self,
            )@.backends.len() as int),
    {
        let n = self.backends.len();
        if n == 0 {
            return None;
        }
        let ghost bs = self@.backends;
        let ghost c0 = self.cursor as int;
        let mut k: usize = 0;
        let mut idx: usize = self.cursor;
        let mut sel: usize = self.cursor;
        let mut any = false;
        proof {
            assert(c0 % (n as int) == c0) by (nonlinear_arith)
                requires
                    0 <= c0 < n,
            ;
        }
        while k < n && !any
            invariant
                k <= n,
                0 <= idx < n,
                sel < n,
                !any ==> sel as int == c0,
                !any ==> idx as int == (c0 + k as int) % (n as int),
                !any ==> first_eligible(bs, c0, n as nat) == first_eligible(
                    bs,
                    c0 + k as int,
                    (n - k) as nat,
                ),
                any ==> first_eligible(bs, c0, n as nat) == Some(sel as int),
            decreases n - k, (if any {
                0int
            } else {
                1int
            }),
        {
            if self.backends[idx].health.eligible() {
                sel = idx;
                any = true;
                proof {
                    assert(first_eligible(bs, c0 + k as int, (n - k) as nat) == Some(idx as int));
                }
            } else {
                proof {
                    assert(first_eligible(bs, c0 + k as int, (n - k) as nat) == first_eligible(
                        bs,
                        c0 + k as int + 1,
                        (n - k - 1) as nat,
                    ));
                    if idx + 1 == n {
                        assert((c0 + k as int + 1) % (n as int) == 0) by (nonlinear_arith)
                            requires
                                0 < n,
                                (c0 + k as int) % (n as int) == n - 1,
                        ;
                    } else {
                        assert((c0 + k as int + 1) % (n as int) == idx as int + 1)
                            by (nonlinear_arith)
                            requires
                                0 < n,
                                (c0 + k as int) % (n as int) == idx as int,
                                idx as int + 1 < n,
                        ;
                    }
                }
                idx = if idx + 1 == n {
                    0
                } else {
                    idx + 1
                };
                k += 1;
            }
        }
        proof {
            if !any {
                assert(first_eligible(bs, c0 + n as int, 0nat) is None);
                assert(chosen_index(old(self)@) == c0);
            } else {
                assert(chosen_index(old(self)@) == sel as int);
            }
            assert(sel as int == chosen_index(old(self)@));
        }
        let r = Some(self.backends[sel].addr.clone());
        let next = if sel + 1 == n {
            0
        } else {
            sel + 1
        };
        proof {
            if sel + 1 == n {
                assert((sel as int + 1) % (n as int) == 0) by (nonlinear_arith)
                    requires
                        0 < n,
                        sel as int + 1 == n,
                ;
            } else {
                assert((sel as int + 1) % (n as int) == sel as int + 1) by (nonlinear_arith)
                    requires
                        0 <= sel as int + 1 < n,
                ;
            }
        }
        self.cursor = next;
        r
    }
}

/// Health flag the old pool records for address `a`; unknown when absent.
pub open spec fn lookup_health(bs: Seq<BackendModel>, a: AddrModel) -> Health
    decreases bs.len(),
{
    if bs.len() == 0 {
        Health::Unknown
    } else if bs[0].addr == a {
        bs[0].health
    } else {
        lookup_health(bs.drop_first(), a)
    }
}

/// Membership after a refresh: the refreshed addresses (deduplicated), each
/// keeping the health flag it had in the old pool, or unknown when new.
pub open spec fn refreshed_backends(old_bs: Seq<BackendModel>, addrs: Seq<AddrModel>) -> Seq<
    BackendModel,
> {
    dedup_addrs(addrs).map_values(
        |a: AddrModel| BackendModel { addr: a, health: lookup_health(old_bs, a) },
    )
}

pub proof fn lemma_refreshed_backends(old_bs: Seq<BackendModel>, addrs: Seq<AddrModel>)
    ensures
        refreshed_backends(old_bs, addrs).len() == dedup_addrs(addrs).len(),
        forall|i: int|
            0 <= i < refreshed_backends(old_bs, addrs).len()
                ==> #[trigger] refreshed_backends(old_bs, addrs)[i] == (BackendModel {
                addr: dedup_addrs(addrs)[i],
                health: lookup_health(old_bs, dedup_addrs(addrs)[i]),
            }),
        addrs_of(refreshed_backends(old_bs, addrs)) =~= dedup_addrs(addrs),
        unique_addrs(refreshed_backends(old_bs, addrs)),
{
    lemma_dedup_addrs(addrs);
}

/// Health the pool records for address `a` (unknown when absent).
fn find_health(v: &Vec<Backend>, a: &UpstreamAddr) -> (r: Health)
    ensures
        r == lookup_health(backends_model(v@), a@),
{
    let ghost bs = backends_model(v@);
    proof {
        assert(bs.skip(0) =~= bs);
    }
    let mut i: usize = 0;
    while i < v.len()
        invariant
            i <= v.len(),
            bs == backends_model(v@),
            lookup_health(bs, a@) == lookup_health(bs.skip(i as int), a@),
        decreases v.len() - i,
    {
        proof {
            assert(bs.skip(i as int)[0] == v@[i as int]@);
            assert(bs.skip(i as int).drop_first() =~= bs.skip(i + 1));
        }
        if addr_eq(&v[i].addr, a) {
            return v[i].health;
        }
        i += 1;
    }
    proof {
        assert(bs.skip(v@.len() as int) =~= Seq::<BackendModel>::empty());
    }
    Health::Unknown
}

impl BackendSet {
    /// Applies the outcome of one membership refresh. A failed refresh
    /// (`None`) leaves the pool untouched rather than emptying it; a
    /// successful one replaces the membership with the refreshed addresses,
    /// carrying over the health flag of every address already present.
    #[verifier::loop_isolation(false)]
    pub fn refresh_membership(&mut self, refreshed: &Option<Vec<UpstreamAddr>>)
        requires
            old(self).wf(),
        ensures
            final(self).wf(),
            refreshed is None ==> final(self)@ == old(self)@,
            refreshed is Some ==> final(self)@.backends == refreshed_backends(
                old(self)@.backends,
                addrs_model(refreshed->0@),
            ) && final(self)@.cursor == 0,
    {
        let addrs = match refreshed {
            None => {
                return ;
            },
            Some(addrs) => addrs,
        };
        let ghost old_bs = self@.backends;
        let mut out: Vec<Backend> = Vec::new();
        let mut i: usize = 0;
        while i < addrs.len()
            invariant
                i <= addrs.len(),
                backends_model(out@) == refreshed_backends(old_bs, addrs_model(
                    addrs@.take(i as int),
                )),
                self == old(self),
            decreases addrs.len() - i,
        {
            let ghost t = addrs_model(addrs@.take(i as int));
            let ghost t2 = addrs_model(addrs@.take(i + 1));
            proof {
                assert(t2 =~= t.push(addrs@[i as int]@));
                lemma_dedup_addrs(t);
                lemma_refreshed_backends(old_bs, t);
                lemma_refreshed_backends(old_bs, t2);
                assert(dedup_addrs(t2.drop_last()) =~= dedup_addrs(t)) by {
                    assert(t2.drop_last() =~= t);
                }
            }
            let a = &addrs[i];
            if !contains_addr(&out, a) {
                let h = find_health(&self.backends, a);
                out.push(Backend { addr: a.clone(), health: h });
                proof {
                    assert(!dedup_addrs(t).contains(a@)) by {
                        if dedup_addrs(t).contains(a@) {
                            let k = choose|k: int|
                                0 <= k < dedup_addrs(t).len() && dedup_addrs(t)[k] == a@;
                            assert(addrs_of(refreshed_backends(old_bs, t))[k] == a@);
                            assert(addrs_of(refreshed_backends(old_bs, t)).contains(a@));
                        }
                    }
                    assert(dedup_addrs(t2) =~= dedup_addrs(t).push(a@));
                    assert(backends_model(out@) =~= refreshed_backends(old_bs, t2));
                }
            } else {
                proof {
                    assert(dedup_addrs(t).contains(a@)) by {
                        let k = choose|k: int|
                            0 <= k < addrs_of(refreshed_backends(old_bs, t)).len() && addrs_of(
                                refreshed_backends(old_bs, t),
                            )[k] == a@;
                        assert(dedup_addrs(t)[k] == a@);
                    }
                    assert(dedup_addrs(t2) =~= dedup_addrs(t));
                    assert(backends_model(out@) =~= refreshed_backends(old_bs, t2));
                }
            }
            i += 1;
        }
        proof {
            assert(addrs@.take(addrs@.len() as int) =~= addrs@);
            lemma_refreshed_backends(old_bs, addrs_model(addrs@));
        }
        self.backends = out;
        self.cursor = 0;
    }
}

} // verus!
