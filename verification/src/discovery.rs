//! Routing discovery: populating the directory and keeping it current.
//!
//! Both the static-configuration bootstrap and the control-plane event path
//! funnel into one apply-route operation. It builds a fresh backend set from
//! the declared upstreams, skips the update when the diff rule finds no
//! membership change (preserving the existing set's accumulated health
//! state), validates the header rules, and otherwise swaps the whole entry
//! under the host key. A failure aborts only that host's update; the
//! directory is left untouched.

use vstd::prelude::*;

verus! {

use crate::pairs_model;
use crate::strs_model;
use crate::clone_pairs;
use crate::clone_strings;
use crate::addr::AddrModel;
use crate::addr::UpstreamAddr;
use crate::addr::parse_addr;
use crate::addr::spec_parse_addr;
use crate::backend::BackendModel;
use crate::backend::BackendSet;
use crate::backend::addrs_model;
use crate::backend::addrs_of;
use crate::backend::contains_addr;
use crate::backend::fresh_backends;
use crate::backend::lemma_fresh_backends;
use crate::directory::RouteDirectory;
use crate::headers::check_header_rules;
use crate::headers::header_rules_ok;
use crate::route::EntryModel;
use crate::route::Plugin;
use crate::route::PluginModel;
use crate::route::RouteEntry;
use crate::route::filter_declared_plugins;
use crate::route::filter_plugins;
use crate::route::plugins_model;

/// Probe interval attached to every fresh backend set's health check.
pub const PROBE_INTERVAL_SECS: u64 = 15;

/// How one route update ended.
#[derive(Clone, Copy, PartialEq, Eq, Structural, Debug)]
pub enum ApplyOutcome {
    /// The entry was inserted or wholly replaced.
    Applied,
    /// The host already had an entry with the same backend membership; the
    /// update was skipped to preserve its health state.
    SkippedNoChange,
    /// The upstream list was empty or an address did not parse.
    RejectedUpstreams,
    /// A header add-rule carried a malformed name or value.
    RejectedHeaders,
}

/// Everything one route update declares, as a mathematical value.
pub ghost struct RouteInputModel {
    pub host: Seq<char>,
    pub addrs: Seq<AddrModel>,
    pub path_patterns: Seq<Seq<char>>,
    pub header_add: Seq<(Seq<char>, Seq<char>)>,
    pub header_remove: Seq<Seq<char>>,
    pub plugins: Seq<PluginModel>,
    pub self_signed: bool,
}

pub open spec fn route_input_model(
    host: Seq<char>,
    addrs: Seq<AddrModel>,
    path_patterns: Seq<Seq<char>>,
    header_add: Seq<(Seq<char>, Seq<char>)>,
    header_remove: Seq<Seq<char>>,
    plugins: Seq<PluginModel>,
    self_signed: bool,
) -> RouteInputModel {
    RouteInputModel { host, addrs, path_patterns, header_add, header_remove, plugins, self_signed }
}

/// The diff rule: the membership changed when the backend counts differ or
/// some existing backend address is absent from the new set. The comparison
/// is deliberately asymmetric: it does not look for newly added addresses
/// when the counts happen to coincide.
pub open spec fn membership_changed(old_bs: Seq<BackendModel>, new_bs: Seq<BackendModel>) -> bool {
    old_bs.len() != new_bs.len() || exists|i: int|
        0 <= i < old_bs.len() && !addrs_of(new_bs).contains((#[trigger] old_bs[i]).addr)
}

/// The entry one update builds: a fresh backend set, the header rules as
/// declared, the recognized plugins, the path patterns (empty means the route
/// matches on host alone) and the TLS policy flag.
pub open spec fn built_entry(m: RouteInputModel) -> EntryModel {
    EntryModel {
        host: m.host,
        backends: fresh_backends(m.addrs),
        cursor: 0,
        header_add: m.header_add,
        header_remove: m.header_remove,
        plugins: filter_plugins(m.plugins),
        path_patterns: m.path_patterns,
        self_signed: m.self_signed,
    }
}

/// How applying `m` to `dir` ends.
pub open spec fn apply_outcome_model(dir: Map<Seq<char>, EntryModel>, m: RouteInputModel) -> ApplyOutcome {
    if m.addrs.len() == 0 {
        ApplyOutcome::RejectedUpstreams
    } else if dir.contains_key(m.host) && !membership_changed(
        dir[m.host].backends,
        fresh_backends(m.addrs),
    ) {
        ApplyOutcome::SkippedNoChange
    } else if !header_rules_ok(m.header_add) {
        ApplyOutcome::RejectedHeaders
    } else {
        ApplyOutcome::Applied
    }
}

/// The directory after applying `m`: the built entry under the host key when
/// the update goes through, the directory untouched otherwise.
pub open spec fn apply_dir_model(dir: Map<Seq<char>, EntryModel>, m: RouteInputModel) -> Map<
    Seq<char>,
    EntryModel,
> {
    if apply_outcome_model(dir, m) == ApplyOutcome::Applied {
        dir.insert(m.host, built_entry(m))
    } else {
        dir
    }
}

/// Whether the host already routes to a different backend membership than
/// the new set: true exactly when the host has an entry and the diff rule
/// reports a change.
#[verifier::loop_isolation(false)]
pub fn has_new_backend(dir: &RouteDirectory, host: &String, new_set: &BackendSet) -> (r: bool)
    requires
        dir.wf(),
    ensures
        r == (dir@.contains_key(host@) && membership_changed(
            dir@[host@].backends,
            new_set@.backends,
        )),
{
    let e = match dir.get(host) {
        None => {
            return false;
        },
        Some(e) => e,
    };
    let ghost old_bs = dir@[host@].backends;
    let ghost new_bs = new_set@.backends;
    if e.backends.len() != new_set.len() {
        return true;
    }
    let n = e.backends.len();
    let mut i: usize = 0;
    while i < n
        invariant
            i <= n,
            n == old_bs.len(),
            forall|k: int| 0 <= k < i ==> addrs_of(new_bs).contains((#[trigger] old_bs[k]).addr),
        decreases n - i,
    {
        if !contains_addr(&new_set.backends, &e.backends.backends[i].addr) {
            proof {
                assert(old_bs[i as int].addr == e.backends.backends@[i as int]@.addr);
            }
            return true;
        }
        i += 1;
    }
    false
}

/// Applies one route update, given the already-parsed upstream addresses;
/// the operation shared by bootstrap and the control-plane path.
pub fn apply_parsed_route(
    dir: &mut RouteDirectory,
    host: &String,
    upstreams: &Vec<UpstreamAddr>,
    path_patterns: &Vec<String>,
    header_add: &Vec<(String, String)>,
    header_remove: &Vec<String>,
    plugins: &Vec<Plugin>,
    self_signed: bool,
) -> (r: ApplyOutcome)
    requires
        old(dir).wf(),
    ensures
        final(dir).wf(),
        r == apply_outcome_model(
            old(dir)@,
            route_input_model(
                host@,
                addrs_model(upstreams@),
                strs_model(path_patterns@),
                pairs_model(header_add@),
                strs_model(header_remove@),
                plugins_model(plugins@),
                self_signed,
            ),
        ),
        final(dir)@ == apply_dir_model(
            old(dir)@,
            route_input_model(
                host@,
                addrs_model(upstreams@),
                strs_model(path_patterns@),
                pairs_model(header_add@),
                strs_model(header_remove@),
                plugins_model(plugins@),
                self_signed,
            ),
        ),
{
    let ghost m = route_input_model(
        host@,
        addrs_model(upstreams@),
        strs_model(path_patterns@),
        pairs_model(header_add@),
        strs_model(header_remove@),
        plugins_model(plugins@),
        self_signed,
    );
    if upstreams.is_empty() {
        proof {
            assert(addrs_model(upstreams@).len() == 0);
        }
        return ApplyOutcome::RejectedUpstreams;
    }
    proof {
        assert(addrs_model(upstreams@).len() == upstreams@.len());
    }
    let new_set = BackendSet::new(upstreams);
    let exists_already = match dir.get(host) {
        Some(_) => true,
        None => false,
    };
    if exists_already && !has_new_backend(dir, host, &new_set) {
        return ApplyOutcome::SkippedNoChange;
    }
    if !check_header_rules(header_add) {
        return ApplyOutcome::RejectedHeaders;
    }
    let entry = RouteEntry {
        host: host.clone(),
        backends: new_set,
        header_add: clone_pairs(header_add),
        header_remove: clone_strings(header_remove),
        plugins: filter_declared_plugins(plugins),
        path_patterns: clone_strings(path_patterns),
        self_signed,
    };
    proof {
        assert(entry@ == built_entry(m));
    }
    dir.upsert(entry);
    ApplyOutcome::Applied
}

/// All event addresses parsed against the address grammar; `None` when any
/// of them is malformed.
pub open spec fn parse_all_addrs(ss: Seq<Seq<char>>) -> Option<Seq<AddrModel>>
    decreases ss.len(),
{
    if ss.len() == 0 {
        Some(Seq::empty())
    } else {
        match (parse_all_addrs(ss.drop_last()), spec_parse_addr(ss.last())) {
            (Some(r), Some(a)) => Some(r.push(a)),
            _ => None,
        }
    }
}

/// How applying a route update with raw address strings ends.
pub open spec fn apply_str_outcome_model(
    dir: Map<Seq<char>, EntryModel>,
    m: RouteInputModel,
    ss: Seq<Seq<char>>,
) -> ApplyOutcome {
    match parse_all_addrs(ss) {
        None => ApplyOutcome::RejectedUpstreams,
        Some(addrs) => apply_outcome_model(dir, RouteInputModel { addrs, ..m }),
    }
}

/// The directory after such an update.
pub open spec fn apply_str_dir_model(
    dir: Map<Seq<char>, EntryModel>,
    m: RouteInputModel,
    ss: Seq<Seq<char>>,
) -> Map<Seq<char>, EntryModel> {
    match parse_all_addrs(ss) {
        None => dir,
        Some(addrs) => apply_dir_model(dir, RouteInputModel { addrs, ..m }),
    }
}

/// Applies one route update given raw `host:port` upstream strings, as the
/// control-plane path receives them. An unparseable address rejects the
/// whole update and the directory is left untouched for that host.
#[verifier::loop_isolation(false)]
pub fn add_route_to_router(
    dir: &mut RouteDirectory,
    host: &String,
    upstreams: &Vec<String>,
    path_patterns: &Vec<String>,
    header_add: &Vec<(String, String)>,
    header_remove: &Vec<String>,
    plugins: &Vec<Plugin>,
    self_signed: bool,
) -> (r: ApplyOutcome)
    requires
        old(dir).wf(),
    ensures
        final(dir).wf(),
        r == apply_str_outcome_model(
            old(dir)@,
            route_input_model(
                host@,
                Seq::empty(),
                strs_model(path_patterns@),
                pairs_model(header_add@),
                strs_model(header_remove@),
                plugins_model(plugins@),
                self_signed,
            ),
            strs_model(upstreams@),
        ),
        final(dir)@ == apply_str_dir_model(
            old(dir)@,
            route_input_model(
                host@,
                Seq::empty(),
                strs_model(path_patterns@),
                pairs_model(header_add@),
                strs_model(header_remove@),
                plugins_model(plugins@),
                self_signed,
            ),
            strs_model(upstreams@),
        ),
{
    let ghost ss = strs_model(upstreams@);
    let mut parsed: Vec<UpstreamAddr> = Vec::new();
    let mut i: usize = 0;
    while i < upstreams.len()
        invariant
            i <= upstreams@.len(),
            parse_all_addrs(ss.take(i as int)) == Some(addrs_model(parsed@)),
        decreases upstreams@.len() - i,
    {
        proof {
            assert(ss.take(i + 1).drop_last() =~= ss.take(i as int));
            assert(ss.take(i + 1).last() == upstreams@[i as int]@);
        }
        match parse_addr(upstreams[i].as_str()) {
            Some(a) => {
                let ghost before = parsed@;
                parsed.push(a);
                proof {
                    assert(addrs_model(parsed@) =~= addrs_model(before).push(
                        spec_parse_addr(ss[i as int])->0,
                    ));
                }
            },
            None => {
                proof {
                    assert(parse_all_addrs(ss.take(i + 1)) is None);
                    lemma_parse_all_extends_none(ss, i as int + 1);
                    assert(ss.take(ss.len() as int) =~= ss);
                }
                return ApplyOutcome::RejectedUpstreams;
            },
        }
        i += 1;
    }
    proof {
        assert(ss.take(upstreams@.len() as int) =~= ss);
    }
    apply_parsed_route(
        dir,
        host,
        &parsed,
        path_patterns,
        header_add,
        header_remove,
        plugins,
        self_signed,
    )
}

/// One route as static configuration declares it. An absent TLS certificate
/// stanza leaves `self_signed` unset, which resolves to false.
pub struct StaticRoute {
    pub host: String,
    pub upstreams: Vec<UpstreamAddr>,
    pub path_patterns: Vec<String>,
    pub header_add: Vec<(String, String)>,
    pub header_remove: Vec<String>,
    pub plugins: Vec<Plugin>,
    pub self_signed: Option<bool>,
}

pub open spec fn static_route_model(r: StaticRoute) -> RouteInputModel {
    route_input_model(
        r.host@,
        addrs_model(r.upstreams@),
        strs_model(r.path_patterns@),
        pairs_model(r.header_add@),
        strs_model(r.header_remove@),
        plugins_model(r.plugins@),
        match r.self_signed {
            Some(b) => b,
            None => false,
        },
    )
}

/// The directory after bootstrapping the declared routes in order.
pub open spec fn bootstrap_model(
    dir: Map<Seq<char>, EntryModel>,
    rs: Seq<StaticRoute>,
) -> Map<Seq<char>, EntryModel>
    decreases rs.len(),
{
    if rs.len() == 0 {
        dir
    } else {
        apply_dir_model(bootstrap_model(dir, rs.drop_last()), static_route_model(rs.last()))
    }
}

/// Bootstrap: applies every route declared in static configuration, in
/// order. A failure for one route never aborts the bootstrap of the others;
/// the returned outcomes say how each route fared.
#[verifier::loop_isolation(false)]
pub fn add_routes_from_config(dir: &mut RouteDirectory, routes: &Vec<StaticRoute>) -> (r: Vec<
    ApplyOutcome,
>)
    requires
        old(dir).wf(),
    ensures
        final(dir).wf(),
        final(dir)@ == bootstrap_model(old(dir)@, routes@),
        r@.len() == routes@.len(),
        forall|i: int|
            0 <= i < routes@.len() ==> r@[i] == apply_outcome_model(
                bootstrap_model(old(dir)@, routes@.take(i)),
                static_route_model(routes@[i]),
            ),
{
    let mut outcomes: Vec<ApplyOutcome> = Vec::new();
    let mut i: usize = 0;
    while i < routes.len()
        invariant
            i <= routes@.len(),
            dir.wf(),
            dir@ == bootstrap_model(old(dir)@, routes@.take(i as int)),
            outcomes@.len() == i,
            forall|k: int|
                0 <= k < i ==> outcomes@[k] == apply_outcome_model(
                    bootstrap_model(old(dir)@, routes@.take(k)),
                    static_route_model(routes@[k]),
                ),
        decreases routes@.len() - i,
    {
        proof {
            assert(routes@.take(i + 1).drop_last() =~= routes@.take(i as int));
            assert(routes@.take(i + 1).last() == routes@[i as int]);
        }
        let route = &routes[i];
        let self_signed = match route.self_signed {
            Some(b) => b,
            None => false,
        };
        let outcome = apply_parsed_route(
            dir,
            &route.host,
            &route.upstreams,
            &route.path_patterns,
            &route.header_add,
            &route.header_remove,
            &route.plugins,
            self_signed,
        );
        outcomes.push(outcome);
        i += 1;
    }
    proof {
        assert(routes@.take(routes@.len() as int) =~= routes@);
    }
    outcomes
}

/// One control-plane route announcement, as the event stream carries it:
/// upstreams as raw address strings, header and plugin declarations, and the
/// TLS policy flag.
pub struct RouteUpdate {
    pub host: String,
    pub upstreams: Vec<String>,
    pub path_matchers: Vec<String>,
    pub host_headers_add: Vec<(String, String)>,
    pub host_headers_remove: Vec<String>,
    pub plugins: Vec<Plugin>,
    pub self_signed_certs: bool,
}

/// A control-plane event. Only a new-route announcement is meaningful to
/// this core; anything else is ignored without error.
pub enum ControlEvent {
    NewRoute(RouteUpdate),
    Unrecognized,
}

pub open spec fn update_input_model(u: RouteUpdate) -> RouteInputModel {
    route_input_model(
        u.host@,
        Seq::empty(),
        strs_model(u.path_matchers@),
        pairs_model(u.host_headers_add@),
        strs_model(u.host_headers_remove@),
        plugins_model(u.plugins@),
        u.self_signed_certs,
    )
}

/// Handles one control-plane event: a new-route announcement becomes the
/// same apply-route operation the bootstrap uses; an unrecognized event
/// leaves the directory untouched and is not an error.
pub fn handle_event(dir: &mut RouteDirectory, ev: &ControlEvent) -> (r: Option<ApplyOutcome>)
    requires
        old(dir).wf(),
    ensures
        final(dir).wf(),
        ev matches ControlEvent::NewRoute(u) ==> r == Some(
            apply_str_outcome_model(old(dir)@, update_input_model(*u), strs_model(u.upstreams@)),
        ) && final(dir)@ == apply_str_dir_model(
            old(dir)@,
            update_input_model(*u),
            strs_model(u.upstreams@),
        ),
        ev matches ControlEvent::Unrecognized ==> r is None && final(dir)@ == old(dir)@,
{
    match ev {
        ControlEvent::NewRoute(u) => Some(
            add_route_to_router(
                dir,
                &u.host,
                &u.upstreams,
                &u.path_matchers,
                &u.host_headers_add,
                &u.host_headers_remove,
                &u.plugins,
                u.self_signed_certs,
            ),
        ),
        ControlEvent::Unrecognized => None,
    }
}

/// Diff rule, first half: for an existing set A and a new set B of equal
/// size where every address of A also stands in B, no change is reported —
/// even when B holds addresses A does not, the documented asymmetric edge.
pub proof fn lemma_diff_no_change(old_bs: Seq<BackendModel>, new_bs: Seq<BackendModel>)
    requires
        old_bs.len() == new_bs.len(),
        forall|i: int|
            0 <= i < old_bs.len() ==> addrs_of(new_bs).contains((#[trigger] old_bs[i]).addr),
    ensures
        !membership_changed(old_bs, new_bs),
{
}

/// Diff rule, second half: any size mismatch, or any address of the existing
/// set A missing from the new set B, is reported as a change.
pub proof fn lemma_diff_detects_change(old_bs: Seq<BackendModel>, new_bs: Seq<BackendModel>)
    requires
        old_bs.len() != new_bs.len() || exists|i: int|
            0 <= i < old_bs.len() && !addrs_of(new_bs).contains((#[trigger] old_bs[i]).addr),
    ensures
        membership_changed(old_bs, new_bs),
{
}

/// Applying a definition the directory already satisfies — the host's entry
/// holds exactly the addresses the definition declares, whatever health
/// flags probe passes have set since — skips the update and leaves the
/// directory, and so the entry's accumulated health state, unchanged.
pub proof fn lemma_apply_route_stable(dir: Map<Seq<char>, EntryModel>, m: RouteInputModel)
    requires
        m.addrs.len() > 0,
        dir.contains_key(m.host),
        dir[m.host].backends.len() == fresh_backends(m.addrs).len(),
        forall|i: int|
            0 <= i < dir[m.host].backends.len() ==> addrs_of(fresh_backends(m.addrs)).contains(
                (#[trigger] dir[m.host].backends[i]).addr,
            ),
    ensures
        apply_outcome_model(dir, m) == ApplyOutcome::SkippedNoChange,
        apply_dir_model(dir, m) == dir,
{
    lemma_diff_no_change(dir[m.host].backends, fresh_backends(m.addrs));
}

/// Idempotence: applying a route definition right after it was applied skips
/// and changes nothing, so the host keeps the same backend set.
pub proof fn lemma_apply_route_idempotent(dir: Map<Seq<char>, EntryModel>, m: RouteInputModel)
    requires
        apply_outcome_model(dir, m) == ApplyOutcome::Applied,
    ensures
        apply_outcome_model(apply_dir_model(dir, m), m) == ApplyOutcome::SkippedNoChange,
        apply_dir_model(apply_dir_model(dir, m), m) == apply_dir_model(dir, m),
{
    let d2 = apply_dir_model(dir, m);
    assert(d2[m.host] == built_entry(m));
    lemma_fresh_backends(m.addrs);
    assert forall|i: int| 0 <= i < d2[m.host].backends.len() implies addrs_of(
        fresh_backends(m.addrs),
    ).contains((#[trigger] d2[m.host].backends[i]).addr) by {
        assert(addrs_of(fresh_backends(m.addrs))[i] == d2[m.host].backends[i].addr);
    }
    lemma_apply_route_stable(d2, m);
}

/// Once a prefix fails to parse, the whole list does.
proof fn lemma_parse_all_extends_none(ss: Seq<Seq<char>>, k: int)
    requires
        0 <= k <= ss.len(),
        parse_all_addrs(ss.take(k)) is None,
    ensures
        parse_all_addrs(ss) is None,
    decreases ss.len() - k,
{
    if k == ss.len() {
        assert(ss.take(k) =~= ss);
    } else {
        assert(ss.take(k + 1).drop_last() =~= ss.take(k));
        lemma_parse_all_extends_none(ss, k + 1);
    }
}

} // verus!
