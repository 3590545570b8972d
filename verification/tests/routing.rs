use route_core::addr::{parse_addr, UpstreamAddr};
use route_core::backend::BackendSet;
use route_core::directory::RouteDirectory;
use route_core::discovery::{
    add_route_to_router, add_routes_from_config, apply_parsed_route, handle_event,
    has_new_backend, ApplyOutcome, ControlEvent, RouteUpdate, StaticRoute,
};
use route_core::health::HealthService;
use route_core::route::Plugin;
use route_core::Health;

fn ups(ip: &str, port: u16) -> UpstreamAddr {
    UpstreamAddr {
        ip: ip.to_string(),
        port,
    }
}

fn apply_simple(dir: &mut RouteDirectory, host: &str, upstreams: Vec<UpstreamAddr>) -> ApplyOutcome {
    apply_parsed_route(
        dir,
        &host.to_string(),
        &upstreams,
        &Vec::new(),
        &Vec::new(),
        &Vec::new(),
        &Vec::new(),
        false,
    )
}

#[test]
fn parse_addr_accepts_ip_and_port() {
    let a = parse_addr("127.0.0.1:8080").unwrap();
    assert_eq!(a.ip, "127.0.0.1");
    assert_eq!(a.port, 8080);
    let b = parse_addr("backend.internal:65535").unwrap();
    assert_eq!(b.ip, "backend.internal");
    assert_eq!(b.port, 65535);
}

#[test]
fn parse_addr_splits_at_last_colon() {
    let a = parse_addr("a:b:80").unwrap();
    assert_eq!(a.ip, "a:b");
    assert_eq!(a.port, 80);
}

#[test]
fn parse_addr_rejects_malformed() {
    assert!(parse_addr("no-port").is_none());
    assert!(parse_addr(":80").is_none());
    assert!(parse_addr("host:").is_none());
    assert!(parse_addr("host:99999").is_none());
    assert!(parse_addr("host:12x").is_none());
    assert!(parse_addr("").is_none());
}

#[test]
fn new_route_is_applied() {
    let mut dir = RouteDirectory::new();
    let host = "example.com".to_string();
    let r = apply_simple(&mut dir, "example.com", vec![ups("127.0.0.1", 8080)]);
    assert_eq!(r, ApplyOutcome::Applied);
    let e = dir.get(&host).unwrap();
    assert_eq!(e.backends.backends.len(), 1);
    assert_eq!(e.backends.backends[0].addr.ip, "127.0.0.1");
    assert_eq!(e.backends.backends[0].health, Health::Unknown);
}

#[test]
fn empty_upstreams_rejected() {
    let mut dir = RouteDirectory::new();
    let r = apply_simple(&mut dir, "example.com", Vec::new());
    assert_eq!(r, ApplyOutcome::RejectedUpstreams);
    assert!(dir.get(&"example.com".to_string()).is_none());
}

#[test]
fn unparseable_upstream_string_rejected() {
    let mut dir = RouteDirectory::new();
    let r = add_route_to_router(
        &mut dir,
        &"example.com".to_string(),
        &vec!["127.0.0.1:8080".to_string(), "bogus".to_string()],
        &Vec::new(),
        &Vec::new(),
        &Vec::new(),
        &Vec::new(),
        false,
    );
    assert_eq!(r, ApplyOutcome::RejectedUpstreams);
    assert!(dir.get(&"example.com".to_string()).is_none());
}

#[test]
fn reapplying_same_definition_skips() {
    let mut dir = RouteDirectory::new();
    let upstreams = vec![ups("127.0.0.1", 8080), ups("127.0.0.2", 8080)];
    assert_eq!(
        apply_simple(&mut dir, "example.com", upstreams.clone()),
        ApplyOutcome::Applied
    );
    assert_eq!(
        apply_simple(&mut dir, "example.com", upstreams),
        ApplyOutcome::SkippedNoChange
    );
}

#[test]
fn skip_preserves_health_state() {
    let mut dir = RouteDirectory::new();
    let host = "example.com".to_string();
    let upstreams = vec![ups("127.0.0.1", 8080), ups("127.0.0.2", 8080)];
    assert_eq!(
        apply_simple(&mut dir, "example.com", upstreams.clone()),
        ApplyOutcome::Applied
    );
    let monitor = HealthService::new();
    assert!(monitor.apply_probe_results(&mut dir, &host, &vec![true, false]));
    assert_eq!(
        apply_simple(&mut dir, "example.com", upstreams),
        ApplyOutcome::SkippedNoChange
    );
    let e = dir.get(&host).unwrap();
    assert_eq!(e.backends.backends[0].health, Health::Healthy);
    assert_eq!(e.backends.backends[1].health, Health::Unhealthy);
}

#[test]
fn has_new_backend_reports_no_change_for_same_membership() {
    let mut dir = RouteDirectory::new();
    let host = "example.com".to_string();
    apply_simple(
        &mut dir,
        "example.com",
        vec![ups("127.0.0.1", 8080), ups("127.0.0.2", 8080)],
    );
    let same = BackendSet::new(&vec![ups("127.0.0.2", 8080), ups("127.0.0.1", 8080)]);
    assert!(!has_new_backend(&dir, &host, &same));
}

#[test]
fn has_new_backend_reports_change() {
    let mut dir = RouteDirectory::new();
    let host = "example.com".to_string();
    apply_simple(
        &mut dir,
        "example.com",
        vec![ups("127.0.0.1", 8080), ups("127.0.0.2", 8080)],
    );
    // size mismatch
    let smaller = BackendSet::new(&vec![ups("127.0.0.1", 8080)]);
    assert!(has_new_backend(&dir, &host, &smaller));
    // same size, one existing address missing from the new set
    let swapped = BackendSet::new(&vec![ups("127.0.0.1", 8080), ups("127.0.0.3", 8080)]);
    assert!(has_new_backend(&dir, &host, &swapped));
    // unknown host: nothing to diff against
    assert!(!has_new_backend(&dir, &"other.com".to_string(), &smaller));
}

#[test]
fn duplicate_upstreams_are_deduplicated() {
    let mut dir = RouteDirectory::new();
    let host = "example.com".to_string();
    apply_simple(
        &mut dir,
        "example.com",
        vec![ups("127.0.0.1", 8080), ups("127.0.0.2", 8080)],
    );
    // the duplicate collapses, so membership is unchanged and the update skips
    let r = apply_simple(
        &mut dir,
        "example.com",
        vec![
            ups("127.0.0.1", 8080),
            ups("127.0.0.1", 8080),
            ups("127.0.0.2", 8080),
        ],
    );
    assert_eq!(r, ApplyOutcome::SkippedNoChange);
    let e = dir.get(&host).unwrap();
    assert_eq!(e.backends.backends.len(), 2);
}

#[test]
fn plugin_filtering_keeps_only_recognized_names() {
    let mut dir = RouteDirectory::new();
    let host = "example.com".to_string();
    let plugins = vec![
        Plugin {
            name: "oauth2".to_string(),
            config: "provider=x".to_string(),
        },
        Plugin {
            name: "unknown".to_string(),
            config: "whatever".to_string(),
        },
    ];
    let r = apply_parsed_route(
        &mut dir,
        &host,
        &vec![ups("127.0.0.1", 8080)],
        &Vec::new(),
        &Vec::new(),
        &Vec::new(),
        &plugins,
        false,
    );
    assert_eq!(r, ApplyOutcome::Applied);
    let e = dir.get(&host).unwrap();
    assert_eq!(e.plugins.len(), 1);
    assert_eq!(e.plugins[0].name, "oauth2");
    assert_eq!(e.plugins[0].config, "provider=x");
}

#[test]
fn later_plugin_declaration_replaces_earlier() {
    let mut dir = RouteDirectory::new();
    let host = "example.com".to_string();
    let plugins = vec![
        Plugin {
            name: "request_id".to_string(),
            config: "old".to_string(),
        },
        Plugin {
            name: "request_id".to_string(),
            config: "new".to_string(),
        },
    ];
    apply_parsed_route(
        &mut dir,
        &host,
        &vec![ups("127.0.0.1", 8080)],
        &Vec::new(),
        &Vec::new(),
        &Vec::new(),
        &plugins,
        false,
    );
    let e = dir.get(&host).unwrap();
    assert_eq!(e.plugins.len(), 1);
    assert_eq!(e.plugins[0].config, "new");
}

#[test]
fn header_rules_are_recorded_exactly() {
    let mut dir = RouteDirectory::new();
    let host = "example.com".to_string();
    let r = apply_parsed_route(
        &mut dir,
        &host,
        &vec![ups("127.0.0.1", 8080)],
        &Vec::new(),
        &vec![("X-Foo".to_string(), "bar".to_string())],
        &vec!["X-Old".to_string()],
        &Vec::new(),
        false,
    );
    assert_eq!(r, ApplyOutcome::Applied);
    let e = dir.get(&host).unwrap();
    assert_eq!(e.header_add.len(), 1);
    assert_eq!(e.header_add[0].0, "X-Foo");
    assert_eq!(e.header_add[0].1, "bar");
    assert_eq!(e.header_remove.len(), 1);
    assert_eq!(e.header_remove[0], "X-Old");
}

#[test]
fn malformed_header_name_aborts_route() {
    let mut dir = RouteDirectory::new();
    let host = "example.com".to_string();
    let r = apply_parsed_route(
        &mut dir,
        &host,
        &vec![ups("127.0.0.1", 8080)],
        &Vec::new(),
        &vec![("bad name".to_string(), "bar".to_string())],
        &Vec::new(),
        &Vec::new(),
        false,
    );
    assert_eq!(r, ApplyOutcome::RejectedHeaders);
    assert!(dir.get(&host).is_none());
}

#[test]
fn malformed_header_value_aborts_route() {
    let mut dir = RouteDirectory::new();
    let host = "example.com".to_string();
    let r = apply_parsed_route(
        &mut dir,
        &host,
        &vec![ups("127.0.0.1", 8080)],
        &Vec::new(),
        &vec![("X-Foo".to_string(), "bad\nvalue".to_string())],
        &Vec::new(),
        &Vec::new(),
        false,
    );
    assert_eq!(r, ApplyOutcome::RejectedHeaders);
    assert!(dir.get(&host).is_none());
}

#[test]
fn probe_pass_updates_flags_and_touches_one_host_only() {
    let mut dir = RouteDirectory::new();
    let host_s = "s.test".to_string();
    let host_other = "other.test".to_string();
    apply_simple(
        &mut dir,
        "s.test",
        vec![ups("10.0.0.1", 80), ups("10.0.0.2", 80)],
    );
    apply_simple(&mut dir, "other.test", vec![ups("10.0.0.9", 80)]);
    let monitor = HealthService::new();
    // 10.0.0.1:80 unreachable, 10.0.0.2:80 reachable
    assert!(monitor.apply_probe_results(&mut dir, &host_s, &vec![false, true]));
    let e = dir.get(&host_s).unwrap();
    assert_eq!(e.backends.backends[0].addr.ip, "10.0.0.1");
    assert_eq!(e.backends.backends[0].health, Health::Unhealthy);
    assert_eq!(e.backends.backends[1].addr.ip, "10.0.0.2");
    assert_eq!(e.backends.backends[1].health, Health::Healthy);
    let o = dir.get(&host_other).unwrap();
    assert_eq!(o.backends.backends[0].health, Health::Unknown);
}

#[test]
fn probe_pass_tolerates_replaced_or_missing_entries() {
    let mut dir = RouteDirectory::new();
    let monitor = HealthService::new();
    assert!(!monitor.apply_probe_results(&mut dir, &"gone.test".to_string(), &vec![true]));
    apply_simple(&mut dir, "s.test", vec![ups("10.0.0.1", 80)]);
    // a replacement grew the pool between snapshot and probe: results no longer fit
    assert!(!monitor.apply_probe_results(&mut dir, &"s.test".to_string(), &vec![true, false]));
    let e = dir.get(&"s.test".to_string()).unwrap();
    assert_eq!(e.backends.backends[0].health, Health::Unknown);
}

#[test]
fn bootstrap_scenario() {
    let mut dir = RouteDirectory::new();
    let routes = vec![StaticRoute {
        host: "a.test".to_string(),
        upstreams: vec![ups("127.0.0.1", 8080)],
        path_patterns: Vec::new(),
        header_add: Vec::new(),
        header_remove: Vec::new(),
        plugins: Vec::new(),
        self_signed: None,
    }];
    let outcomes = add_routes_from_config(&mut dir, &routes);
    assert_eq!(outcomes, vec![ApplyOutcome::Applied]);
    let host = "a.test".to_string();
    {
        let e = dir.get(&host).unwrap();
        assert!(e.header_add.is_empty());
        assert!(e.header_remove.is_empty());
        assert!(e.plugins.is_empty());
        assert!(e.path_patterns.is_empty());
        assert!(!e.self_signed);
    }
    // selection over the single backend yields it
    let mut e = dir.get(&host).unwrap().clone();
    let picked = e.backends.select().unwrap();
    assert_eq!(picked.ip, "127.0.0.1");
    assert_eq!(picked.port, 8080);
}

#[test]
fn bootstrap_failure_of_one_route_spares_the_others() {
    let mut dir = RouteDirectory::new();
    let routes = vec![
        StaticRoute {
            host: "bad.test".to_string(),
            upstreams: Vec::new(),
            path_patterns: Vec::new(),
            header_add: Vec::new(),
            header_remove: Vec::new(),
            plugins: Vec::new(),
            self_signed: None,
        },
        StaticRoute {
            host: "good.test".to_string(),
            upstreams: vec![ups("127.0.0.1", 9000)],
            path_patterns: Vec::new(),
            header_add: Vec::new(),
            header_remove: Vec::new(),
            plugins: Vec::new(),
            self_signed: Some(true),
        },
    ];
    let outcomes = add_routes_from_config(&mut dir, &routes);
    assert_eq!(
        outcomes,
        vec![ApplyOutcome::RejectedUpstreams, ApplyOutcome::Applied]
    );
    assert!(dir.get(&"bad.test".to_string()).is_none());
    let e = dir.get(&"good.test".to_string()).unwrap();
    assert!(e.self_signed);
}

#[test]
fn dynamic_update_scenario() {
    let mut dir = RouteDirectory::new();
    let routes = vec![StaticRoute {
        host: "a.test".to_string(),
        upstreams: vec![ups("127.0.0.1", 8080)],
        path_patterns: Vec::new(),
        header_add: Vec::new(),
        header_remove: Vec::new(),
        plugins: Vec::new(),
        self_signed: None,
    }];
    add_routes_from_config(&mut dir, &routes);
    let ev = ControlEvent::NewRoute(RouteUpdate {
        host: "a.test".to_string(),
        upstreams: vec!["127.0.0.1:8080".to_string(), "127.0.0.2:8080".to_string()],
        path_matchers: vec!["/api".to_string()],
        host_headers_add: Vec::new(),
        host_headers_remove: Vec::new(),
        plugins: Vec::new(),
        self_signed_certs: false,
    });
    let r = handle_event(&mut dir, &ev);
    assert_eq!(r, Some(ApplyOutcome::Applied));
    let host = "a.test".to_string();
    let mut e = dir.get(&host).unwrap().clone();
    assert_eq!(e.backends.backends.len(), 2);
    assert_eq!(e.path_patterns, vec!["/api".to_string()]);
    let first = e.backends.select().unwrap();
    let second = e.backends.select().unwrap();
    assert_ne!((first.ip, first.port), (second.ip, second.port));
}

#[test]
fn unrecognized_event_is_ignored() {
    let mut dir = RouteDirectory::new();
    apply_simple(&mut dir, "a.test", vec![ups("127.0.0.1", 8080)]);
    let r = handle_event(&mut dir, &ControlEvent::Unrecognized);
    assert_eq!(r, None);
    assert!(dir.get(&"a.test".to_string()).is_some());
    assert!(dir.hosts().len() == 1);
}

#[test]
fn selection_skips_unhealthy_backends() {
    let mut set = BackendSet::new(&vec![
        ups("10.0.0.1", 80),
        ups("10.0.0.2", 80),
        ups("10.0.0.3", 80),
    ]);
    // middle backend probed down
    set.apply_probe_results(&vec![true, false, true]);
    let a = set.select().unwrap();
    let b = set.select().unwrap();
    let c = set.select().unwrap();
    assert_eq!(a.ip, "10.0.0.1");
    assert_eq!(b.ip, "10.0.0.3");
    assert_eq!(c.ip, "10.0.0.1");
}

#[test]
fn selection_falls_back_when_all_unhealthy() {
    let mut set = BackendSet::new(&vec![ups("10.0.0.1", 80), ups("10.0.0.2", 80)]);
    set.apply_probe_results(&vec![false, false]);
    let a = set.select().unwrap();
    let b = set.select().unwrap();
    assert_eq!(a.ip, "10.0.0.1");
    assert_eq!(b.ip, "10.0.0.2");
}

#[test]
fn selection_on_empty_pool_yields_none() {
    let mut set = BackendSet::new(&Vec::<UpstreamAddr>::new());
    assert!(set.select().is_none());
}

#[test]
fn refresh_failure_keeps_existing_membership() {
    let mut dir = RouteDirectory::new();
    let host = "a.test".to_string();
    apply_simple(&mut dir, "a.test", vec![ups("10.0.0.1", 80)]);
    let monitor = HealthService::new();
    assert!(monitor.apply_refresh(&mut dir, &host, &None));
    let e = dir.get(&host).unwrap();
    assert_eq!(e.backends.backends.len(), 1);
    assert_eq!(e.backends.backends[0].addr.ip, "10.0.0.1");
}

#[test]
fn refresh_carries_health_over_for_kept_addresses() {
    let mut dir = RouteDirectory::new();
    let host = "a.test".to_string();
    apply_simple(
        &mut dir,
        "a.test",
        vec![ups("10.0.0.1", 80), ups("10.0.0.2", 80)],
    );
    let monitor = HealthService::new();
    assert!(monitor.apply_probe_results(&mut dir, &host, &vec![true, false]));
    let refreshed = Some(vec![ups("10.0.0.1", 80), ups("10.0.0.3", 80)]);
    assert!(monitor.apply_refresh(&mut dir, &host, &refreshed));
    let e = dir.get(&host).unwrap();
    assert_eq!(e.backends.backends.len(), 2);
    assert_eq!(e.backends.backends[0].addr.ip, "10.0.0.1");
    assert_eq!(e.backends.backends[0].health, Health::Healthy);
    assert_eq!(e.backends.backends[1].addr.ip, "10.0.0.3");
    assert_eq!(e.backends.backends[1].health, Health::Unknown);
}

#[test]
fn hosts_snapshot_lists_every_routed_host_once() {
    let mut dir = RouteDirectory::new();
    apply_simple(&mut dir, "a.test", vec![ups("10.0.0.1", 80)]);
    apply_simple(&mut dir, "b.test", vec![ups("10.0.0.2", 80)]);
    apply_simple(&mut dir, "a.test", vec![ups("10.0.0.5", 80)]);
    let mut hosts = dir.hosts();
    hosts.sort();
    assert_eq!(hosts, vec!["a.test".to_string(), "b.test".to_string()]);
}
