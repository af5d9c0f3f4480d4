use pingora_ingress::ingress::{IngHost, IngRule, IngSni, IngressEvent};
use pingora_ingress::router::{route_request, upstream_of, RouteTable};

fn rule(path: &str, ty: u8, backend: &str, port: i32) -> IngRule {
    IngRule { path: path.to_string(), ty, backend: backend.to_string(), port }
}

fn update_event(host: &str, rules: Vec<IngRule>) -> IngressEvent {
    IngressEvent {
        ty: 2,
        default_backend: None,
        hosts: vec![IngHost { host: host.to_string(), rules }],
        sni: IngSni::empty(),
    }
}

fn delete_event(host: &str) -> IngressEvent {
    IngressEvent {
        ty: 3,
        default_backend: None,
        hosts: vec![IngHost { host: host.to_string(), rules: vec![] }],
        sni: IngSni::empty(),
    }
}

fn default_backend_event(backend: &str, port: i32) -> IngressEvent {
    IngressEvent {
        ty: 2,
        default_backend: Some(rule("", 1, backend, port)),
        hosts: vec![],
        sni: IngSni::empty(),
    }
}

#[test]
fn prefix_rule_routes_requests() {
    let mut t = RouteTable::new();
    assert!(t.apply_event(update_event("h.example", vec![rule("/api/", 1, "svc-api", 8080)])));
    let ctx = route_request(&t, "h.example", "/api/anything/below");
    let s = ctx.service.expect("route");
    assert_eq!(s.backend, "svc-api");
    assert_eq!(s.port, 8080);
}

#[test]
fn exact_rule_wins_over_prefix() {
    let mut t = RouteTable::new();
    assert!(t.apply_event(update_event(
        "h.example",
        vec![rule("/api/", 1, "svc-prefix", 80), rule("/api/x", 2, "svc-exact", 81)],
    )));
    let ctx = route_request(&t, "h.example", "/api/x");
    assert_eq!(ctx.service.unwrap().backend, "svc-exact");
    let ctx = route_request(&t, "h.example", "/api/y");
    assert_eq!(ctx.service.unwrap().backend, "svc-prefix");
}

#[test]
fn unknown_rule_kind_is_skipped() {
    let mut t = RouteTable::new();
    assert!(t.apply_event(update_event("h", vec![rule("/spec", 3, "svc", 80)])));
    let ctx = route_request(&t, "h", "/spec");
    assert!(ctx.service.is_none());
}

#[test]
fn update_with_exact_rule_keeps_prefix_routes() {
    let mut t = RouteTable::new();
    assert!(t.apply_event(update_event("h", vec![rule("/files/", 1, "svc-files", 80)])));
    assert!(t.apply_event(update_event("h", vec![rule("/exact", 2, "svc-exact", 81)])));
    let ctx = route_request(&t, "h", "/files/deep/path");
    assert_eq!(ctx.service.unwrap().backend, "svc-files");
    let ctx = route_request(&t, "h", "/exact");
    assert_eq!(ctx.service.unwrap().backend, "svc-exact");
}

#[test]
fn delete_removes_the_whole_router() {
    let mut t = RouteTable::new();
    assert!(t.apply_event(default_backend_event("fallback", 9000)));
    assert!(t.apply_event(update_event("h", vec![rule("/api/", 1, "svc-api", 80)])));
    let ctx = route_request(&t, "h", "/api/x");
    assert_eq!(ctx.service.unwrap().backend, "svc-api");

    assert!(t.apply_event(delete_event("h")));
    let ctx = route_request(&t, "h", "/api/x");
    assert_eq!(ctx.service.unwrap().backend, "fallback");
}

#[test]
fn missing_route_and_missing_default_yield_no_service() {
    let mut t = RouteTable::new();
    assert!(t.apply_event(update_event("h", vec![rule("/only", 2, "svc", 80)])));
    let ctx = route_request(&t, "other", "/only");
    assert!(ctx.service.is_none());
    assert!(upstream_of(&ctx).is_none());
}

#[test]
fn parent_domain_fallback_strips_labels() {
    let mut t = RouteTable::new();
    assert!(t.apply_event(update_event("example.com", vec![rule("/", 1, "svc-root", 80)])));
    let ctx = route_request(&t, "a.b.example.com", "/x");
    assert_eq!(ctx.service.unwrap().backend, "svc-root");
}

#[test]
fn host_port_is_stripped() {
    let mut t = RouteTable::new();
    assert!(t.apply_event(update_event("example.com", vec![rule("/", 1, "svc-root", 80)])));
    let ctx = route_request(&t, "example.com:8443", "/x");
    assert_eq!(ctx.service.unwrap().backend, "svc-root");
}

#[test]
fn sni_reaches_the_context_and_enables_tls() {
    let mut t = RouteTable::new();
    let mut sni = IngSni::empty();
    sni.sni.insert("h".to_string(), "cert-secret".to_string());
    let ev = IngressEvent {
        ty: 2,
        default_backend: None,
        hosts: vec![IngHost { host: "h".to_string(), rules: vec![rule("/", 1, "svc", 443)] }],
        sni,
    };
    assert!(t.apply_event(ev));
    let ctx = route_request(&t, "h", "/a");
    assert_eq!(ctx.sni, "cert-secret");
    let up = upstream_of(&ctx).unwrap();
    assert!(up.use_tls);
    assert_eq!(up.sni, "cert-secret");
    assert_eq!(up.backend, "svc");
    assert_eq!(up.port, 443u16);
}

#[test]
fn no_sni_means_no_tls() {
    let mut t = RouteTable::new();
    assert!(t.apply_event(update_event("h", vec![rule("/", 1, "svc", 80)])));
    let ctx = route_request(&t, "h", "/a");
    assert_eq!(ctx.sni, "");
    let up = upstream_of(&ctx).unwrap();
    assert!(!up.use_tls);
    assert_eq!(up.port, 80u16);
}

#[test]
fn conflicting_event_is_reported() {
    let mut t = RouteTable::new();
    let ev = update_event("h", vec![rule("x/y", 1, "a", 80), rule("/z", 1, "b", 80)]);
    assert!(!t.apply_event(ev));
}

#[test]
fn unknown_event_kind_changes_nothing() {
    let mut t = RouteTable::new();
    assert!(t.apply_event(update_event("h", vec![rule("/", 1, "svc", 80)])));
    let ev = IngressEvent {
        ty: 9,
        default_backend: Some(rule("", 1, "ignored", 1)),
        hosts: vec![IngHost { host: "h".to_string(), rules: vec![] }],
        sni: IngSni::empty(),
    };
    assert!(t.apply_event(ev));
    let ctx = route_request(&t, "h", "/a");
    assert_eq!(ctx.service.unwrap().backend, "svc");
}

#[test]
fn published_snapshot_is_unaffected_by_later_updates() {
    let mut current = RouteTable::new();
    assert!(current.apply_event(update_event("h", vec![rule("/p", 2, "svc-old", 80)])));
    let published = current.duplicate();

    let mut scratch = published.duplicate();
    assert!(scratch.apply_event(update_event("h", vec![rule("/p", 2, "svc-new", 81)])));

    let old_ctx = route_request(&published, "h", "/p");
    assert_eq!(old_ctx.service.unwrap().backend, "svc-old");
    let new_ctx = route_request(&scratch, "h", "/p");
    assert_eq!(new_ctx.service.unwrap().backend, "svc-new");
}

#[test]
fn rejected_event_leaves_the_published_table_in_use() {
    let mut current = RouteTable::new();
    assert!(current.apply_event(update_event("h", vec![rule("/p/", 1, "svc", 80)])));
    let mut scratch = current.duplicate();
    let bad = update_event("h", vec![rule("q/r", 1, "other", 80)]);
    assert!(!scratch.apply_event(bad));
    let ctx = route_request(&current, "h", "/p/x");
    assert_eq!(ctx.service.unwrap().backend, "svc");
}
