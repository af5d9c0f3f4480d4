use pingora_ingress::ingress::{
    IngressEvent, IngSni, RawEvent, RawHttpPath, RawIngress, RawIngressSpec, RawRule, RawService,
    RawTls, path_kind,
};

fn service(name: &str, port: Option<i32>) -> RawService {
    RawService { name: name.to_string(), port }
}

fn http_path(path_type: &str, path: Option<&str>, svc: Option<RawService>) -> RawHttpPath {
    RawHttpPath {
        path_type: path_type.to_string(),
        path: path.map(|p| p.to_string()),
        service: svc,
    }
}

fn ingress(class: Option<&str>, host: &str, paths: Vec<RawHttpPath>) -> RawIngress {
    RawIngress {
        spec: Some(RawIngressSpec {
            ingress_class_name: class.map(|c| c.to_string()),
            default_backend: None,
            rules: vec![RawRule { host: Some(host.to_string()), paths }],
            tls: vec![],
        }),
    }
}

#[test]
fn path_kind_names_are_case_insensitive() {
    assert_eq!(path_kind("Prefix"), 1);
    assert_eq!(path_kind("prefix"), 1);
    assert_eq!(path_kind("PREFIX"), 1);
    assert_eq!(path_kind("Exact"), 2);
    assert_eq!(path_kind("ImplementationSpecific"), 3);
    assert_eq!(path_kind("somethingelse"), 99);
    assert_eq!(path_kind(""), 99);
}

#[test]
fn foreign_class_contributes_nothing() {
    let ing = ingress(
        Some("nginx"),
        "h.example",
        vec![http_path("Prefix", Some("/x"), Some(service("backend", Some(8080))))],
    );
    let (db, hosts, sni) = IngressEvent::ing_to_host_backend(&ing);
    assert!(db.is_none());
    assert!(hosts.is_empty());
    assert_eq!(sni.sni.entries.len(), 0);
}

#[test]
fn own_class_and_unset_class_contribute() {
    for class in [Some("pingora"), None] {
        let ing = ingress(
            class,
            "h.example",
            vec![http_path("Prefix", Some("/x"), Some(service("backend", Some(8080))))],
        );
        let (_, hosts, _) = IngressEvent::ing_to_host_backend(&ing);
        assert_eq!(hosts.len(), 1);
        assert_eq!(hosts[0].host, "h.example");
        assert_eq!(hosts[0].rules.len(), 1);
        assert_eq!(hosts[0].rules[0].path, "/x");
        assert_eq!(hosts[0].rules[0].ty, 1);
        assert_eq!(hosts[0].rules[0].backend, "backend");
        assert_eq!(hosts[0].rules[0].port, 8080);
    }
}

#[test]
fn missing_spec_contributes_nothing() {
    let (db, hosts, sni) = IngressEvent::ing_to_host_backend(&RawIngress { spec: None });
    assert!(db.is_none());
    assert!(hosts.is_empty());
    assert_eq!(sni.sni.entries.len(), 0);
}

#[test]
fn absent_port_defaults_to_80() {
    let ing = ingress(
        None,
        "h",
        vec![http_path("Exact", Some("/y"), Some(service("svc", None)))],
    );
    let (_, hosts, _) = IngressEvent::ing_to_host_backend(&ing);
    assert_eq!(hosts[0].rules[0].port, 80);
    assert_eq!(hosts[0].rules[0].ty, 2);
}

#[test]
fn path_without_service_is_dropped() {
    let ing = ingress(
        None,
        "h",
        vec![
            http_path("Prefix", Some("/kept"), Some(service("svc", Some(80)))),
            http_path("Prefix", Some("/dropped"), None),
        ],
    );
    let (_, hosts, _) = IngressEvent::ing_to_host_backend(&ing);
    assert_eq!(hosts[0].rules.len(), 1);
    assert_eq!(hosts[0].rules[0].path, "/kept");
}

#[test]
fn host_without_usable_paths_is_dropped() {
    let ing = ingress(None, "h", vec![http_path("Prefix", Some("/p"), None)]);
    let (_, hosts, _) = IngressEvent::ing_to_host_backend(&ing);
    assert!(hosts.is_empty());
}

#[test]
fn tls_stanzas_build_the_sni_map() {
    let ing = RawIngress {
        spec: Some(RawIngressSpec {
            ingress_class_name: None,
            default_backend: None,
            rules: vec![],
            tls: vec![
                RawTls {
                    hosts: vec!["a.example".to_string(), "b.example".to_string()],
                    secret_name: Some("cert-1".to_string()),
                },
                RawTls { hosts: vec!["c.example".to_string()], secret_name: None },
            ],
        }),
    };
    let (_, _, sni) = IngressEvent::ing_to_host_backend(&ing);
    assert_eq!(sni.sni.get("a.example"), Some(&"cert-1".to_string()));
    assert_eq!(sni.sni.get("b.example"), Some(&"cert-1".to_string()));
    assert_eq!(sni.sni.get("c.example"), None);
}

#[test]
fn sni_append_prefers_the_newcomer() {
    let mut a = IngSni::empty();
    a.sni.insert("h".to_string(), "old".to_string());
    let mut b = IngSni::empty();
    b.sni.insert("h".to_string(), "new".to_string());
    b.sni.insert("i".to_string(), "extra".to_string());
    a.append(b);
    assert_eq!(a.sni.get("h"), Some(&"new".to_string()));
    assert_eq!(a.sni.get("i"), Some(&"extra".to_string()));
}

#[test]
fn applied_and_deleted_events_carry_their_kind() {
    let ing = ingress(
        None,
        "h",
        vec![http_path("Prefix", Some("/x"), Some(service("svc", Some(80))))],
    );
    let e = IngressEvent::from_raw(RawEvent::Applied(ing));
    assert_eq!(e.ty, 2);
    assert_eq!(e.hosts.len(), 1);

    let ing = ingress(
        None,
        "h",
        vec![http_path("Prefix", Some("/x"), Some(service("svc", Some(80))))],
    );
    let e = IngressEvent::from_raw(RawEvent::Deleted(ing));
    assert_eq!(e.ty, 3);
}

#[test]
fn restart_keeps_only_the_matching_class() {
    let ours = ingress(
        Some("pingora"),
        "ours.example",
        vec![http_path("Prefix", Some("/a"), Some(service("svc-a", Some(80))))],
    );
    let theirs = ingress(
        Some("nginx"),
        "theirs.example",
        vec![http_path("Prefix", Some("/b"), Some(service("svc-b", Some(80))))],
    );
    let e = IngressEvent::from_raw(RawEvent::Restarted(vec![ours, theirs]));
    assert_eq!(e.ty, 1);
    assert_eq!(e.hosts.len(), 1);
    assert_eq!(e.hosts[0].host, "ours.example");
    assert!(e.default_backend.is_none());
}

#[test]
fn restart_keeps_the_last_default_backend() {
    let with_db = |name: &str| RawIngress {
        spec: Some(RawIngressSpec {
            ingress_class_name: None,
            default_backend: Some(service(name, Some(9000))),
            rules: vec![],
            tls: vec![],
        }),
    };
    let e = IngressEvent::from_raw(RawEvent::Restarted(vec![
        with_db("first"),
        with_db("second"),
    ]));
    let db = e.default_backend.unwrap();
    assert_eq!(db.backend, "second");
    assert_eq!(db.port, 9000);
    assert_eq!(db.ty, 1);
    assert_eq!(db.path, "");
}
