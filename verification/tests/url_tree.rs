use pingora_ingress::url_tree::Node;

#[test]
fn test_node() {
    let mut root = Node::default();

    root.insert_path("/api/v1/task/create", "avtc");
    root.insert_path("/api/v1/task/delete", "avtd");
    root.insert_path("/api/v2/update", "avu");
    root.insert_path("/api/v2/", "av2");
    root.insert_path("/api", "api");
    root.insert_path("/", "default");
    root.insert_path("", "null");

    let res = root.find_by_path("/api/v1/task/create").unwrap();
    assert_eq!(*res, "avtc");

    let res = root.find_by_path("/api/v1/task/create/1234").unwrap();
    assert_eq!(*res, "avtc");

    let res = root.find_by_path("/api/v1/task").unwrap();
    assert_eq!(*res, "api");

    let res = root.find_by_path("/api/v2/task/update").unwrap();
    assert_eq!(*res, "av2");

    let res = root.find_by_path("/api/v2").unwrap();
    assert_eq!(*res, "api");

    let res = root.find_by_path("/api").unwrap();
    assert_eq!(*res, "api");

    let res = root.find_by_path("/").unwrap();
    assert_eq!(*res, "default");

    let res = root.find_by_path("").unwrap();
    assert_eq!(*res, "null");

    root.insert_path("/api/v2/", "api2");
    let res = root.find_by_path("/api/v2/xxx").unwrap();
    assert_eq!(*res, "api2");
}

#[test]
fn insert_then_find_same_path() {
    let mut root = Node::default();
    assert!(root.insert_path("/svc/alpha/beta", 7u32));
    assert_eq!(root.find_by_path("/svc/alpha/beta"), Some(&7u32));
    assert!(root.insert_path("/svc/alpha/beta", 8u32));
    assert_eq!(root.find_by_path("/svc/alpha/beta"), Some(&8u32));
}

#[test]
fn trailing_slash_matches_any_suffix() {
    let mut root = Node::default();
    assert!(root.insert_path("/files/", "fs"));
    assert_eq!(root.find_by_path("/files/a"), Some(&"fs"));
    assert_eq!(root.find_by_path("/files/a/b/c"), Some(&"fs"));
    assert_eq!(root.find_by_path("/files/"), Some(&"fs"));
}

#[test]
fn empty_path_value_answers_unmatched_queries() {
    let mut root = Node::default();
    assert!(root.insert_path("", "root"));
    assert_eq!(root.find_by_path("/nothing/here"), Some(&"root"));
    assert_eq!(root.find_by_path(""), Some(&"root"));
}

#[test]
fn conflicting_root_segment_is_rejected() {
    let mut root = Node::default();
    assert!(root.insert_path("/a/b", 1u8));
    assert!(!root.insert_path("a/b", 2u8));
    assert_eq!(root.find_by_path("/a/b"), Some(&1u8));
}

#[test]
fn miss_returns_nothing() {
    let mut root = Node::default();
    assert!(root.insert_path("/a/b", 1u8));
    assert_eq!(root.find_by_path("/c"), None);
}
