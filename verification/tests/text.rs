use pingora_ingress::strmap::StrMap;
use pingora_ingress::text::{find_char, split_char, str_eq};

#[test]
fn split_mirrors_the_standard_splitter() {
    for s in ["", "/", "/api/v2/", "a//b", "plain", "/x"] {
        let expected: Vec<&str> = s.split('/').collect();
        let got = split_char(s, '/');
        assert_eq!(got, expected);
    }
}

#[test]
fn str_eq_decides_equality() {
    assert!(str_eq("", ""));
    assert!(str_eq("abc", "abc"));
    assert!(!str_eq("abc", "abd"));
    assert!(!str_eq("abc", "ab"));
}

#[test]
fn find_char_gives_the_first_hit() {
    assert_eq!(find_char("a.b.c", '.'), Some(1));
    assert_eq!(find_char("abc", '.'), None);
    assert_eq!(find_char(":8080", ':'), Some(0));
}

#[test]
fn strmap_inserts_replace_and_remove() {
    let mut m: StrMap<i32> = StrMap::new();
    assert_eq!(m.get("a"), None);
    m.insert("a".to_string(), 1);
    m.insert("b".to_string(), 2);
    assert_eq!(m.get("a"), Some(&1));
    m.insert("a".to_string(), 3);
    assert_eq!(m.get("a"), Some(&3));
    assert_eq!(m.len(), 2);
    assert!(m.contains_key("b"));
    m.remove("a");
    assert_eq!(m.get("a"), None);
    assert_eq!(m.take("b"), Some(2));
    assert_eq!(m.len(), 0);
}
