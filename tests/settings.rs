use fjump::config::{add_root, mark, remove_root, unmark, Config};

#[test]
fn roots_are_added_once() {
    let mut c = Config::new();
    assert_eq!(add_root(&mut c, "/code"), Some("/code".to_string()));
    assert_eq!(add_root(&mut c, "/code"), None);
    assert!(c.insert_root("/other".to_string()));
    assert_eq!(c.roots, vec!["/code".to_string(), "/other".to_string()]);
}

#[test]
fn tilde_is_expanded() {
    let mut c = Config::new();
    let added = add_root(&mut c, "~/code").unwrap();
    assert!(added.ends_with("/code"));
    assert_ne!(added, "~/code");
    assert_eq!(add_root(&mut c, "~user/x"), Some("~user/x".to_string()));
}

#[test]
fn roots_are_removed() {
    let mut c = Config::new();
    c.roots = vec!["/a".to_string(), "/b".to_string(), "/a".to_string()];
    assert!(remove_root(&mut c, "/a"));
    assert_eq!(c.roots, vec!["/b".to_string(), "/a".to_string()]);
    assert!(!remove_root(&mut c, "/zzz"));
}

#[test]
fn bookmarks_set_replace_and_remove() {
    let mut c = Config::new();
    assert_eq!(mark(&mut c, "w", "/work"), "/work");
    mark(&mut c, "h", "/home/me");
    assert_eq!(c.mark_target("w"), Some("/work".to_string()));
    mark(&mut c, "w", "/work2");
    assert_eq!(c.marks.len(), 2);
    assert_eq!(c.mark_target("w"), Some("/work2".to_string()));
    unmark(&mut c, "w");
    assert_eq!(c.mark_target("w"), None);
    assert_eq!(c.mark_target("h"), Some("/home/me".to_string()));
}
