use mielofon::controller::assets::{mime, resolve};
use std::path::Path;

#[test]
fn rejects_parent_traversal() {
    assert!(resolve("/usr/share/mielofon/dashboard", "../config.toml").is_none());
    assert!(resolve("/usr/share/mielofon/dashboard", "assets/../../ca.pem").is_none());
    assert!(resolve("/usr/share/mielofon/dashboard", "..").is_none());
    // Absolute input is rooted (leading '/' stripped), never an escape.
    let p = resolve("/usr/share/mielofon/dashboard", "/etc/passwd").expect("absolute rooted");
    assert_eq!(Path::new(&p), Path::new("/usr/share/mielofon/dashboard/etc/passwd"));
}

#[test]
fn maps_root_to_index() {
    let p = resolve("/srv", "/").expect("index mapped");
    assert_eq!(Path::new(&p), Path::new("/srv/index.html"));
    assert_eq!(resolve("/srv", ""), resolve("/srv", "/"));
}

#[test]
fn resolves_nested_assets() {
    let p = resolve("/srv", "/assets/index-x.js").expect("asset resolved");
    assert_eq!(Path::new(&p), Path::new("/srv/assets/index-x.js"));
}

#[test]
fn dot_maps_to_index_and_root_slash_is_not_doubled() {
    assert_eq!(resolve("/srv/", "."), Some("/srv/index.html".to_string()));
    assert_eq!(resolve("", "a.js"), Some("a.js".to_string()));
    // A name that merely contains dots is not a parent component.
    assert_eq!(resolve("/srv", "a..b/..c"), Some("/srv/a..b/..c".to_string()));
    assert!(resolve("/srv/..", "x").is_none());
}

#[test]
fn content_type_by_extension() {
    assert_eq!(mime("app.js"), "application/javascript; charset=utf-8");
    assert_eq!(mime("site.css"), "text/css; charset=utf-8");
    assert_eq!(mime("logo.svg"), "image/svg+xml");
    assert_eq!(mime("data.json"), "application/json");
    assert_eq!(mime("index.html"), "text/html; charset=utf-8");
    assert_eq!(mime("js"), "text/html; charset=utf-8");
}
