use josh::auth::{hash_strings, parse_auth};
use josh::namespace::{baseref_and_options, to_ns, TmpGitNamespace};
use josh::route::AppRoute;

#[test]
fn auth_header_roundtrip() {
    let header = format!("Basic {}", base64::encode("user:secret"));
    let (u, p) = parse_auth(&header).unwrap();
    assert_eq!(u, "user");
    assert_eq!(p, "secret");
}

#[test]
fn auth_header_rejects() {
    assert!(parse_auth("Basic").is_none());
    assert!(parse_auth("Basic !!!!").is_none());
    let no_colon = format!("Basic {}", base64::encode("nocolon"));
    assert!(parse_auth(&no_colon).is_none());
    let two_colons = format!("Basic {}", base64::encode("a:b:c"));
    assert!(parse_auth(&two_colons).is_none());
}

#[test]
fn credential_digest() {
    let d = hash_strings("url", "user", "pass");
    assert_eq!(d.len(), 40);
    assert_ne!(d, "url:user:pass");
    assert_eq!(d, hash_strings("url", "user", "pass"));
    assert_ne!(d, hash_strings("url", "user", "other"));
    assert!(d.chars().all(|c| c.is_ascii_hexdigit()));
}

#[test]
fn namespace_names() {
    let ns = TmpGitNamespace::new("/tmp/repo");
    assert!(ns.name().starts_with("request_"));
    assert_eq!(ns.name().len(), 44);
    assert_eq!(
        ns.reference("refs/heads/x"),
        format!("refs/namespaces/{}/refs/heads/x", ns.name())
    );
    let ns2 = TmpGitNamespace::new("/tmp/repo");
    assert_ne!(ns.name(), ns2.name());
}

#[test]
fn namespace_encoding() {
    assert_eq!(to_ns("/a/b/"), "a/refs/namespaces/b");
    assert_eq!(to_ns("repo.git"), "repo.git");
    assert_eq!(to_ns("///"), "");
}

#[test]
fn push_ref_options() {
    let (baseref, push_to, options) =
        baseref_and_options("refs/for/master%topic=t,notify=none").unwrap();
    assert_eq!(baseref, "refs/heads/master");
    assert_eq!(push_to, "refs/for/master");
    assert_eq!(options, vec!["topic=t".to_string(), "notify=none".to_string()]);

    let (b2, p2, o2) = baseref_and_options("refs/drafts/x").unwrap();
    assert_eq!(b2, "refs/heads/x");
    assert_eq!(p2, "refs/drafts/x");
    assert!(o2.is_empty());

    let (b3, _, _) = baseref_and_options("refs/heads/y").unwrap();
    assert_eq!(b3, "refs/heads/y");
}

#[test]
fn route_navigation() {
    let r = AppRoute {
        mode: "browse".to_string(),
        repo: "r.git".to_string(),
        rev: "HEAD".to_string(),
        filter: ":nop".to_string(),
        path: "a/b/c".to_string(),
        meta: "".to_string(),
    };
    assert_eq!(r.filename(), "c");
    let up = r.path_up();
    assert_eq!(up.path, "a/b");
    assert_eq!(up.path_up().path, "a");
    assert_eq!(up.path_up().path_up().path, "");
    let crumbs = r.breadcrumbs();
    assert_eq!(crumbs.len(), 3);
    assert_eq!(crumbs[0].path, "a/b/c");
    assert_eq!(crumbs[2].path, "a");
    assert_eq!(r.with_path("z").path, "z");
    assert_eq!(r.edit_filter().mode, "filter");
    let wf = r.with_filter(":/sub");
    assert_eq!(wf.mode, "browse");
    assert_eq!(wf.filter, ":/sub");
    assert_eq!(r.with_rev("v1").rev, "v1");
}
