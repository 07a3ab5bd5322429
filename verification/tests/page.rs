use pinto::page::{host_domain, in_scope, lexical_normalize, path_join, request_target, resolve_local, Interceptor, LocalPath, RequestTarget};
use std::path::Path;

fn cfg() -> Interceptor {
    Interceptor {
        host_url: "http://localhost:8000/".into(),
        bench_sites_path: Some("/bench/sites".into()),
        site_public_path: Some("/bench/sites/site/public".into()),
        sid: None,
    }
}

#[test]
fn assets_in_scope_are_safe() {
    match resolve_local("assets/frappe/css/app.css", &cfg()).unwrap() {
        LocalPath::Resolved { path, safe } => {
            assert!(safe);
            assert!(Path::new(&path).starts_with("/bench/sites/assets/"));
        }
        other => panic!("unexpected {:?}", other),
    }
}

#[test]
fn asset_path_traversal_is_denied() {
    match resolve_local("assets/../../etc/passwd", &cfg()).unwrap() {
        LocalPath::Resolved { safe, .. } => assert!(!safe),
        other => panic!("unexpected {:?}", other),
    }
}

#[test]
fn host_domain_strips_scheme_and_port() {
    assert_eq!(host_domain("http://example.com:8000/"), "example.com");
}

#[test]
fn host_domain_other_shapes() {
    assert_eq!(host_domain("https://site.test/path"), "site.test");
    assert_eq!(host_domain("localhost"), "localhost");
    assert_eq!(host_domain("http://http://x:1"), "x");
}

#[test]
fn lexical_normalize_resolves_dots() {
    assert_eq!(lexical_normalize("/a/./b/../c//d/"), "/a/c/d");
    assert_eq!(lexical_normalize("../x/.."), "..");
    assert_eq!(lexical_normalize("/../x"), "/x");
    assert_eq!(lexical_normalize("/a/../../b"), "/b");
    assert_eq!(lexical_normalize("/a/b/../c/./d"), "/a/c/d");
    assert_eq!(lexical_normalize("/.."), "/");
    assert_eq!(lexical_normalize("a/b/../../.."), "..");
}

#[test]
fn scope_and_join() {
    assert!(in_scope("/srv/public/files/a.png", "/srv/public"));
    assert!(!in_scope("/srv/publicity/a.png", "/srv/public"));
    assert!(!in_scope("/srv/public/../secret", "/srv/public"));
    assert_eq!(path_join("/srv/public", "files/a.png"), "/srv/public/files/a.png");
    assert_eq!(path_join("/srv/public/", "x"), "/srv/public/x");
    assert_eq!(path_join("/srv", "/etc/passwd"), "/etc/passwd");
}

#[test]
fn public_files_are_resolved_against_the_file_system() {
    match resolve_local("files/logo.png", &cfg()).unwrap() {
        LocalPath::UnderPublic { public, rel } => {
            assert_eq!(public, "/bench/sites/site/public");
            assert_eq!(rel, "files/logo.png");
        }
        other => panic!("unexpected {:?}", other),
    }
    let no_bench = Interceptor { bench_sites_path: None, ..cfg() };
    assert!(resolve_local("assets/x.css", &no_bench).is_none());
}

#[test]
fn requests_are_classified() {
    let host = "http://localhost:8000/";
    assert!(matches!(request_target("https://cdn.example/x.js", host), RequestTarget::Other));
    assert!(matches!(request_target("http://localhost:8000/?v=3", host), RequestTarget::HostRoot));
    match request_target("http://localhost:8000/files/a%20b.svg?v=1", host) {
        RequestTarget::HostPath { path, clean, svg } => {
            assert_eq!(path, "files/a%20b.svg");
            assert_eq!(clean, "files/a b.svg");
            assert!(svg);
        }
        other => panic!("unexpected {:?}", other),
    }
}

#[test]
fn normalizing_twice_is_normalizing_once() {
    for p in ["/a/./b/../../../c", "x/../../y/.", "", "/", "..//a/b/..", "a/./././"] {
        let once = lexical_normalize(p);
        assert_eq!(lexical_normalize(&once), once, "{p}");
    }
}

#[test]
fn safe_assets_hold_no_parent_steps_below_the_root() {
    match resolve_local("assets/a/../b/./c.css", &cfg()).unwrap() {
        LocalPath::Resolved { path, safe } => {
            assert!(safe);
            assert_eq!(path, "/bench/sites/assets/b/c.css");
        }
        other => panic!("unexpected {:?}", other),
    }
    match resolve_local("assets//etc/passwd", &cfg()).unwrap() {
        LocalPath::Resolved { path, safe } => {
            assert!(!safe);
            assert_eq!(path, "/etc/passwd");
        }
        other => panic!("unexpected {:?}", other),
    }
}

#[test]
fn parent_of_root_is_root() {
    assert!(in_scope("/../srv/public/x", "/srv/public"));
    assert_eq!(lexical_normalize("../a/../.."), "../..");
}
