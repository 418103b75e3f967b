use aleph_resolver::import_map::ImportHashMap;
use aleph_resolver::resolver::{hash_placeholder, is_remote_url, DependencyDescriptor, Resolver};

fn empty_map() -> ImportHashMap {
    ImportHashMap { imports: vec![], scopes: vec![] }
}

#[test]
fn classify_remote() {
    assert!(is_remote_url("https://esm.sh/react"));
    assert!(is_remote_url("http://localhost:8080/mod"));
    assert!(!is_remote_url("//esm.sh/react"));
    assert!(!is_remote_url("./button.tsx"));
    assert!(!is_remote_url("/pages/index.tsx"));
    assert!(!is_remote_url("react"));
}

#[test]
fn placeholder_has_fixed_length() {
    assert_eq!(hash_placeholder().len(), 9);
    assert_eq!(hash_placeholder(), "xxxxxxxxx");
}

#[test]
fn canonicalize_is_idempotent_on_canonical_paths() {
    let resolver = Resolver::new("/app.tsx", empty_map(), None, None, false, vec![]);
    for p in [
        "/components/logo.tsx",
        "./button.tsx",
        "../components/logo.tsx",
        "lib/util.ts",
    ] {
        let once = resolver.fix_import_url(p);
        assert_eq!(once, p);
        assert_eq!(resolver.fix_import_url(&once), once);
    }
}

#[test]
fn canonicalize_collapses_special_segments() {
    let resolver = Resolver::new("/app.tsx", empty_map(), None, None, false, vec![]);
    assert_eq!(resolver.fix_import_url("/a/../b/c"), "/b/c");
    assert_eq!(resolver.fix_import_url("/a/b/./c"), "/a/b/c");
    assert_eq!(resolver.fix_import_url("/a//b/c"), "/a/b/c");
}

#[test]
fn canonicalize_query_strings_stay_distinct() {
    let resolver = Resolver::new("/app.tsx", empty_map(), None, None, false, vec![]);
    let dev = resolver.fix_import_url("https://esm.sh/react?dev");
    let prod = resolver.fix_import_url("https://esm.sh/react?prod");
    let bare = resolver.fix_import_url("https://esm.sh/react");
    assert_ne!(dev, prod);
    assert_ne!(dev, bare);
    assert!(dev.starts_with("/-/esm.sh/"));
    assert!(prod.starts_with("/-/esm.sh/"));
    assert_eq!(dev, "/-/esm.sh/react_dev.js");
}

#[test]
fn canonicalize_schemes_and_ports_stay_distinct() {
    let resolver = Resolver::new("/app.tsx", empty_map(), None, None, false, vec![]);
    let http = resolver.fix_import_url("http://esm.sh:8080/mod.ts");
    let https = resolver.fix_import_url("https://esm.sh/mod.ts");
    assert_ne!(http, https);
    assert!(http.starts_with("/-/http_"));
    assert_eq!(http, "/-/http_esm.sh_8080/mod.ts");
    assert_eq!(https, "/-/esm.sh/mod.ts");
    // an explicit default port is dropped
    assert_eq!(
        resolver.fix_import_url("http://esm.sh:80/mod.ts"),
        "/-/http_esm.sh/mod.ts"
    );
    assert_eq!(
        resolver.fix_import_url("https://esm.sh:443/mod.ts"),
        "/-/esm.sh/mod.ts"
    );
}

#[test]
fn pinning_already_pinned_is_unchanged() {
    let mut resolver = Resolver::new(
        "/pages/index.tsx",
        empty_map(),
        None,
        Some("17.0.1".into()),
        false,
        vec![],
    );
    assert_eq!(
        resolver.resolve("https://esm.sh/react@17.0.1", false, None).unwrap(),
        (
            "../-/esm.sh/react@17.0.1.js".into(),
            "https://esm.sh/react@17.0.1".into()
        )
    );
    // a non-canonical CDN host is moved onto the canonical one
    assert_eq!(
        resolver.resolve("https://esm.run/react", false, None).unwrap(),
        (
            "../-/esm.sh/react@17.0.1.js".into(),
            "https://esm.sh/react@17.0.1".into()
        )
    );
}

#[test]
fn relation_hint_dot_suppresses_recording() {
    let mut resolver = Resolver::new("/pages/index.tsx", empty_map(), None, None, false, vec![]);
    resolver
        .resolve("../components/logo.tsx", false, Some(".".to_string()))
        .unwrap();
    assert_eq!(resolver.dep_graph.len(), 0);
    resolver
        .resolve("../components/logo.tsx", false, Some("parent".to_string()))
        .unwrap();
    assert_eq!(resolver.dep_graph.len(), 1);
    resolver.resolve("../components/card.tsx", true, None).unwrap();
    assert_eq!(resolver.dep_graph.len(), 2);
    assert_eq!(
        resolver.dep_graph[0],
        DependencyDescriptor { specifier: "/components/logo.tsx".to_string(), is_dynamic: false }
    );
    assert_eq!(
        resolver.dep_graph[1],
        DependencyDescriptor { specifier: "/components/card.tsx".to_string(), is_dynamic: true }
    );
}

#[test]
fn output_path_never_bare() {
    let mut resolver = Resolver::new(
        "https://esm.sh/react-dom",
        empty_map(),
        None,
        None,
        false,
        vec![],
    );
    let (path, _) = resolver.resolve("./react", false, None).unwrap();
    assert!(path.starts_with("./") || path.starts_with("../") || path.starts_with("/"));
    assert_eq!(path, "./react.js");
}

#[test]
fn malformed_remote_specifier_is_an_error() {
    let mut resolver = Resolver::new("https://", empty_map(), None, None, false, vec![]);
    assert!(resolver.resolve("./mod.ts", false, None).is_err());
    assert_eq!(resolver.dep_graph.len(), 0);
    let mut resolver2 = Resolver::new("/app.tsx", empty_map(), None, None, false, vec![]);
    // a remote target with an empty host is malformed
    assert!(resolver2.resolve("https:///mod.ts", false, None).is_err());
    // a remote target with a bad port is malformed
    assert!(resolver2.resolve("http://h:99999/mod.ts", false, None).is_err());
    assert!(resolver2.resolve("http://h:12x/mod.ts", false, None).is_err());
}

#[test]
fn package_base_uri_override_rewrites_origin() {
    let mut resolver = Resolver::new(
        "/pages/index.tsx",
        empty_map(),
        Some("https://deno.land/x/aleph@v0.3.0".to_string()),
        None,
        false,
        vec![],
    );
    assert_eq!(
        resolver
            .resolve("https://deno.land/x/aleph/mod.ts", false, None)
            .unwrap(),
        (
            "../-/deno.land/x/aleph@v0.3.0/mod.js".into(),
            "https://deno.land/x/aleph@v0.3.0/mod.ts".into()
        )
    );
}

#[test]
fn aleph_pkg_uri_default_and_override() {
    let with_default = Resolver::new("/app.tsx", empty_map(), None, None, false, vec![]);
    assert_eq!(with_default.get_aleph_pkg_uri(), "https://deno.land/x/aleph");
    let with_override = Resolver::new(
        "/app.tsx",
        empty_map(),
        Some("http://localhost:2020".to_string()),
        None,
        false,
        vec![],
    );
    assert_eq!(with_override.get_aleph_pkg_uri(), "http://localhost:2020");
}

#[test]
fn import_map_scopes_take_precedence() {
    let map = ImportHashMap {
        imports: vec![("react".into(), "https://esm.sh/react".into())],
        scopes: vec![(
            "/vendor/".into(),
            vec![("react".into(), "https://esm.sh/preact".into())],
        )],
    };
    let mut scoped = Resolver::new("/vendor/mod.tsx", map, None, None, false, vec![]);
    assert_eq!(
        scoped.resolve("react", false, None).unwrap().1,
        "https://esm.sh/preact"
    );
    let map2 = ImportHashMap {
        imports: vec![("react".into(), "https://esm.sh/react".into())],
        scopes: vec![(
            "/vendor/".into(),
            vec![("react".into(), "https://esm.sh/preact".into())],
        )],
    };
    let mut unscoped = Resolver::new("/pages/mod.tsx", map2, None, None, false, vec![]);
    assert_eq!(
        unscoped.resolve("react", false, None).unwrap().1,
        "https://esm.sh/react"
    );
}

#[test]
fn bundled_modules_are_deduplicated_in_order() {
    let resolver = Resolver::new(
        "/app.tsx",
        empty_map(),
        None,
        None,
        true,
        vec![
            "/a.ts".to_string(),
            "/b.ts".to_string(),
            "/a.ts".to_string(),
        ],
    );
    assert!(resolver.bundle_mode);
    assert_eq!(resolver.bundled_modules, vec!["/a.ts".to_string(), "/b.ts".to_string()]);
}

#[test]
fn local_extension_policy() {
    let mut resolver = Resolver::new("/pages/index.tsx", empty_map(), None, None, false, vec![]);
    // a script extension is replaced around the placeholder
    assert_eq!(
        resolver.resolve("./about.jsx", false, None).unwrap().0,
        format!("./about.{}.js", hash_placeholder())
    );
    // a non-script extension is kept, the placeholder is appended
    assert_eq!(
        resolver.resolve("../styles/app.css", false, None).unwrap().0,
        format!("../styles/app.css.{}.js", hash_placeholder())
    );
    // an extensionless local target gets the placeholder too
    assert_eq!(
        resolver.resolve("./LICENSE", false, None).unwrap().0,
        format!("./LICENSE.{}.js", hash_placeholder())
    );
}

#[test]
fn pinning_recognizes_every_cdn_host_shape() {
    let mut resolver = Resolver::new(
        "/pages/index.tsx",
        empty_map(),
        None,
        Some("17.0.1".into()),
        false,
        vec![],
    );
    // a non-canonical host moves to the canonical one
    assert_eq!(
        resolver
            .resolve("https://jspm.dev/npm:react@16", false, None)
            .unwrap()
            .1,
        "https://esm.sh/react@17.0.1"
    );
    assert_eq!(
        resolver
            .resolve("https://cdn.skypack.dev/react-dom@17.0.0/server", false, None)
            .unwrap()
            .1,
        "https://esm.sh/react-dom@17.0.1/server"
    );
    // a first-class canonical host is kept, version directory included
    assert_eq!(
        resolver
            .resolve(
                "https://cdn.esm.sh/v15/react@16.0.0/es2020/react.js",
                false,
                None
            )
            .unwrap()
            .1,
        "https://cdn.esm.sh/v15/react@17.0.1/es2020/react.js"
    );
    // an unrelated package is left alone
    assert_eq!(
        resolver.resolve("https://esm.sh/preact", false, None).unwrap().1,
        "https://esm.sh/preact"
    );
}

#[test]
fn fragment_is_discarded() {
    let resolver = Resolver::new("/app.tsx", empty_map(), None, None, false, vec![]);
    assert_eq!(
        resolver.fix_import_url("https://esm.sh/react#hooks"),
        "/-/esm.sh/react.js"
    );
    assert_eq!(
        resolver.fix_import_url("https://esm.sh/react?dev#hooks"),
        "/-/esm.sh/react_dev.js"
    );
}
