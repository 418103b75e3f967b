use aleph_resolver::import_map::ImportHashMap;
use aleph_resolver::resolver::{hash_placeholder, Resolver};

fn empty_map() -> ImportHashMap {
    ImportHashMap { imports: vec![], scopes: vec![] }
}

#[test]
fn resolver_fix_import_url() {
    let resolver = Resolver::new("/app.tsx", empty_map(), None, None, false, vec![]);
    assert_eq!(
        resolver.fix_import_url("https://esm.sh/react"),
        "/-/esm.sh/react.js"
    );
    assert_eq!(
        resolver.fix_import_url("https://esm.sh/react@17.0.1?target=es2015&dev"),
        "/-/esm.sh/react@17.0.1_target=es2015&dev.js"
    );
    assert_eq!(
        resolver.fix_import_url("http://localhost:8080/mod"),
        "/-/http_localhost_8080/mod.js"
    );
    assert_eq!(
        resolver.fix_import_url("/components/foo/./logo.tsx"),
        "/components/foo/logo.tsx"
    );
    assert_eq!(
        resolver.fix_import_url("/components/foo/../logo.tsx"),
        "/components/logo.tsx"
    );
    assert_eq!(
        resolver.fix_import_url("/components/../foo/logo.tsx"),
        "/foo/logo.tsx"
    );
    assert_eq!(
        resolver.fix_import_url("/components/logo.tsx"),
        "/components/logo.tsx"
    );
    assert_eq!(
        resolver.fix_import_url("../components/logo.tsx"),
        "../components/logo.tsx"
    );
    assert_eq!(resolver.fix_import_url("./button.tsx"), "./button.tsx");
}

#[test]
fn resolve_local() {
    let imports: Vec<(String, String)> = vec![
        ("@/".into(), "./".into()),
        ("~/".into(), "./".into()),
        ("react".into(), "https://esm.sh/react".into()),
        ("react-dom/".into(), "https://esm.sh/react-dom/".into()),
        (
            "https://deno.land/x/aleph/".into(),
            "http://localhost:2020/".into(),
        ),
    ];
    let mut resolver = Resolver::new(
        "/pages/index.tsx",
        ImportHashMap { imports, scopes: vec![] },
        None,
        Some("17.0.1".into()),
        false,
        vec![],
    );
    assert_eq!(
        resolver.resolve("https://esm.sh/react", false, None).unwrap(),
        (
            "../-/esm.sh/react@17.0.1.js".into(),
            "https://esm.sh/react@17.0.1".into()
        )
    );
    assert_eq!(
        resolver
            .resolve("https://esm.sh/react-refresh", false, None)
            .unwrap(),
        (
            "../-/esm.sh/react-refresh.js".into(),
            "https://esm.sh/react-refresh".into()
        )
    );
    assert_eq!(
        resolver
            .resolve(
                "https://deno.land/x/aleph/framework/react/link.ts",
                false,
                None
            )
            .unwrap(),
        (
            "../-/http_localhost_2020/framework/react/link.js".into(),
            "http://localhost:2020/framework/react/link.ts".into()
        )
    );
    assert_eq!(
        resolver.resolve("https://esm.sh/react@16", false, None).unwrap(),
        (
            "../-/esm.sh/react@17.0.1.js".into(),
            "https://esm.sh/react@17.0.1".into()
        )
    );
    assert_eq!(
        resolver.resolve("https://esm.sh/react-dom", false, None).unwrap(),
        (
            "../-/esm.sh/react-dom@17.0.1.js".into(),
            "https://esm.sh/react-dom@17.0.1".into()
        )
    );
    assert_eq!(
        resolver
            .resolve("https://esm.sh/react-dom@16.14.0", false, None)
            .unwrap(),
        (
            "../-/esm.sh/react-dom@17.0.1.js".into(),
            "https://esm.sh/react-dom@17.0.1".into()
        )
    );
    assert_eq!(
        resolver
            .resolve("https://esm.sh/react-dom/server", false, None)
            .unwrap(),
        (
            "../-/esm.sh/react-dom@17.0.1/server.js".into(),
            "https://esm.sh/react-dom@17.0.1/server".into()
        )
    );
    assert_eq!(
        resolver
            .resolve("https://esm.sh/react-dom@16.13.1/server", false, None)
            .unwrap(),
        (
            "../-/esm.sh/react-dom@17.0.1/server.js".into(),
            "https://esm.sh/react-dom@17.0.1/server".into()
        )
    );
    assert_eq!(
        resolver.resolve("react-dom/server", false, None).unwrap(),
        (
            "../-/esm.sh/react-dom@17.0.1/server.js".into(),
            "https://esm.sh/react-dom@17.0.1/server".into()
        )
    );
    assert_eq!(
        resolver.resolve("react", false, None).unwrap(),
        (
            "../-/esm.sh/react@17.0.1.js".into(),
            "https://esm.sh/react@17.0.1".into()
        )
    );
    assert_eq!(
        resolver
            .resolve("https://deno.land/x/aleph/mod.ts", false, None)
            .unwrap(),
        (
            "../-/http_localhost_2020/mod.js".into(),
            "http://localhost:2020/mod.ts".into()
        )
    );
    assert_eq!(
        resolver.resolve("../components/logo.tsx", false, None).unwrap(),
        (
            format!("../components/logo.{}.js", hash_placeholder()),
            "/components/logo.tsx".into()
        )
    );
    assert_eq!(
        resolver.resolve("../styles/app.css", false, None).unwrap(),
        (
            format!("../styles/app.css.{}.js", hash_placeholder()),
            "/styles/app.css".into()
        )
    );
    assert_eq!(
        resolver.resolve("@/components/logo.tsx", false, None).unwrap(),
        (
            format!("../components/logo.{}.js", hash_placeholder()),
            "/components/logo.tsx".into()
        )
    );
    assert_eq!(
        resolver.resolve("~/components/logo.tsx", false, None).unwrap(),
        (
            format!("../components/logo.{}.js", hash_placeholder()),
            "/components/logo.tsx".into()
        )
    );
}

#[test]
fn resolve_remote_1() {
    let mut resolver = Resolver::new(
        "https://esm.sh/react-dom",
        empty_map(),
        None,
        Some("17.0.1".into()),
        false,
        vec![],
    );
    assert_eq!(
        resolver
            .resolve(
                "https://cdn.esm.sh/react@17.0.1/es2020/react.js",
                false,
                None
            )
            .unwrap(),
        (
            "../cdn.esm.sh/react@17.0.1/es2020/react.js".into(),
            "https://cdn.esm.sh/react@17.0.1/es2020/react.js".into()
        )
    );
    assert_eq!(
        resolver.resolve("./react", false, None).unwrap(),
        (
            "./react@17.0.1.js".into(),
            "https://esm.sh/react@17.0.1".into()
        )
    );
    assert_eq!(
        resolver.resolve("/react", false, None).unwrap(),
        (
            "./react@17.0.1.js".into(),
            "https://esm.sh/react@17.0.1".into()
        )
    );
}

#[test]
fn resolve_remote_2() {
    let mut resolver = Resolver::new(
        "https://esm.sh/preact/hooks",
        empty_map(),
        None,
        None,
        false,
        vec![],
    );
    assert_eq!(
        resolver
            .resolve(
                "https://cdn.esm.sh/preact@10.5.7/es2020/preact.js",
                false,
                None
            )
            .unwrap(),
        (
            "../../cdn.esm.sh/preact@10.5.7/es2020/preact.js".into(),
            "https://cdn.esm.sh/preact@10.5.7/es2020/preact.js".into()
        )
    );
    assert_eq!(
        resolver.resolve("../preact", false, None).unwrap(),
        ("../preact.js".into(), "https://esm.sh/preact".into())
    );
    assert_eq!(
        resolver.resolve("/preact", false, None).unwrap(),
        ("../preact.js".into(), "https://esm.sh/preact".into())
    );
}
