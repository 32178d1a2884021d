//! Paths and app identities.

use temporal::bundle::{
    bundle_identity, bundle_roots, enclosing_app_bundle, file_name, file_stem, identify_executable,
    installed_apps, is_app_path, AppIdentity, FfiError,
};

#[test]
fn helper_attributes_to_outermost_app() {
    let path = "/Applications/Google Chrome.app/Contents/Frameworks/Google Chrome Framework.framework/Versions/1/Helpers/Google Chrome Helper.app/Contents/MacOS/Google Chrome Helper";
    let bundle = enclosing_app_bundle(path).unwrap();
    assert_eq!(bundle, "/Applications/Google Chrome.app");
}

#[test]
fn non_bundled_process_falls_back_to_executable_name() {
    assert_eq!(enclosing_app_bundle("/usr/bin/lsof"), None);
    let identity = identify_executable("/usr/bin/lsof", None, None);
    assert_eq!(identity.bundle_id, "");
    assert_eq!(identity.app_name, "lsof");
    assert_eq!(identity.bundle_path, None);
}

#[test]
fn process_without_a_path_falls_back_to_its_process_name() {
    assert_eq!(identify_executable("", None, Some("launchd".into())).app_name, "launchd");
    assert_eq!(identify_executable("", None, None).app_name, "");
}

#[test]
fn file_names_follow_path_components() {
    for path in ["/a/b", "/a/b/", "/a//b//", "b", "./b", "/a/b/.", "/a/..", "/", "", ".", ".."] {
        let expected =
            std::path::Path::new(path).file_name().map(|n| n.to_string_lossy().into_owned());
        assert_eq!(file_name(path), expected, "{path:?}");
    }
}

#[test]
fn file_stems_follow_path_stems() {
    for path in ["/a/b.app", "/a/b.tar.gz", "/a/.hidden", "/a/b", "/a/..", "/a/x..app", "b."] {
        let expected =
            std::path::Path::new(path).file_stem().map(|n| n.to_string_lossy().into_owned());
        assert_eq!(file_stem(path), expected, "{path:?}");
    }
}

#[test]
fn app_paths_follow_path_extensions() {
    for path in
        ["/a/b.app", "/a/b.app/", "/a/.app", "/a/b.App", "/a/b.apple", "/a/bapp", ".app.app", "/"]
    {
        let expected = std::path::Path::new(path).extension().is_some_and(|e| e == "app");
        assert_eq!(is_app_path(path), expected, "{path:?}");
    }
}

#[test]
fn enclosing_bundles_follow_ancestors() {
    for path in
        ["/X.app", "/X.app/", "/X.app/.", "/a//X.app//b", "/X.app/..", "X.app/Y.app/z", "/a/b"]
    {
        let mut expected = None;
        let mut current = Some(std::path::Path::new(path));
        while let Some(p) = current {
            if p.extension().is_some_and(|e| e == "app") {
                expected = Some(p.to_string_lossy().into_owned());
            }
            current = p.parent();
        }
        assert_eq!(enclosing_app_bundle(path), expected, "{path:?}");
    }
}

#[test]
fn bundles_are_named_by_display_name_then_name_then_file() {
    let named = |display: Option<Option<&str>>, name: Option<Option<&str>>| {
        bundle_identity(
            "/Applications/Thing.app",
            Some("com.example.thing".into()),
            display.map(|d| d.map(String::from)),
            name.map(|n| n.map(String::from)),
        )
        .unwrap()
        .app_name
    };
    assert_eq!(named(Some(Some("Display")), Some(Some("Name"))), "Display");
    assert_eq!(named(None, Some(Some("Name"))), "Name");
    assert_eq!(named(None, None), "Thing");
    // A display name that is no text hides the plain name.
    assert_eq!(named(Some(None), Some(Some("Name"))), "Thing");
    assert!(bundle_identity("/X.app", None, None, None).is_none());
}

#[test]
fn bundle_identity_records_its_path() {
    let identity = bundle_identity("/X.app", Some("com.x".into()), None, None).unwrap();
    assert_eq!(identity.bundle_id, "com.x");
    assert_eq!(identity.bundle_path.as_deref(), Some("/X.app"));
    // A bundled process takes the identity of its bundle.
    assert_eq!(
        identify_executable("/X.app/Contents/MacOS/x", Some(identity.clone()), None),
        identity
    );
}

#[test]
fn bundle_roots_are_listed_once() {
    let exes = vec![
        "/Applications/A.app/Contents/MacOS/a".to_string(),
        "/usr/bin/lsof".to_string(),
        "/Applications/A.app/Contents/Helpers/H.app/Contents/MacOS/h".to_string(),
        "/Applications/B.app/Contents/MacOS/b".to_string(),
    ];
    assert_eq!(bundle_roots(&exes), vec!["/Applications/A.app", "/Applications/B.app"]);
}

#[test]
fn installed_apps_are_unique_and_the_first_wins() {
    let app = |id: &str, name: &str| AppIdentity {
        bundle_id: id.into(),
        app_name: name.into(),
        bundle_path: Some(format!("/Applications/{name}.app")),
    };
    let found = vec![app("com.a", "A"), app("", "None"), app("com.b", "B"), app("com.a", "Again")];
    let apps = installed_apps(&found);
    let names: Vec<&str> = apps.iter().map(|a| a.app_name.as_str()).collect();
    assert_eq!(names, vec!["A", "B"]);
}

#[test]
fn desktop_errors_say_what_failed() {
    assert_eq!(
        FfiError::WindowListUnavailable.message(),
        "CGWindowListCopyWindowInfo returned NULL (no window server session?)"
    );
    assert_eq!(FfiError::Io { reason: "denied".into() }.message(), "io error: denied");
}
