use dylib_resolver::resolver::Resolver;
use dylib_resolver::text::basename;
use dylib_resolver::Resolution;

fn sample_resolver() -> Resolver {
    Resolver::new(
        "/sysroot".to_string(),
        vec![
            "/sysroot/lib1.dylib".to_string(),
            "/sysroot/libshared.dylib".to_string(),
        ],
        &vec![
            "/opt/homebrew/Cellar/foo/1.0/lib/libfoo.dylib".to_string(),
            "/opt/homebrew/Cellar/shared/2.0/lib/libshared.dylib".to_string(),
            "/opt/homebrew/Cellar/both/1.0/lib/libboth.dylib".to_string(),
        ],
        &vec![
            "/usr/lib/libSystem.B.dylib".to_string(),
            "/usr/lib/libboth.dylib".to_string(),
        ],
    )
}

#[test]
fn sysroot_prefix_wins() {
    let r = sample_resolver();
    let (res, path) = r.resolve_rpath("/sysroot/some/dir/libx.dylib");
    assert_eq!(res, Resolution::Sysroot);
    assert_eq!(path, "/sysroot/some/dir/libx.dylib");
}

#[test]
fn system_prefixes_and_allowlist() {
    let r = sample_resolver();
    for p in [
        "/usr/lib/libSystem.B.dylib",
        "/System/Library/Frameworks/Cocoa.framework/Cocoa",
        "/Library/Frameworks/Foo.framework/Foo",
        "/usr/local/lib/libobjc-env.dylib",
    ] {
        let (res, path) = r.resolve_rpath(p);
        assert_eq!(res, Resolution::System);
        assert_eq!(path, p);
    }
}

#[test]
fn package_cache_absolute_found() {
    let r = sample_resolver();
    let (res, path) = r.resolve_rpath("/opt/homebrew/opt/foo/lib/libfoo.dylib");
    assert_eq!(res, Resolution::Required);
    assert_eq!(path, "/opt/homebrew/Cellar/foo/1.0/lib/libfoo.dylib");
}

#[test]
fn package_cache_absolute_missing() {
    let r = sample_resolver();
    let (res, path) = r.resolve_rpath("/opt/homebrew/opt/nope/lib/libnope.dylib");
    assert_eq!(res, Resolution::Missing);
    assert_eq!(path, "/opt/homebrew/opt/nope/lib/libnope.dylib");
}

#[test]
fn marker_probes_sysroot_before_cache() {
    // present in both the sysroot and the package-cache index: Sysroot wins
    let r = sample_resolver();
    let (res, path) = r.resolve_rpath("@rpath/libshared.dylib");
    assert_eq!(res, Resolution::Sysroot);
    assert_eq!(path, "/sysroot/libshared.dylib");
}

#[test]
fn marker_probes_system_before_cache() {
    // present in both the system and the package-cache index: System wins
    let r = sample_resolver();
    let (res, path) = r.resolve_rpath("@loader_path/libboth.dylib");
    assert_eq!(res, Resolution::System);
    assert_eq!(path, "/usr/lib/libboth.dylib");
}

#[test]
fn marker_cache_only_is_required() {
    let r = sample_resolver();
    let (res, path) = r.resolve_rpath("@rpath/libfoo.dylib");
    assert_eq!(res, Resolution::Required);
    assert_eq!(path, "/opt/homebrew/Cellar/foo/1.0/lib/libfoo.dylib");
}

#[test]
fn marker_benign_basenames_are_system() {
    let r = sample_resolver();
    let (res, path) = r.resolve_rpath("@rpath/libc++.1.dylib");
    assert_eq!(res, Resolution::System);
    assert_eq!(path, "@rpath/libc++.1.dylib");
    let (res, path) = r.resolve_rpath("@executable_path/libz.1.dylib");
    assert_eq!(res, Resolution::System);
    assert_eq!(path, "@executable_path/libz.1.dylib");
}

#[test]
fn marker_unresolved_is_unknown() {
    let r = sample_resolver();
    let (res, path) = r.resolve_rpath("@rpath/libbar.dylib");
    assert_eq!(res, Resolution::Unknown);
    assert_eq!(path, "@rpath/libbar.dylib");
}

#[test]
fn bare_name_is_unknown() {
    let r = sample_resolver();
    let (res, path) = r.resolve_rpath("libplain.dylib");
    assert_eq!(res, Resolution::Unknown);
    assert_eq!(path, "libplain.dylib");
}

#[test]
fn classification_is_idempotent() {
    let r = sample_resolver();
    for p in [
        "/sysroot/lib1.dylib",
        "/usr/lib/libSystem.B.dylib",
        "@rpath/libfoo.dylib",
        "@rpath/libbar.dylib",
        "/opt/homebrew/opt/nope/lib/libnope.dylib",
    ] {
        let first = r.resolve_rpath(p);
        let second = r.resolve_rpath(p);
        assert_eq!(first, second);
    }
}

#[test]
fn basename_reads_last_segment() {
    assert_eq!(basename("/a/b/libx.dylib"), "libx.dylib");
    assert_eq!(basename("@rpath/libx.dylib"), "libx.dylib");
    assert_eq!(basename("plain"), "plain");
    assert_eq!(basename("/ends/with/"), "");
}

#[test]
fn last_indexed_path_wins_per_basename() {
    let r = Resolver::new(
        "/sysroot".to_string(),
        vec![],
        &vec![
            "/opt/homebrew/Cellar/foo/1.0/lib/libfoo.dylib".to_string(),
            "/opt/homebrew/Cellar/foo/2.0/lib/libfoo.dylib".to_string(),
        ],
        &vec![],
    );
    let (res, path) = r.resolve_rpath("@rpath/libfoo.dylib");
    assert_eq!(res, Resolution::Required);
    assert_eq!(path, "/opt/homebrew/Cellar/foo/2.0/lib/libfoo.dylib");
}
