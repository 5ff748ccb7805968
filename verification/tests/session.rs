use sigma_diagnostics::session::{rewrite_legacy_path, sanitize_path};

fn std_rewrite(path: &str) -> String {
    path.replace("/can-viewer/", "/sigma-diagnostics/")
        .replace("/.config/can-viewer", "/.config/sigma-diagnostics")
        .replace("/diagnostics/", "/sigma-diagnostics/")
        .replace("/.config/diagnostics", "/.config/sigma-diagnostics")
}

#[test]
fn former_config_directories_are_renamed() {
    assert_eq!(
        rewrite_legacy_path("/home/u/.config/can-viewer/sample.dbc"),
        "/home/u/.config/sigma-diagnostics/sample.dbc"
    );
    assert_eq!(
        rewrite_legacy_path("/home/u/.config/diagnostics/x.mf4"),
        "/home/u/.config/sigma-diagnostics/x.mf4"
    );
    assert_eq!(rewrite_legacy_path("/home/u/.config/can-viewer"), "/home/u/.config/sigma-diagnostics");
    assert_eq!(rewrite_legacy_path("/data/logs/run.mf4"), "/data/logs/run.mf4");
    for p in [
        "",
        "/can-viewer/can-viewer/",
        "/x/diagnostics/diagnostics/y",
        "/.config/diagnostics",
        "relative/can-viewer/a",
        "/sigma-diagnostics/keep",
    ] {
        assert_eq!(rewrite_legacy_path(p), std_rewrite(p), "{p:?}");
    }
}

#[test]
fn remembered_paths_keep_existing_files_only() {
    let old = "/home/u/.config/can-viewer/s.dbc";
    let new = "/home/u/.config/sigma-diagnostics/s.dbc";
    assert_eq!(sanitize_path(old, true, new, true), Some(old.to_string()));
    assert_eq!(sanitize_path(old, false, new, true), Some(new.to_string()));
    assert_eq!(sanitize_path(old, false, new, false), None);
    assert_eq!(sanitize_path(new, false, new, true), None);
}
