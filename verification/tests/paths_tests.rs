use flashcode::paths::resolve_within;

#[test]
fn sandbox_allows_nested_paths() {
    let base = "/home/user/project";
    let p = resolve_within(base, "src/main.rs").unwrap();
    assert_eq!(p, "/home/user/project/src/main.rs");
}

#[test]
fn sandbox_normalizes_curdir() {
    let base = "/home/user/project";
    let p = resolve_within(base, "./a/./b.txt").unwrap();
    assert_eq!(p, "/home/user/project/a/b.txt");
}

#[test]
fn sandbox_rejects_parent_escape() {
    let base = "/home/user/project";
    assert!(resolve_within(base, "../secret.txt").is_err());
    assert!(resolve_within(base, "a/../../secret.txt").is_err());
}

#[test]
fn sandbox_rejects_absolute_outside() {
    let base = "/home/user/project";
    assert!(resolve_within(base, "/etc/passwd").is_err());
}

#[test]
fn sandbox_allows_absolute_inside() {
    let base = "/home/user/project";
    let p = resolve_within(base, "/home/user/project/x").unwrap();
    assert_eq!(p, "/home/user/project/x");
}

#[test]
fn sandbox_error_names_path_and_base() {
    let e = resolve_within("/home/user/project", "../x").unwrap_err();
    assert_eq!(
        e,
        "path `../x` resolves outside the working directory; access is sandboxed to /home/user/project"
    );
}

#[test]
fn sandbox_parent_inside_stays_allowed() {
    let base = "/home/user/project";
    assert_eq!(resolve_within(base, "a/../b").unwrap(), "/home/user/project/b");
    assert_eq!(resolve_within(base, "").unwrap(), "/home/user/project");
    assert_eq!(resolve_within(base, ".").unwrap(), "/home/user/project");
    assert_eq!(resolve_within(base, "a//b/").unwrap(), "/home/user/project/a/b");
    // A sibling directory sharing a name prefix is outside.
    assert!(resolve_within(base, "/home/user/project2/x").is_err());
}

#[test]
fn sandbox_resolution_is_idempotent() {
    let base = "/home/user/project";
    let once = resolve_within(base, "./a/../b/./c.txt").unwrap();
    assert_eq!(resolve_within(base, &once).unwrap(), once);
}

#[test]
fn sandbox_root_base_allows_everything() {
    assert_eq!(resolve_within("/", "../../etc").unwrap(), "/etc");
}
