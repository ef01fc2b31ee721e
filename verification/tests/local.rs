use static_fs::fs::LocalFileSystem;

#[test]
fn local_root_is_kept_as_given() {
    assert_eq!(LocalFileSystem::new("src").root_path(), "src");
    assert_eq!(LocalFileSystem::new("/var/www/").root_path(), "/var/www/");
    assert_eq!(LocalFileSystem::new("").root_path(), "");
}

#[test]
fn local_paths_below_the_root_are_valid() {
    let fs = LocalFileSystem::new("src");
    for path in ["lib.rs", "fs/mod.rs", "", ".", "./lib.rs", "fs/../lib.rs", "a//b", "a/./b/", "fs/"] {
        assert!(fs.path_valid(path), "{}", path);
    }
}

#[test]
fn local_paths_that_climb_out_of_the_root_are_not_valid() {
    let fs = LocalFileSystem::new("src");
    for path in [
        "..",
        "../",
        "../Cargo.toml",
        "../../etc/passwd",
        "fs/../../Cargo.toml",
        "a/b/../../../x",
        "./../x",
        "../srcs/lib.rs",
        "../../x/src/lib.rs",
    ] {
        assert!(!fs.path_valid(path), "{}", path);
    }
}

#[test]
fn local_paths_that_climb_out_and_come_back_are_valid() {
    let fs = LocalFileSystem::new("src");
    assert!(fs.path_valid("../src/lib.rs"));
    assert!(fs.path_valid("a/../../src"));
    let fs = LocalFileSystem::new("/var/www");
    assert!(fs.path_valid("../www/index.html"));
    assert!(fs.path_valid("../../var/www/index.html"));
    assert!(!fs.path_valid("../wwww/index.html"));
}

#[test]
fn local_absolute_paths_stand_for_themselves() {
    let fs = LocalFileSystem::new("/var/www");
    assert!(!fs.path_valid("/etc/passwd"));
    assert!(!fs.path_valid("/"));
    assert!(!fs.path_valid("/var"));
    assert!(fs.path_valid("/var/www"));
    assert!(fs.path_valid("/var/www/index.html"));
    assert!(fs.path_valid("/var/./www/../www/a"));
    assert!(!fs.path_valid("/var/www/../secret"));
    let fs = LocalFileSystem::new("src");
    assert!(!fs.path_valid("/src/lib.rs"));
    assert!(!fs.path_valid("/etc/passwd"));
}

#[test]
fn local_root_may_hold_dots_and_slashes() {
    let fs = LocalFileSystem::new("/var/www/../www/./");
    assert!(fs.path_valid("index.html"));
    assert!(!fs.path_valid("../index.html"));
    assert!(fs.path_valid("/var/www/x"));
    let fs = LocalFileSystem::new("../assets");
    assert!(fs.path_valid("a.png"));
    assert!(!fs.path_valid("../a.png"));
    assert!(fs.path_valid("../assets/a.png"));
    assert!(!fs.path_valid("../../assets/a.png"));
}

#[test]
fn local_file_system_root_is_its_own_parent() {
    let fs = LocalFileSystem::new("/");
    assert!(fs.path_valid(".."));
    assert!(fs.path_valid("../../etc"));
    assert!(fs.path_valid("/etc/passwd"));
    let fs = LocalFileSystem::new("/a");
    assert!(!fs.path_valid("../.."));
    assert!(fs.path_valid("../../a"));
}

#[test]
fn local_names_of_dots_are_names() {
    let fs = LocalFileSystem::new("src");
    assert!(fs.path_valid("..."));
    assert!(fs.path_valid("..a"));
    assert!(fs.path_valid(".hidden"));
    assert!(fs.path_valid(".../x"));
    assert!(fs.path_valid("a/.../../b"));
    assert!(!fs.path_valid("a/../.."));
}
