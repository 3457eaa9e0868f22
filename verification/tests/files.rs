use glowy::analyzer::modules::{compute_package_path, module_path_in, valid_module_path};
use glowy::analyzer::Analyzer;
use glowy::files::{name_of_file, valid_virtual_path, SourceFile};

#[test]
fn virtual_paths_are_rooted_and_name_go_files() {
    assert!(valid_virtual_path("/main.go"));
    assert!(valid_virtual_path("/pkg/a_linux.go"));
    assert!(!valid_virtual_path("main.go"));
    assert!(!valid_virtual_path("/main.rs"));
    assert!(!valid_virtual_path("/.go"));
    assert!(!valid_virtual_path(""));
}

#[test]
fn file_names_are_the_last_components() {
    assert_eq!(name_of_file("/a/b.go"), Some("b.go"));
    assert_eq!(name_of_file("/a/b.go/"), Some("b.go"));
    assert_eq!(name_of_file("/a/.."), None);
    assert_eq!(name_of_file("/"), None);
}

#[test]
fn files_are_kept_in_the_order_of_their_paths() {
    let mut a = Analyzer::new("example.com/app");
    a.add_file(SourceFile::new("/b.go".to_owned(), "B".to_owned()));
    a.add_file(SourceFile::new("/a.go".to_owned(), "A".to_owned()));
    assert_eq!(a.file_count(), 2);
    assert_eq!(a.file_path(0), "/a.go");
    assert_eq!(a.file_path(1), "/b.go");
    assert_eq!(a.file_contents("/a.go"), Some("A"));
    assert_eq!(a.file_contents("/c.go"), None);
}

#[test]
fn test_files_are_left_out_by_default() {
    let a = Analyzer::new("example.com/app");
    assert!(a.admits_file_name("main.go"));
    assert!(!a.admits_file_name("main_test.go"));
    assert!(!a.admits_file_name("go.mod"));
}

#[test]
fn verbosity_is_never_taken_back() {
    let mut a = Analyzer::new("example.com/app");
    assert!(!a.is_verbose());
    a.make_verbose();
    a.make_verbose();
    assert!(a.is_verbose());
}

#[test]
fn module_paths_are_read_from_module_files() {
    let lines = vec!["// comment".to_owned(), "module example.com/app".to_owned()];
    assert_eq!(module_path_in(&lines), Some("example.com/app".to_owned()));
    assert_eq!(module_path_in(&vec!["go 1.21".to_owned()]), None);
}

#[test]
fn module_paths_are_checked() {
    assert!(valid_module_path("example.com/app"));
    assert!(!valid_module_path(""));
    assert!(!valid_module_path("/app"));
    assert!(!valid_module_path("app/"));
    assert!(!valid_module_path("example.com//app"));
    assert!(!valid_module_path("example.com/.app"));
    assert!(!valid_module_path("example.com/app."));
    assert!(!valid_module_path("example.com/é"));
}

#[test]
fn packages_are_the_directories_of_their_files() {
    assert_eq!(compute_package_path("example.com/app", "/main.go"), "example.com/app");
    assert_eq!(compute_package_path("example.com/app", "/a/b/c.go"), "example.com/app/a/b");
}
