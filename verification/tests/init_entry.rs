use mxpm::init::choose_entry;

fn names(v: &[&str]) -> Vec<String> {
    v.iter().map(|s| s.to_string()).collect()
}

#[test]
fn entry_defaults_to_the_package_name() {
    let files = names(&["README.md", "notes.txt"]);
    assert_eq!(choose_entry("my-pkg", &files, true), Some("my-pkg.mac".to_string()));
    assert_eq!(choose_entry("my-pkg", &files, false), Some("my-pkg.mac".to_string()));
}

#[test]
fn a_single_mac_file_is_the_entry() {
    let files = names(&["README.md", "solver.mac"]);
    assert_eq!(choose_entry("test-pkg", &files, false), Some("solver.mac".to_string()));
}

#[test]
fn several_mac_files_take_the_first_in_order_when_accepted() {
    let files = names(&["beta.mac", "alpha.mac", "gamma.mac", "alpha.macro"]);
    assert_eq!(choose_entry("multi", &files, true), Some("alpha.mac".to_string()));
    assert_eq!(choose_entry("multi", &files, false), None);
}
