use newest_files::filter::{extension_of, filter_extension};

fn b(s: &str) -> Vec<u8> {
    s.as_bytes().to_vec()
}

#[test]
fn empty_sets_pass_every_extension() {
    assert!(filter_extension(&b("go"), &vec![], &vec![]));
    assert!(filter_extension(&b(""), &vec![], &vec![]));
    assert!(filter_extension(&b("anything"), &vec![], &vec![]));
}

#[test]
fn excluded_extension_is_rejected() {
    assert!(!filter_extension(&b("go"), &vec![], &vec![b("go")]));
}

#[test]
fn wanted_extension_is_accepted() {
    assert!(filter_extension(&b("go"), &vec![b("go"), b("json")], &vec![]));
}

#[test]
fn unlisted_extension_is_rejected() {
    assert!(!filter_extension(&b("go"), &vec![b("json")], &vec![]));
}

#[test]
fn exclude_takes_precedence_over_wanted() {
    assert!(!filter_extension(&b("go"), &vec![b("go")], &vec![b("go")]));
}

#[test]
fn extension_comparison_is_case_sensitive() {
    assert!(!filter_extension(&b("GO"), &vec![b("go")], &vec![]));
}

#[test]
fn extension_of_simple_name() {
    assert_eq!(extension_of(&b("a.go")), b("go"));
}

#[test]
fn extension_of_nested_path() {
    assert_eq!(extension_of(&b("/x/y/archive.tar.gz")), b("gz"));
}

#[test]
fn extension_of_no_dot_is_empty() {
    assert_eq!(extension_of(&b("README")), b(""));
    assert_eq!(extension_of(&b("/a/b/README")), b(""));
}

#[test]
fn extension_of_hidden_file_is_empty() {
    assert_eq!(extension_of(&b(".hidden")), b(""));
    assert_eq!(extension_of(&b("dir/.hidden")), b(""));
}

#[test]
fn extension_of_trailing_dot_is_empty() {
    assert_eq!(extension_of(&b("file.")), b(""));
}

#[test]
fn extension_of_dot_in_directory_does_not_count() {
    assert_eq!(extension_of(&b("a.dir/plain")), b(""));
}
