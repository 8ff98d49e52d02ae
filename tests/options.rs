use ftrek::TrekOptions;

fn words(list: &[&str]) -> Vec<String> {
    list.iter().map(|s| s.to_string()).collect()
}

#[test]
fn no_arguments_default_to_current_directory() {
    let o = TrekOptions::from_args(&words(&[]));
    assert_eq!(o.root, ".");
    assert!(!o.gitignore);
}

#[test]
fn explicit_root_is_taken() {
    let o = TrekOptions::from_args(&words(&["/tmp/some/root"]));
    assert_eq!(o.root, "/tmp/some/root");
    assert!(!o.gitignore);
}

#[test]
fn gitignore_flag_before_or_after_root() {
    let a = TrekOptions::from_args(&words(&["--gitignore", "dir"]));
    assert_eq!(a.root, "dir");
    assert!(a.gitignore);
    let b = TrekOptions::from_args(&words(&["dir", "--gitignore"]));
    assert_eq!(b.root, "dir");
    assert!(b.gitignore);
}

#[test]
fn unknown_options_are_ignored_and_last_positional_wins() {
    let o = TrekOptions::from_args(&words(&["first", "-x", "--other", "second"]));
    assert_eq!(o.root, "second");
    assert!(!o.gitignore);
}

#[test]
fn gitignore_flag_alone_keeps_default_root() {
    let o = TrekOptions::from_args(&words(&["--gitignore"]));
    assert_eq!(o.root, ".");
    assert!(o.gitignore);
}
