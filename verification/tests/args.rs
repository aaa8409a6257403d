use via::modes::Via;

fn args(list: &[&str]) -> Vec<String> {
    list.iter().map(|arg| arg.to_string()).collect()
}

#[test]
fn paths_and_flags_are_told_apart() {
    let (paths, options) = Via::process_args(args(&["via", "a.txt", "-v", "b.txt"])).unwrap();
    assert_eq!(paths, vec!["a.txt".to_string(), "b.txt".to_string()]);
    assert_eq!(options.verboseness, 2);
}

#[test]
fn no_arguments_give_defaults() {
    let (paths, options) = Via::process_args(args(&["via"])).unwrap();
    assert!(paths.is_empty());
    assert_eq!(options.verboseness, 1);
    let (paths, options) = Via::process_args(Vec::new()).unwrap();
    assert!(paths.is_empty());
    assert_eq!(options.verboseness, 1);
}

#[test]
fn the_program_name_does_not_count() {
    let (paths, options) = Via::process_args(args(&["-v", "-v", "-v"])).unwrap();
    assert!(paths.is_empty());
    assert_eq!(options.verboseness, 3);
}

#[test]
fn arguments_behind_the_end_marker_do_not_count() {
    let (paths, options) = Via::process_args(args(&["via", "a", "--", "-x", "b", "-v"])).unwrap();
    assert_eq!(paths, vec!["a".to_string()]);
    assert_eq!(options.verboseness, 1);
}

#[test]
fn the_first_unknown_flag_is_reported() {
    assert_eq!(Via::process_args(args(&["via", "-v", "-x", "a", "-y"])).err(), Some("-x".to_string()));
    assert_eq!(Via::process_args(args(&["via", "-"])).err(), Some("-".to_string()));
    assert_eq!(Via::process_args(args(&["via", "-vv"])).err(), Some("-vv".to_string()));
    assert_eq!(Via::process_args(args(&["via", "--verbose"])).err(), Some("--verbose".to_string()));
}

#[test]
fn an_empty_argument_is_a_path() {
    let (paths, _) = Via::process_args(args(&["via", ""])).unwrap();
    assert_eq!(paths, vec![String::new()]);
}
