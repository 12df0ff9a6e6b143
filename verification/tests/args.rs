use portcall::args::parse_args;

fn args(list: &[&str]) -> Vec<String> {
    list.iter().map(|a| a.to_string()).collect()
}

#[test]
fn no_arguments_mean_discovery() {
    let options = parse_args(&args(&[]));
    assert!(!options.show_all);
    assert_eq!(options.path, None);
}

#[test]
fn both_spellings_of_all() {
    assert!(parse_args(&args(&["--all"])).show_all);
    assert!(parse_args(&args(&["-a"])).show_all);
    assert!(parse_args(&args(&["x", "-a"])).show_all);
    assert!(!parse_args(&args(&["--al", "-A", "all"])).show_all);
}

#[test]
fn first_argument_that_is_no_option_is_the_path() {
    let options = parse_args(&args(&["-x", "/dev/ttyACM0", "--all", "COM3"]));
    assert!(options.show_all);
    assert_eq!(options.path, Some("/dev/ttyACM0".to_string()));
    assert_eq!(parse_args(&args(&["-", "--all"])).path, None);
    assert_eq!(parse_args(&args(&["", "COM3"])).path, Some(String::new()));
}
