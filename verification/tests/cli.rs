use fandango_targets::cli::{parse_args, usage, Command, FuzzArgs};

fn args(list: &[&str]) -> Vec<String> {
    list.iter().map(|a| a.to_string()).collect()
}

#[test]
fn empty_command_line_asks_for_help() {
    assert_eq!(parse_args(&args(&[])), Ok(Command::Help));
    assert_eq!(parse_args(&args(&["-h"])), Ok(Command::Help));
    assert_eq!(parse_args(&args(&["--help", "whatever"])), Ok(Command::Help));
    assert_eq!(parse_args(&args(&["fuzz", "-f", "g.fan", "--help"])), Ok(Command::Help));
}

#[test]
fn fuzz_options_are_read() {
    assert_eq!(
        parse_args(&args(&["fuzz", "-f", "g.fan"])),
        Ok(Command::Fuzz(FuzzArgs {
            file: "g.fan".to_string(),
            count: 1,
            seed: None,
            output: None
        }))
    );
    assert_eq!(
        parse_args(&args(&["-f", "a.fan", "-n", "5", "--seed", "42", "-o", "out.txt", "--file", "b.fan"])),
        Ok(Command::Fuzz(FuzzArgs {
            file: "b.fan".to_string(),
            count: 5,
            seed: Some(42),
            output: Some("out.txt".to_string())
        }))
    );
}

#[test]
fn bad_command_lines_are_refused() {
    assert_eq!(
        parse_args(&args(&["bogus"])),
        Err(format!("unknown command \"bogus\"\n\n{}", usage()))
    );
    assert_eq!(
        parse_args(&args(&["-f"])),
        Err("missing value for -f/--file".to_string())
    );
    assert_eq!(
        parse_args(&args(&["-f", "g", "-n"])),
        Err("missing value for -n/--count".to_string())
    );
    assert_eq!(
        parse_args(&args(&["-n", "x", "-f", "g"])),
        Err("invalid count \"x\": invalid digit found in string".to_string())
    );
    assert_eq!(
        parse_args(&args(&["-s", "99999999999999999999"])),
        Err("invalid seed \"99999999999999999999\": number too large to fit in target type".to_string())
    );
    assert_eq!(
        parse_args(&args(&["-x"])),
        Err(format!("unknown argument \"-x\"\n\n{}", usage()))
    );
    assert_eq!(
        parse_args(&args(&["-n", "3"])),
        Err("missing required -f/--file argument".to_string())
    );
    assert_eq!(
        parse_args(&args(&["fuzz"])),
        Err("missing required -f/--file argument".to_string())
    );
}

#[test]
fn usage_names_every_option() {
    let text = usage();
    assert!(text.starts_with("Usage:\n  fandango-rs -f <grammar.fan>"));
    for option in ["--file", "--count", "--seed", "--output", "--help"] {
        assert!(text.contains(option));
    }
}

#[test]
fn values_show_as_os_strings_and_arguments_as_strings() {
    assert_eq!(
        parse_args(&args(&["it's"])),
        Err(format!("unknown command \"it\\'s\"\n\n{}", usage()))
    );
    assert_eq!(
        parse_args(&args(&["-n", "it's", "-f", "g"])),
        Err("invalid count \"it\\'s\": invalid digit found in string".to_string())
    );
    assert_eq!(
        parse_args(&args(&["-s", "a'b\u{200b}"])),
        Err("invalid seed \"a\\'b\\u{200b}\": invalid digit found in string".to_string())
    );
    assert_eq!(
        parse_args(&args(&["--it's"])),
        Err(format!("unknown argument {:?}\n\n{}", "--it's", usage()))
    );
}
