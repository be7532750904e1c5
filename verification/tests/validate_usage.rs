use kurisu::arg::{Arg, ArgPosition, ValueKind};
use kurisu::{builtin_args, exit_args, parse_value, validate_usage, Error, ExitCode, ExitRequest, Info};
use std::path::PathBuf;

fn vec_to_string(args: Vec<&str>) -> Vec<String> {
    let mut strings = Vec::new();
    for arg in args {
        strings.push(arg.to_string());
    }

    strings
}

fn field(name: &str, value_type: ValueKind) -> Arg {
    Arg {
        name: name.to_string(),
        value_type,
        long: Some(name.replace('_', "-")),
        ..Default::default()
    }
}

fn field_short(name: &str, value_type: ValueKind) -> Arg {
    let mut a = field(name, value_type);
    a.short = Some(name[0..1].to_string());
    a
}

fn field_pos(name: &str, value_type: ValueKind, position: ArgPosition) -> Arg {
    Arg {
        name: name.to_string(),
        value_type,
        position: Some(position),
        ..Default::default()
    }
}

fn build(input: Vec<&str>, fields: Vec<Arg>) -> Info {
    let mut args = builtin_args();
    args.extend(fields);
    Info::build(None, None, None, None, false, vec_to_string(input), args, &Vec::new())
}

/// The exit code the presentation layer would exit with, for each
/// kind of exit request the core reports.
fn run_exit(info: &Info, custom: fn() -> i32) -> Option<i32> {
    match exit_args(info) {
        Some(ExitRequest::Version) => Some(ExitCode::OK.code()),
        Some(ExitRequest::Usage) => Some(ExitCode::USAGE.code()),
        Some(ExitRequest::Custom(_)) => Some(custom()),
        None => None,
    }
}

fn no_custom() -> i32 {
    ExitCode::FAILURE.code()
}

#[test]
fn validate_usage_no_args() {
    let fields = vec![
        field_short("short", ValueKind::Single),
        field("long", ValueKind::Single),
    ];
    let info = build(Vec::new(), fields);
    let error = validate_usage(&info);
    assert_eq!(error.unwrap(), Error::NoArgs);
    assert_eq!(parse_value::<String>("short", &info), String::default());
    assert_eq!(parse_value::<String>("long", &info), String::default());
}

#[test]
fn validate_usage_exit_arg_version() {
    let info = build(vec!["--version"], Vec::new());
    let exit_code = run_exit(&info, no_custom);
    assert_eq!(exit_code.unwrap(), ExitCode::OK.code());
}

#[test]
fn validate_usage_exit_arg_help() {
    let info = build(vec!["--help"], Vec::new());
    let exit_code = run_exit(&info, no_custom);
    assert_eq!(exit_code.unwrap(), ExitCode::USAGE.code());
}

#[test]
fn validate_usage_exit_arg_custom() {
    fn exit_func() -> i32 {
        ExitCode::NOINPUT.code()
    }

    let mut exit_plz = field("exit_plz", ValueKind::NoValue);
    exit_plz.has_exit = true;
    let info = build(vec!["--exit-plz"], vec![exit_plz]);
    let exit_code = run_exit(&info, exit_func);
    assert_eq!(exit_code.unwrap(), ExitCode::NOINPUT.code());
}

#[test]
fn validate_usage_value_empty() {
    let fields = vec![
        field_short("short", ValueKind::Single),
        field("long", ValueKind::Single),
    ];
    let info = build(vec!["-s", "", "--long", ""], fields);
    let error = validate_usage(&info);
    assert!(error.is_none());
    assert_eq!(parse_value::<String>("short", &info), String::default());
    assert_eq!(parse_value::<String>("long", &info), String::default());
}

#[test]
fn validate_usage_value_required() {
    let mut a_flag = field("a_flag", ValueKind::Single);
    a_flag.default = "something".to_string();
    let fields = vec![
        a_flag,
        field_short("short", ValueKind::Single),
        field("long", ValueKind::Single),
    ];
    let info = build(vec!["-s", "--long"], fields);
    let long = info.args.iter().find(|a| a.name == "long").unwrap().clone();

    let error = validate_usage(&info);
    assert!(error.is_some(), "We should get an Error::RequiresValue");
    assert_eq!(error.unwrap(), Error::RequiresValue(long));
    assert_eq!(parse_value::<String>("short", &info), String::default());
    assert_eq!(parse_value::<String>("long", &info), String::default());
    assert_eq!(parse_value::<String>("a_flag", &info), String::from("something"));
}

#[test]
fn validate_usage_value_required_vs_occurrence() {
    let fields = vec![{
        let mut a = field_short("short", ValueKind::Single);
        a.long = None;
        a
    }];
    let info = build(vec!["-s"], fields);
    let short = info.args.iter().find(|a| a.name == "short").unwrap().clone();

    let error = validate_usage(&info);
    assert!(error.is_some(), "We should get an Error::RequiresValue");
    assert_eq!(error.unwrap(), Error::RequiresValue(short));
    assert_eq!(parse_value::<usize>("short", &info), usize::default());
}

#[test]
fn aliases() {
    let mut aliases_arg = field("aliases", ValueKind::NoValue);
    aliases_arg.aliases = vec!["my-alias".to_string()];
    let mut multiple = field_short("multiple", ValueKind::NoValue);
    multiple.aliases = vec!["alias".to_string(), "f".to_string()];
    let info = build(vec!["--my-alias", "--alias", "-f", "-m"], vec![aliases_arg, multiple]);
    let error = validate_usage(&info);
    assert_eq!(error, None);
    assert!(parse_value::<bool>("aliases", &info));
    // Three occurrences, one synthesized "true".
    assert!(parse_value::<bool>("multiple", &info));
    let m = info.args.iter().find(|a| a.name == "multiple").unwrap();
    assert_eq!(m.occurrences, 3);
    assert_eq!(m.value, vec!["true".to_string()]);
}

#[test]
fn validate_usage_invalid_short() {
    let fields = vec![
        field_short("short", ValueKind::Single),
        field("long", ValueKind::Single),
    ];
    let info = build(vec!["-s", "test1", "--long", "test2", "-k"], fields);
    let error = validate_usage(&info);
    assert_eq!(error.unwrap(), Error::Invalid(String::from("-k")));
    assert_eq!(parse_value::<String>("short", &info), String::from("test1"));
    assert_eq!(parse_value::<String>("long", &info), String::from("test2"));
}

#[test]
fn validate_usage_invalid_long() {
    let fields = vec![
        field_short("short", ValueKind::Single),
        field("long", ValueKind::Single),
    ];
    let info = build(vec!["-s", "test1", "--long", "test2", "--test"], fields);
    let error = validate_usage(&info);
    assert_eq!(error.unwrap(), Error::Invalid(String::from("--test")));
    assert_eq!(parse_value::<String>("short", &info), String::from("test1"));
    assert_eq!(parse_value::<String>("long", &info), String::from("test2"));
}

#[test]
fn validate_usage_invalid_arg() {
    let fields = vec![
        field_short("short", ValueKind::Single),
        field("long", ValueKind::Single),
    ];
    let info = build(vec!["-s", "test1", "--long", "test2", "test"], fields);
    let error = validate_usage(&info);
    assert_eq!(error.unwrap(), Error::Invalid(String::from("test")));
    assert_eq!(parse_value::<String>("short", &info), String::from("test1"));
    assert_eq!(parse_value::<String>("long", &info), String::from("test2"));
}

#[test]
fn validate_usage_invalid_arg_within_args() {
    let fields = vec![
        field_short("short", ValueKind::Single),
        field("long", ValueKind::Single),
        field_pos("source", ValueKind::Single, ArgPosition::Fixed(1)),
        field_pos("target", ValueKind::Single, ArgPosition::Fixed(2)),
    ];
    let info = build(
        vec!["-s", "test1", "file1.txt", "file2.txt", "file3.txt", "--long", "test2"],
        fields,
    );

    let error = validate_usage(&info);
    assert_eq!(error.unwrap(), Error::Invalid(String::from("file3.txt")));
    assert_eq!(parse_value::<String>("short", &info), String::from("test1"));
    assert_eq!(parse_value::<String>("long", &info), String::from("test2"));
    assert_eq!(parse_value::<String>("source", &info), String::from("file1.txt"));
    assert_eq!(parse_value::<String>("target", &info), String::from("file2.txt"));
}

#[test]
fn validate_usage_infinite_pos() {
    let fields = vec![
        field_short("short", ValueKind::Single),
        field("long", ValueKind::Single),
        field_pos("test", ValueKind::Multi, ArgPosition::Infinite),
    ];
    let info = build(
        vec!["file1.txt", "-s", "test1", "file2.txt", "--long", "test2", "file3.txt"],
        fields,
    );

    let error = validate_usage(&info);
    assert!(
        error.is_none(),
        "Should not Error out, infinite pos should be greedy and absorb all positional args"
    );
    assert_eq!(parse_value::<String>("short", &info), String::from("test1"));
    assert_eq!(parse_value::<String>("long", &info), String::from("test2"));
    assert_eq!(
        parse_value::<Vec<String>>("test", &info),
        vec![String::from("file1.txt"), String::from("file2.txt"), String::from("file3.txt")]
    );
}

#[test]
fn validate_usage_invalid_arg_last_pos() {
    let fields = vec![
        field_short("short", ValueKind::Single),
        field("long", ValueKind::Single),
        field_pos("test", ValueKind::Single, ArgPosition::Last),
    ];
    let info = build(vec!["-s", "test1", "file1.txt", "--long", "test2", "file2.txt"], fields);
    let error = validate_usage(&info);
    assert_eq!(error.unwrap(), Error::Invalid(String::from("file1.txt")));
    assert_eq!(parse_value::<String>("short", &info), String::from("test1"));
    assert_eq!(parse_value::<String>("long", &info), String::from("test2"));
    assert_eq!(parse_value::<String>("test", &info), String::from("file2.txt"));
}

#[test]
fn validate_usage_required_if_args() {
    let mut btest = field_short("btest", ValueKind::Single);
    btest.required_if = Some("atest".to_string());
    let fields = vec![
        field_short("atest", ValueKind::Single),
        btest,
        field_short("ctest", ValueKind::Single),
    ];
    let info = build(vec!["-a=test"], fields);
    let error = validate_usage(&info);

    let atest = info.args.iter().find(|a| a.name == "atest").unwrap().clone();
    let btest = info.args.iter().find(|a| a.name == "btest").unwrap().clone();

    assert_eq!(error.unwrap(), Error::RequiresValueIf(atest, btest));
    assert_eq!(parse_value::<String>("atest", &info), String::from("test"));
    assert_eq!(parse_value::<String>("btest", &info), String::default());
    assert_eq!(parse_value::<String>("ctest", &info), String::default());
}

#[test]
fn validate_usage_positional_missing_value() {
    let fields = vec![
        field_pos("my_file", ValueKind::Single, ArgPosition::Fixed(2)),
        field_pos("operation", ValueKind::Single, ArgPosition::Fixed(1)),
    ];
    let info = build(vec!["delete"], fields);
    let error = validate_usage(&info);

    let arg = info.args.iter().find(|a| a.name == "my_file").unwrap().clone();

    assert!(error.is_some(), "Should return an Error::RequiresPositional");
    assert_eq!(error.unwrap(), Error::RequiresPositional(arg));
    assert_eq!(PathBuf::from(parse_value::<String>("my_file", &info)), PathBuf::default());
    assert_eq!(parse_value::<String>("operation", &info), String::from("delete"));
}
