use kurisu::arg::{Arg, ArgPosition, ValueKind};
use kurisu::{builtin_args, parse_value, Info};
use std::path::PathBuf;
use std::str::FromStr;

fn vec_to_string(args: Vec<&str>) -> Vec<String> {
    let mut strings = Vec::new();
    for arg in args {
        strings.push(arg.to_string());
    }

    strings
}

/// A field as the schema layer declares it by default: a long form
/// from the field name, `_` shown as `-`, and no short form.
fn field(name: &str, value_type: ValueKind) -> Arg {
    Arg {
        name: name.to_string(),
        value_type,
        long: Some(name.replace('_', "-")),
        ..Default::default()
    }
}

/// A field declared with a short form taken from its first letter.
fn field_short(name: &str, value_type: ValueKind) -> Arg {
    let mut a = field(name, value_type);
    a.short = Some(name[0..1].to_string());
    a
}

/// A field declared with a short form only.
fn field_short_nolong(name: &str, value_type: ValueKind) -> Arg {
    let mut a = field_short(name, value_type);
    a.long = None;
    a
}

/// A positional field: no display names, just a slot.
fn field_pos(name: &str, value_type: ValueKind, position: ArgPosition) -> Arg {
    Arg {
        name: name.to_string(),
        value_type,
        position: Some(position),
        ..Default::default()
    }
}

fn build(input: Vec<&str>, fields: Vec<Arg>) -> Info {
    let mut args = builtin_args();
    args.extend(fields);
    Info::build(None, None, None, None, false, vec_to_string(input), args, &Vec::new())
}

#[test]
fn debug_info() {
    let info = build(Vec::new(), Vec::new());
    let test = format!("{:?}", info);
    assert!(!test.is_empty());
}

#[test]
fn struct_args_builtins() {
    let info = build(Vec::new(), Vec::new());
    assert_eq!(2, info.args.len());

    let version = info.args.iter().find(|a| a.name == "version");
    assert!(version.is_some());
    assert_eq!(version.unwrap().name, "version");
    assert_eq!(version.unwrap().short, Some("V".to_string()));
    assert_eq!(version.unwrap().long, Some("version".to_string()));

    let usage = info.args.iter().find(|a| a.name == "usage");
    assert!(usage.is_some());
    assert_eq!(usage.unwrap().name, "usage");
    assert_eq!(usage.unwrap().short, Some("h".to_string()));
    assert_eq!(usage.unwrap().long, Some("help".to_string()));
}

#[test]
fn struct_args_default_long() {
    let mut more = field("more", ValueKind::NoValue);
    more.long = Some("very_long-test".to_string());
    let fields = vec![
        field_short_nolong("short", ValueKind::NoValue),
        more,
        field("long_arg", ValueKind::NoValue),
    ];
    let info = build(Vec::new(), fields);
    assert!(!parse_value::<bool>("short", &info));
    assert!(!parse_value::<bool>("more", &info));
    assert!(!parse_value::<bool>("long_arg", &info));

    assert_eq!(5, info.args.len());

    let arg = info.args.iter().find(|a| a.name == "long_arg");
    assert!(arg.is_some());
    assert_eq!(arg.unwrap().short, None);
    assert_eq!(arg.unwrap().long, Some("long-arg".to_string()));

    let arg = info.args.iter().find(|a| a.name == "short");
    assert!(arg.is_some());
    assert_eq!(arg.unwrap().short, Some("s".to_string()));
    assert_eq!(arg.unwrap().long, None);

    let arg = info.args.iter().find(|a| a.name == "more");
    assert!(arg.is_some());
    assert_eq!(arg.unwrap().short, None);
    assert_eq!(arg.unwrap().long, Some("very_long-test".to_string()));
}

#[test]
fn auto_shorts() {
    let fields = vec![
        field_short("short", ValueKind::NoValue),
        field_short("more", ValueKind::NoValue),
        field_short("long_arg", ValueKind::NoValue),
    ];
    let info = build(Vec::new(), fields);
    assert!(!parse_value::<bool>("short", &info));
    assert!(!parse_value::<bool>("more", &info));
    assert!(!parse_value::<bool>("long_arg", &info));

    assert_eq!(5, info.args.len());

    let arg = info.args.iter().find(|a| a.name == "long_arg");
    assert!(arg.is_some());
    assert_eq!(arg.unwrap().short, Some("l".to_string()));
    assert_eq!(arg.unwrap().long, Some("long-arg".to_string()));

    let arg = info.args.iter().find(|a| a.name == "short");
    assert!(arg.is_some());
    assert_eq!(arg.unwrap().short, Some("s".to_string()));
    assert_eq!(arg.unwrap().long, Some("short".to_string()));

    let arg = info.args.iter().find(|a| a.name == "more");
    assert!(arg.is_some());
    assert_eq!(arg.unwrap().short, Some("m".to_string()));
    assert_eq!(arg.unwrap().long, Some("more".to_string()));
}

#[test]
fn struct_args_default_mandatory_values() {
    let mut with_default = field("default", ValueKind::Single);
    with_default.default = "42".to_string();
    let fields = vec![
        field("string", ValueKind::Single),
        field("path_buf", ValueKind::Single),
        field("usize", ValueKind::Single),
        field("isize", ValueKind::Single),
        field("f64", ValueKind::Single),
        field("bool", ValueKind::NoValue),
        field("vec", ValueKind::Multi),
        with_default,
    ];
    let info = build(Vec::new(), fields);
    assert_eq!(parse_value::<String>("string", &info), String::default());
    assert_eq!(PathBuf::from(parse_value::<String>("path_buf", &info)), PathBuf::default());
    assert_eq!(parse_value::<usize>("usize", &info), usize::default());
    assert_eq!(parse_value::<isize>("isize", &info), isize::default());
    let f: f64 = parse_value::<String>("f64", &info).parse().unwrap_or_default();
    assert_eq!(f, f64::default());
    assert_eq!(parse_value::<bool>("bool", &info), bool::default());
    assert_eq!(parse_value::<usize>("default", &info), 42usize);

    assert_eq!(10, info.args.len());

    let arg = info.args.iter().find(|a| a.name == "version");
    assert!(arg.is_some());
    assert_eq!(arg.unwrap().default, String::from("false"));
    assert_eq!(arg.unwrap().occurrences, 0);

    let arg = info.args.iter().find(|a| a.name == "usage");
    assert!(arg.is_some());
    assert_eq!(arg.unwrap().default, String::from("false"));
    assert_eq!(arg.unwrap().occurrences, 0);

    let arg = info.args.iter().find(|a| a.name == "string");
    assert!(arg.is_some());
    assert_eq!(arg.unwrap().default, String::from(""));
    assert_eq!(arg.unwrap().occurrences, 0);

    let arg = info.args.iter().find(|a| a.name == "path_buf");
    assert!(arg.is_some());
    assert_eq!(arg.unwrap().default, String::from(""));
    assert_eq!(arg.unwrap().occurrences, 0);
    assert_eq!(
        PathBuf::from(parse_value::<String>("path_buf", &info)),
        PathBuf::from_str("").unwrap()
    );

    let arg = info.args.iter().find(|a| a.name == "usize");
    assert!(arg.is_some());
    assert_eq!(arg.unwrap().default, String::from(""));
    assert_eq!(arg.unwrap().occurrences, 0);

    let arg = info.args.iter().find(|a| a.name == "isize");
    assert!(arg.is_some());
    assert_eq!(arg.unwrap().default, String::from(""));
    assert_eq!(arg.unwrap().occurrences, 0);

    let arg = info.args.iter().find(|a| a.name == "f64");
    assert!(arg.is_some());
    assert_eq!(arg.unwrap().default, String::from(""));
    assert_eq!(arg.unwrap().occurrences, 0);

    let arg = info.args.iter().find(|a| a.name == "bool");
    assert!(arg.is_some());
    assert_eq!(arg.unwrap().default, String::from(""));
    assert_eq!(arg.unwrap().occurrences, 0);

    let arg = info.args.iter().find(|a| a.name == "default");
    assert!(arg.is_some());
    assert_eq!(arg.unwrap().default, String::from("42"));
    assert_eq!(arg.unwrap().occurrences, 0);

    let arg = info.args.iter().find(|a| a.name == "vec");
    assert!(arg.is_some());
    assert_eq!(arg.unwrap().default, String::from(""));
    assert_eq!(arg.unwrap().occurrences, 0);
    let default_vec: Vec<String> = Vec::new();
    assert_eq!(parse_value::<Vec<String>>("vec", &info), default_vec);
}

#[test]
fn struct_args_values() {
    let fields = vec![
        field("string", ValueKind::Single),
        field("path_buf", ValueKind::Single),
        field("usize", ValueKind::Single),
        field("isize", ValueKind::Single),
        field("f64", ValueKind::Single),
        field("bool", ValueKind::NoValue),
    ];
    let info = build(
        vec![
            "--string=mystring",
            "--path-buf=/dir/file.txt",
            "--usize=42",
            "--isize",
            "-42",
            "--f64=4.2222",
            "--bool=true",
        ],
        fields,
    );

    assert_eq!(parse_value::<String>("string", &info), String::from("mystring"));
    assert_eq!(parse_value::<usize>("usize", &info), 42);
    assert_eq!(parse_value::<isize>("isize", &info), -42);
    let f: f64 = parse_value::<String>("f64", &info).parse().unwrap_or_default();
    assert_eq!(f, 4.2222);
    assert!(parse_value::<bool>("bool", &info));
    assert_eq!(
        PathBuf::from(parse_value::<String>("path_buf", &info)),
        PathBuf::from_str("/dir/file.txt").unwrap()
    );
}

#[test]
fn struct_args_positional() {
    let fields = vec![
        field_pos("file", ValueKind::Single, ArgPosition::Fixed(2)),
        field_pos("operation", ValueKind::Single, ArgPosition::Fixed(1)),
    ];
    let info = build(vec!["delete", "/dir/file.txt"], fields);
    assert_eq!(
        PathBuf::from(parse_value::<String>("file", &info)),
        PathBuf::from_str("/dir/file.txt").unwrap()
    );
    assert_eq!(parse_value::<String>("operation", &info), String::from("delete"));
}

#[test]
fn struct_args_positional_dash_only() {
    let fields = vec![field_pos("dash", ValueKind::Single, ArgPosition::Infinite)];
    let info = build(vec!["-"], fields);
    assert_eq!(parse_value::<String>("dash", &info), String::from("-"));
}

#[test]
fn struct_args_only_positional_values_follow() {
    let fields = vec![
        field("zero", ValueKind::NoValue),
        field("one", ValueKind::NoValue),
        field_pos("test1", ValueKind::Multi, ArgPosition::Infinite),
        field_pos("test2", ValueKind::Single, ArgPosition::Fixed(2)),
    ];
    let info = build(
        vec!["--zero", "--", "-t1", "test2", "--test1", "--", "external", "-a", "--test"],
        fields,
    );
    // The first marker is dropped by the normalizer; the second one,
    // emitted verbatim, ends the options for the binder, so the last
    // three tokens count as positional however they look.
    assert!(parse_value::<bool>("zero", &info));
    assert!(!parse_value::<bool>("one", &info));
    assert_eq!(
        parse_value::<Vec<String>>("test1", &info),
        vec_to_string(vec!["test2", "-a", "--test"])
    );
    assert_eq!(parse_value::<String>("test2", &info), String::from("external"));
}

#[test]
fn struct_args_multiple_values() {
    let fields = vec![
        field("string", ValueKind::Multi),
        field("path_buf", ValueKind::Multi),
        field("usize", ValueKind::Multi),
        field("isize", ValueKind::Multi),
    ];
    let info = build(
        vec![
            "--string=mystring1",
            "--usize",
            "42",
            "--string=mystring3",
            "--usize",
            "24",
            "--isize",
            "-42",
            "--path-buf=/dir1/file1.txt",
            "--isize",
            "-24",
            "--path-buf=/dir2/file2.txt",
        ],
        fields,
    );

    assert_eq!(
        parse_value::<Vec<String>>("string", &info),
        vec_to_string(vec!["mystring1", "mystring3"])
    );
    assert_eq!(parse_value::<Vec<usize>>("usize", &info), vec![42, 24]);
    assert_eq!(parse_value::<Vec<isize>>("isize", &info), vec![-42, -24]);
    let paths: Vec<PathBuf> =
        parse_value::<Vec<String>>("path_buf", &info).into_iter().map(PathBuf::from).collect();
    assert_eq!(
        paths,
        vec![
            PathBuf::from_str("/dir1/file1.txt").unwrap(),
            PathBuf::from_str("/dir2/file2.txt").unwrap()
        ]
    );
}

#[test]
fn struct_args_multiple_comma_values() {
    let fields = vec![
        field("string", ValueKind::Multi),
        field("path_buf", ValueKind::Multi),
        field("usize", ValueKind::Multi),
        field("isize", ValueKind::Multi),
    ];
    let info = build(
        vec![
            "--string=mystring1,mystring2,mystring3",
            "--usize",
            "42,43,44",
            "--string=mystring4",
            "--usize",
            "45",
            "--isize=-42,-43,-44",
            "--path-buf=/dir1/file1.txt,/dir1/file2.txt,/dir1/file3.txt",
            "--isize",
            "45",
            "--path-buf=/dir1/file4.txt",
        ],
        fields,
    );

    assert_eq!(
        parse_value::<Vec<String>>("string", &info),
        vec_to_string(vec!["mystring1", "mystring2", "mystring3", "mystring4"])
    );
    assert_eq!(parse_value::<Vec<usize>>("usize", &info), vec![42, 43, 44, 45]);
    assert_eq!(parse_value::<Vec<isize>>("isize", &info), vec![-42, -43, -44, 45]);
    let paths: Vec<PathBuf> =
        parse_value::<Vec<String>>("path_buf", &info).into_iter().map(PathBuf::from).collect();
    assert_eq!(
        paths,
        vec![
            PathBuf::from_str("/dir1/file1.txt").unwrap(),
            PathBuf::from_str("/dir1/file2.txt").unwrap(),
            PathBuf::from_str("/dir1/file3.txt").unwrap(),
            PathBuf::from_str("/dir1/file4.txt").unwrap(),
        ]
    );
}

#[test]
fn struct_args_positional_infinite() {
    let fields = vec![
        field_pos("files", ValueKind::Multi, ArgPosition::Infinite),
        field_pos("second_file", ValueKind::Single, ArgPosition::Fixed(2)),
        field_pos("fifth_file", ValueKind::Single, ArgPosition::Fixed(5)),
    ];
    let info = build(
        vec![
            "/dir/file1.txt",
            "/dir/file2.txt",
            "/dir/file3.txt",
            "/dir/file4.txt",
            "/dir/file5.txt",
            "/dir/file6.txt",
        ],
        fields,
    );

    assert_eq!(parse_value::<String>("second_file", &info), String::from("/dir/file2.txt"));
    assert_eq!(parse_value::<String>("fifth_file", &info), String::from("/dir/file5.txt"));
    assert_eq!(
        parse_value::<Vec<String>>("files", &info),
        vec_to_string(vec!["/dir/file1.txt", "/dir/file3.txt", "/dir/file4.txt", "/dir/file6.txt"])
    );
}

#[test]
fn struct_args_positional_infinite_and_last() {
    let fields = vec![
        field_pos("files", ValueKind::Multi, ArgPosition::Infinite),
        field_pos("last", ValueKind::Single, ArgPosition::Last),
    ];
    let info = build(
        vec!["/dir/file1.txt", "/dir/file2.txt", "/dir/file3.txt", "/dir/file4.txt", "/dir/file5.txt"],
        fields,
    );

    assert_eq!(parse_value::<String>("last", &info), String::from("/dir/file5.txt"));
    assert_eq!(
        parse_value::<Vec<String>>("files", &info),
        vec_to_string(vec!["/dir/file1.txt", "/dir/file2.txt", "/dir/file3.txt", "/dir/file4.txt"])
    );
}

#[test]
fn positional_infinite_optional() {
    let fields = vec![
        field_pos("subcommand", ValueKind::Single, ArgPosition::Fixed(1)),
        field_pos("args", ValueKind::Multi, ArgPosition::Infinite),
    ];
    let info = build(vec!["dmail"], fields);

    assert_eq!(parse_value::<String>("subcommand", &info), String::from("dmail"));
    assert!(parse_value::<Vec<String>>("args", &info).is_empty());
}

#[test]
fn struct_args_empty_value_double_quoted() {
    let fields = vec![
        field_short("short", ValueKind::Single),
        field("long", ValueKind::Single),
    ];
    let info = build(vec!["-s", "", "--long", ""], fields);
    assert_eq!(parse_value::<String>("short", &info), String::from(""));
    assert_eq!(parse_value::<String>("long", &info), String::from(""));
}

#[test]
fn occurrences() {
    let fields = vec![field_short_nolong("verbose", ValueKind::Counter)];
    let info = build(vec!["-vvvv"], fields);
    assert_eq!(parse_value::<u8>("verbose", &info), 4);
}

#[test]
fn not_occurrence() {
    let fields = vec![field_short_nolong("test", ValueKind::Counter)];
    let info = build(vec!["-t", "42"], fields);
    assert_eq!(parse_value::<u8>("test", &info), 42);
}

#[test]
fn struct_args_short_flag_no_space_value() {
    let fields = vec![field_short_nolong("itest", ValueKind::Single)];
    let info = build(vec!["-iC4"], fields);
    assert_eq!(parse_value::<String>("itest", &info), String::from("C4"));
}

#[test]
fn annotation_parser() {
    pub fn capitalize(name: &str, info: &Info) -> String {
        let arg = info.args.iter().find(|a| name == a.name).expect("Infallible");
        if arg.value.is_empty() {
            return String::from("");
        }

        arg.value[0].to_uppercase()
    }

    let fields = vec![
        field("hello", ValueKind::Single),
        field("test", ValueKind::Single),
    ];
    let info = build(vec!["--test", "hello"], fields);
    assert_eq!(capitalize("test", &info), String::from("HELLO"));
    assert_eq!(capitalize("hello", &info), String::from(""));
}
