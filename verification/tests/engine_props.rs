use kurisu::arg::{Arg, ArgPosition, ValueKind};
use kurisu::{builtin_args, exit_args, normalize_env_args, parse_value, validate_usage, Error, ExitCode, ExitRequest, Info};

fn vec_to_string(args: Vec<&str>) -> Vec<String> {
    let mut strings = Vec::new();
    for arg in args {
        strings.push(arg.to_string());
    }

    strings
}

fn field(name: &str, value_type: ValueKind) -> Arg {
    Arg {
        name: name.to_string(),
        value_type,
        long: Some(name.replace('_', "-")),
        ..Default::default()
    }
}

fn field_short(name: &str, value_type: ValueKind) -> Arg {
    let mut a = field(name, value_type);
    a.short = Some(name[0..1].to_string());
    a
}

fn build_env(input: Vec<&str>, fields: Vec<Arg>, env: &Vec<(String, String)>) -> Info {
    let mut args = builtin_args();
    args.extend(fields);
    Info::build(None, None, None, None, false, vec_to_string(input), args, env)
}

fn build(input: Vec<&str>, fields: Vec<Arg>) -> Info {
    build_env(input, fields, &Vec::new())
}

#[test]
fn env_fallback_by_name() {
    let env = vec![("MY_ENV_VAR".to_string(), "TESTING ENV VARS".to_string())];
    let info = build_env(Vec::new(), vec![field("my_env_var", ValueKind::Single)], &env);
    assert_eq!(parse_value::<String>("my_env_var", &info), "TESTING ENV VARS".to_string());
}

#[test]
fn env_fallback_prefix() {
    let env = vec![("MY_ENV_VAR".to_string(), "TESTING ENV VARS".to_string())];
    let mut f = field("env_var", ValueKind::Single);
    f.env_prefix = Some("MY_".to_string());
    let info = build_env(Vec::new(), vec![f], &env);
    assert_eq!(parse_value::<String>("env_var", &info), "TESTING ENV VARS".to_string());
}

#[test]
fn env_fallback_override() {
    let env = vec![("MY_ENV_VAR".to_string(), "TESTING ENV VARS".to_string())];
    let mut f = field("test", ValueKind::Single);
    f.env = Some("MY_ENV_VAR".to_string());
    let info = build_env(Vec::new(), vec![f], &env);
    assert_eq!(parse_value::<String>("test", &info), "TESTING ENV VARS".to_string());
}

#[test]
fn env_fallback_is_case_insensitive() {
    // The match goes through real case folding; it would fail if the
    // keys were compared as given.
    let env = vec![("HoSt_NaMe".to_string(), "steins".to_string())];
    let info = build_env(Vec::new(), vec![field("HOST_NAME", ValueKind::Single)], &env);
    assert_eq!(parse_value::<String>("HOST_NAME", &info), "steins".to_string());
}

#[test]
fn env_fallback_first_match_wins() {
    let env = vec![
        ("other".to_string(), "first".to_string()),
        ("host".to_string(), "second".to_string()),
        ("HOST".to_string(), "third".to_string()),
    ];
    let info = build_env(Vec::new(), vec![field("host", ValueKind::Single)], &env);
    assert_eq!(parse_value::<String>("host", &info), "second".to_string());
}

#[test]
fn default_wins_over_env() {
    let env = vec![("knots".to_string(), "from-env".to_string())];
    let mut f = field("knots", ValueKind::Single);
    f.default = "8".to_string();
    let info = build_env(Vec::new(), vec![f], &env);
    assert_eq!(parse_value::<String>("knots", &info), "8".to_string());
}

#[test]
fn end_of_options_marker_makes_later_tokens_positional() {
    // Normalizer: the first marker is dropped and everything after it
    // passes through verbatim, even against matching descriptors.
    let kurisu_args = vec![
        field_short("alpha", ValueKind::NoValue),
        field_short("beta", ValueKind::Single),
    ];
    let raw = vec_to_string(vec!["-a", "--", "-ab", "-b", "x", "--", "-1,2"]);
    let norm = normalize_env_args(&raw, &kurisu_args);
    assert_eq!(norm, vec_to_string(vec!["-a", "-ab", "-b", "x", "--", "-1,2"]));

    // Binder and validator: after a lone marker in their stream,
    // every token counts as positional, however it looks.
    let mut files = field("files", ValueKind::Multi);
    files.long = None;
    files.position = Some(ArgPosition::Infinite);
    let stream = vec_to_string(vec!["--", "-x", "--deep"]);
    files.set_value(&stream, &Vec::new(), &Vec::new());
    assert_eq!(files.value, vec_to_string(vec!["-x", "--deep"]));
    let info = Info {
        name: None,
        version: None,
        desc: None,
        doc: None,
        allow_noargs: false,
        env_args: stream,
        args: vec![files],
    };
    assert!(validate_usage(&info).is_none());
}

#[test]
fn flag_synthesizes_at_most_one_true() {
    let info = build(vec!["-a", "-a", "--alpha"], vec![field_short("alpha", ValueKind::NoValue)]);
    let a = info.args.iter().find(|a| a.name == "alpha").unwrap();
    assert_eq!(a.occurrences, 3);
    assert_eq!(a.value, vec!["true".to_string()]);
    assert!(parse_value::<bool>("alpha", &info));
}

#[test]
fn normalize_is_idempotent_on_its_output() {
    let kurisu_args = vec![
        field_short("alpha", ValueKind::NoValue),
        field_short("beta", ValueKind::Single),
        field_short("mul", ValueKind::Multi),
    ];
    let raw = vec_to_string(vec!["-ab", "val", "--mul=x,y", "plain", "-b", "other", "--", "-a"]);
    let once = normalize_env_args(&raw, &kurisu_args);
    let twice = normalize_env_args(&once, &kurisu_args);
    assert_eq!(once, twice);
}

#[test]
fn stacked_flags_equal_spelled_out_flags() {
    let kurisu_args = vec![
        field_short("apple", ValueKind::NoValue),
        field_short("berry", ValueKind::NoValue),
        field_short("cherry", ValueKind::Single),
    ];
    let stacked = normalize_env_args(&vec_to_string(vec!["-abc", "value"]), &kurisu_args);
    let spelled = normalize_env_args(&vec_to_string(vec!["-a", "-b", "-c=value"]), &kurisu_args);
    assert_eq!(stacked, vec_to_string(vec!["-a", "-b", "-c=value"]));
    assert_eq!(stacked, spelled);
}

#[test]
fn comma_values_equal_repeated_options() {
    let joined = build(vec!["--opt=a,b,c"], vec![field("opt", ValueKind::Multi)]);
    let repeated = build(
        vec!["--opt=a", "--opt=b", "--opt=c"],
        vec![field("opt", ValueKind::Multi)],
    );
    assert_eq!(
        parse_value::<Vec<String>>("opt", &joined),
        vec_to_string(vec!["a", "b", "c"])
    );
    assert_eq!(
        parse_value::<Vec<String>>("opt", &joined),
        parse_value::<Vec<String>>("opt", &repeated)
    );
}

#[test]
fn infinite_slot_skips_fixed_slot() {
    let mut second = field("second", ValueKind::Single);
    second.long = None;
    second.position = Some(ArgPosition::Fixed(2));
    let mut rest = field("rest", ValueKind::Multi);
    rest.long = None;
    rest.position = Some(ArgPosition::Infinite);
    let info = build(vec!["one", "two", "three", "four", "five"], vec![second, rest]);
    assert_eq!(parse_value::<String>("second", &info), "two".to_string());
    assert_eq!(
        parse_value::<Vec<String>>("rest", &info),
        vec_to_string(vec!["one", "three", "four", "five"])
    );
}

#[test]
fn negative_number_is_a_value_not_a_flag() {
    let info = build(vec!["--num", "-42"], vec![field("num", ValueKind::Single)]);
    assert!(validate_usage(&info).is_none());
    assert_eq!(parse_value::<isize>("num", &info), -42);
}

#[test]
fn counter_flag_counts_many_occurrences() {
    let mut verbose = field_short("verbose", ValueKind::Counter);
    verbose.long = None;
    let info = build(vec!["-vvvvvvvvvvvv"], vec![verbose]);
    assert_eq!(parse_value::<u8>("verbose", &info), 12);
}

#[test]
fn numeric_parsers_fall_back_to_zero() {
    let fields = vec![
        field("a", ValueKind::Single),
        field("b", ValueKind::Single),
        field("c", ValueKind::Single),
        field("d", ValueKind::Single),
    ];
    let info = build(
        vec!["--a=99999999999999999999999999", "--b=nonsense", "--c=+42", "--d=256"],
        fields,
    );
    assert_eq!(parse_value::<usize>("a", &info), 0);
    assert_eq!(parse_value::<usize>("b", &info), 0);
    assert_eq!(parse_value::<isize>("b", &info), 0);
    assert_eq!(parse_value::<usize>("c", &info), 42);
    assert_eq!(parse_value::<isize>("c", &info), 42);
    assert_eq!(parse_value::<u8>("d", &info), 0);
    assert_eq!(parse_value::<usize>("d", &info), 256);
}

#[test]
fn isize_parser_handles_the_extremes() {
    let fields = vec![
        field("min", ValueKind::Single),
        field("max", ValueKind::Single),
        field("under", ValueKind::Single),
    ];
    let info = build(
        vec![
            "--min=-9223372036854775808",
            "--max=9223372036854775807",
            "--under=-9223372036854775809",
        ],
        fields,
    );
    assert_eq!(parse_value::<isize>("min", &info), isize::MIN);
    assert_eq!(parse_value::<isize>("max", &info), isize::MAX);
    assert_eq!(parse_value::<isize>("under", &info), 0);
}

#[test]
fn bool_parser_accepts_only_plain_true() {
    let fields = vec![field("a", ValueKind::Single), field("b", ValueKind::Single)];
    let info = build(vec!["--a=true", "--b=TRUE"], fields);
    assert!(parse_value::<bool>("a", &info));
    assert!(!parse_value::<bool>("b", &info));
}

#[test]
fn optional_values_parse_to_none() {
    let info = build(vec!["--opt=x"], vec![field("opt", ValueKind::Optional)]);
    assert_eq!(parse_value::<Option<String>>("opt", &info), None);
}

#[test]
fn registry_getters_partition_descriptors() {
    let mut pos = field("pos", ValueKind::Single);
    pos.long = None;
    pos.position = Some(ArgPosition::Fixed(1));
    let fields = vec![field("flag", ValueKind::NoValue), field("opt", ValueKind::Single), pos];
    let info = build(vec!["x"], fields);

    let positionals = info.get_positional_args();
    assert_eq!(positionals.len(), 1);
    assert_eq!(positionals[0].name, "pos");

    let flags: Vec<String> = info.get_flags().iter().map(|a| a.name.clone()).collect();
    assert_eq!(flags, vec!["flag".to_string(), "usage".to_string(), "version".to_string()]);

    let options = info.get_options();
    assert_eq!(options.len(), 1);
    assert_eq!(options[0].name, "opt");
}

#[test]
fn registry_sorts_descriptors_by_display_key() {
    let fields = vec![field("zulu", ValueKind::Single), field("alpha", ValueKind::Single)];
    let info = build(vec!["--zulu=1", "--alpha=2"], fields);
    let names: Vec<String> = info.args.iter().map(|a| a.name.clone()).collect();
    assert_eq!(
        names,
        vec![
            "alpha".to_string(),
            "usage".to_string(),
            "version".to_string(),
            "zulu".to_string()
        ]
    );
}

#[test]
fn exit_request_reports_custom_hook_by_name() {
    let mut hook = field("purge", ValueKind::NoValue);
    hook.has_exit = true;
    let info = build(vec!["--purge"], vec![hook]);
    assert_eq!(exit_args(&info), Some(ExitRequest::Custom("purge".to_string())));
}

#[test]
fn exit_request_absent_when_nothing_fired() {
    let info = build(vec!["--knots=8"], vec![field("knots", ValueKind::Single)]);
    assert_eq!(exit_args(&info), None);
}

#[test]
fn exit_codes_follow_the_sysexits_numbers() {
    assert_eq!(ExitCode::OK.code(), 0);
    assert_eq!(ExitCode::FAILURE.code(), 1);
    assert_eq!(ExitCode::USAGE.code(), 64);
    assert_eq!(ExitCode::DATAERR.code(), 65);
    assert_eq!(ExitCode::NOINPUT.code(), 66);
    assert_eq!(ExitCode::NOUSER.code(), 67);
    assert_eq!(ExitCode::NOHOST.code(), 68);
    assert_eq!(ExitCode::UNAVAILABLE.code(), 69);
    assert_eq!(ExitCode::SOFTWARE.code(), 70);
    assert_eq!(ExitCode::OSERR.code(), 71);
    assert_eq!(ExitCode::OSFILE.code(), 72);
    assert_eq!(ExitCode::CANTCREAT.code(), 73);
    assert_eq!(ExitCode::IOERR.code(), 74);
    assert_eq!(ExitCode::TEMPFAIL.code(), 75);
    assert_eq!(ExitCode::PROTOCOL.code(), 76);
    assert_eq!(ExitCode::NOPERM.code(), 77);
    assert_eq!(ExitCode::CONFIG.code(), 78);
}

#[test]
fn custom_errors_pass_through_unmodified() {
    let text = Error::Custom("anything at all".to_string());
    assert_eq!(text, Error::Custom("anything at all".to_string()));
    let arg = field("knots", ValueKind::Single);
    let carried = Error::CustomArg(arg.clone(), "needs water".to_string());
    assert_eq!(carried, Error::CustomArg(arg, "needs water".to_string()));
}

#[test]
fn separator_constant_is_stable() {
    assert_eq!(kurisu::VALUE_SEPARATOR, "(_(__)===D");
}

#[test]
fn multi_value_option_spread_over_the_stream() {
    let info = build(
        vec!["-m", "one", "-m=two", "--multi", "three"],
        vec![field_short("multi", ValueKind::Multi)],
    );
    assert!(validate_usage(&info).is_none());
    assert_eq!(
        parse_value::<Vec<String>>("multi", &info),
        vec_to_string(vec!["one", "two", "three"])
    );
}

#[test]
fn unknown_cluster_tail_becomes_inline_value() {
    // `-i` is known, `C` is not: the rest of the cluster is the value.
    let kurisu_args = vec![field_short("input", ValueKind::Single)];
    let norm = normalize_env_args(&vec_to_string(vec!["-iC4,5"]), &kurisu_args);
    assert_eq!(norm, vec_to_string(vec!["-iC4,5"]));
    let norm2 = normalize_env_args(&vec_to_string(vec!["-xyz"]), &kurisu_args);
    assert_eq!(norm2, vec_to_string(vec!["xyz"]));
}
