use no_std_clap::{parse_command_line, to_kebab_case_case, ArgInfo, Command, FromArg, ParseError, ParsedArgs, SubcommandInfo};

fn toks(words: &[&str]) -> Vec<String> {
    words.iter().map(|w| w.to_string()).collect()
}

fn app() -> Command {
    Command::new(Some("app"), Some("2.1"))
        .arg(ArgInfo::new("verbose").short('v').long("verbose").count().global())
        .arg(ArgInfo::new("output").short('o').long("output").help("Where to write"))
        .arg(ArgInfo::new("quiet").short('q').long("quiet"))
        .arg(ArgInfo::new("input"))
        .subcommand(
            SubcommandInfo::new("add")
                .about("Add an item")
                .arg(ArgInfo::new("name").short('n').long("name").required())
                .subcommand(SubcommandInfo::new("deep").arg(ArgInfo::new("id").long("id").required())),
        )
        .subcommand(SubcommandInfo::new("list"))
}

#[test]
fn short_counting_cluster_counts_each_letter() {
    let parsed = app().parse(&toks(&["-vvv"])).unwrap();
    assert_eq!(parsed.count("verbose"), 3);
}

#[test]
fn long_counting_option_counts_each_occurrence() {
    let parsed = app().parse(&toks(&["--verbose", "-v", "--verbose"])).unwrap();
    assert_eq!(parsed.count("verbose"), 3);
    assert!(!parsed.contains_key("verbose"));
}

#[test]
fn required_argument_absent_is_missing() {
    let err = app().parse(&toks(&["add", "--verbose"])).unwrap_err();
    assert_eq!(err, ParseError::MissingArgument("name".to_string()));
    assert_eq!(err.message(), "Missing required argument: name");
}

#[test]
fn required_argument_absent_with_plain_words() {
    let cmd = Command::new(None, None).arg(ArgInfo::new("file").long("file").required());
    let err = cmd.parse(&toks(&["stray", "words"])).unwrap_err();
    assert_eq!(err, ParseError::MissingArgument("file".to_string()));
    let err = cmd.parse(&toks(&[])).unwrap_err();
    assert_eq!(err, ParseError::MissingArgument("file".to_string()));
}

#[test]
fn unknown_long_option_is_named() {
    let err = app().parse(&toks(&["--foo", "x"])).unwrap_err();
    assert_eq!(err, ParseError::UnknownArgument("foo".to_string()));
    assert_eq!(err.message(), "Unknown argument: foo");
}

#[test]
fn unknown_short_character_is_named() {
    let err = app().parse(&toks(&["-vx"])).unwrap_err();
    assert_eq!(err, ParseError::UnknownArgument("x".to_string()));
}

#[test]
fn lone_help_at_root() {
    let err = app().parse(&toks(&["--help"])).unwrap_err();
    assert_eq!(err, ParseError::Help(app().get_help()));
    let err = app().parse(&toks(&["-h"])).unwrap_err();
    assert_eq!(err, ParseError::Help(app().get_help()));
}

#[test]
fn lone_help_in_nested_level_beats_required() {
    let err = app().parse(&toks(&["add", "deep", "-h"])).unwrap_err();
    match err {
        ParseError::Help(text) => {
            assert!(text.starts_with("Usage: app add deep [OPTIONS]\n"));
            assert!(text.contains("  --id\n"));
            assert!(text.contains("  -v, --verbose\n"));
        }
        other => panic!("expected help, got {:?}", other),
    }
}

#[test]
fn help_not_alone_is_an_option() {
    let err = app().parse(&toks(&["--help", "-v"])).unwrap_err();
    assert_eq!(err, ParseError::UnknownArgument("help".to_string()));
}

#[test]
fn global_count_after_subcommand_reaches_root() {
    let parsed = app().parse(&toks(&["add", "--name", "x", "-vvv"])).unwrap();
    assert_eq!(parsed.count("verbose"), 3);
    let (name, sub) = parsed.get_subcommand().unwrap();
    assert_eq!(name, "add");
    assert_eq!(sub.count("verbose"), 3);
    assert_eq!(sub.get("name").unwrap(), "x");
}

#[test]
fn global_count_before_and_after_subcommand() {
    let parsed = app().parse(&toks(&["-v", "add", "-n", "x", "-vv"])).unwrap();
    assert_eq!(parsed.count("verbose"), 3);
}

#[test]
fn tokenizer_groups_quoted_words() {
    assert_eq!(parse_command_line("a \"b c\" d").unwrap(), toks(&["a", "b c", "d"]));
}

#[test]
fn tokenizer_rejects_unclosed_quote() {
    let err = parse_command_line("a \"b").unwrap_err();
    assert_eq!(err, ParseError::InvalidFormat("Unclosed quote in command line".to_string()));
    assert_eq!(err.message(), "Invalid format: Unclosed quote in command line");
}

#[test]
fn tokenizer_escapes_and_other_quotes() {
    assert_eq!(
        parse_command_line("'it\\'s' \"say 'hi'\"   x\ty").unwrap(),
        toks(&["it's", "say 'hi'", "x", "y"])
    );
    assert_eq!(parse_command_line("").unwrap(), Vec::<String>::new());
    assert_eq!(parse_command_line("a\\b").unwrap(), toks(&["a\\b"]));
}

#[test]
fn subcommand_chain_is_recovered() {
    let parsed = app().parse(&toks(&["add", "deep", "--id", "7", "-n", "z"]));
    let err = parsed.unwrap_err();
    assert_eq!(err, ParseError::UnknownArgument("n".to_string()));
    let cmd = Command::new(Some("tool"), None).subcommand(
        SubcommandInfo::new("remote").subcommand(SubcommandInfo::new("prune")),
    );
    let parsed = cmd.parse(&toks(&["remote", "prune"])).unwrap();
    let (first, level1) = parsed.get_subcommand().unwrap();
    let (second, level2) = level1.get_subcommand().unwrap();
    assert_eq!((first, second), ("remote", "prune"));
    assert!(level2.get_subcommand().is_none());
}

#[test]
fn string_and_words_parse_alike() {
    let line = "  -o out.txt add --name x -vv ";
    let words: Vec<String> = line.split_whitespace().map(|w| w.to_string()).collect();
    let a = app().parse_str(line).unwrap();
    let b = app().parse_from(&words).unwrap();
    assert_eq!(a.get("output"), b.get("output"));
    assert_eq!(a.count("verbose"), b.count("verbose"));
    assert_eq!(a.count("verbose"), 2);
    assert_eq!(a.get("output").unwrap(), "out.txt");
}

#[test]
fn empty_inputs_are_rejected() {
    assert_eq!(app().parse_from(&[]).unwrap_err(), ParseError::EmptyInput);
    assert_eq!(app().parse_str(" \t\n").unwrap_err(), ParseError::EmptyInput);
    assert_eq!(ParseError::EmptyInput.message(), "Empty input");
}

#[test]
fn missing_subcommand_when_demanded() {
    let cmd = Command::new(Some("tool"), None)
        .subcommand(SubcommandInfo::new("run"))
        .subcommand_required();
    assert_eq!(cmd.parse(&toks(&[])).unwrap_err(), ParseError::MissingSubcommand);
    assert!(cmd.parse(&toks(&["run"])).is_ok());
}

#[test]
fn boolean_literal_after_long_option_is_its_value() {
    let parsed = app().parse(&toks(&["--quiet", "TRUE", "list"])).unwrap();
    assert_eq!(parsed.get("quiet").unwrap(), "TRUE");
    assert_eq!(parsed.get_subcommand().unwrap().0, "list");
}

#[test]
fn short_boolean_before_literal_takes_it() {
    let parsed = app().parse(&toks(&["-q", "on", "list"])).unwrap();
    assert_eq!(parsed.get("quiet").unwrap(), "on");
    assert!(!parsed.contains_key("input"));
    assert_eq!(parsed.get_subcommand().unwrap().0, "list");
    let parsed = app().parse(&toks(&["-vq", "Off"])).unwrap();
    assert_eq!(parsed.get("quiet").unwrap(), "Off");
    assert_eq!(parsed.count("verbose"), 1);
    let parsed = app().parse(&toks(&["-vv", "yes"])).unwrap();
    assert_eq!(parsed.get("input").unwrap(), "yes");
}

#[test]
fn long_flag_without_value() {
    let parsed = app().parse(&toks(&["--quiet", "-v"])).unwrap();
    assert_eq!(parsed.get_all("quiet"), vec![""]);
    assert_eq!(parsed.count("verbose"), 1);
}

#[test]
fn short_value_from_rest_of_cluster_or_next_token() {
    let parsed = app().parse(&toks(&["-vofile.txt", "list"])).unwrap();
    assert_eq!(parsed.get("output").unwrap(), "file.txt");
    assert_eq!(parsed.count("verbose"), 1);
    assert_eq!(parsed.get_subcommand().unwrap().0, "list");
    let err = app().parse(&toks(&["-vofile.txt"])).unwrap_err();
    assert_eq!(err, ParseError::UnknownArgument("f".to_string()));
    let parsed = app().parse(&toks(&["-o", "x.txt", "-o", "y.txt"])).unwrap();
    assert_eq!(parsed.get_all("output"), vec!["x.txt", "y.txt"]);
    assert_eq!(parsed.get("output").unwrap(), "x.txt");
}

#[test]
fn plain_words_fill_the_first_positional() {
    let parsed = app().parse(&toks(&["first", "-", "second", "-q"])).unwrap();
    assert_eq!(parsed.get_all("input"), vec!["first", "second"]);
    assert!(parsed.contains_key("quiet"));
    let parsed = app().parse(&toks(&["add", "-n", "x", "stray"])).unwrap();
    assert!(parsed.get_subcommand().unwrap().1.get_all("stray").is_empty());
}

#[test]
fn required_positional_is_satisfied_by_a_word() {
    let cmd = Command::new(Some("cat"), None).arg(ArgInfo::new("file").required());
    let parsed = cmd.parse(&toks(&["notes.txt"])).unwrap();
    assert_eq!(parsed.get("file").unwrap(), "notes.txt");
    assert_eq!(
        cmd.parse(&toks(&[])).unwrap_err(),
        ParseError::MissingArgument("file".to_string())
    );
}

#[test]
fn root_help_text_exact() {
    let expected = "app 2.1Usage: app <INPUT> [OPTIONS] [SUBCOMMAND]\n\
\n\
Arguments:\n  INPUT\n\
Options:\n  -o, --output\t\t\tWhere to write\n  -q, --quiet\n  -v, --verbose\n\
\n\
Commands:\n  add\t\t\tAdd an item\n  list\n";
    assert_eq!(app().get_help(), expected);
}

#[test]
fn help_sections_without_arguments() {
    let cmd = Command::new(Some("tool"), None)
        .subcommand(SubcommandInfo::new("run").about("Run it"));
    assert_eq!(cmd.get_help(), "toolUsage: tool [SUBCOMMAND]\n\nCommands:\n  run\t\t\tRun it\n");
}

#[test]
fn subcommand_help_text_exact() {
    let sub = SubcommandInfo::new("add")
        .about("Add an item")
        .arg(ArgInfo::new("name").short('n').long("name").required());
    assert_eq!(
        sub.get_help(Some("app".to_string())),
        "Add an item\n\nUsage: app add [OPTIONS]\n\nOptions:\n  -n, --name\n"
    );
    assert_eq!(SubcommandInfo::new("x").get_help(None), "Usage: x");
}

#[test]
fn error_messages() {
    assert_eq!(ParseError::MissingSubcommand.message(), "Missing subcommand");
    assert_eq!(ParseError::InvalidValue("bad".to_string()).message(), "Invalid value: bad");
    assert_eq!(ParseError::Help("text".to_string()).message(), "text");
    assert_eq!(
        ParseError::UnknownEnumVariant("z".to_string(), "a, b".to_string()).message(),
        "Invalid value: z, possible values are: a, b"
    );
}

#[test]
fn integer_conversions() {
    assert_eq!(i32::from_arg("-42").unwrap(), -42);
    assert_eq!(u8::from_arg("+7").unwrap(), 7);
    assert_eq!(i64::from_arg("9000000000").unwrap(), 9_000_000_000);
    assert_eq!(
        u8::from_arg("256").unwrap_err(),
        ParseError::InvalidValue("Cannot parse '256' as u8".to_string())
    );
    assert!(u16::from_arg("-1").is_err());
    assert!(i8::from_arg("").is_err());
    assert!(usize::from_arg("12a").is_err());
}

#[test]
fn bool_and_string_conversions() {
    assert_eq!(bool::from_arg("YES").unwrap(), true);
    assert_eq!(bool::from_arg("Off").unwrap(), false);
    assert_eq!(
        bool::from_arg("maybe").unwrap_err(),
        ParseError::InvalidValue("Cannot parse 'maybe' as bool".to_string())
    );
    assert_eq!(String::from_arg("a b").unwrap(), "a b");
}

#[test]
fn list_and_option_conversions() {
    assert_eq!(Vec::<u8>::from_arg("1, 2,3").unwrap(), vec![1, 2, 3]);
    assert!(Vec::<u8>::from_arg("1,,3").is_err());
    assert_eq!(Option::<i16>::from_arg("12").unwrap(), Some(12));
}

#[test]
fn store_operations() {
    let mut p = ParsedArgs::new();
    assert_eq!(p.get("k"), None);
    assert!(p.get_all("k").is_empty());
    p.insert("k".to_string(), "a".to_string());
    p.insert("k".to_string(), "b".to_string());
    p.insert_flag("f".to_string());
    p.increment("c".to_string());
    p.increment("c".to_string());
    assert_eq!(p.get("k").unwrap(), "a");
    assert_eq!(p.get_all("k"), vec!["a", "b"]);
    assert!(p.contains_key("f"));
    assert_eq!(p.count("c"), 2);
    assert_eq!(p.count("d"), 0);
    let mut nested = ParsedArgs::new();
    nested.increment("c".to_string());
    nested.increment("d".to_string());
    p.set_subcommand("sub".to_string(), nested);
    assert_eq!(p.count("c"), 3);
    assert_eq!(p.count("d"), 1);
    let (name, inner) = p.get_subcommand().unwrap();
    assert_eq!(name, "sub");
    assert_eq!(inner.count("c"), 1);
}

#[test]
fn builders_record_their_settings() {
    let a = ArgInfo::new("x").short('x').long("ex").help("h").required().multiple().global().count();
    assert_eq!(a.name, "x");
    assert_eq!(a.short, Some('x'));
    assert_eq!(a.long.as_deref(), Some("ex"));
    assert_eq!(a.help.as_deref(), Some("h"));
    assert!(a.required && a.multiple && a.global && a.counting);
    let cmd = Command::new(Some("n"), Some("v"));
    assert_eq!(cmd.get_name(), Some("n"));
    assert_eq!(cmd.get_version(), Some("v"));
    assert_eq!(no_std_clap::parse_env(), Vec::<String>::new());
}

#[test]
fn kebab_case_names() {
    assert_eq!(to_kebab_case_case("ComposedName"), "composed-name");
    assert_eq!(to_kebab_case_case("HTTPServer"), "http-server");
    assert_eq!(to_kebab_case_case("myApp"), "my-app");
    assert_eq!(to_kebab_case_case("ABc"), "a-bc");
    assert_eq!(to_kebab_case_case("ABC"), "abc");
    assert_eq!(to_kebab_case_case(""), "");
}

#[test]
fn parse_str_trims_surrounding_white_space() {
    let parsed = app().parse_str("\n -q \t").unwrap();
    assert!(parsed.contains_key("quiet"));
    let err = app().parse_str("-o \"unterminated").unwrap_err();
    assert_eq!(err, ParseError::InvalidFormat("Unclosed quote in command line".to_string()));
}

#[test]
fn global_count_over_every_level() {
    let parsed = app()
        .parse(&toks(&["-v", "--verbose", "add", "-vv", "-n", "x", "deep", "--id", "1", "--verbose"]))
        .unwrap();
    assert_eq!(parsed.count("verbose"), 5);
    let (_, add) = parsed.get_subcommand().unwrap();
    assert_eq!(add.count("verbose"), 3);
}

#[test]
fn store_presence_matches_values() {
    let mut p = ParsedArgs::new();
    p.increment("c".to_string());
    assert!(!p.contains_key("c"));
    assert!(p.get_all("c").is_empty());
}
