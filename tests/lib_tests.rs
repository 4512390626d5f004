use no_std_clap::{parse_command_line, ArgInfo, Command, FromArg, ParseError};

#[derive(Debug, PartialEq)]
struct TestArgs {
    name: String,
    count: i32,
    verbose: bool,
    optional: Option<String>,
}

impl TestArgs {
    fn parse_str(input: &str) -> Result<Self, ParseError> {
        let trimmed = input.trim();
        if trimmed.is_empty() {
            return Err(ParseError::EmptyInput);
        }
        let args = parse_command_line(trimmed)?;
        Self::parse_args(&args)
    }

    fn parse_args(args: &[String]) -> Result<Self, ParseError> {
        let cmd = Command::new(Some("test"), None)
            .arg(ArgInfo::new("name").long("name").short('n').required())
            .arg(ArgInfo::new("count").long("count").short('c').required())
            .arg(ArgInfo::new("verbose").long("verbose").short('v'))
            .arg(ArgInfo::new("optional").long("optional").short('o'));
        let parsed = cmd.parse(args)?;
        let name = parsed
            .get("name")
            .ok_or_else(|| ParseError::MissingArgument("name".to_string()))?;
        let count_str = parsed
            .get("count")
            .ok_or_else(|| ParseError::MissingArgument("count".to_string()))?;
        let verbose = parsed.get("verbose").map(|_| true).unwrap_or(false);
        let optional = parsed.get("optional").map(|s| s.clone());
        Ok(TestArgs {
            name: String::from_arg(name)?,
            count: i32::from_arg(count_str)?,
            verbose,
            optional,
        })
    }

}

#[derive(Debug, PartialEq)]
struct Args {
    name: String,
    count: i32,
    verbose: bool,
    optional: Option<String>,
    computed: String,
}

impl Args {
    fn parse_str(input: &str) -> Result<Self, ParseError> {
        let trimmed = input.trim();
        if trimmed.is_empty() {
            return Err(ParseError::EmptyInput);
        }
        let args = parse_command_line(trimmed)?;
        Self::parse_args(&args)
    }

    fn parse_args(args: &[String]) -> Result<Self, ParseError> {
        let cmd = Command::new(Some("myapp"), Some("1.0"))
            .arg(ArgInfo::new("name").short('n').long("name").help("Name to use"))
            .arg(ArgInfo::new("count").short('c').long("count").required())
            .arg(ArgInfo::new("verbose").short('v').long("verbose"))
            .arg(ArgInfo::new("optional").long("optional"));
        let parsed = cmd.parse(args)?;
        let name = parsed
            .get("name")
            .ok_or_else(|| ParseError::MissingArgument("name".to_string()))?;
        let count = parsed
            .get("count")
            .ok_or_else(|| ParseError::MissingArgument("count".to_string()))?;
        let optional = match parsed.get("optional") {
            Some(s) => Some(String::from_arg(s)?),
            None => None,
        };
        Ok(Args {
            name: String::from_arg(name)?,
            count: i32::from_arg(count)?,
            verbose: parsed.contains_key("verbose"),
            optional,
            computed: String::default(),
        })
    }

}

#[test]
fn lib_test_basic_parsing() {
    let args = vec![
        "--name".to_string(),
        "test".to_string(),
        "--count".to_string(),
        "42".to_string(),
        "--verbose".to_string(),
        "true".to_string(),
    ];

    let result_1 = TestArgs::parse_args(&args).unwrap();
    assert_eq!(result_1.name, "test");
    assert_eq!(result_1.count, 42);
    assert!(result_1.verbose);
    assert_eq!(result_1.optional, None);

    let result_2 = TestArgs::parse_str("--name test --count 42 --verbose true").unwrap();
    assert_eq!(result_1, result_2);
}

#[test]
fn lib_test_derive_parsing() {
    let args = vec![
        "--name".to_string(),
        "test".to_string(),
        "--count".to_string(),
        "42".to_string(),
        "--verbose".to_string(),
        "true".to_string(),
    ];

    let result_1 = Args::parse_args(&args).unwrap();
    assert_eq!(result_1.name, "test");
    assert_eq!(result_1.count, 42);
    assert!(result_1.verbose);
    assert_eq!(result_1.optional, None);

    let result_2 = Args::parse_str("--name test --count 42 --verbose true").unwrap();
    assert_eq!(result_1, result_2);
}
