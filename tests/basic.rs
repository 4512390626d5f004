use no_std_clap::{parse_command_line, ArgInfo, Command, FromArg, ParseError};

#[derive(Debug, PartialEq)]
struct TestArgs {
    name: String,
    count: i32,
    verbose: bool,
    list: Vec<u8>,
    optional: Option<String>,
}

fn schema() -> Command {
    Command::new(Some("test"), Some("0.1.0"))
        .arg(ArgInfo::new("name").long("name").short('n').required())
        .arg(ArgInfo::new("count").long("count").short('c').required())
        .arg(ArgInfo::new("verbose").long("verbose").short('v').global())
        .arg(ArgInfo::new("list").long("list").short('l').multiple())
        .arg(ArgInfo::new("optional").long("optional").short('o'))
}

impl TestArgs {
    fn parse_str(input: &str) -> Result<Self, ParseError> {
        let trimmed = input.trim();
        if trimmed.is_empty() {
            return Err(ParseError::EmptyInput);
        }
        let args = parse_command_line(trimmed)?;
        Self::parse_args(&args)
    }

    fn parse_args(args: &[String]) -> Result<Self, ParseError> {
        let parsed = schema().parse(args)?;
        let name = parsed
            .get("name")
            .ok_or_else(|| ParseError::MissingArgument("name".to_string()))?;
        let count_str = parsed
            .get("count")
            .ok_or_else(|| ParseError::MissingArgument("count".to_string()))?;
        let verbose = parsed.contains_key("verbose");
        let list = parsed
            .get_all("list")
            .into_iter()
            .map(|s| u8::from_arg(s).unwrap())
            .collect();
        let optional = parsed.get("optional").map(|s| s.clone());
        Ok(TestArgs {
            name: String::from_arg(name)?,
            count: i32::from_arg(count_str)?,
            verbose,
            list,
            optional,
        })
    }

}

#[test]
fn basic_test_basic_parsing() {
    let args = vec![
        "--name".to_string(),
        "test".to_string(),
        "--count".to_string(),
        "42".to_string(),
        "--list".to_string(),
        "5".to_string(),
        "--verbose".to_string(),
    ];

    let result_1 = TestArgs::parse_args(&args).unwrap();
    assert_eq!(result_1.name, "test");
    assert_eq!(result_1.count, 42);
    assert!(result_1.verbose);
    assert_eq!(result_1.list, vec![5]);
    assert_eq!(result_1.optional, None);

    let result_2 = TestArgs::parse_str("--name test --count 42 --list 5 --verbose").unwrap();
    assert_eq!(result_1, result_2);
}
