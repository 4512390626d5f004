use no_std_clap::{parse_command_line, ArgInfo, Command, FromArg, ParseError};

#[derive(Debug, PartialEq)]
struct Args {
    name: String,
    number: i32,
    verbose: usize,
    list: Vec<u8>,
    optional: Option<u16>,
    optional_with_default: Option<u16>,
    computed: String,
}

fn schema() -> Command {
    Command::new(Some("myapp"), Some("1.0"))
        .arg(ArgInfo::new("name").short('n').long("name").help("Name to use"))
        .arg(ArgInfo::new("number").short('n').long("number").required())
        .arg(ArgInfo::new("verbose").short('v').long("verbose").count().global())
        .arg(ArgInfo::new("list").short('l').long("list").multiple())
        .arg(ArgInfo::new("optional").long("optional"))
        .arg(ArgInfo::new("optional_with_default").long("optional-with-default"))
        .arg(
            ArgInfo::new("help")
                .short('h')
                .long("help")
                .help("Prints help information")
                .global(),
        )
}

impl Args {
    fn parse_str(input: &str) -> Result<Self, ParseError> {
        let trimmed = input.trim();
        if trimmed.is_empty() {
            return Err(ParseError::EmptyInput);
        }
        let args = parse_command_line(trimmed)?;
        Self::parse_args(&args)
    }

    fn parse_args(args: &[String]) -> Result<Self, ParseError> {
        let parsed = schema().parse(args)?;
        let name = parsed
            .get("name")
            .ok_or_else(|| ParseError::MissingArgument("name".to_string()))?;
        let number = parsed
            .get("number")
            .ok_or_else(|| ParseError::MissingArgument("number".to_string()))?;
        let mut list = Vec::new();
        for value in parsed.get_all("list") {
            list.push(u8::from_arg(value)?);
        }
        let optional = match parsed.get("optional") {
            Some(s) => Some(u16::from_arg(s)?),
            None => None,
        };
        let optional_with_default = match parsed.get("optional_with_default") {
            Some(s) => Some(u16::from_arg(s)?),
            None => Some(u16::from_arg("3")?),
        };
        Ok(Args {
            name: String::from_arg(name)?,
            number: i32::from_arg(number)?,
            verbose: parsed.count("verbose"),
            list,
            optional,
            optional_with_default,
            computed: String::default(),
        })
    }

}

#[test]
fn derive_test_derive_parsing() {
    let args = vec![
        "--name".to_string(),
        "test".to_string(),
        "--number".to_string(),
        "42".to_string(),
        "--list".to_string(),
        "5".to_string(),
        "--list".to_string(),
        "6".to_string(),
        "--verbose".to_string(),
    ];

    let result_1 = Args::parse_args(&args).unwrap();
    assert_eq!(result_1.name, "test");
    assert_eq!(result_1.number, 42);
    assert_eq!(result_1.verbose, 1);
    assert_eq!(result_1.list, vec![5, 6]);
    assert_eq!(result_1.optional, None);
    assert_eq!(result_1.optional_with_default, Some(3));

    let result_2 = Args::parse_str("--name test --number 42 -v --list 5 --list 6").unwrap();
    assert_eq!(result_1, result_2);
}

#[test]
fn test_help_parsing() {
    let args = vec![
        "--name".to_string(),
        "test".to_string(),
        "--number".to_string(),
        "42".to_string(),
        "--list".to_string(),
        "5".to_string(),
        "--verbose".to_string(),
        "--help".to_string(),
    ];

    if let Err(ParseError::Help(help)) = Args::parse_args(&args) {
        assert!(!help.is_empty());
    }
}
