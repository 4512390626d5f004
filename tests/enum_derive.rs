use no_std_clap::{parse_command_line, ArgInfo, Command, ParseError};

#[derive(Debug, PartialEq)]
struct Args {
    name: Names,
}

#[derive(Debug, PartialEq)]
enum Names {
    John,
    Marco,
    ComposedName,
}

fn names_from_arg(arg: &str) -> Result<Names, ParseError> {
    match arg {
        "john" => Ok(Names::John),
        "renamed" => Ok(Names::Marco),
        "composed-name" => Ok(Names::ComposedName),
        _ => Err(ParseError::UnknownEnumVariant(
            arg.to_string(),
            "john, renamed, composed-name".to_string(),
        )),
    }
}

impl Args {
    fn parse_str(input: &str) -> Result<Self, ParseError> {
        let trimmed = input.trim();
        if trimmed.is_empty() {
            return Err(ParseError::EmptyInput);
        }
        let args = parse_command_line(trimmed)?;
        Self::parse_args(&args)
    }

    fn parse_args(args: &[String]) -> Result<Self, ParseError> {
        let cmd = Command::new(Some("myapp"), Some("1.0"))
            .arg(ArgInfo::new("name").short('n').long("name"));
        let parsed = cmd.parse(args)?;
        let name = parsed
            .get("name")
            .ok_or_else(|| ParseError::MissingArgument("name".to_string()))?;
        Ok(Args { name: names_from_arg(name)? })
    }

}

#[test]
fn test_enum_derive_parsing() {
    let args = vec!["--name".to_string(), "composed-name".to_string()];

    let result_1 = Args::parse_args(&args).unwrap();
    assert_eq!(result_1.name, Names::ComposedName);

    let result_2 = Args::parse_str("--name composed-name").unwrap();
    assert_eq!(result_1, result_2);
}
