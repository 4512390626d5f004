use no_std_clap::{parse_command_line, ArgInfo, Command, ParseError, ParsedArgs, SubcommandInfo};

#[derive(Debug, PartialEq)]
struct Cli {
    command: Option<Commands>,
    verbose: usize,
}

#[derive(Debug, PartialEq)]
enum Commands {
    Add(AddArgs),
    Remove(RemoveCommand),
    List,
}

#[derive(Debug, PartialEq)]
struct AddArgs {
    name: String,
    force: bool,
}

#[derive(Debug, PartialEq)]
enum RemoveCommand {
    One,
    All(RemoveAllCommand),
}

#[derive(Debug, PartialEq)]
struct RemoveAllCommand {
    pub name: String,
    pub recursive: bool,
}

fn schema() -> Command {
    Command::new(Some("myapp"), Some("1.0"))
        .arg(ArgInfo::new("verbose").short('v').count().global())
        .subcommand(
            SubcommandInfo::new("add")
                .about("Add a new item")
                .arg(ArgInfo::new("name").short('n').long("name").required())
                .arg(ArgInfo::new("force").short('f').long("force")),
        )
        .subcommand(
            SubcommandInfo::new("remove")
                .about("Remove an item")
                .subcommand(SubcommandInfo::new("one"))
                .subcommand(
                    SubcommandInfo::new("all")
                        .arg(ArgInfo::new("name").short('n').long("name").required())
                        .arg(ArgInfo::new("recursive").short('r').long("recursive")),
                ),
        )
        .subcommand(SubcommandInfo::new("list").about("List all items"))
}

fn required(args: &ParsedArgs, name: &str) -> Result<String, ParseError> {
    args.get(name)
        .cloned()
        .ok_or_else(|| ParseError::MissingArgument(name.to_string()))
}

fn remove_from(args: &ParsedArgs) -> Result<RemoveCommand, ParseError> {
    match args.get_subcommand() {
        Some(("one", _)) => Ok(RemoveCommand::One),
        Some(("all", sub)) => Ok(RemoveCommand::All(RemoveAllCommand {
            name: required(sub, "name")?,
            recursive: sub.contains_key("recursive"),
        })),
        Some((other, _)) => Err(ParseError::UnknownArgument(other.to_string())),
        None => Err(ParseError::MissingSubcommand),
    }
}

impl Cli {
    fn parse_str(input: &str) -> Result<Self, ParseError> {
        let trimmed = input.trim();
        if trimmed.is_empty() {
            return Err(ParseError::EmptyInput);
        }
        let args = parse_command_line(trimmed)?;
        Self::parse_args(&args)
    }

    fn parse_args(args: &[String]) -> Result<Self, ParseError> {
        let parsed = schema().parse(args)?;
        let command = match parsed.get_subcommand() {
            Some(("add", sub)) => Some(Commands::Add(AddArgs {
                name: required(sub, "name")?,
                force: sub.contains_key("force"),
            })),
            Some(("remove", sub)) => Some(Commands::Remove(remove_from(sub)?)),
            Some(("list", _)) => Some(Commands::List),
            Some((other, _)) => return Err(ParseError::UnknownArgument(other.to_string())),
            None => None,
        };
        Ok(Cli { command, verbose: parsed.count("verbose") })
    }

}

#[test]
fn test_subcommand_add() {
    let args = vec![
        "add".to_string(),
        "--name".to_string(),
        "test_item".to_string(),
        "--force".to_string(),
        "-vvv".to_string(),
    ];

    let cli = Cli::parse_args(&args).unwrap();
    assert_eq!(cli.verbose, 3);

    match cli.command {
        Some(Commands::Add(add_args)) => {
            assert_eq!(add_args.name, "test_item");
            assert!(add_args.force);
        }
        _ => panic!("Expected Add subcommand"),
    }
}

#[test]
fn test_subcommand_remove() {
    let args = vec![
        "remove".to_string(),
        "all".to_string(),
        "--name".to_string(),
        "old_item".to_string(),
        "--recursive".to_string(),
    ];

    let cli = Cli::parse_args(&args).unwrap();
    assert_eq!(cli.verbose, 0);

    match cli.command {
        Some(Commands::Remove(RemoveCommand::All(remove_all_command))) => {
            assert_eq!(remove_all_command.name, "old_item");
            assert!(remove_all_command.recursive);
        }
        _ => panic!("Expected Remove subcommand"),
    }
}

#[test]
fn test_subcommand_list() {
    let args = vec!["list".to_string()];

    let cli = Cli::parse_args(&args).unwrap();
    if !matches!(cli.command, Some(Commands::List)) {
        panic!("Expected list subcommand");
    }
}

#[test]
fn test_no_subcommand() {
    let args = vec!["-v".to_string()];

    let cli = Cli::parse_args(&args).unwrap();
    assert_eq!(cli.command, None);
    assert_eq!(cli.verbose, 1);
}
