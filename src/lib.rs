pub mod arg;
pub mod command;
pub mod error;
pub mod help;
pub mod laws;
pub mod parser;
pub mod subcommand;
pub mod text;
pub mod utils;

pub use arg::{ArgInfo, FromArg, ParsedArgs};
pub use command::Command;
pub use error::ParseError;
pub use parser::{Args, Parser, Subcommand, parse_command_line, parse_env};
pub use subcommand::SubcommandInfo;
pub use utils::to_kebab_case_case;
