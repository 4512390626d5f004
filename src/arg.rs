pub mod arg_info;
pub mod from_arg;
pub mod parsed_arg;

pub use arg_info::ArgInfo;
pub use from_arg::FromArg;
pub use parsed_arg::ParsedArgs;
