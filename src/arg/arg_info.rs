use vstd::prelude::*;

verus! {

/// Schema record of one argument: how it is spelled on the command line
/// and how its occurrences are recorded.
#[derive(Debug, Clone)]
pub struct ArgInfo {
    pub name: String,
    pub short: Option<char>,
    pub long: Option<String>,
    pub help: Option<String>,
    pub required: bool,
    pub multiple: bool,
    pub global: bool,
    pub counting: bool,
}

impl ArgInfo {
    /// A descriptor with no spelling (positional) and every flag off.
    pub fn new(name: &str) -> (r: Self)
        ensures
            r.name@ == name@,
            r.short is None,
            r.long is None,
            r.help is None,
            !r.required,
            !r.multiple,
            !r.global,
            !r.counting,
    {
        ArgInfo {
            name: name.to_owned(),
            short: None,
            long: None,
            help: None,
            required: false,
            multiple: false,
            global: false,
            counting: false,
        }
    }

    /// Sets the one-character spelling (`-c`).
    pub fn short(self, short: char) -> (r: Self)
        ensures
            r == (ArgInfo { short: Some(short), ..self }),
    {
        ArgInfo { short: Some(short), ..self }
    }

    /// Sets the long spelling (`--long`).
    pub fn long(self, long: &str) -> (r: Self)
        ensures
            r.long is Some && r.long->0@ == long@,
            r == (ArgInfo { long: r.long, ..self }),
    {
        ArgInfo { long: Some(long.to_owned()), ..self }
    }

    /// Sets the help text shown in the options section.
    pub fn help(self, help: &str) -> (r: Self)
        ensures
            r.help is Some && r.help->0@ == help@,
            r == (ArgInfo { help: r.help, ..self }),
    {
        ArgInfo { help: Some(help.to_owned()), ..self }
    }

    /// Marks the argument as one that must be supplied.
    pub fn required(self) -> (r: Self)
        ensures
            r == (ArgInfo { required: true, ..self }),
    {
        ArgInfo { required: true, ..self }
    }

    /// Marks the argument as collecting several occurrences.
    pub fn multiple(self) -> (r: Self)
        ensures
            r == (ArgInfo { multiple: true, ..self }),
    {
        ArgInfo { multiple: true, ..self }
    }

    /// Makes the argument visible at every subcommand level below the root.
    pub fn global(self) -> (r: Self)
        ensures
            r == (ArgInfo { global: true, ..self }),
    {
        ArgInfo { global: true, ..self }
    }

    /// Makes occurrences increment a counter instead of storing a value.
    pub fn count(self) -> (r: Self)
        ensures
            r == (ArgInfo { counting: true, ..self }),
    {
        ArgInfo { counting: true, ..self }
    }
}

} // verus!
