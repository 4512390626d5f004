use vstd::prelude::*;
use crate::arg::ArgInfo;
use crate::help::{get_help, render_help};

verus! {

/// The program-name chain of a child level: the parent's chain, a space,
/// then the child's name.
pub open spec fn chain_name(parent: Option<Seq<char>>, name: Seq<char>) -> Seq<char> {
    match parent {
        Some(p) => p + " "@ + name,
        None => name,
    }
}

/// The description paragraph printed above a subcommand's usage.
pub open spec fn about_header(about: Option<String>) -> Seq<char> {
    match about {
        Some(a) => a@ + "\n\n"@,
        None => seq![],
    }
}

/// Help text of a subcommand reached through `parent`, listing `globals`
/// among its options.
pub open spec fn subcommand_help(
    sub: SubcommandInfo,
    parent: Option<Seq<char>>,
    globals: Seq<ArgInfo>,
) -> Seq<char> {
    about_header(sub.about) + render_help(
        Some(chain_name(parent, sub.name@)),
        sub.args@,
        globals,
        sub.subcommands@,
    )
}

pub(crate) fn make_chain_name(parent: &Option<String>, name: &String) -> (r: String)
    ensures
        r@ == chain_name(
            match parent {
                Some(p) => Some(p@),
                None => None,
            },
            name@,
        ),
{
    match parent {
        Some(p) => {
            let mut r = p.clone();
            r.append(" ");
            r.append(name.as_str());
            r
        },
        None => name.clone(),
    }
}

pub(crate) fn make_about_header(about: &Option<String>) -> (r: String)
    ensures
        r@ == about_header(*about),
{
    match about {
        Some(a) => {
            let mut r = a.clone();
            r.append("\n\n");
            r
        },
        None => String::new(),
    }
}

/// Schema record of one subcommand: its own arguments and its children.
#[derive(Debug)]
pub struct SubcommandInfo {
    pub name: String,
    pub about: Option<String>,
    pub args: Vec<ArgInfo>,
    pub subcommands: Vec<SubcommandInfo>,
    pub subcommand_required: bool,
}

impl SubcommandInfo {
    /// A subcommand with no arguments and no children.
    pub fn new(name: &str) -> (r: Self)
        ensures
            r.name@ == name@,
            r.about is None,
            r.args@.len() == 0,
            r.subcommands@.len() == 0,
            !r.subcommand_required,
    {
        SubcommandInfo {
            name: name.to_owned(),
            about: None,
            args: Vec::new(),
            subcommands: Vec::new(),
            subcommand_required: false,
        }
    }

    /// Sets the one-line description shown in the commands section.
    pub fn about(self, about: &str) -> (r: Self)
        ensures
            r.about is Some && r.about->0@ == about@,
            r == (SubcommandInfo { about: r.about, ..self }),
    {
        SubcommandInfo { about: Some(about.to_owned()), ..self }
    }

    /// Appends an argument to this level.
    pub fn arg(self, arg: ArgInfo) -> (r: Self)
        ensures
            r.args@ == self.args@.push(arg),
            r == (SubcommandInfo { args: r.args, ..self }),
    {
        let mut r = self;
        r.args.push(arg);
        r
    }

    /// Appends a child subcommand.
    pub fn subcommand(self, subcommand: SubcommandInfo) -> (r: Self)
        ensures
            r.subcommands@ == self.subcommands@.push(subcommand),
            r == (SubcommandInfo { subcommands: r.subcommands, ..self }),
    {
        let mut r = self;
        r.subcommands.push(subcommand);
        r
    }

    /// Demands that one of the children be selected.
    pub fn subcommand_required(self) -> (r: Self)
        ensures
            r == (SubcommandInfo { subcommand_required: true, ..self }),
    {
        SubcommandInfo { subcommand_required: true, ..self }
    }

    /// Help text of this subcommand, named after `parents_name` when given.
    pub fn get_help(&self, parents_name: Option<String>) -> (r: String)
        ensures
            r@ == subcommand_help(
                *self,
                match parents_name {
                    Some(p) => Some(p@),
                    None => None,
                },
                seq![],
            ),
    {
        let no_globals: Vec<ArgInfo> = Vec::new();
        self.help_with_globals(&parents_name, &no_globals)
    }

    pub(crate) fn help_with_globals(&self, parent: &Option<String>, globals: &Vec<ArgInfo>) -> (r:
        String)
        ensures
            r@ == subcommand_help(
                *self,
                match parent {
                    Some(p) => Some(p@),
                    None => None,
                },
                globals@,
            ),
    {
        let name = make_chain_name(parent, &self.name);
        let mut out = make_about_header(&self.about);
        get_help(&mut out, Some(&name), &self.args, globals, &self.subcommands);
        out
    }
}

} // verus!
