use vstd::prelude::*;
use crate::arg::ArgInfo;
use crate::subcommand::SubcommandInfo;
use crate::text::{push_char, to_uppercase, uppercase_of};

verus! {

/// An argument with neither a short nor a long spelling.
pub open spec fn is_positional(a: ArgInfo) -> bool {
    a.short is None && a.long is None
}

pub open spec fn has_positional(args: Seq<ArgInfo>) -> bool {
    exists|i: int| 0 <= i < args.len() && is_positional(#[trigger] args[i])
}

pub open spec fn has_flag(args: Seq<ArgInfo>) -> bool {
    exists|i: int| 0 <= i < args.len() && !is_positional(#[trigger] args[i])
}

/// The tab-separated description column, when there is a description.
pub open spec fn help_suffix(h: Option<String>) -> Seq<char> {
    match h {
        Some(t) => "\t\t\t"@ + t@,
        None => seq![],
    }
}

/// `-s, --long`, `-s` or `--long`.
pub open spec fn spelling(a: ArgInfo) -> Seq<char> {
    let short_part = match a.short {
        Some(c) => if a.long is Some {
            seq!['-', c] + ", "@
        } else {
            seq!['-', c]
        },
        None => seq![],
    };
    let long_part = match a.long {
        Some(l) => "--"@ + l@,
        None => seq![],
    };
    short_part + long_part
}

/// ` <NAME>` for each positional argument, in declared order.
pub open spec fn positional_usage(args: Seq<ArgInfo>) -> Seq<char>
    decreases args.len(),
{
    if args.len() == 0 {
        seq![]
    } else {
        positional_usage(args.drop_last()) + if is_positional(args.last()) {
            " <"@ + uppercase_of(args.last().name@) + ">"@
        } else {
            seq![]
        }
    }
}

/// One line per positional argument.
pub open spec fn positional_lines(args: Seq<ArgInfo>) -> Seq<char>
    decreases args.len(),
{
    if args.len() == 0 {
        seq![]
    } else {
        positional_lines(args.drop_last()) + if is_positional(args.last()) {
            "  "@ + uppercase_of(args.last().name@) + help_suffix(args.last().help) + "\n"@
        } else {
            seq![]
        }
    }
}

/// One line per argument; with `flags_only`, positional ones are left out.
pub open spec fn option_lines(args: Seq<ArgInfo>, flags_only: bool) -> Seq<char>
    decreases args.len(),
{
    if args.len() == 0 {
        seq![]
    } else {
        option_lines(args.drop_last(), flags_only) + if flags_only && is_positional(
            args.last(),
        ) {
            seq![]
        } else {
            "  "@ + spelling(args.last()) + help_suffix(args.last().help) + "\n"@
        }
    }
}

/// One line per subcommand.
pub open spec fn command_lines(subs: Seq<SubcommandInfo>) -> Seq<char>
    decreases subs.len(),
{
    if subs.len() == 0 {
        seq![]
    } else {
        command_lines(subs.drop_last()) + "  "@ + subs.last().name@ + help_suffix(
            subs.last().about,
        ) + "\n"@
    }
}

/// The usage line: `Usage: name`, the positional names, `[OPTIONS]` and
/// `[SUBCOMMAND]` when they apply, then a blank line when a section follows.
/// The positional names are written even without a program name.
pub open spec fn usage_block(
    name: Option<Seq<char>>,
    args: Seq<ArgInfo>,
    globals: Seq<ArgInfo>,
    subs: Seq<SubcommandInfo>,
) -> Seq<char> {
    let named = name is Some;
    (match name {
        Some(n) => "Usage: "@ + n,
        None => seq![],
    }) + positional_usage(args) + (if named && (has_flag(args) || globals.len() > 0) {
        " [OPTIONS]"@
    } else {
        seq![]
    }) + (if named && subs.len() > 0 {
        " [SUBCOMMAND]"@
    } else {
        seq![]
    }) + (if named && (has_positional(args) || has_flag(args) || subs.len() > 0) {
        "\n\n"@
    } else {
        seq![]
    })
}

pub open spec fn arguments_block(args: Seq<ArgInfo>) -> Seq<char> {
    if has_positional(args) {
        "Arguments:\n"@ + positional_lines(args)
    } else {
        seq![]
    }
}

pub open spec fn options_block(args: Seq<ArgInfo>, globals: Seq<ArgInfo>) -> Seq<char> {
    if has_flag(args) || globals.len() > 0 {
        "Options:\n"@ + option_lines(args, true) + option_lines(globals, false)
    } else {
        seq![]
    }
}

/// The commands section, set apart by a blank line when the level has
/// arguments of its own.
pub open spec fn commands_block(args: Seq<ArgInfo>, subs: Seq<SubcommandInfo>) -> Seq<char> {
    if subs.len() > 0 {
        (if args.len() > 0 {
            "\n"@
        } else {
            seq![]
        }) + "Commands:\n"@ + command_lines(subs)
    } else {
        seq![]
    }
}

/// Help text of one level: the usage line (when a program name is known),
/// then the positional, option and command sections that are not empty.
pub open spec fn render_help(
    name: Option<Seq<char>>,
    args: Seq<ArgInfo>,
    globals: Seq<ArgInfo>,
    subs: Seq<SubcommandInfo>,
) -> Seq<char> {
    usage_block(name, args, globals, subs) + arguments_block(args) + options_block(args, globals)
        + commands_block(args, subs)
}

pub open spec fn opt_ref_view(s: Option<&String>) -> Option<Seq<char>> {
    match s {
        Some(t) => Some(t@),
        None => None,
    }
}

fn append_help_suffix(out: &mut String, h: &Option<String>)
    ensures
        final(out)@ == old(out)@ + help_suffix(*h),
{
    if let Some(t) = h {
        out.append("\t\t\t");
        out.append(t.as_str());
    }
}

fn find_kinds(args: &Vec<ArgInfo>) -> (r: (bool, bool))
    ensures
        r.0 == has_positional(args@),
        r.1 == has_flag(args@),
{
    let mut positional = false;
    let mut flag = false;
    let mut i: usize = 0;
    while i < args.len()
        invariant
            i <= args@.len(),
            positional == exists|k: int| 0 <= k < i && is_positional(#[trigger] args@[k]),
            flag == exists|k: int| 0 <= k < i && !is_positional(#[trigger] args@[k]),
        decreases args.len() - i,
    {
        if args[i].short.is_none() && args[i].long.is_none() {
            positional = true;
        } else {
            flag = true;
        }
        i = i + 1;
    }
    (positional, flag)
}

fn write_positional_usage(out: &mut String, args: &Vec<ArgInfo>)
    ensures
        final(out)@ == old(out)@ + positional_usage(args@),
{
    let ghost start = out@;
    let mut i: usize = 0;
    while i < args.len()
        invariant
            i <= args@.len(),
            out@ == start + positional_usage(args@.take(i as int)),
        decreases args.len() - i,
    {
        proof {
            assert(args@.take(i + 1).drop_last() == args@.take(i as int));
        }
        let a = &args[i];
        if a.short.is_none() && a.long.is_none() {
            out.append(" <");
            let up = to_uppercase(a.name.as_str());
            out.append(up.as_str());
            out.append(">");
        }
        i = i + 1;
    }
    proof {
        assert(args@.take(args@.len() as int) == args@);
    }
}

fn write_positional_lines(out: &mut String, args: &Vec<ArgInfo>)
    ensures
        final(out)@ == old(out)@ + positional_lines(args@),
{
    let ghost start = out@;
    let mut i: usize = 0;
    while i < args.len()
        invariant
            i <= args@.len(),
            out@ == start + positional_lines(args@.take(i as int)),
        decreases args.len() - i,
    {
        proof {
            assert(args@.take(i + 1).drop_last() == args@.take(i as int));
        }
        let a = &args[i];
        if a.short.is_none() && a.long.is_none() {
            out.append("  ");
            let up = to_uppercase(a.name.as_str());
            out.append(up.as_str());
            append_help_suffix(out, &a.help);
            out.append("\n");
        }
        i = i + 1;
    }
    proof {
        assert(args@.take(args@.len() as int) == args@);
    }
}

fn write_spelling(out: &mut String, a: &ArgInfo)
    ensures
        final(out)@ == old(out)@ + spelling(*a),
{
    let ghost start = out@;
    if let Some(c) = a.short {
        push_char(out, '-');
        push_char(out, c);
        if a.long.is_some() {
            out.append(", ");
        }
    }
    if let Some(l) = &a.long {
        out.append("--");
        out.append(l.as_str());
    }
}

fn write_option_line(out: &mut String, a: &ArgInfo)
    ensures
        final(out)@ == old(out)@ + ("  "@ + spelling(*a) + help_suffix(a.help) + "\n"@),
{
    let ghost start = out@;
    out.append("  ");
    write_spelling(out, a);
    append_help_suffix(out, &a.help);
    out.append("\n");
    proof {
        assert(out@ =~= start + ("  "@ + spelling(*a) + help_suffix(a.help) + "\n"@));
    }
}

fn write_option_lines(out: &mut String, args: &Vec<ArgInfo>, flags_only: bool)
    ensures
        final(out)@ == old(out)@ + option_lines(args@, flags_only),
{
    let ghost start = out@;
    let mut i: usize = 0;
    while i < args.len()
        invariant
            i <= args@.len(),
            out@ == start + option_lines(args@.take(i as int), flags_only),
        decreases args.len() - i,
    {
        proof {
            assert(args@.take(i + 1).drop_last() == args@.take(i as int));
        }
        let a = &args[i];
        if !(flags_only && a.short.is_none() && a.long.is_none()) {
            write_option_line(out, a);
        }
        i = i + 1;
    }
    proof {
        assert(args@.take(args@.len() as int) == args@);
    }
}

fn write_command_lines(out: &mut String, subs: &Vec<SubcommandInfo>)
    ensures
        final(out)@ == old(out)@ + command_lines(subs@),
{
    let ghost start = out@;
    let mut i: usize = 0;
    while i < subs.len()
        invariant
            i <= subs@.len(),
            out@ == start + command_lines(subs@.take(i as int)),
        decreases subs.len() - i,
    {
        proof {
            assert(subs@.take(i + 1).drop_last() == subs@.take(i as int));
        }
        out.append("  ");
        out.append(subs[i].name.as_str());
        append_help_suffix(out, &subs[i].about);
        out.append("\n");
        i = i + 1;
    }
    proof {
        assert(subs@.take(subs@.len() as int) == subs@);
    }
}

fn write_usage(
    out: &mut String,
    name: Option<&String>,
    args: &Vec<ArgInfo>,
    global_args: &Vec<ArgInfo>,
    subcommands: &Vec<SubcommandInfo>,
)
    ensures
        final(out)@ == old(out)@ + usage_block(
            opt_ref_view(name),
            args@,
            global_args@,
            subcommands@,
        ),
{
    let (positional, flag) = find_kinds(args);
    let ghost start = out@;
    if let Some(n) = name {
        out.append("Usage: ");
        out.append(n.as_str());
    }
    let ghost a = out@;
    write_positional_usage(out, args);
    let ghost b = out@;
    if name.is_some() && (flag || global_args.len() > 0) {
        out.append(" [OPTIONS]");
    }
    let ghost c = out@;
    if name.is_some() && subcommands.len() > 0 {
        out.append(" [SUBCOMMAND]");
    }
    let ghost d = out@;
    if name.is_some() && (positional || flag || subcommands.len() > 0) {
        out.append("\n\n");
    }
    proof {
        assert(a =~= start + match opt_ref_view(name) {
            Some(n) => "Usage: "@ + n,
            None => seq![],
        });
        assert(out@ =~= start + usage_block(opt_ref_view(name), args@, global_args@, subcommands@));
    }
}

fn write_arguments(out: &mut String, args: &Vec<ArgInfo>)
    ensures
        final(out)@ == old(out)@ + arguments_block(args@),
{
    let (positional, _) = find_kinds(args);
    let ghost start = out@;
    if positional {
        out.append("Arguments:\n");
        write_positional_lines(out, args);
        proof {
            assert(out@ =~= start + arguments_block(args@));
        }
    } else {
        proof {
            assert(out@ =~= start + arguments_block(args@));
        }
    }
}

fn write_options(out: &mut String, args: &Vec<ArgInfo>, global_args: &Vec<ArgInfo>)
    ensures
        final(out)@ == old(out)@ + options_block(args@, global_args@),
{
    let (_, flag) = find_kinds(args);
    let ghost start = out@;
    if flag || global_args.len() > 0 {
        out.append("Options:\n");
        write_option_lines(out, args, true);
        write_option_lines(out, global_args, false);
        proof {
            assert(out@ =~= start + options_block(args@, global_args@));
        }
    } else {
        proof {
            assert(out@ =~= start + options_block(args@, global_args@));
        }
    }
}

fn write_commands(out: &mut String, args: &Vec<ArgInfo>, subcommands: &Vec<SubcommandInfo>)
    ensures
        final(out)@ == old(out)@ + commands_block(args@, subcommands@),
{
    let ghost start = out@;
    if subcommands.len() > 0 {
        if args.len() > 0 {
            out.append("\n");
        }
        out.append("Commands:\n");
        write_command_lines(out, subcommands);
        proof {
            assert(out@ =~= start + commands_block(args@, subcommands@));
        }
    } else {
        proof {
            assert(out@ =~= start + commands_block(args@, subcommands@));
        }
    }
}

/// Appends the help text of one level to `out`.
pub fn get_help(
    out: &mut String,
    name: Option<&String>,
    args: &Vec<ArgInfo>,
    global_args: &Vec<ArgInfo>,
    subcommands: &Vec<SubcommandInfo>,
)
    ensures
        final(out)@ == old(out)@ + render_help(opt_ref_view(name), args@, global_args@, subcommands@),
{
    let ghost start = out@;
    write_usage(out, name, args, global_args, subcommands);
    write_arguments(out, args);
    write_options(out, args, global_args);
    write_commands(out, args, subcommands);
    proof {
        assert(out@ =~= start + render_help(
            opt_ref_view(name),
            args@,
            global_args@,
            subcommands@,
        ));
    }
}

} // verus!
