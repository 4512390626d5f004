use vstd::prelude::*;
use crate::arg::ArgInfo;
use crate::arg::parsed_arg::{
    ParsedArgs,
    lemma_with_subcommand,
    ParsedView,
    lemma_count_le_total,
    lemma_key_index_bounds,
    lemma_total_add,
    lemma_total_fold,
};
use crate::error::{ErrorView, ParseError};
use crate::help::{get_help, is_positional, render_help};
use crate::parser::{
    chars_in,
    lemma_chars_in_concat,
    parse_command_line,
    strings_view,
    tokenize,
    unclosed_quote_message,
};
use crate::subcommand::{SubcommandInfo, about_header, chain_name, make_about_header, make_chain_name};
use crate::text::{chars_of, lowercase_of, push_char, str_eq, string_of, to_lowercase, trim, trimmed};

verus! {

/// One level of the schema as the parser sees it: the text printed above
/// its usage, its program-name chain, its own arguments and its children.
pub struct Level {
    pub header: Seq<char>,
    pub name: Option<Seq<char>>,
    pub args: Seq<ArgInfo>,
    pub subs: Seq<SubcommandInfo>,
    pub subcommand_required: bool,
}

pub open spec fn opt_view(s: Option<String>) -> Option<Seq<char>> {
    match s {
        Some(t) => Some(t@),
        None => None,
    }
}

/// Help text of a level, with the root's global arguments among its options.
pub open spec fn level_help(lv: Level, globals: Seq<ArgInfo>) -> Seq<char> {
    lv.header + render_help(lv.name, lv.args, globals, lv.subs)
}

/// The level reached by selecting `sub` at `lv`.
pub open spec fn child_level(lv: Level, sub: SubcommandInfo) -> Level {
    Level {
        header: about_header(sub.about),
        name: Some(chain_name(lv.name, sub.name@)),
        args: sub.args@,
        subs: sub.subcommands@,
        subcommand_required: sub.subcommand_required,
    }
}

pub open spec fn starts_with_dash(t: Seq<char>) -> bool {
    t.len() > 0 && t[0] == '-'
}

pub open spec fn is_long_option(t: Seq<char>) -> bool {
    t.len() >= 2 && t[0] == '-' && t[1] == '-'
}

pub open spec fn is_help_token(t: Seq<char>) -> bool {
    t == "--help"@ || t == "-h"@
}

pub open spec fn is_bool_word(w: Seq<char>) -> bool {
    w == "true"@ || w == "false"@ || w == "1"@ || w == "0"@ || w == "yes"@ || w == "no"@
        || w == "on"@ || w == "off"@
}

/// An option at `i` takes no value of its own: it is the last token, the
/// next one is an option, or the next one spells a boolean.
pub open spec fn bool_flag_at(toks: Seq<Seq<char>>, i: int) -> bool {
    i + 1 >= toks.len() || starts_with_dash(toks[i + 1]) || is_bool_word(
        lowercase_of(toks[i + 1]),
    )
}

/// The first child named `t`.
pub open spec fn find_sub(subs: Seq<SubcommandInfo>, t: Seq<char>) -> Option<SubcommandInfo>
    decreases subs.len(),
{
    if subs.len() == 0 {
        None
    } else if subs[0].name@ == t {
        Some(subs[0])
    } else {
        find_sub(subs.drop_first(), t)
    }
}

/// The first positional argument.
pub open spec fn find_positional(args: Seq<ArgInfo>) -> Option<ArgInfo>
    decreases args.len(),
{
    if args.len() == 0 {
        None
    } else if is_positional(args[0]) {
        Some(args[0])
    } else {
        find_positional(args.drop_first())
    }
}

/// The first argument spelled `--n`.
pub open spec fn find_long(args: Seq<ArgInfo>, n: Seq<char>) -> Option<ArgInfo>
    decreases args.len(),
{
    if args.len() == 0 {
        None
    } else if args[0].long is Some && args[0].long->0@ == n {
        Some(args[0])
    } else {
        find_long(args.drop_first(), n)
    }
}

/// The first argument spelled `-c`.
pub open spec fn find_short(args: Seq<ArgInfo>, c: char) -> Option<ArgInfo>
    decreases args.len(),
{
    if args.len() == 0 {
        None
    } else if args[0].short == Some(c) {
        Some(args[0])
    } else {
        find_short(args.drop_first(), c)
    }
}

/// Long lookup among the level's own arguments, then the global ones.
pub open spec fn lookup_long(args: Seq<ArgInfo>, globals: Seq<ArgInfo>, n: Seq<char>) -> Option<
    ArgInfo,
> {
    match find_long(args, n) {
        Some(a) => Some(a),
        None => find_long(globals, n),
    }
}

/// Short lookup among the level's own arguments, then the global ones.
pub open spec fn lookup_short(args: Seq<ArgInfo>, globals: Seq<ArgInfo>, c: char) -> Option<
    ArgInfo,
> {
    match find_short(args, c) {
        Some(a) => Some(a),
        None => find_short(globals, c),
    }
}

/// The first required, non-global argument of which nothing was recorded.
pub open spec fn missing_required(args: Seq<ArgInfo>, acc: ParsedView) -> Option<ArgInfo>
    decreases args.len(),
{
    if args.len() == 0 {
        None
    } else if args[0].required && !args[0].global && !acc.has(args[0].name@) && acc.count_of(
        args[0].name@,
    ) == 0 {
        Some(args[0])
    } else {
        missing_required(args.drop_first(), acc)
    }
}

/// End-of-level validation.
pub open spec fn finish_level(lv: Level, acc: ParsedView) -> Result<ParsedView, ErrorView> {
    match missing_required(lv.args, acc) {
        Some(a) => Err(ErrorView::MissingArgument(a.name@)),
        None => if lv.subcommand_required && acc.subcommand is None {
            Err(ErrorView::MissingSubcommand)
        } else {
            Ok(acc)
        },
    }
}

/// Parsing one level: a lone help token asks for this level's help;
/// otherwise the tokens are scanned from the first.
pub open spec fn parse_level(lv: Level, globals: Seq<ArgInfo>, toks: Seq<Seq<char>>) -> Result<
    ParsedView,
    ErrorView,
>
    decreases toks.len(), 2int, 0int,
{
    if toks.len() == 1 && is_help_token(toks[0]) {
        Err(ErrorView::Help(level_help(lv, globals)))
    } else {
        scan_tokens(lv, globals, toks, 0, ParsedView::empty())
    }
}

/// Scanning the tokens of a level from position `i`, with `acc` recorded so far.
///
/// A word naming a child hands every later token to that child and ends the
/// level; any other word is the value of the level's first positional
/// argument, or is skipped when there is none. `--name` looks the long spelling up
/// among the level's arguments, then the global ones: a counting argument is
/// counted, one followed by nothing or by an option is recorded as present,
/// and otherwise the next token is its value (a boolean word included). A
/// lone `-` is skipped; other tokens starting with `-` are short clusters.
pub open spec fn scan_tokens(
    lv: Level,
    globals: Seq<ArgInfo>,
    toks: Seq<Seq<char>>,
    i: int,
    acc: ParsedView,
) -> Result<ParsedView, ErrorView>
    decreases toks.len() - i, 1int, 0int,
{
    if i < 0 || i >= toks.len() {
        finish_level(lv, acc)
    } else {
        let t = toks[i];
        if !starts_with_dash(t) {
            match find_sub(lv.subs, t) {
                Some(sub) => match parse_level(
                    child_level(lv, sub),
                    globals,
                    toks.subrange(i + 1, toks.len() as int),
                ) {
                    Ok(nested) => finish_level(lv, acc.with_subcommand(t, nested)),
                    Err(e) => Err(e),
                },
                None => match find_positional(lv.args) {
                    Some(p) => scan_tokens(lv, globals, toks, i + 1, acc.with_value(p.name@, t)),
                    None => scan_tokens(lv, globals, toks, i + 1, acc),
                },
            }
        } else if is_long_option(t) {
            let n = t.subrange(2, t.len() as int);
            match lookup_long(lv.args, globals, n) {
                None => Err(ErrorView::UnknownArgument(n)),
                Some(a) => if a.counting {
                    scan_tokens(lv, globals, toks, i + 1, acc.with_count(a.name@, 1))
                } else if i + 1 >= toks.len() || starts_with_dash(toks[i + 1]) {
                    scan_tokens(lv, globals, toks, i + 1, acc.with_value(a.name@, seq![]))
                } else {
                    scan_tokens(lv, globals, toks, i + 2, acc.with_value(a.name@, toks[i + 1]))
                },
            }
        } else if t.len() >= 2 {
            scan_cluster(lv, globals, toks, i, 1, false, acc)
        } else {
            scan_tokens(lv, globals, toks, i + 1, acc)
        }
    }
}

/// Scanning the short-option cluster `toks[i]` from its character `j`.
///
/// Counting arguments are counted and the cluster goes on. An argument that
/// takes no value (see `bool_flag_at`) is recorded as present when the
/// cluster ends the line or an option follows; when a boolean word follows,
/// that word is its value and is consumed once the cluster ends (`took`).
/// An argument that takes a value takes the rest of the cluster, or the next
/// token when nothing is left, and ends the cluster.
pub open spec fn scan_cluster(
    lv: Level,
    globals: Seq<ArgInfo>,
    toks: Seq<Seq<char>>,
    i: int,
    j: int,
    took: bool,
    acc: ParsedView,
) -> Result<ParsedView, ErrorView>
    decreases toks.len() - i, 0int, toks[i].len() - j,
{
    if i < 0 || i >= toks.len() || j < 0 {
        finish_level(lv, acc)
    } else {
        let t = toks[i];
        if j >= t.len() {
            scan_tokens(
                lv,
                globals,
                toks,
                i + if took && i + 1 < toks.len() {
                    2int
                } else {
                    1int
                },
                acc,
            )
        } else {
            let c = t[j];
            match lookup_short(lv.args, globals, c) {
                None => Err(ErrorView::UnknownArgument(seq![c])),
                Some(a) => if a.counting {
                    scan_cluster(lv, globals, toks, i, j + 1, took, acc.with_count(a.name@, 1))
                } else if bool_flag_at(toks, i) {
                    if i + 1 < toks.len() && !starts_with_dash(toks[i + 1]) {
                        scan_cluster(
                            lv,
                            globals,
                            toks,
                            i,
                            j + 1,
                            true,
                            acc.with_value(a.name@, toks[i + 1]),
                        )
                    } else {
                        scan_cluster(
                            lv,
                            globals,
                            toks,
                            i,
                            j + 1,
                            took,
                            acc.with_value(a.name@, seq![]),
                        )
                    }
                } else if j + 1 < t.len() {
                    scan_tokens(
                        lv,
                        globals,
                        toks,
                        i + 1,
                        acc.with_value(a.name@, t.subrange(j + 1, t.len() as int)),
                    )
                } else {
                    scan_tokens(lv, globals, toks, i + 2, acc.with_value(a.name@, toks[i + 1]))
                },
            }
        }
    }
}

/// Splitting the tokens around position `i`.
proof fn lemma_chars_in_split(toks: Seq<Seq<char>>, i: int)
    requires
        0 <= i < toks.len(),
    ensures
        chars_in(toks.take(i + 1)) == chars_in(toks.take(i)) + toks[i].len(),
        chars_in(toks.take(i + 1)) + chars_in(toks.subrange(i + 1, toks.len() as int))
            == chars_in(toks),
{
    assert(toks.take(i + 1).drop_last() == toks.take(i));
    lemma_chars_in_concat(toks.take(i + 1), toks.subrange(i + 1, toks.len() as int));
    assert(toks.take(i + 1) + toks.subrange(i + 1, toks.len() as int) == toks);
}

pub open spec fn result_view(r: Result<ParsedArgs, ParseError>) -> Result<ParsedView, ErrorView> {
    match r {
        Ok(p) => Ok(p@),
        Err(e) => Err(e@),
    }
}

fn find_subcommand(subs: &Vec<SubcommandInfo>, t: &String) -> (r: Option<usize>)
    ensures
        match r {
            Some(k) => k < subs@.len() && find_sub(subs@, t@) == Some(subs@[k as int]),
            None => find_sub(subs@, t@) is None,
        },
{
    let mut i: usize = 0;
    assert(subs@.subrange(0, subs@.len() as int) == subs@);
    while i < subs.len()
        invariant
            i <= subs@.len(),
            find_sub(subs@, t@) == find_sub(subs@.subrange(i as int, subs@.len() as int), t@),
        decreases subs.len() - i,
    {
        let ghost rest = subs@.subrange(i as int, subs@.len() as int);
        assert(rest.drop_first() == subs@.subrange(i + 1, subs@.len() as int));
        assert(rest[0] == subs@[i as int]);
        if str_eq(subs[i].name.as_str(), t.as_str()) {
            return Some(i);
        }
        i = i + 1;
    }
    None
}

fn find_long_arg<'a>(args: &'a Vec<ArgInfo>, n: &String) -> (r: Option<&'a ArgInfo>)
    ensures
        find_long(args@, n@) == match r {
            Some(a) => Some(*a),
            None => None,
        },
{
    let mut i: usize = 0;
    assert(args@.subrange(0, args@.len() as int) == args@);
    while i < args.len()
        invariant
            i <= args@.len(),
            find_long(args@, n@) == find_long(args@.subrange(i as int, args@.len() as int), n@),
        decreases args.len() - i,
    {
        let ghost rest = args@.subrange(i as int, args@.len() as int);
        assert(rest.drop_first() == args@.subrange(i + 1, args@.len() as int));
        assert(rest[0] == args@[i as int]);
        if let Some(l) = &args[i].long {
            if str_eq(l.as_str(), n.as_str()) {
                return Some(&args[i]);
            }
        }
        i = i + 1;
    }
    None
}

fn find_positional_arg<'a>(args: &'a Vec<ArgInfo>) -> (r: Option<&'a ArgInfo>)
    ensures
        find_positional(args@) == match r {
            Some(a) => Some(*a),
            None => None,
        },
{
    let mut i: usize = 0;
    assert(args@.subrange(0, args@.len() as int) == args@);
    while i < args.len()
        invariant
            i <= args@.len(),
            find_positional(args@) == find_positional(
                args@.subrange(i as int, args@.len() as int),
            ),
        decreases args.len() - i,
    {
        let ghost rest = args@.subrange(i as int, args@.len() as int);
        assert(rest.drop_first() == args@.subrange(i + 1, args@.len() as int));
        assert(rest[0] == args@[i as int]);
        if args[i].short.is_none() && args[i].long.is_none() {
            return Some(&args[i]);
        }
        i = i + 1;
    }
    None
}

fn find_short_arg<'a>(args: &'a Vec<ArgInfo>, c: char) -> (r: Option<&'a ArgInfo>)
    ensures
        find_short(args@, c) == match r {
            Some(a) => Some(*a),
            None => None,
        },
{
    let mut i: usize = 0;
    assert(args@.subrange(0, args@.len() as int) == args@);
    while i < args.len()
        invariant
            i <= args@.len(),
            find_short(args@, c) == find_short(args@.subrange(i as int, args@.len() as int), c),
        decreases args.len() - i,
    {
        let ghost rest = args@.subrange(i as int, args@.len() as int);
        assert(rest.drop_first() == args@.subrange(i + 1, args@.len() as int));
        assert(rest[0] == args@[i as int]);
        if let Some(s) = args[i].short {
            if s == c {
                return Some(&args[i]);
            }
        }
        i = i + 1;
    }
    None
}

fn lookup_long_arg<'a>(args: &'a Vec<ArgInfo>, globals: &'a Vec<ArgInfo>, n: &String) -> (r:
    Option<&'a ArgInfo>)
    ensures
        lookup_long(args@, globals@, n@) == match r {
            Some(a) => Some(*a),
            None => None,
        },
{
    match find_long_arg(args, n) {
        Some(a) => Some(a),
        None => find_long_arg(globals, n),
    }
}

fn lookup_short_arg<'a>(args: &'a Vec<ArgInfo>, globals: &'a Vec<ArgInfo>, c: char) -> (r: Option<
    &'a ArgInfo,
>)
    ensures
        lookup_short(args@, globals@, c) == match r {
            Some(a) => Some(*a),
            None => None,
        },
{
    match find_short_arg(args, c) {
        Some(a) => Some(a),
        None => find_short_arg(globals, c),
    }
}

fn dash_first(t: &String) -> (r: bool)
    ensures
        r == starts_with_dash(t@),
{
    let cs = chars_of(t.as_str());
    cs.len() > 0 && cs[0] == '-'
}

fn is_help_word(t: &String) -> (r: bool)
    ensures
        r == is_help_token(t@),
{
    str_eq(t.as_str(), "--help") || str_eq(t.as_str(), "-h")
}

/// Whether the option at `current_index` stands without a value of its own:
/// it is the last token, the next token is an option, or the next token
/// spells a boolean (`true`, `false`, `1`, `0`, `yes`, `no`, `on`, `off`,
/// in any case).
pub fn is_bool_flag(args: &[String], current_index: usize) -> (r: bool)
    requires
        current_index < args@.len(),
    ensures
        r == bool_flag_at(strings_view(args@), current_index as int),
{
    let n = args.len();
    let next_index = current_index + 1;
    if next_index >= n {
        return true;
    }
    let next_arg = &args[next_index];
    if dash_first(next_arg) {
        return true;
    }
    let lower = to_lowercase(next_arg.as_str());
    let w = lower.as_str();
    str_eq(w, "true") || str_eq(w, "false") || str_eq(w, "1") || str_eq(w, "0") || str_eq(w, "yes")
        || str_eq(w, "no") || str_eq(w, "on") || str_eq(w, "off")
}

fn finish(result: ParsedArgs, args: &Vec<ArgInfo>, subcommand_required: bool) -> (r: Result<
    ParsedArgs,
    ParseError,
>)
    ensures
        result_view(r) == finish_level(
            Level {
                header: seq![],
                name: None,
                args: args@,
                subs: seq![],
                subcommand_required,
            },
            result@,
        ),
{
    let ghost acc = result@;
    let mut i: usize = 0;
    assert(args@.subrange(0, args@.len() as int) == args@);
    while i < args.len()
        invariant
            i <= args@.len(),
            acc == result@,
            missing_required(args@, acc) == missing_required(
                args@.subrange(i as int, args@.len() as int),
                acc,
            ),
        decreases args.len() - i,
    {
        let ghost rest = args@.subrange(i as int, args@.len() as int);
        assert(rest.drop_first() == args@.subrange(i + 1, args@.len() as int));
        assert(rest[0] == args@[i as int]);
        let a = &args[i];
        if a.required && !a.global && !result.contains_key(a.name.as_str()) && result.count(
            a.name.as_str(),
        ) == 0 {
            return Err(ParseError::MissingArgument(a.name.clone()));
        }
        i = i + 1;
    }
    if subcommand_required && result.get_subcommand().is_none() {
        return Err(ParseError::MissingSubcommand);
    }
    Ok(result)
}

/// The level described by the executable values handed to the parser.
pub open spec fn level_of(
    header: String,
    name: Option<String>,
    args: Seq<ArgInfo>,
    subs: Seq<SubcommandInfo>,
    subcommand_required: bool,
) -> Level {
    Level { header: header@, name: opt_view(name), args, subs, subcommand_required }
}

/// Reads the short-option cluster `t == tokens[i]`; on success returns the
/// position of the next token to scan.
fn parse_cluster(
    tokens: &[String],
    i: usize,
    t: &Vec<char>,
    args: &Vec<ArgInfo>,
    globals: &Vec<ArgInfo>,
    result: &mut ParsedArgs,
    Ghost(lv): Ghost<Level>,
) -> (r: Result<usize, ParseError>)
    requires
        i < tokens@.len(),
        t@ == tokens@[i as int]@,
        t@.len() >= 2,
        lv.args == args@,
        old(result)@.subcommand is None,
        old(result)@.wf(),
        old(result)@.total_count() <= chars_in(strings_view(tokens@).take(i as int)),
        chars_in(strings_view(tokens@)) <= usize::MAX,
    ensures
        match r {
            Ok(next) => i < next <= tokens@.len() && scan_cluster(
                lv,
                globals@,
                strings_view(tokens@),
                i as int,
                1,
                false,
                old(result)@,
            ) == scan_tokens(lv, globals@, strings_view(tokens@), next as int, final(result)@)
                && final(result)@.subcommand is None && final(result)@.wf()
                && final(result)@.total_count() <= chars_in(
                strings_view(tokens@).take(next as int),
            ),
            Err(e) => scan_cluster(
                lv,
                globals@,
                strings_view(tokens@),
                i as int,
                1,
                false,
                old(result)@,
            ) == Err::<ParsedView, ErrorView>(e@),
        },
{
    let ghost g = globals@;
    let ghost toks = strings_view(tokens@);
    let ghost start = result@;
    let ghost target = scan_cluster(lv, g, toks, i as int, 1, false, start);
    let n = tokens.len();
    proof {
        lemma_chars_in_split(toks, i as int);
        lemma_chars_in_take_le(toks, i + 1);
        if i + 1 < n {
            lemma_chars_in_split(toks, i + 1);
        }
    }
    let mut outcome: Option<Result<usize, ParseError>> = None;
    let mut took = false;
    let mut j: usize = 1;
    while j < t.len()
        invariant
            i < tokens@.len(),
            n == tokens@.len(),
            toks == strings_view(tokens@),
            g == globals@,
            lv.args == args@,
            t@ == toks[i as int],
            1 <= j <= t@.len(),
            outcome is Some ==> j == t@.len(),
            took ==> i + 1 < n,
            result@.subcommand is None,
            result@.wf(),
            chars_in(toks.take(i + 1)) == chars_in(toks.take(i as int)) + t@.len(),
            chars_in(toks.take(i + 1)) <= chars_in(toks),
            i + 1 < n ==> chars_in(toks.take(i + 1)) <= chars_in(toks.take(i + 2)),
            chars_in(toks) <= usize::MAX,
            match outcome {
                None => target == scan_cluster(lv, g, toks, i as int, j as int, took, result@)
                    && result@.total_count() + 1 <= chars_in(toks.take(i as int)) + j,
                Some(Ok(next)) => i < next <= tokens@.len() && target == scan_tokens(
                    lv,
                    g,
                    toks,
                    next as int,
                    result@,
                ) && result@.total_count() <= chars_in(toks.take(next as int)),
                Some(Err(e)) => target == Err::<ParsedView, ErrorView>(e@),
            },
        decreases t.len() - j,
    {
        let c = t[j];
        let found = lookup_short_arg(args, globals, c);
        match found {
            None => {
                let mut s = String::new();
                push_char(&mut s, c);
                proof {
                    assert(s@ =~= seq![c]);
                }
                outcome = Some(Err(ParseError::UnknownArgument(s)));
                j = t.len();
            },
            Some(a) => {
                if a.counting {
                    proof {
                        lemma_count_le_total(result@.counts, a.name@);
                        lemma_key_index_bounds(result@.counts, a.name@);
                        lemma_total_add(result@.counts, a.name@, 1);
                    }
                    result.increment(a.name.clone());
                    j = j + 1;
                } else if is_bool_flag(tokens, i) {
                    if i + 1 < n && !dash_first(&tokens[i + 1]) {
                        result.insert(a.name.clone(), tokens[i + 1].clone());
                        took = true;
                    } else {
                        result.insert_flag(a.name.clone());
                    }
                    j = j + 1;
                } else if j + 1 < t.len() {
                    let value = string_of(t, j + 1, t.len());
                    result.insert(a.name.clone(), value);
                    outcome = Some(Ok(i + 1));
                    j = t.len();
                } else {
                    result.insert(a.name.clone(), tokens[i + 1].clone());
                    outcome = Some(Ok(i + 2));
                    j = t.len();
                }
            },
        }
    }
    match outcome {
        Some(o) => o,
        None => if took {
            Ok(i + 2)
        } else {
            Ok(i + 1)
        },
    }
}

proof fn lemma_chars_in_take_le(toks: Seq<Seq<char>>, k: int)
    requires
        0 <= k <= toks.len(),
    ensures
        chars_in(toks.take(k)) <= chars_in(toks),
    decreases toks.len() - k,
{
    if k < toks.len() {
        lemma_chars_in_split(toks, k);
        lemma_chars_in_take_le(toks, k + 1);
    } else {
        assert(toks.take(k) == toks);
    }
}


/// A program's schema: its name and version, its own and its global
/// arguments, and its subcommands.
#[derive(Debug)]
pub struct Command {
    name: Option<String>,
    version: Option<String>,
    args: Vec<ArgInfo>,
    global_args: Vec<ArgInfo>,
    subcommands: Vec<SubcommandInfo>,
    subcommand_required: bool,
}

/// What the root help starts with: program name and version, followed
/// directly by the usage line.
pub open spec fn root_header(name: Option<Seq<char>>, version: Option<Seq<char>>) -> Seq<char> {
    (match name {
        Some(n) => n,
        None => seq![],
    }) + (match version {
        Some(v) => " "@ + v,
        None => seq![],
    })
}

/// The top level of a command's schema.
pub open spec fn root_level(cmd: Command) -> Level {
    Level {
        header: root_header(cmd.name_view(), cmd.version_view()),
        name: cmd.name_view(),
        args: cmd.local_args(),
        subs: cmd.subcommand_list(),
        subcommand_required: cmd.needs_subcommand(),
    }
}

/// Parsing a token sequence against a command.
pub open spec fn command_parse(cmd: Command, toks: Seq<Seq<char>>) -> Result<ParsedView, ErrorView> {
    parse_level(root_level(cmd), cmd.global_arg_list(), toks)
}

/// Parsing a token sequence that must not be empty.
pub open spec fn command_parse_from(cmd: Command, toks: Seq<Seq<char>>) -> Result<
    ParsedView,
    ErrorView,
> {
    if toks.len() == 0 {
        Err(ErrorView::EmptyInput)
    } else {
        command_parse(cmd, toks)
    }
}

/// Parsing one command-line string: it is trimmed, then split into tokens.
pub open spec fn command_parse_str(cmd: Command, s: Seq<char>) -> Result<ParsedView, ErrorView> {
    let t = trimmed(s);
    if t.len() == 0 {
        Err(ErrorView::EmptyInput)
    } else {
        match tokenize(t) {
            None => Err(ErrorView::InvalidFormat(unclosed_quote_message())),
            Some(toks) => command_parse(cmd, toks),
        }
    }
}

impl Command {
    pub closed spec fn name_view(&self) -> Option<Seq<char>> {
        opt_view(self.name)
    }

    pub closed spec fn version_view(&self) -> Option<Seq<char>> {
        opt_view(self.version)
    }

    /// The root's own (non-global) arguments.
    pub closed spec fn local_args(&self) -> Seq<ArgInfo> {
        self.args@
    }

    /// The arguments visible at every level.
    pub closed spec fn global_arg_list(&self) -> Seq<ArgInfo> {
        self.global_args@
    }

    pub closed spec fn subcommand_list(&self) -> Seq<SubcommandInfo> {
        self.subcommands@
    }

    pub closed spec fn needs_subcommand(&self) -> bool {
        self.subcommand_required
    }

    /// A command with no arguments and no subcommands.
    pub fn new(name: Option<&str>, version: Option<&str>) -> (r: Self)
        ensures
            r.name_view() == match name {
                Some(n) => Some(n@),
                None => None::<Seq<char>>,
            },
            r.version_view() == match version {
                Some(v) => Some(v@),
                None => None::<Seq<char>>,
            },
            r.local_args().len() == 0,
            r.global_arg_list().len() == 0,
            r.subcommand_list().len() == 0,
            !r.needs_subcommand(),
    {
        let name = match name {
            Some(n) => Some(n.to_owned()),
            None => None,
        };
        let version = match version {
            Some(v) => Some(v.to_owned()),
            None => None,
        };
        Command {
            name,
            version,
            args: Vec::new(),
            global_args: Vec::new(),
            subcommands: Vec::new(),
            subcommand_required: false,
        }
    }

    pub fn get_name(&self) -> (r: Option<&str>)
        ensures
            self.name_view() == match r {
                Some(n) => Some(n@),
                None => None::<Seq<char>>,
            },
    {
        match &self.name {
            Some(n) => Some(n.as_str()),
            None => None,
        }
    }

    pub fn get_version(&self) -> (r: Option<&str>)
        ensures
            self.version_view() == match r {
                Some(v) => Some(v@),
                None => None::<Seq<char>>,
            },
    {
        match &self.version {
            Some(v) => Some(v.as_str()),
            None => None,
        }
    }

    /// Adds an argument: to the global ones when it is marked global,
    /// otherwise to the root's own.
    pub fn arg(self, arg: ArgInfo) -> (r: Self)
        ensures
            r.name_view() == self.name_view(),
            r.version_view() == self.version_view(),
            r.subcommand_list() == self.subcommand_list(),
            r.needs_subcommand() == self.needs_subcommand(),
            arg.global ==> r.global_arg_list() == self.global_arg_list().push(arg)
                && r.local_args() == self.local_args(),
            !arg.global ==> r.local_args() == self.local_args().push(arg) && r.global_arg_list()
                == self.global_arg_list(),
    {
        let mut r = self;
        if arg.global {
            r.global_args.push(arg);
        } else {
            r.args.push(arg);
        }
        r
    }

    /// Adds a subcommand.
    pub fn subcommand(self, subcommand: SubcommandInfo) -> (r: Self)
        ensures
            r.name_view() == self.name_view(),
            r.version_view() == self.version_view(),
            r.local_args() == self.local_args(),
            r.global_arg_list() == self.global_arg_list(),
            r.subcommand_list() == self.subcommand_list().push(subcommand),
            r.needs_subcommand() == self.needs_subcommand(),
    {
        let mut r = self;
        r.subcommands.push(subcommand);
        r
    }

    /// Demands that one of the subcommands be selected.
    pub fn subcommand_required(self) -> (r: Self)
        ensures
            r.name_view() == self.name_view(),
            r.version_view() == self.version_view(),
            r.local_args() == self.local_args(),
            r.global_arg_list() == self.global_arg_list(),
            r.subcommand_list() == self.subcommand_list(),
            r.needs_subcommand(),
    {
        let mut r = self;
        r.subcommand_required = true;
        r
    }

    /// Parses the tokens of one level, recursing into a selected subcommand.
    fn parse_with_subcommands(
        tokens: &[String],
        header: &String,
        name: &Option<String>,
        args: &Vec<ArgInfo>,
        globals: &Vec<ArgInfo>,
        subs: &Vec<SubcommandInfo>,
        subcommand_required: bool,
    ) -> (r: Result<ParsedArgs, ParseError>)
        requires
            chars_in(strings_view(tokens@)) <= usize::MAX,
        ensures
            result_view(r) == parse_level(
                level_of(*header, *name, args@, subs@, subcommand_required),
                globals@,
                strings_view(tokens@),
            ),
            r is Ok ==> r->Ok_0@.total_count() <= chars_in(strings_view(tokens@)),
            r is Ok ==> r->Ok_0@.wf(),
        decreases tokens@.len(),
    {
        let ghost lv = level_of(*header, *name, args@, subs@, subcommand_required);
        let ghost g = globals@;
        let ghost toks = strings_view(tokens@);
        let n = tokens.len();
        if n == 1 && is_help_word(&tokens[0]) {
            let mut text = header.clone();
            let name_ref: Option<&String> = match name {
                Some(v) => Some(v),
                None => None,
            };
            get_help(&mut text, name_ref, args, globals, subs);
            return Err(ParseError::Help(text));
        }
        let ghost target = parse_level(lv, g, toks);
        let mut result = ParsedArgs::new();
        let mut failure: Option<ParseError> = None;
        let mut ended = false;
        let mut i: usize = 0;
        proof {
            assert(toks.take(0) == Seq::<Seq<char>>::empty());
        }
        while i < n
            invariant
                i <= tokens@.len(),
                n == tokens@.len(),
                toks == strings_view(tokens@),
                g == globals@,
                lv == level_of(*header, *name, args@, subs@, subcommand_required),
                chars_in(toks) <= usize::MAX,
                failure is Some || ended ==> i == n,
                failure is None && !ended ==> result@.subcommand is None,
                failure is None ==> result@.total_count() <= chars_in(toks.take(i as int)),
                failure is None ==> result@.wf(),
                match failure {
                    Some(e) => target == Err::<ParsedView, ErrorView>(e@),
                    None => target == if ended {
                        finish_level(lv, result@)
                    } else {
                        scan_tokens(lv, g, toks, i as int, result@)
                    },
                },
            decreases n - i,
        {
            let tok = &tokens[i];
            let t = chars_of(tok.as_str());
            proof {
                lemma_chars_in_split(toks, i as int);
                lemma_chars_in_take_le(toks, i + 1);
                assert(toks.take(n as int) == toks);
            }
            if !(t.len() > 0 && t[0] == '-') {
                match find_subcommand(subs, tok) {
                    Some(k) => {
                        let sub = &subs[k];
                        let child_header = make_about_header(&sub.about);
                        let child_name = Some(make_chain_name(name, &sub.name));
                        let rest = &tokens[(i + 1)..n];
                        proof {
                            assert(strings_view(rest@) =~= toks.subrange(i + 1, toks.len() as int));
                            assert(child_level(lv, *sub) == level_of(
                                child_header,
                                child_name,
                                sub.args@,
                                sub.subcommands@,
                                sub.subcommand_required,
                            ));
                        }
                        match Self::parse_with_subcommands(
                            rest,
                            &child_header,
                            &child_name,
                            &sub.args,
                            globals,
                            &sub.subcommands,
                            sub.subcommand_required,
                        ) {
                            Err(e) => {
                                failure = Some(e);
                            },
                            Ok(nested) => {
                                proof {
                                    lemma_total_fold(result@.counts, nested@.counts);
                                    lemma_with_subcommand(result@, tok@, nested@);
                                }
                                result.set_subcommand(tok.clone(), nested);
                                ended = true;
                            },
                        }
                        i = n;
                    },
                    None => {
                        if let Some(p) = find_positional_arg(args) {
                            result.insert(p.name.clone(), tok.clone());
                        }
                        i = i + 1;
                    },
                }
            } else if t.len() >= 2 && t[1] == '-' {
                let long_name = string_of(&t, 2, t.len());
                match lookup_long_arg(args, globals, &long_name) {
                    None => {
                        failure = Some(ParseError::UnknownArgument(long_name));
                        i = n;
                    },
                    Some(a) => {
                        if a.counting {
                            proof {
                                lemma_count_le_total(result@.counts, a.name@);
                                lemma_key_index_bounds(result@.counts, a.name@);
                                lemma_total_add(result@.counts, a.name@, 1);
                            }
                            result.increment(a.name.clone());
                            i = i + 1;
                        } else if i + 1 >= n || dash_first(&tokens[i + 1]) {
                            result.insert_flag(a.name.clone());
                            i = i + 1;
                        } else {
                            proof {
                                lemma_chars_in_split(toks, i + 1);
                            }
                            result.insert(a.name.clone(), tokens[i + 1].clone());
                            i = i + 2;
                        }
                    },
                }
            } else if t.len() >= 2 {
                match parse_cluster(tokens, i, &t, args, globals, &mut result, Ghost(lv)) {
                    Ok(next) => {
                        i = next;
                    },
                    Err(e) => {
                        failure = Some(e);
                        i = n;
                    },
                }
            } else {
                i = i + 1;
            }
        }
        proof {
            assert(toks.take(toks.len() as int) == toks);
        }
        match failure {
            Some(e) => Err(e),
            None => finish(result, args, subcommand_required),
        }
    }

    fn header(&self) -> (r: String)
        ensures
            r@ == root_header(self.name_view(), self.version_view()),
    {
        let mut out = String::new();
        if let Some(n) = &self.name {
            out.append(n.as_str());
        }
        if let Some(v) = &self.version {
            out.append(" ");
            out.append(v.as_str());
        }
        out
    }

    /// Parses a token sequence: the result store of the root level, or the
    /// first error met.
    pub fn parse(&self, args: &[String]) -> (r: Result<ParsedArgs, ParseError>)
        requires
            chars_in(strings_view(args@)) <= usize::MAX,
        ensures
            result_view(r) == command_parse(*self, strings_view(args@)),
            r is Ok ==> r->Ok_0@.wf(),
    {
        let header = self.header();
        Self::parse_with_subcommands(
            args,
            &header,
            &self.name,
            &self.args,
            &self.global_args,
            &self.subcommands,
            self.subcommand_required,
        )
    }

    /// Parses a token sequence, rejecting an empty one.
    pub fn parse_from(&self, args: &[String]) -> (r: Result<ParsedArgs, ParseError>)
        requires
            chars_in(strings_view(args@)) <= usize::MAX,
        ensures
            result_view(r) == command_parse_from(*self, strings_view(args@)),
            r is Ok ==> r->Ok_0@.wf(),
    {
        if args.len() == 0 {
            return Err(ParseError::EmptyInput);
        }
        self.parse(args)
    }

    /// Parses one command-line string.
    pub fn parse_str(&self, input: &str) -> (r: Result<ParsedArgs, ParseError>)
        ensures
            result_view(r) == command_parse_str(*self, input@),
            r is Ok ==> r->Ok_0@.wf(),
    {
        let t = trim(input);
        if t.is_empty() {
            return Err(ParseError::EmptyInput);
        }
        match parse_command_line(t) {
            Err(e) => Err(e),
            Ok(tokens) => self.parse(tokens.as_slice()),
        }
    }

    /// Help text of the root level.
    pub fn get_help(&self) -> (r: String)
        ensures
            r@ == level_help(root_level(*self), self.global_arg_list()),
    {
        let mut out = self.header();
        let name_ref: Option<&String> = match &self.name {
            Some(v) => Some(v),
            None => None,
        };
        get_help(&mut out, name_ref, &self.args, &self.global_args, &self.subcommands);
        out
    }
}

} // verus!
