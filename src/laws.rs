use vstd::prelude::*;
use crate::arg::ArgInfo;
use crate::arg::parsed_arg::{
    ParsedView,
    keys_unique,
    lemma_add_count_unique,
    lemma_count_after_fold,
    lemma_fold_unique,
    lemma_count_after_add,
    lemma_has_other,
    lemma_key_total_unique,
};
use crate::command::{
    bool_flag_at,
    find_positional,
    find_long,
    find_short,
    Command,
    Level,
    child_level,
    command_parse,
    find_sub,
    finish_level,
    is_help_token,
    is_long_option,
    level_help,
    lookup_long,
    lookup_short,
    missing_required,
    parse_level,
    root_level,
    scan_cluster,
    scan_tokens,
    starts_with_dash,
};
use crate::command::{command_parse_from, command_parse_str};
use crate::error::ErrorView;
use crate::parser::{ScanState, scan_run, tokenize};
use crate::text::{is_white_space, trim_end_of, trim_start_of, trimmed};

verus! {

/// The chain of subcommand names recorded in a result, outermost first.
pub open spec fn chain_of(p: ParsedView) -> Seq<Seq<char>>
    decreases p,
{
    match p.subcommand {
        Some(s) => seq![s.0] + chain_of(*s.1),
        None => seq![],
    }
}

/// Each word of `path`, in turn, names a child of the level reached so far
/// and does not begin with a dash.
pub open spec fn subcommand_path(lv: Level, path: Seq<Seq<char>>) -> bool
    decreases path.len(),
{
    if path.len() == 0 {
        true
    } else {
        !starts_with_dash(path[0]) && match find_sub(lv.subs, path[0]) {
            Some(sub) => subcommand_path(child_level(lv, sub), path.drop_first()),
            None => false,
        }
    }
}

/// The level that `path` leads to.
pub open spec fn level_along(lv: Level, path: Seq<Seq<char>>) -> Level
    decreases path.len(),
{
    if path.len() == 0 {
        lv
    } else {
        match find_sub(lv.subs, path[0]) {
            Some(sub) => level_along(child_level(lv, sub), path.drop_first()),
            None => lv,
        }
    }
}

/// No required, non-global argument among `args`.
pub open spec fn no_required(args: Seq<ArgInfo>) -> bool {
    forall|i: int| 0 <= i < args.len() ==> !(#[trigger] args[i].required && !args[i].global)
}

/// Along `path`, no level has a required argument and the last level does
/// not demand a subcommand.
pub open spec fn path_without_demands(lv: Level, path: Seq<Seq<char>>) -> bool
    decreases path.len(),
{
    no_required(lv.args) && if path.len() == 0 {
        !lv.subcommand_required
    } else {
        match find_sub(lv.subs, path[0]) {
            Some(sub) => path_without_demands(child_level(lv, sub), path.drop_first()),
            None => true,
        }
    }
}

proof fn lemma_help_token_dash(t: Seq<char>)
    requires
        is_help_token(t),
    ensures
        starts_with_dash(t),
{
    reveal_strlit("--help");
    reveal_strlit("-h");
}

proof fn lemma_no_required(args: Seq<ArgInfo>, acc: ParsedView)
    requires
        no_required(args),
    ensures
        missing_required(args, acc) is None,
    decreases args.len(),
{
    if args.len() > 0 {
        assert(!(args[0].required && !args[0].global));
        assert(no_required(args.drop_first())) by {
            assert forall|i: int| 0 <= i < args.drop_first().len() implies !(
            #[trigger] args.drop_first()[i].required && !args.drop_first()[i].global) by {
                assert(args.drop_first()[i] == args[i + 1]);
            }
        }
        lemma_no_required(args.drop_first(), acc);
    }
}

proof fn lemma_chain(lv: Level, globals: Seq<ArgInfo>, path: Seq<Seq<char>>)
    requires
        subcommand_path(lv, path),
        path_without_demands(lv, path),
    ensures
        parse_level(lv, globals, path) is Ok,
        chain_of(parse_level(lv, globals, path)->Ok_0) == path,
    decreases path.len(),
{
    lemma_no_required(lv.args, ParsedView::empty());
    if path.len() == 0 {
        assert(chain_of(ParsedView::empty()) == Seq::<Seq<char>>::empty());
    } else {
        if is_help_token(path[0]) {
            lemma_help_token_dash(path[0]);
        }
        let sub = find_sub(lv.subs, path[0])->0;
        let rest = path.subrange(1, path.len() as int);
        assert(rest == path.drop_first());
        lemma_chain(child_level(lv, sub), globals, rest);
        let nested = parse_level(child_level(lv, sub), globals, rest)->Ok_0;
        let acc = ParsedView::empty().with_subcommand(path[0], nested);
        lemma_no_required(lv.args, acc);
        assert(scan_tokens(lv, globals, path, 0, ParsedView::empty()) == finish_level(lv, acc));
        assert(chain_of(acc) == seq![path[0]] + rest);
        assert(seq![path[0]] + rest == path);
    }
}

/// A command line made only of subcommand names, each naming a child of the
/// level before it, selects exactly that chain of subcommands (provided no
/// level along it requires an argument and the last one does not demand a
/// subcommand).
pub proof fn law_subcommand_chain(cmd: Command, path: Seq<Seq<char>>)
    requires
        subcommand_path(root_level(cmd), path),
        path_without_demands(root_level(cmd), path),
    ensures
        command_parse(cmd, path) is Ok,
        chain_of(command_parse(cmd, path)->Ok_0) == path,
{
    lemma_chain(root_level(cmd), cmd.global_arg_list(), path);
}

proof fn lemma_help(lv: Level, globals: Seq<ArgInfo>, path: Seq<Seq<char>>, h: Seq<char>)
    requires
        subcommand_path(lv, path),
        is_help_token(h),
    ensures
        parse_level(lv, globals, path.push(h)) == Err::<ParsedView, ErrorView>(
            ErrorView::Help(level_help(level_along(lv, path), globals)),
        ),
    decreases path.len(),
{
    let toks = path.push(h);
    if path.len() > 0 {
        let sub = find_sub(lv.subs, path[0])->0;
        let rest = toks.subrange(1, toks.len() as int);
        assert(rest == path.drop_first().push(h));
        assert(toks[0] == path[0]);
        lemma_help(child_level(lv, sub), globals, path.drop_first(), h);
    }
}

/// A lone `--help` or `-h` after any chain of subcommand names yields the
/// help text of the level that chain reaches, whatever that level requires.
pub proof fn law_help_at_any_level(cmd: Command, path: Seq<Seq<char>>, h: Seq<char>)
    requires
        subcommand_path(root_level(cmd), path),
        is_help_token(h),
    ensures
        command_parse(cmd, path.push(h)) == Err::<ParsedView, ErrorView>(
            ErrorView::Help(level_help(level_along(root_level(cmd), path), cmd.global_arg_list())),
        ),
{
    lemma_help(root_level(cmd), cmd.global_arg_list(), path, h);
}

/// `--name` that no visible argument spells is rejected as unknown, naming
/// `name` (unless it is a lone `--help`).
pub proof fn law_unknown_long(cmd: Command, name: Seq<char>, rest: Seq<Seq<char>>)
    requires
        lookup_long(cmd.local_args(), cmd.global_arg_list(), name) is None,
        rest.len() > 0 || !is_help_token(seq!['-', '-'] + name),
    ensures
        command_parse(cmd, seq![seq!['-', '-'] + name] + rest) == Err::<ParsedView, ErrorView>(
            ErrorView::UnknownArgument(name),
        ),
{
    let t = seq!['-', '-'] + name;
    let toks = seq![t] + rest;
    assert(toks[0] == t);
    assert(is_long_option(t));
    assert(t.subrange(2, t.len() as int) == name);
}

/// A short cluster whose first character no visible argument spells is
/// rejected as unknown, naming that character (unless it is a lone `-h`).
pub proof fn law_unknown_short(
    cmd: Command,
    c: char,
    more: Seq<char>,
    rest: Seq<Seq<char>>,
)
    requires
        c != '-',
        lookup_short(cmd.local_args(), cmd.global_arg_list(), c) is None,
        rest.len() > 0 || !is_help_token(seq!['-', c] + more),
    ensures
        command_parse(cmd, seq![seq!['-', c] + more] + rest) == Err::<ParsedView, ErrorView>(
            ErrorView::UnknownArgument(seq![c]),
        ),
{
    let t = seq!['-', c] + more;
    let toks = seq![t] + rest;
    let lv = root_level(cmd);
    let g = cmd.global_arg_list();
    assert(toks[0] == t);
    assert(t[1] == c);
    assert(scan_tokens(lv, g, toks, 0, ParsedView::empty()) == scan_cluster(
        lv,
        g,
        toks,
        0,
        1,
        false,
        ParsedView::empty(),
    ));
}

proof fn lemma_plain_words(lv: Level, globals: Seq<ArgInfo>, toks: Seq<Seq<char>>, i: int)
    requires
        0 <= i <= toks.len(),
        find_positional(lv.args) is None,
        forall|k: int|
            0 <= k < toks.len() ==> !starts_with_dash(#[trigger] toks[k]) && find_sub(
                lv.subs,
                toks[k],
            ) is None,
    ensures
        scan_tokens(lv, globals, toks, i, ParsedView::empty()) == finish_level(
            lv,
            ParsedView::empty(),
        ),
    decreases toks.len() - i,
{
    if i < toks.len() {
        lemma_plain_words(lv, globals, toks, i + 1);
    }
}

/// Words that are neither options nor subcommand names, at a root without
/// positional arguments, leave every argument absent: a required one among
/// the command's own is then reported missing, the first in declared order.
pub proof fn law_missing_required(cmd: Command, toks: Seq<Seq<char>>, a: ArgInfo)
    requires
        forall|k: int|
            0 <= k < toks.len() ==> !starts_with_dash(#[trigger] toks[k]) && find_sub(
                cmd.subcommand_list(),
                toks[k],
            ) is None,
        find_positional(cmd.local_args()) is None,
        missing_required(cmd.local_args(), ParsedView::empty()) == Some(a),
    ensures
        command_parse(cmd, toks) == Err::<ParsedView, ErrorView>(
            ErrorView::MissingArgument(a.name@),
        ),
{
    let lv = root_level(cmd);
    if toks.len() == 1 && is_help_token(toks[0]) {
        lemma_help_token_dash(toks[0]);
    }
    lemma_plain_words(lv, cmd.global_arg_list(), toks, 0);
}

pub open spec fn is_separator(c: char) -> bool {
    c == ' ' || c == '\t'
}

/// Splitting on runs of spaces and tabs: the words seen so far and the
/// word being read.
pub open spec fn split_run(s: Seq<char>) -> (Seq<Seq<char>>, Seq<char>)
    decreases s.len(),
{
    if s.len() == 0 {
        (seq![], seq![])
    } else {
        let st = split_run(s.drop_last());
        if is_separator(s.last()) {
            if st.1.len() > 0 {
                (st.0.push(st.1), seq![])
            } else {
                st
            }
        } else {
            (st.0, st.1.push(s.last()))
        }
    }
}

/// The words of `s` separated by spaces and tabs.
pub open spec fn split_whitespace(s: Seq<char>) -> Seq<Seq<char>> {
    let st = split_run(s);
    if st.1.len() > 0 {
        st.0.push(st.1)
    } else {
        st.0
    }
}

pub open spec fn has_no_quotes(s: Seq<char>) -> bool {
    forall|i: int| 0 <= i < s.len() ==> #[trigger] s[i] != '"' && s[i] != '\''
}

/// Without quotes the tokenizer only splits on spaces and tabs.
proof fn lemma_scan_unquoted(s: Seq<char>)
    requires
        has_no_quotes(s),
    ensures
        scan_run(s) == (ScanState {
            tokens: split_run(s).0,
            current: split_run(s).1,
            in_quotes: false,
            quote: '"',
            escape: false,
        }),
    decreases s.len(),
{
    if s.len() > 0 {
        assert(has_no_quotes(s.drop_last())) by {
            assert forall|i: int| 0 <= i < s.drop_last().len() implies #[trigger] s.drop_last()[i]
                != '"' && s.drop_last()[i] != '\'' by {
                assert(s.drop_last()[i] == s[i]);
            }
        }
        lemma_scan_unquoted(s.drop_last());
        assert(s.last() == s[s.len() - 1]);
    }
}

/// A leading separator changes nothing.
proof fn lemma_split_leading(c: char, s: Seq<char>)
    requires
        is_separator(c),
    ensures
        split_run(seq![c] + s) == split_run(s),
    decreases s.len(),
{
    if s.len() == 0 {
        assert(seq![c] + s == seq![c]);
        assert(seq![c].drop_last() == Seq::<char>::empty());
        assert(seq![c].last() == c);
        assert(split_run(Seq::<char>::empty()) == (Seq::<Seq<char>>::empty(), Seq::<char>::empty()));
    } else {
        let cs = seq![c] + s;
        lemma_split_leading(c, s.drop_last());
        assert(cs.drop_last() == seq![c] + s.drop_last());
        assert(cs.last() == s.last());
        assert(split_run(cs.drop_last()) == split_run(s.drop_last()));
    }
}

proof fn lemma_split_trim_start(s: Seq<char>)
    requires
        forall|i: int| 0 <= i < s.len() && is_white_space(#[trigger] s[i]) ==> is_separator(s[i]),
    ensures
        split_run(trim_start_of(s)) == split_run(s),
        forall|i: int|
            0 <= i < trim_start_of(s).len() && is_white_space(#[trigger] trim_start_of(s)[i])
                ==> is_separator(trim_start_of(s)[i]),
    decreases s.len(),
{
    if s.len() > 0 && is_white_space(s[0]) {
        let d = s.drop_first();
        assert forall|i: int| 0 <= i < d.len() && is_white_space(#[trigger] d[i]) implies is_separator(
            d[i],
        ) by {
            assert(d[i] == s[i + 1]);
        }
        lemma_split_trim_start(d);
        assert(s == seq![s[0]] + d);
        lemma_split_leading(s[0], d);
    }
}

proof fn lemma_split_trim_end(s: Seq<char>)
    requires
        forall|i: int| 0 <= i < s.len() && is_white_space(#[trigger] s[i]) ==> is_separator(s[i]),
    ensures
        split_whitespace(trim_end_of(s)) == split_whitespace(s),
    decreases s.len(),
{
    if s.len() > 0 && is_white_space(s.last()) {
        let d = s.drop_last();
        assert forall|i: int| 0 <= i < d.len() && is_white_space(#[trigger] d[i]) implies is_separator(
            d[i],
        ) by {
            assert(d[i] == s[i]);
        }
        assert(is_separator(s[s.len() - 1]));
        lemma_split_trim_end(d);
    }
}

/// A word character leaves at least one word.
proof fn lemma_split_nonempty(s: Seq<char>, k: int)
    requires
        0 <= k < s.len(),
        !is_separator(s[k]),
    ensures
        split_run(s).0.len() > 0 || split_run(s).1.len() > 0,
    decreases s.len(),
{
    if k < s.len() - 1 {
        lemma_split_nonempty(s.drop_last(), k);
    }
}

proof fn lemma_trim_end_last(s: Seq<char>)
    ensures
        trim_end_of(s).len() > 0 ==> !is_white_space(trim_end_of(s).last()),
    decreases s.len(),
{
    if s.len() > 0 && is_white_space(s.last()) {
        lemma_trim_end_last(s.drop_last());
    }
}

proof fn lemma_trim_start_subrange(s: Seq<char>)
    ensures
        exists|a: int| 0 <= a <= s.len() && trim_start_of(s) == s.subrange(a, s.len() as int),
    decreases s.len(),
{
    if s.len() > 0 && is_white_space(s[0]) {
        lemma_trim_start_subrange(s.drop_first());
        let a = choose|a: int|
            0 <= a <= s.drop_first().len() && trim_start_of(s.drop_first()) == s.drop_first().subrange(
                a,
                s.drop_first().len() as int,
            );
        assert(s.drop_first().subrange(a, s.drop_first().len() as int) == s.subrange(
            a + 1,
            s.len() as int,
        ));
    } else {
        assert(s.subrange(0, s.len() as int) == s);
    }
}

proof fn lemma_trim_end_subrange(s: Seq<char>)
    ensures
        exists|b: int| 0 <= b <= s.len() && trim_end_of(s) == s.subrange(0, b),
    decreases s.len(),
{
    if s.len() > 0 && is_white_space(s.last()) {
        lemma_trim_end_subrange(s.drop_last());
        let b = choose|b: int|
            0 <= b <= s.drop_last().len() && trim_end_of(s.drop_last()) == s.drop_last().subrange(
                0,
                b,
            );
        assert(s.drop_last().subrange(0, b) == s.subrange(0, b));
    } else {
        assert(s.subrange(0, s.len() as int) == s);
    }
}

/// A command line without quotes, whose only white space is spaces and
/// tabs, trims to nothing exactly when it has no words, and otherwise
/// tokenizes into its space-separated words.
pub proof fn law_plain_line_tokens(s: Seq<char>)
    requires
        has_no_quotes(s),
        forall|i: int| 0 <= i < s.len() && is_white_space(#[trigger] s[i]) ==> is_separator(s[i]),
    ensures
        (trimmed(s).len() == 0) == (split_whitespace(s).len() == 0),
        trimmed(s).len() > 0 ==> tokenize(trimmed(s)) == Some(split_whitespace(s)),
{
    let a = trim_start_of(s);
    let t = trimmed(s);
    lemma_split_trim_start(s);
    lemma_split_trim_end(a);
    assert(split_whitespace(t) == split_whitespace(s));
    lemma_trim_start_subrange(s);
    lemma_trim_end_subrange(a);
    let ia = choose|x: int| 0 <= x <= s.len() && a == s.subrange(x, s.len() as int);
    let ib = choose|x: int| 0 <= x <= a.len() && t == a.subrange(0, x);
    assert(has_no_quotes(t)) by {
        assert forall|i: int| 0 <= i < t.len() implies #[trigger] t[i] != '"' && t[i] != '\'' by {
            assert(t[i] == s[ia + i]);
        }
    }
    lemma_scan_unquoted(t);
    assert(tokenize(t) == Some(split_whitespace(t)));
    if t.len() == 0 {
        assert(split_run(t) == (Seq::<Seq<char>>::empty(), Seq::<char>::empty()));
    } else {
        lemma_trim_end_last(a);
        assert(!is_separator(t[t.len() - 1])) by {
            reveal_strlit(" ");
        }
        lemma_split_nonempty(t, t.len() - 1);
    }
}

/// For a command line without quotes, whose only white space is spaces and
/// tabs, parsing the string is parsing its space-separated words. (For a
/// type implementing `Parser`, the same follows from `law_plain_line_tokens`
/// and the contracts of `parse_str` and `parse_from`.)
pub proof fn law_parse_str_as_words(cmd: Command, s: Seq<char>)
    requires
        has_no_quotes(s),
        forall|i: int| 0 <= i < s.len() && is_white_space(#[trigger] s[i]) ==> is_separator(s[i]),
    ensures
        command_parse_str(cmd, s) == command_parse_from(cmd, split_whitespace(s)),
{
    law_plain_line_tokens(s);
}

proof fn lemma_level_unique(lv: Level, globals: Seq<ArgInfo>, toks: Seq<Seq<char>>)
    ensures
        parse_level(lv, globals, toks) is Ok ==> keys_unique(
            parse_level(lv, globals, toks)->Ok_0.counts,
        ),
    decreases toks.len(), 2int, 0int,
{
    if !(toks.len() == 1 && is_help_token(toks[0])) {
        lemma_scan_unique(lv, globals, toks, 0, ParsedView::empty());
    }
}

proof fn lemma_scan_unique(
    lv: Level,
    globals: Seq<ArgInfo>,
    toks: Seq<Seq<char>>,
    i: int,
    acc: ParsedView,
)
    requires
        keys_unique(acc.counts),
    ensures
        scan_tokens(lv, globals, toks, i, acc) is Ok ==> keys_unique(
            scan_tokens(lv, globals, toks, i, acc)->Ok_0.counts,
        ),
    decreases toks.len() - i, 1int, 0int,
{
    if 0 <= i < toks.len() {
        let t = toks[i];
        if !starts_with_dash(t) {
            match find_sub(lv.subs, t) {
                Some(sub) => {
                    let rest = toks.subrange(i + 1, toks.len() as int);
                    lemma_level_unique(child_level(lv, sub), globals, rest);
                    if parse_level(child_level(lv, sub), globals, rest) is Ok {
                        let nested = parse_level(child_level(lv, sub), globals, rest)->Ok_0;
                        lemma_fold_unique(acc.counts, nested.counts);
                    }
                },
                None => match find_positional(lv.args) {
                    Some(p) => lemma_scan_unique(
                        lv,
                        globals,
                        toks,
                        i + 1,
                        acc.with_value(p.name@, t),
                    ),
                    None => lemma_scan_unique(lv, globals, toks, i + 1, acc),
                },
            }
        } else if is_long_option(t) {
            let n = t.subrange(2, t.len() as int);
            match lookup_long(lv.args, globals, n) {
                None => {},
                Some(a) => if a.counting {
                    lemma_add_count_unique(acc.counts, a.name@, 1);
                    lemma_scan_unique(lv, globals, toks, i + 1, acc.with_count(a.name@, 1));
                } else if i + 1 >= toks.len() || starts_with_dash(toks[i + 1]) {
                    lemma_scan_unique(lv, globals, toks, i + 1, acc.with_value(a.name@, seq![]));
                } else {
                    lemma_scan_unique(lv, globals, toks, i + 2, acc.with_value(a.name@, toks[i + 1]));
                },
            }
        } else if t.len() >= 2 {
            lemma_cluster_unique(lv, globals, toks, i, 1, false, acc);
        } else {
            lemma_scan_unique(lv, globals, toks, i + 1, acc);
        }
    }
}

proof fn lemma_cluster_unique(
    lv: Level,
    globals: Seq<ArgInfo>,
    toks: Seq<Seq<char>>,
    i: int,
    j: int,
    took: bool,
    acc: ParsedView,
)
    requires
        keys_unique(acc.counts),
    ensures
        scan_cluster(lv, globals, toks, i, j, took, acc) is Ok ==> keys_unique(
            scan_cluster(lv, globals, toks, i, j, took, acc)->Ok_0.counts,
        ),
    decreases toks.len() - i, 0int, toks[i].len() - j,
{
    if 0 <= i < toks.len() && j >= 0 {
        let t = toks[i];
        if j >= t.len() {
            if took && i + 1 < toks.len() {
                lemma_scan_unique(lv, globals, toks, i + 2, acc);
            } else {
                lemma_scan_unique(lv, globals, toks, i + 1, acc);
            }
        } else {
            let c = t[j];
            match lookup_short(lv.args, globals, c) {
                None => {},
                Some(a) => if a.counting {
                    lemma_add_count_unique(acc.counts, a.name@, 1);
                    lemma_cluster_unique(
                        lv,
                        globals,
                        toks,
                        i,
                        j + 1,
                        took,
                        acc.with_count(a.name@, 1),
                    );
                } else if bool_flag_at(toks, i) {
                    if i + 1 < toks.len() && !starts_with_dash(toks[i + 1]) {
                        lemma_cluster_unique(
                            lv,
                            globals,
                            toks,
                            i,
                            j + 1,
                            true,
                            acc.with_value(a.name@, toks[i + 1]),
                        );
                    } else {
                        lemma_cluster_unique(
                            lv,
                            globals,
                            toks,
                            i,
                            j + 1,
                            took,
                            acc.with_value(a.name@, seq![]),
                        );
                    }
                } else if j + 1 < t.len() {
                    lemma_scan_unique(
                        lv,
                        globals,
                        toks,
                        i + 1,
                        acc.with_value(a.name@, t.subrange(j + 1, t.len() as int)),
                    );
                } else {
                    lemma_scan_unique(lv, globals, toks, i + 2, acc.with_value(a.name@, toks[i + 1]));
                },
            }
        }
    }
}

/// Counters raised after a subcommand name, by global arguments or any
/// other, are counted at the root too: when the first token selects a
/// subcommand, every counter of the root equals that of the subcommand's
/// result.
pub proof fn law_counts_fold_upward(cmd: Command, toks: Seq<Seq<char>>)
    requires
        toks.len() > 0,
        !starts_with_dash(toks[0]),
        find_sub(cmd.subcommand_list(), toks[0]) is Some,
        command_parse(cmd, toks) is Ok,
    ensures
        ({
            let r = command_parse(cmd, toks)->Ok_0;
            &&& r.subcommand is Some
            &&& (r.subcommand->0).0 == toks[0]
            &&& forall|k: Seq<char>| #[trigger] r.count_of(k) == (r.subcommand->0).1.count_of(k)
        }),
{
    let lv = root_level(cmd);
    let g = cmd.global_arg_list();
    if toks.len() == 1 && is_help_token(toks[0]) {
        lemma_help_token_dash(toks[0]);
    }
    let sub = find_sub(lv.subs, toks[0])->0;
    let rest = toks.subrange(1, toks.len() as int);
    let nested = parse_level(child_level(lv, sub), g, rest)->Ok_0;
    lemma_level_unique(child_level(lv, sub), g, rest);
    let r = command_parse(cmd, toks)->Ok_0;
    assert(r == ParsedView::empty().with_subcommand(toks[0], nested));
    assert forall|k: Seq<char>| #[trigger] r.count_of(k) == (r.subcommand->0).1.count_of(k) by {
        lemma_count_after_fold(Seq::empty(), nested.counts, k);
        lemma_key_total_unique(nested.counts, k);
    }
}

/// `t` is a word naming no subcommand, a lone `-`, or an option whose every
/// spelling is known and belongs to an argument other than `n`.
pub open spec fn token_avoids(lv: Level, globals: Seq<ArgInfo>, t: Seq<char>, n: Seq<char>) -> bool {
    if !starts_with_dash(t) {
        find_sub(lv.subs, t) is None
    } else if is_long_option(t) {
        match lookup_long(lv.args, globals, t.subrange(2, t.len() as int)) {
            Some(a) => a.name@ != n,
            None => false,
        }
    } else {
        forall|j: int|
            1 <= j < t.len() ==> match lookup_short(lv.args, globals, #[trigger] t[j]) {
                Some(a) => a.name@ != n,
                None => false,
            }
    }
}

/// Nothing recorded under `n`.
pub open spec fn lacks(acc: ParsedView, n: Seq<char>) -> bool {
    !acc.has(n) && acc.count_of(n) == 0
}

proof fn lemma_lacks_value(acc: ParsedView, k: Seq<char>, x: Seq<char>, n: Seq<char>)
    requires
        lacks(acc, n),
        k != n,
    ensures
        lacks(acc.with_value(k, x), n),
{
    lemma_has_other(acc, k, x, n);
}

proof fn lemma_lacks_count(acc: ParsedView, k: Seq<char>, n: Seq<char>)
    requires
        lacks(acc, n),
        k != n,
    ensures
        lacks(acc.with_count(k, 1), n),
{
    lemma_count_after_add(acc.counts, k, 1, n);
}

/// Finishing a level that lacks its only required argument reports it.
proof fn lemma_finish_missing(lv: Level, acc: ParsedView, d: ArgInfo)
    requires
        lacks(acc, d.name@),
        lv.args.contains(d),
        d.required && !d.global,
        forall|k: int|
            0 <= k < lv.args.len() && #[trigger] lv.args[k].required && !lv.args[k].global
                ==> lv.args[k].name@ == d.name@,
    ensures
        finish_level(lv, acc) == Err::<ParsedView, ErrorView>(ErrorView::MissingArgument(d.name@)),
{
    lemma_missing_is(lv.args, acc, d);
}

proof fn lemma_missing_is(args: Seq<ArgInfo>, acc: ParsedView, d: ArgInfo)
    requires
        lacks(acc, d.name@),
        args.contains(d),
        d.required && !d.global,
        forall|k: int|
            0 <= k < args.len() && #[trigger] args[k].required && !args[k].global
                ==> args[k].name@ == d.name@,
    ensures
        missing_required(args, acc) is Some && missing_required(args, acc)->0.name@ == d.name@,
    decreases args.len(),
{
    let k = choose|k: int| 0 <= k < args.len() && args[k] == d;
    if !(args[0].required && !args[0].global) {
        assert(k > 0);
        assert(args.drop_first()[k - 1] == d);
        assert forall|m: int|
            0 <= m < args.drop_first().len() && #[trigger] args.drop_first()[m].required
                && !args.drop_first()[m].global implies args.drop_first()[m].name@ == d.name@ by {
            assert(args.drop_first()[m] == args[m + 1]);
        }
        lemma_missing_is(args.drop_first(), acc, d);
    }
}

proof fn lemma_scan_missing(
    lv: Level,
    globals: Seq<ArgInfo>,
    toks: Seq<Seq<char>>,
    i: int,
    acc: ParsedView,
    d: ArgInfo,
)
    requires
        0 <= i,
        lacks(acc, d.name@),
        lv.args.contains(d),
        d.required && !d.global,
        forall|k: int|
            0 <= k < lv.args.len() && #[trigger] lv.args[k].required && !lv.args[k].global
                ==> lv.args[k].name@ == d.name@,
        match find_positional(lv.args) {
            Some(p) => p.name@ != d.name@,
            None => true,
        },
        forall|k: int| 0 <= k < toks.len() ==> token_avoids(lv, globals, #[trigger] toks[k], d.name@),
    ensures
        scan_tokens(lv, globals, toks, i, acc) == Err::<ParsedView, ErrorView>(
            ErrorView::MissingArgument(d.name@),
        ),
    decreases toks.len() - i, 1int, 0int,
{
    let n = d.name@;
    if i >= toks.len() {
        lemma_finish_missing(lv, acc, d);
    } else {
        let t = toks[i];
        assert(token_avoids(lv, globals, t, n));
        if !starts_with_dash(t) {
            match find_positional(lv.args) {
                Some(p) => {
                    lemma_lacks_value(acc, p.name@, t, n);
                    lemma_scan_missing(lv, globals, toks, i + 1, acc.with_value(p.name@, t), d);
                },
                None => {
                    lemma_scan_missing(lv, globals, toks, i + 1, acc, d);
                },
            }
        } else if is_long_option(t) {
            let a = lookup_long(lv.args, globals, t.subrange(2, t.len() as int))->0;
            if a.counting {
                lemma_lacks_count(acc, a.name@, n);
                lemma_scan_missing(lv, globals, toks, i + 1, acc.with_count(a.name@, 1), d);
            } else if i + 1 >= toks.len() || starts_with_dash(toks[i + 1]) {
                lemma_lacks_value(acc, a.name@, seq![], n);
                lemma_scan_missing(lv, globals, toks, i + 1, acc.with_value(a.name@, seq![]), d);
            } else {
                lemma_lacks_value(acc, a.name@, toks[i + 1], n);
                lemma_scan_missing(
                    lv,
                    globals,
                    toks,
                    i + 2,
                    acc.with_value(a.name@, toks[i + 1]),
                    d,
                );
            }
        } else if t.len() >= 2 {
            lemma_cluster_missing(lv, globals, toks, i, 1, false, acc, d);
        } else {
            lemma_scan_missing(lv, globals, toks, i + 1, acc, d);
        }
    }
}

proof fn lemma_cluster_missing(
    lv: Level,
    globals: Seq<ArgInfo>,
    toks: Seq<Seq<char>>,
    i: int,
    j: int,
    took: bool,
    acc: ParsedView,
    d: ArgInfo,
)
    requires
        0 <= i < toks.len(),
        1 <= j,
        starts_with_dash(toks[i]),
        !is_long_option(toks[i]),
        lacks(acc, d.name@),
        lv.args.contains(d),
        d.required && !d.global,
        forall|k: int|
            0 <= k < lv.args.len() && #[trigger] lv.args[k].required && !lv.args[k].global
                ==> lv.args[k].name@ == d.name@,
        match find_positional(lv.args) {
            Some(p) => p.name@ != d.name@,
            None => true,
        },
        forall|k: int| 0 <= k < toks.len() ==> token_avoids(lv, globals, #[trigger] toks[k], d.name@),
    ensures
        scan_cluster(lv, globals, toks, i, j, took, acc) == Err::<ParsedView, ErrorView>(
            ErrorView::MissingArgument(d.name@),
        ),
    decreases toks.len() - i, 0int, toks[i].len() - j,
{
    let n = d.name@;
    let t = toks[i];
    assert(token_avoids(lv, globals, t, n));
    if j >= t.len() {
        if took && i + 1 < toks.len() {
            lemma_scan_missing(lv, globals, toks, i + 2, acc, d);
        } else {
            lemma_scan_missing(lv, globals, toks, i + 1, acc, d);
        }
    } else {
        let c = t[j];
        let a = lookup_short(lv.args, globals, c)->0;
        if a.counting {
            lemma_lacks_count(acc, a.name@, n);
            lemma_cluster_missing(lv, globals, toks, i, j + 1, took, acc.with_count(a.name@, 1), d);
        } else if bool_flag_at(toks, i) {
            if i + 1 < toks.len() && !starts_with_dash(toks[i + 1]) {
                lemma_lacks_value(acc, a.name@, toks[i + 1], n);
                lemma_cluster_missing(
                    lv,
                    globals,
                    toks,
                    i,
                    j + 1,
                    true,
                    acc.with_value(a.name@, toks[i + 1]),
                    d,
                );
            } else {
                lemma_lacks_value(acc, a.name@, seq![], n);
                lemma_cluster_missing(
                    lv,
                    globals,
                    toks,
                    i,
                    j + 1,
                    took,
                    acc.with_value(a.name@, seq![]),
                    d,
                );
            }
        } else if j + 1 < t.len() {
            let v = t.subrange(j + 1, t.len() as int);
            lemma_lacks_value(acc, a.name@, v, n);
            lemma_scan_missing(lv, globals, toks, i + 1, acc.with_value(a.name@, v), d);
        } else {
            lemma_lacks_value(acc, a.name@, toks[i + 1], n);
            lemma_scan_missing(lv, globals, toks, i + 2, acc.with_value(a.name@, toks[i + 1]), d);
        }
    }
}

/// An input that never spells the root's one required argument `d`, names
/// no subcommand and uses only known spellings (and whose words do not go to
/// `d` as the root's first positional argument) yields exactly
/// `MissingArgument` of `d`.
pub proof fn law_missing_required_argument(cmd: Command, toks: Seq<Seq<char>>, d: ArgInfo)
    requires
        cmd.local_args().contains(d),
        d.required && !d.global,
        forall|k: int|
            0 <= k < cmd.local_args().len() && #[trigger] cmd.local_args()[k].required
                && !cmd.local_args()[k].global ==> cmd.local_args()[k].name@ == d.name@,
        match find_positional(cmd.local_args()) {
            Some(p) => p.name@ != d.name@,
            None => true,
        },
        forall|k: int|
            0 <= k < toks.len() ==> token_avoids(
                root_level(cmd),
                cmd.global_arg_list(),
                #[trigger] toks[k],
                d.name@,
            ),
        !(toks.len() == 1 && is_help_token(toks[0])),
    ensures
        command_parse(cmd, toks) == Err::<ParsedView, ErrorView>(
            ErrorView::MissingArgument(d.name@),
        ),
{
    assert(lacks(ParsedView::empty(), d.name@));
    lemma_scan_missing(root_level(cmd), cmd.global_arg_list(), toks, 0, ParsedView::empty(), d);
}

proof fn lemma_find_long_in(args: Seq<ArgInfo>, x: Seq<char>)
    ensures
        find_long(args, x) is Some ==> args.contains(find_long(args, x)->0),
    decreases args.len(),
{
    if args.len() > 0 && !(args[0].long is Some && args[0].long->0@ == x) {
        lemma_find_long_in(args.drop_first(), x);
        if find_long(args, x) is Some {
            let k = choose|k: int|
                0 <= k < args.drop_first().len() && args.drop_first()[k] == find_long(args, x)->0;
            assert(args[k + 1] == args.drop_first()[k]);
        }
    }
}

proof fn lemma_find_short_in(args: Seq<ArgInfo>, c: char)
    ensures
        find_short(args, c) is Some ==> args.contains(find_short(args, c)->0) && find_short(
            args,
            c,
        )->0.short == Some(c),
    decreases args.len(),
{
    if args.len() > 0 && args[0].short != Some(c) {
        lemma_find_short_in(args.drop_first(), c);
        if find_short(args, c) is Some {
            let k = choose|k: int|
                0 <= k < args.drop_first().len() && args.drop_first()[k] == find_short(args, c)->0;
            assert(args[k + 1] == args.drop_first()[k]);
        }
    }
}

proof fn lemma_find_long_spelled(args: Seq<ArgInfo>, x: Seq<char>)
    ensures
        find_long(args, x) is Some ==> find_long(args, x)->0.long is Some && find_long(
            args,
            x,
        )->0.long->0@ == x,
    decreases args.len(),
{
    if args.len() > 0 {
        lemma_find_long_spelled(args.drop_first(), x);
    }
}

/// A cluster made only of the character `c`.
pub open spec fn pure_cluster(t: Seq<char>, c: char) -> bool {
    t.len() >= 2 && t[0] == '-' && !is_long_option(t) && forall|j: int|
        1 <= j < t.len() ==> #[trigger] t[j] == c
}

/// How many times the token `t` spells `g`: once as `--long`, or once per
/// character of a cluster made only of its short spelling.
pub open spec fn occurrences(t: Seq<char>, g: ArgInfo) -> nat {
    if g.long is Some && t == seq!['-', '-'] + g.long->0@ {
        1
    } else if g.short is Some && pure_cluster(t, g.short->0) {
        (t.len() - 1) as nat
    } else {
        0
    }
}

/// Occurrences of `g` in the tokens from position `i` on.
pub open spec fn occurrences_from(toks: Seq<Seq<char>>, i: int, g: ArgInfo) -> nat
    decreases toks.len() - i,
{
    if i < 0 || i >= toks.len() {
        0
    } else {
        occurrences(toks[i], g) + occurrences_from(toks, i + 1, g)
    }
}

/// Any other short cluster holds no short spelling of `g`.
pub open spec fn short_only_alone(t: Seq<char>, g: ArgInfo) -> bool {
    g.short is Some && starts_with_dash(t) && !is_long_option(t) && !pure_cluster(t, g.short->0)
        ==> forall|j: int| 1 <= j < t.len() ==> #[trigger] t[j] != g.short->0
}

/// At `lv`, the spellings of `g` find `g`, and no other visible argument
/// bears its name.
pub open spec fn level_counts_only(lv: Level, globals: Seq<ArgInfo>, g: ArgInfo) -> bool {
    &&& g.long is Some ==> lookup_long(lv.args, globals, g.long->0@) == Some(g)
    &&& g.short is Some ==> lookup_short(lv.args, globals, g.short->0) == Some(g)
    &&& forall|k: int| 0 <= k < lv.args.len() ==> #[trigger] lv.args[k].name@ != g.name@
    &&& forall|k: int|
        0 <= k < globals.len() && #[trigger] globals[k].name@ == g.name@ ==> globals[k] == g
}

/// `level_counts_only` holds at `lv` and at every level that a word of the
/// tokens from `i` on could select.
pub open spec fn levels_count_only(
    lv: Level,
    globals: Seq<ArgInfo>,
    g: ArgInfo,
    toks: Seq<Seq<char>>,
    i: int,
) -> bool
    decreases toks.len() - i,
{
    level_counts_only(lv, globals, g) && (i < 0 || i >= toks.len() || ((match if !starts_with_dash(
        toks[i],
    ) {
        find_sub(lv.subs, toks[i])
    } else {
        None
    } {
        Some(sub) => levels_count_only(
            child_level(lv, sub),
            globals,
            g,
            toks.subrange(i + 1, toks.len() as int),
            0,
        ),
        None => true,
    }) && levels_count_only(lv, globals, g, toks, i + 1)))
}

proof fn lemma_occurrences_shift(toks: Seq<Seq<char>>, i: int, g: ArgInfo)
    requires
        0 <= i <= toks.len(),
    ensures
        occurrences_from(toks.subrange(i, toks.len() as int), 0, g) == occurrences_from(toks, i, g),
{
    lemma_occurrences_sub(toks, i, 0, g);
}

proof fn lemma_occurrences_sub(toks: Seq<Seq<char>>, i: int, a: int, g: ArgInfo)
    requires
        0 <= i <= toks.len(),
        0 <= a <= toks.len() - i,
    ensures
        occurrences_from(toks.subrange(i, toks.len() as int), a, g) == occurrences_from(
            toks,
            i + a,
            g,
        ),
    decreases toks.len() - i - a,
{
    if a < toks.len() - i {
        lemma_occurrences_sub(toks, i, a + 1, g);
    }
}

proof fn lemma_count_other(acc: ParsedView, a: ArgInfo, g: ArgInfo)
    requires
        a.name@ != g.name@,
    ensures
        acc.with_count(a.name@, 1).count_of(g.name@) == acc.count_of(g.name@),
{
    lemma_count_after_add(acc.counts, a.name@, 1, g.name@);
}

proof fn lemma_count_same(acc: ParsedView, g: ArgInfo)
    ensures
        acc.with_count(g.name@, 1).count_of(g.name@) == acc.count_of(g.name@) + 1,
{
    lemma_count_after_add(acc.counts, g.name@, 1, g.name@);
}

/// The argument that a lookup finds is `g`, or bears another name.
proof fn lemma_found_is_g_or_other(
    lv: Level,
    globals: Seq<ArgInfo>,
    g: ArgInfo,
    a: ArgInfo,
    local: bool,
)
    requires
        level_counts_only(lv, globals, g),
        local ==> lv.args.contains(a),
        !local ==> globals.contains(a),
    ensures
        a == g || a.name@ != g.name@,
{
}

proof fn lemma_level_counts(lv: Level, globals: Seq<ArgInfo>, toks: Seq<Seq<char>>, g: ArgInfo)
    requires
        g.counting,
        levels_count_only(lv, globals, g, toks, 0),
        forall|k: int| 0 <= k < toks.len() ==> short_only_alone(#[trigger] toks[k], g),
    ensures
        parse_level(lv, globals, toks) is Ok ==> parse_level(lv, globals, toks)->Ok_0.count_of(
            g.name@,
        ) == occurrences_from(toks, 0, g),
    decreases toks.len(), 2int, 0int,
{
    if !(toks.len() == 1 && is_help_token(toks[0])) {
        lemma_scan_counts(lv, globals, toks, 0, ParsedView::empty(), g);
    }
}

proof fn lemma_scan_counts(
    lv: Level,
    globals: Seq<ArgInfo>,
    toks: Seq<Seq<char>>,
    i: int,
    acc: ParsedView,
    g: ArgInfo,
)
    requires
        0 <= i,
        g.counting,
        levels_count_only(lv, globals, g, toks, i),
        forall|k: int| 0 <= k < toks.len() ==> short_only_alone(#[trigger] toks[k], g),
    ensures
        scan_tokens(lv, globals, toks, i, acc) is Ok ==> scan_tokens(
            lv,
            globals,
            toks,
            i,
            acc,
        )->Ok_0.count_of(g.name@) == acc.count_of(g.name@) + occurrences_from(toks, i, g),
    decreases toks.len() - i, 1int, 0int,
{
    let n = g.name@;
    if i < toks.len() {
        let t = toks[i];
        assert(levels_count_only(lv, globals, g, toks, i + 1));
        if !starts_with_dash(t) {
            assert(occurrences(t, g) == 0);
            match find_sub(lv.subs, t) {
                Some(sub) => {
                    let rest = toks.subrange(i + 1, toks.len() as int);
                    assert forall|k: int| 0 <= k < rest.len() implies short_only_alone(
                        #[trigger] rest[k],
                        g,
                    ) by {
                        assert(rest[k] == toks[i + 1 + k]);
                    }
                    assert(levels_count_only(child_level(lv, sub), globals, g, rest, 0));
                    lemma_level_counts(child_level(lv, sub), globals, rest, g);
                    lemma_level_unique(child_level(lv, sub), globals, rest);
                    lemma_occurrences_shift(toks, i + 1, g);
                    if parse_level(child_level(lv, sub), globals, rest) is Ok {
                        let nested = parse_level(child_level(lv, sub), globals, rest)->Ok_0;
                        lemma_count_after_fold(acc.counts, nested.counts, n);
                        lemma_key_total_unique(nested.counts, n);
                        assert(acc.with_subcommand(t, nested).count_of(n) == acc.count_of(n)
                            + occurrences_from(toks, i, g));
                    }
                },
                None => match find_positional(lv.args) {
                    Some(p) => lemma_scan_counts(
                        lv,
                        globals,
                        toks,
                        i + 1,
                        acc.with_value(p.name@, t),
                        g,
                    ),
                    None => lemma_scan_counts(lv, globals, toks, i + 1, acc, g),
                },
            }
        } else if is_long_option(t) {
            let x = t.subrange(2, t.len() as int);
            if lookup_long(lv.args, globals, x) is Some {
                let a = lookup_long(lv.args, globals, x)->0;
                lemma_find_long_in(lv.args, x);
                lemma_find_long_in(globals, x);
                lemma_find_long_spelled(lv.args, x);
                lemma_find_long_spelled(globals, x);
                lemma_found_is_g_or_other(lv, globals, g, a, find_long(lv.args, x) is Some);
                if g.long is Some && t == seq!['-', '-'] + g.long->0@ {
                    assert(x == g.long->0@);
                } else {
                    assert(t == seq!['-', '-'] + x);
                    assert(a != g);
                }
                assert(!pure_cluster(t, g.short->0));
                if a.counting {
                    if a == g {
                        lemma_count_same(acc, g);
                    } else {
                        lemma_count_other(acc, a, g);
                    }
                    lemma_scan_counts(lv, globals, toks, i + 1, acc.with_count(a.name@, 1), g);
                } else if i + 1 >= toks.len() || starts_with_dash(toks[i + 1]) {
                    lemma_scan_counts(lv, globals, toks, i + 1, acc.with_value(a.name@, seq![]), g);
                } else {
                    assert(occurrences(toks[i + 1], g) == 0);
                    assert(levels_count_only(lv, globals, g, toks, i + 2));
                    lemma_scan_counts(
                        lv,
                        globals,
                        toks,
                        i + 2,
                        acc.with_value(a.name@, toks[i + 1]),
                        g,
                    );
                }
            }
        } else if t.len() >= 2 {
            lemma_cluster_counts(lv, globals, toks, i, 1, false, acc, g);
        } else {
            assert(occurrences(t, g) == 0);
            lemma_scan_counts(lv, globals, toks, i + 1, acc, g);
        }
    }
}

proof fn lemma_cluster_counts(
    lv: Level,
    globals: Seq<ArgInfo>,
    toks: Seq<Seq<char>>,
    i: int,
    j: int,
    took: bool,
    acc: ParsedView,
    g: ArgInfo,
)
    requires
        0 <= i < toks.len(),
        1 <= j <= toks[i].len(),
        toks[i].len() >= 2,
        starts_with_dash(toks[i]),
        !is_long_option(toks[i]),
        took ==> i + 1 < toks.len() && !starts_with_dash(toks[i + 1]),
        g.counting,
        levels_count_only(lv, globals, g, toks, i + 1),
        level_counts_only(lv, globals, g),
        forall|k: int| 0 <= k < toks.len() ==> short_only_alone(#[trigger] toks[k], g),
    ensures
        scan_cluster(lv, globals, toks, i, j, took, acc) is Ok ==> scan_cluster(
            lv,
            globals,
            toks,
            i,
            j,
            took,
            acc,
        )->Ok_0.count_of(g.name@) == acc.count_of(g.name@) + (if g.short is Some && pure_cluster(
            toks[i],
            g.short->0,
        ) {
            toks[i].len() - j
        } else {
            0int
        }) + occurrences_from(toks, i + 1, g),
    decreases toks.len() - i, 0int, toks[i].len() - j,
{
    let t = toks[i];
    let n = g.name@;
    if j >= t.len() {
        if took && i + 1 < toks.len() {
            assert(occurrences(toks[i + 1], g) == 0);
            lemma_scan_counts(lv, globals, toks, i + 2, acc, g);
        } else {
            lemma_scan_counts(lv, globals, toks, i + 1, acc, g);
        }
    } else {
        let c = t[j];
        if lookup_short(lv.args, globals, c) is Some {
            let a = lookup_short(lv.args, globals, c)->0;
            lemma_find_short_in(lv.args, c);
            lemma_find_short_in(globals, c);
            lemma_found_is_g_or_other(lv, globals, g, a, find_short(lv.args, c) is Some);
            let pure = g.short is Some && pure_cluster(t, g.short->0);
            if pure {
                assert(c == g.short->0);
                assert(a == g);
            } else {
                assert(short_only_alone(toks[i], g));
                if g.short is Some {
                    assert(c != g.short->0);
                }
                assert(a != g);
            }
            if a.counting {
                if a == g {
                    lemma_count_same(acc, g);
                } else {
                    lemma_count_other(acc, a, g);
                }
                lemma_cluster_counts(lv, globals, toks, i, j + 1, took, acc.with_count(a.name@, 1), g);
            } else if bool_flag_at(toks, i) {
                if i + 1 < toks.len() && !starts_with_dash(toks[i + 1]) {
                    lemma_cluster_counts(
                        lv,
                        globals,
                        toks,
                        i,
                        j + 1,
                        true,
                        acc.with_value(a.name@, toks[i + 1]),
                        g,
                    );
                } else {
                    lemma_cluster_counts(
                        lv,
                        globals,
                        toks,
                        i,
                        j + 1,
                        took,
                        acc.with_value(a.name@, seq![]),
                        g,
                    );
                }
            } else if j + 1 < t.len() {
                lemma_scan_counts(
                    lv,
                    globals,
                    toks,
                    i + 1,
                    acc.with_value(a.name@, t.subrange(j + 1, t.len() as int)),
                    g,
                );
            } else {
                assert(occurrences(toks[i + 1], g) == 0);
                assert(levels_count_only(lv, globals, g, toks, i + 2));
                lemma_scan_counts(lv, globals, toks, i + 2, acc.with_value(a.name@, toks[i + 1]), g);
            }
        }
    }
}

/// A global counting argument counts, at the root, every time it is spelled
/// at any level: once per `--long` token and once per character of a
/// cluster made only of its short spelling, before or after subcommand names
/// (provided that it is the only visible argument with its name and
/// spellings at every level the words could select, and that other clusters
/// do not hold its short spelling).
pub proof fn law_global_count(cmd: Command, toks: Seq<Seq<char>>, g: ArgInfo)
    requires
        g.counting,
        levels_count_only(root_level(cmd), cmd.global_arg_list(), g, toks, 0),
        forall|k: int| 0 <= k < toks.len() ==> short_only_alone(#[trigger] toks[k], g),
        command_parse(cmd, toks) is Ok,
    ensures
        command_parse(cmd, toks)->Ok_0.count_of(g.name@) == occurrences_from(toks, 0, g),
{
    lemma_level_counts(root_level(cmd), cmd.global_arg_list(), toks, g);
}

} // verus!
