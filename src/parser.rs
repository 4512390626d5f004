use vstd::prelude::*;
use crate::arg::{ArgInfo, ParsedArgs};
use crate::error::{ErrorView, ParseError};
use crate::help::get_help;
use crate::subcommand::SubcommandInfo;
use crate::text::{chars_of, push_char, trim, trimmed};

verus! {

/// The views of a sequence of strings.
pub open spec fn strings_view(v: Seq<String>) -> Seq<Seq<char>> {
    v.map_values(|s: String| s@)
}

/// Total number of characters over all tokens.
pub open spec fn chars_in(toks: Seq<Seq<char>>) -> nat
    decreases toks.len(),
{
    if toks.len() == 0 {
        0
    } else {
        chars_in(toks.drop_last()) + toks.last().len()
    }
}

pub proof fn lemma_chars_in_concat(a: Seq<Seq<char>>, b: Seq<Seq<char>>)
    ensures
        chars_in(a + b) == chars_in(a) + chars_in(b),
    decreases b.len(),
{
    if b.len() > 0 {
        lemma_chars_in_concat(a, b.drop_last());
        assert((a + b).drop_last() == a + b.drop_last());
    } else {
        assert(a + b == a);
    }
}

/// The tokens of a command line hold no more characters than the line.
pub proof fn lemma_tokenize_chars(s: Seq<char>)
    ensures
        chars_in(scan_run(s).tokens) + scan_run(s).current.len() <= s.len(),
        tokenize(s) is Some ==> chars_in(tokenize(s)->0) <= s.len(),
    decreases s.len(),
{
    if s.len() > 0 {
        lemma_tokenize_chars(s.drop_last());
        let st = scan_run(s.drop_last());
        if st.current.len() > 0 {
            assert(st.tokens.push(st.current).drop_last() == st.tokens);
        }
    }
    let st = scan_run(s);
    if st.current.len() > 0 {
        assert(st.tokens.push(st.current).drop_last() == st.tokens);
    }
}

/// Where the tokenizer stands after reading a prefix of its input.
pub struct ScanState {
    pub tokens: Seq<Seq<char>>,
    pub current: Seq<char>,
    pub in_quotes: bool,
    pub quote: char,
    pub escape: bool,
}

pub open spec fn scan_start() -> ScanState {
    ScanState { tokens: seq![], current: seq![], in_quotes: false, quote: '"', escape: false }
}

/// One character of shell-like splitting: quotes group, a backslash inside
/// quotes escapes, a space or tab outside quotes ends the current token.
pub open spec fn scan_step(st: ScanState, c: char) -> ScanState {
    if st.escape {
        ScanState { current: st.current.push(c), escape: false, ..st }
    } else if c == '\\' && st.in_quotes {
        ScanState { escape: true, ..st }
    } else if (c == '"' || c == '\'') && !st.in_quotes {
        ScanState { in_quotes: true, quote: c, ..st }
    } else if st.in_quotes && c == st.quote {
        ScanState { in_quotes: false, ..st }
    } else if (c == ' ' || c == '\t') && !st.in_quotes {
        if st.current.len() > 0 {
            ScanState { tokens: st.tokens.push(st.current), current: seq![], ..st }
        } else {
            st
        }
    } else {
        ScanState { current: st.current.push(c), ..st }
    }
}

pub open spec fn scan_run(s: Seq<char>) -> ScanState
    decreases s.len(),
{
    if s.len() == 0 {
        scan_start()
    } else {
        scan_step(scan_run(s.drop_last()), s.last())
    }
}

/// The tokens of a command line, or `None` when a quote is left open.
pub open spec fn tokenize(s: Seq<char>) -> Option<Seq<Seq<char>>> {
    let st = scan_run(s);
    if st.in_quotes {
        None
    } else if st.current.len() > 0 {
        Some(st.tokens.push(st.current))
    } else {
        Some(st.tokens)
    }
}

pub open spec fn unclosed_quote_message() -> Seq<char> {
    "Unclosed quote in command line"@
}

/// Splits one command line into tokens, honouring quotes and escapes.
pub fn parse_command_line(input: &str) -> (r: Result<Vec<String>, ParseError>)
    ensures
        match r {
            Ok(v) => tokenize(input@) == Some(strings_view(v@)) && chars_in(strings_view(v@))
                <= usize::MAX,
            Err(e) => tokenize(input@) is None && e@ == ErrorView::InvalidFormat(
                unclosed_quote_message(),
            ),
        },
{
    let cs = chars_of(input);
    let mut args: Vec<String> = Vec::new();
    let mut current = String::new();
    let mut in_quotes = false;
    let mut escape_next = false;
    let mut quote_char = '"';
    let mut i: usize = 0;
    proof {
        assert(cs@.take(0) == Seq::<char>::empty());
        assert(strings_view(args@) == Seq::<Seq<char>>::empty());
    }
    while i < cs.len()
        invariant
            i <= cs@.len(),
            cs@ == input@,
            scan_run(cs@.take(i as int)) == (ScanState {
                tokens: strings_view(args@),
                current: current@,
                in_quotes,
                quote: quote_char,
                escape: escape_next,
            }),
        decreases cs.len() - i,
    {
        let ch = cs[i];
        proof {
            assert(cs@.take(i + 1).drop_last() == cs@.take(i as int));
        }
        if escape_next {
            push_char(&mut current, ch);
            escape_next = false;
        } else if ch == '\\' && in_quotes {
            escape_next = true;
        } else if (ch == '"' || ch == '\'') && !in_quotes {
            in_quotes = true;
            quote_char = ch;
        } else if in_quotes && ch == quote_char {
            in_quotes = false;
        } else if (ch == ' ' || ch == '\t') && !in_quotes {
            if !current.as_str().is_empty() {
                let ghost before = args@;
                args.push(current);
                current = String::new();
                proof {
                    assert(strings_view(args@) == strings_view(before).push(
                        args@.last()@,
                    ));
                }
            }
        } else {
            push_char(&mut current, ch);
        }
        i = i + 1;
    }
    proof {
        assert(cs@.take(cs@.len() as int) == cs@);
        lemma_tokenize_chars(input@);
    }
    if in_quotes {
        return Err(ParseError::InvalidFormat("Unclosed quote in command line".to_owned()));
    }
    if !current.as_str().is_empty() {
        let ghost before = args@;
        args.push(current);
        proof {
            assert(strings_view(args@) == strings_view(before).push(args@.last()@));
        }
    }
    Ok(args)
}

/// A type filled from a command line.
pub trait Parser: Sized {
    /// `r` is what `parse_args` gives for the tokens `toks`.
    spec fn parses_to(toks: Seq<Seq<char>>, r: Result<Self, ParseError>) -> bool;

    fn parse_args(args: &[String]) -> (r: Result<Self, ParseError>)
        ensures
            Self::parses_to(strings_view(args@), r),
    ;

    /// Rejects an empty token sequence, otherwise hands it to `parse_args`.
    fn parse_from(args: &[String]) -> (r: Result<Self, ParseError>)
        ensures
            args@.len() == 0 ==> r is Err && r->Err_0@ == ErrorView::EmptyInput,
            args@.len() > 0 ==> Self::parses_to(strings_view(args@), r),
    {
        if args.len() == 0 {
            return Err(ParseError::EmptyInput);
        }
        Self::parse_args(args)
    }

    /// Trims and splits one command-line string, then hands the tokens to
    /// `parse_args`.
    fn parse_str(input: &str) -> (r: Result<Self, ParseError>)
        ensures
            trimmed(input@).len() == 0 ==> r is Err && r->Err_0@ == ErrorView::EmptyInput,
            trimmed(input@).len() > 0 && tokenize(trimmed(input@)) is None ==> r is Err
                && r->Err_0@ == ErrorView::InvalidFormat(unclosed_quote_message()),
            trimmed(input@).len() > 0 && tokenize(trimmed(input@)) is Some ==> Self::parses_to(
                tokenize(trimmed(input@))->0,
                r,
            ),
    {
        let t = trim(input);
        if t.is_empty() {
            return Err(ParseError::EmptyInput);
        }
        match parse_command_line(t) {
            Err(e) => Err(e),
            Ok(args) => Self::parse_args(args.as_slice()),
        }
    }

    fn get_help() -> String;
}

/// A type chosen among subcommands.
pub trait Subcommand: Sized {
    fn from_subcommand(name: &str, parents_name: Option<String>, args: &ParsedArgs) -> Result<
        Self,
        ParseError,
    >;

    fn subcommand_info() -> Vec<SubcommandInfo>;

    /// The commands section listing every subcommand.
    fn get_help() -> String {
        let mut out = String::new();
        let info = Self::subcommand_info();
        let no_args: Vec<ArgInfo> = Vec::new();
        let no_globals: Vec<ArgInfo> = Vec::new();
        get_help(&mut out, None, &no_args, &no_globals, &info);
        out
    }
}

/// A type filled from the arguments of one subcommand.
pub trait Args: Sized {
    fn from_args(args: &ParsedArgs) -> Result<Self, ParseError>;

    fn arg_info() -> Vec<ArgInfo>;

    fn get_help(name: String, parents_name: Option<String>, help: Option<String>) -> String;
}

impl<T: Subcommand> Subcommand for Option<T> {
    fn from_subcommand(name: &str, parents_name: Option<String>, args: &ParsedArgs) -> Result<
        Self,
        ParseError,
    > {
        match T::from_subcommand(name, parents_name, args) {
            Ok(v) => Ok(Some(v)),
            Err(e) => Err(e),
        }
    }

    fn subcommand_info() -> Vec<SubcommandInfo> {
        T::subcommand_info()
    }
}

/// The process's arguments where the platform offers none: always empty.
pub fn parse_env() -> (r: Vec<String>)
    ensures
        r@.len() == 0,
{
    Vec::new()
}

} // verus!
