use vstd::prelude::*;

verus! {

/// Why a parse call stopped. `Help` is a request for documentation rather
/// than a failure: it carries the rendered help text.
#[derive(Debug, Clone, PartialEq, Eq)]
pub enum ParseError {
    EmptyInput,
    Help(String),
    MissingArgument(String),
    InvalidValue(String),
    UnknownArgument(String),
    MissingSubcommand,
    InvalidFormat(String),
    UnknownEnumVariant(String, String),
}

/// The mathematical value of a `ParseError`.
pub enum ErrorView {
    EmptyInput,
    Help(Seq<char>),
    MissingArgument(Seq<char>),
    InvalidValue(Seq<char>),
    UnknownArgument(Seq<char>),
    MissingSubcommand,
    InvalidFormat(Seq<char>),
    UnknownEnumVariant(Seq<char>, Seq<char>),
}

impl View for ParseError {
    type V = ErrorView;

    open spec fn view(&self) -> ErrorView {
        match self {
            ParseError::EmptyInput => ErrorView::EmptyInput,
            ParseError::Help(t) => ErrorView::Help(t@),
            ParseError::MissingArgument(n) => ErrorView::MissingArgument(n@),
            ParseError::InvalidValue(m) => ErrorView::InvalidValue(m@),
            ParseError::UnknownArgument(n) => ErrorView::UnknownArgument(n@),
            ParseError::MissingSubcommand => ErrorView::MissingSubcommand,
            ParseError::InvalidFormat(m) => ErrorView::InvalidFormat(m@),
            ParseError::UnknownEnumVariant(v, p) => ErrorView::UnknownEnumVariant(v@, p@),
        }
    }
}

/// The one-line (or, for help, multi-line) message of an error.
pub open spec fn message_of(e: ErrorView) -> Seq<char> {
    match e {
        ErrorView::EmptyInput => "Empty input"@,
        ErrorView::Help(t) => t,
        ErrorView::MissingArgument(n) => "Missing required argument: "@ + n,
        ErrorView::InvalidValue(m) => "Invalid value: "@ + m,
        ErrorView::UnknownArgument(n) => "Unknown argument: "@ + n,
        ErrorView::MissingSubcommand => "Missing subcommand"@,
        ErrorView::InvalidFormat(m) => "Invalid format: "@ + m,
        ErrorView::UnknownEnumVariant(v, p) => "Invalid value: "@ + v + ", possible values are: "@ + p,
    }
}

fn prefixed(prefix: &str, s: &String) -> (r: String)
    ensures
        r@ == prefix@ + s@,
{
    let mut r = prefix.to_owned();
    r.append(s.as_str());
    r
}

impl ParseError {
    /// Human-readable rendering of the error.
    pub fn message(&self) -> (r: String)
        ensures
            r@ == message_of(self@),
    {
        match self {
            ParseError::EmptyInput => "Empty input".to_owned(),
            ParseError::Help(t) => t.clone(),
            ParseError::MissingArgument(n) => prefixed("Missing required argument: ", n),
            ParseError::InvalidValue(m) => prefixed("Invalid value: ", m),
            ParseError::UnknownArgument(n) => prefixed("Unknown argument: ", n),
            ParseError::MissingSubcommand => "Missing subcommand".to_owned(),
            ParseError::InvalidFormat(m) => prefixed("Invalid format: ", m),
            ParseError::UnknownEnumVariant(v, p) => {
                let mut r = prefixed("Invalid value: ", v);
                r.append(", possible values are: ");
                r.append(p.as_str());
                r
            },
        }
    }
}

} // verus!
