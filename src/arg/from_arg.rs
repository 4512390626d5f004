use vstd::prelude::*;
use crate::error::{ErrorView, ParseError};
use crate::text::{chars_of, lowercase_of, string_of, to_lowercase, trim, trimmed, str_eq};

verus! {

/// Conversion of one raw argument string into a typed value.
pub trait FromArg: Sized {
    /// `v` is the value that `s` spells.
    spec fn parses_as(s: Seq<char>, v: Self) -> bool;

    fn from_arg(arg: &str) -> (r: Result<Self, ParseError>)
        ensures
            r is Ok ==> Self::parses_as(arg@, r->Ok_0),
            r is Err ==> r->Err_0@ is InvalidValue && forall|v: Self| !#[trigger] Self::parses_as(
                arg@,
                v,
            ),
    ;
}

pub open spec fn is_digit(c: char) -> bool {
    '0' as u32 <= c as u32 && c as u32 <= '9' as u32
}

pub open spec fn all_digits(d: Seq<char>) -> bool {
    d.len() > 0 && forall|i: int| 0 <= i < d.len() ==> is_digit(#[trigger] d[i])
}

/// The number that a run of decimal digits spells.
pub open spec fn digits_value(d: Seq<char>) -> int
    decreases d.len(),
{
    if d.len() == 0 {
        0
    } else {
        digits_value(d.drop_last()) * 10 + (d.last() as u32 - '0' as u32)
    }
}

/// The integer that `s` spells in decimal: an optional `+` (or `-` when
/// `signed`) followed by one or more ASCII digits.
pub open spec fn decimal_value(s: Seq<char>, signed: bool) -> Option<int> {
    if s.len() > 0 && s[0] == '+' && all_digits(s.drop_first()) {
        Some(digits_value(s.drop_first()))
    } else if signed && s.len() > 0 && s[0] == '-' && all_digits(s.drop_first()) {
        Some(-digits_value(s.drop_first()))
    } else if all_digits(s) {
        Some(digits_value(s))
    } else {
        None
    }
}

/// `decimal_value(s, signed)` when it lies within `lo..=hi`.
pub open spec fn decimal_in(s: Seq<char>, signed: bool, lo: int, hi: int) -> Option<int> {
    match decimal_value(s, signed) {
        Some(v) => if lo <= v && v <= hi {
            Some(v)
        } else {
            None
        },
        None => None,
    }
}

pub open spec fn cannot_parse_message(s: Seq<char>, ty: Seq<char>) -> Seq<char> {
    "Cannot parse '"@ + s + "' as "@ + ty
}

fn cannot_parse(arg: &str, ty: &str) -> (r: ParseError)
    ensures
        r@ == ErrorView::InvalidValue(cannot_parse_message(arg@, ty@)),
{
    let mut m = "Cannot parse '".to_owned();
    m.append(arg);
    m.append("' as ");
    m.append(ty);
    ParseError::InvalidValue(m)
}

impl FromArg for String {
    open spec fn parses_as(s: Seq<char>, v: String) -> bool {
        v@ == s
    }

    fn from_arg(arg: &str) -> (r: Result<String, ParseError>) {
        Ok(arg.to_owned())
    }
}

/// Relies on `i8::from_str`: an optional sign (`-` or `+`), one or more ASCII
/// digits, and a value within the range of `i8`.
#[verifier::external_body]
fn parse_i8(s: &str) -> (r: Option<i8>)
    ensures
        match decimal_in(s@, true, i8::MIN as int, i8::MAX as int) {
            Some(v) => r == Some(v as i8),
            None => r is None,
        },
{
    s.parse::<i8>().ok()
}

impl FromArg for i8 {
    open spec fn parses_as(s: Seq<char>, v: i8) -> bool {
        decimal_value(s, true) == Some(v as int)
    }

    fn from_arg(arg: &str) -> (r: Result<i8, ParseError>)
        ensures
            r is Err ==> r->Err_0@ == ErrorView::InvalidValue(cannot_parse_message(arg@, "i8"@)),
    {
        match parse_i8(arg) {
            Some(v) => Ok(v),
            None => Err(cannot_parse(arg, "i8")),
        }
    }
}

/// Relies on `i16::from_str`: an optional sign (`-` or `+`), one or more ASCII
/// digits, and a value within the range of `i16`.
#[verifier::external_body]
fn parse_i16(s: &str) -> (r: Option<i16>)
    ensures
        match decimal_in(s@, true, i16::MIN as int, i16::MAX as int) {
            Some(v) => r == Some(v as i16),
            None => r is None,
        },
{
    s.parse::<i16>().ok()
}

impl FromArg for i16 {
    open spec fn parses_as(s: Seq<char>, v: i16) -> bool {
        decimal_value(s, true) == Some(v as int)
    }

    fn from_arg(arg: &str) -> (r: Result<i16, ParseError>)
        ensures
            r is Err ==> r->Err_0@ == ErrorView::InvalidValue(cannot_parse_message(arg@, "i16"@)),
    {
        match parse_i16(arg) {
            Some(v) => Ok(v),
            None => Err(cannot_parse(arg, "i16")),
        }
    }
}

/// Relies on `i32::from_str`: an optional sign (`-` or `+`), one or more ASCII
/// digits, and a value within the range of `i32`.
#[verifier::external_body]
fn parse_i32(s: &str) -> (r: Option<i32>)
    ensures
        match decimal_in(s@, true, i32::MIN as int, i32::MAX as int) {
            Some(v) => r == Some(v as i32),
            None => r is None,
        },
{
    s.parse::<i32>().ok()
}

impl FromArg for i32 {
    open spec fn parses_as(s: Seq<char>, v: i32) -> bool {
        decimal_value(s, true) == Some(v as int)
    }

    fn from_arg(arg: &str) -> (r: Result<i32, ParseError>)
        ensures
            r is Err ==> r->Err_0@ == ErrorView::InvalidValue(cannot_parse_message(arg@, "i32"@)),
    {
        match parse_i32(arg) {
            Some(v) => Ok(v),
            None => Err(cannot_parse(arg, "i32")),
        }
    }
}

/// Relies on `i64::from_str`: an optional sign (`-` or `+`), one or more ASCII
/// digits, and a value within the range of `i64`.
#[verifier::external_body]
fn parse_i64(s: &str) -> (r: Option<i64>)
    ensures
        match decimal_in(s@, true, i64::MIN as int, i64::MAX as int) {
            Some(v) => r == Some(v as i64),
            None => r is None,
        },
{
    s.parse::<i64>().ok()
}

impl FromArg for i64 {
    open spec fn parses_as(s: Seq<char>, v: i64) -> bool {
        decimal_value(s, true) == Some(v as int)
    }

    fn from_arg(arg: &str) -> (r: Result<i64, ParseError>)
        ensures
            r is Err ==> r->Err_0@ == ErrorView::InvalidValue(cannot_parse_message(arg@, "i64"@)),
    {
        match parse_i64(arg) {
            Some(v) => Ok(v),
            None => Err(cannot_parse(arg, "i64")),
        }
    }
}

/// Relies on `isize::from_str`: an optional sign (`-` or `+`), one or more ASCII
/// digits, and a value within the range of `isize`.
#[verifier::external_body]
fn parse_isize(s: &str) -> (r: Option<isize>)
    ensures
        match decimal_in(s@, true, isize::MIN as int, isize::MAX as int) {
            Some(v) => r == Some(v as isize),
            None => r is None,
        },
{
    s.parse::<isize>().ok()
}

impl FromArg for isize {
    open spec fn parses_as(s: Seq<char>, v: isize) -> bool {
        decimal_value(s, true) == Some(v as int)
    }

    fn from_arg(arg: &str) -> (r: Result<isize, ParseError>)
        ensures
            r is Err ==> r->Err_0@ == ErrorView::InvalidValue(cannot_parse_message(arg@, "isize"@)),
    {
        match parse_isize(arg) {
            Some(v) => Ok(v),
            None => Err(cannot_parse(arg, "isize")),
        }
    }
}

/// Relies on `u8::from_str`: an optional sign (`+`), one or more ASCII
/// digits, and a value within the range of `u8`.
#[verifier::external_body]
fn parse_u8(s: &str) -> (r: Option<u8>)
    ensures
        match decimal_in(s@, false, u8::MIN as int, u8::MAX as int) {
            Some(v) => r == Some(v as u8),
            None => r is None,
        },
{
    s.parse::<u8>().ok()
}

impl FromArg for u8 {
    open spec fn parses_as(s: Seq<char>, v: u8) -> bool {
        decimal_value(s, false) == Some(v as int)
    }

    fn from_arg(arg: &str) -> (r: Result<u8, ParseError>)
        ensures
            r is Err ==> r->Err_0@ == ErrorView::InvalidValue(cannot_parse_message(arg@, "u8"@)),
    {
        match parse_u8(arg) {
            Some(v) => Ok(v),
            None => Err(cannot_parse(arg, "u8")),
        }
    }
}

/// Relies on `u16::from_str`: an optional sign (`+`), one or more ASCII
/// digits, and a value within the range of `u16`.
#[verifier::external_body]
fn parse_u16(s: &str) -> (r: Option<u16>)
    ensures
        match decimal_in(s@, false, u16::MIN as int, u16::MAX as int) {
            Some(v) => r == Some(v as u16),
            None => r is None,
        },
{
    s.parse::<u16>().ok()
}

impl FromArg for u16 {
    open spec fn parses_as(s: Seq<char>, v: u16) -> bool {
        decimal_value(s, false) == Some(v as int)
    }

    fn from_arg(arg: &str) -> (r: Result<u16, ParseError>)
        ensures
            r is Err ==> r->Err_0@ == ErrorView::InvalidValue(cannot_parse_message(arg@, "u16"@)),
    {
        match parse_u16(arg) {
            Some(v) => Ok(v),
            None => Err(cannot_parse(arg, "u16")),
        }
    }
}

/// Relies on `u32::from_str`: an optional sign (`+`), one or more ASCII
/// digits, and a value within the range of `u32`.
#[verifier::external_body]
fn parse_u32(s: &str) -> (r: Option<u32>)
    ensures
        match decimal_in(s@, false, u32::MIN as int, u32::MAX as int) {
            Some(v) => r == Some(v as u32),
            None => r is None,
        },
{
    s.parse::<u32>().ok()
}

impl FromArg for u32 {
    open spec fn parses_as(s: Seq<char>, v: u32) -> bool {
        decimal_value(s, false) == Some(v as int)
    }

    fn from_arg(arg: &str) -> (r: Result<u32, ParseError>)
        ensures
            r is Err ==> r->Err_0@ == ErrorView::InvalidValue(cannot_parse_message(arg@, "u32"@)),
    {
        match parse_u32(arg) {
            Some(v) => Ok(v),
            None => Err(cannot_parse(arg, "u32")),
        }
    }
}

/// Relies on `u64::from_str`: an optional sign (`+`), one or more ASCII
/// digits, and a value within the range of `u64`.
#[verifier::external_body]
fn parse_u64(s: &str) -> (r: Option<u64>)
    ensures
        match decimal_in(s@, false, u64::MIN as int, u64::MAX as int) {
            Some(v) => r == Some(v as u64),
            None => r is None,
        },
{
    s.parse::<u64>().ok()
}

impl FromArg for u64 {
    open spec fn parses_as(s: Seq<char>, v: u64) -> bool {
        decimal_value(s, false) == Some(v as int)
    }

    fn from_arg(arg: &str) -> (r: Result<u64, ParseError>)
        ensures
            r is Err ==> r->Err_0@ == ErrorView::InvalidValue(cannot_parse_message(arg@, "u64"@)),
    {
        match parse_u64(arg) {
            Some(v) => Ok(v),
            None => Err(cannot_parse(arg, "u64")),
        }
    }
}

/// Relies on `usize::from_str`: an optional sign (`+`), one or more ASCII
/// digits, and a value within the range of `usize`.
#[verifier::external_body]
fn parse_usize(s: &str) -> (r: Option<usize>)
    ensures
        match decimal_in(s@, false, usize::MIN as int, usize::MAX as int) {
            Some(v) => r == Some(v as usize),
            None => r is None,
        },
{
    s.parse::<usize>().ok()
}

impl FromArg for usize {
    open spec fn parses_as(s: Seq<char>, v: usize) -> bool {
        decimal_value(s, false) == Some(v as int)
    }

    fn from_arg(arg: &str) -> (r: Result<usize, ParseError>)
        ensures
            r is Err ==> r->Err_0@ == ErrorView::InvalidValue(cannot_parse_message(arg@, "usize"@)),
    {
        match parse_usize(arg) {
            Some(v) => Ok(v),
            None => Err(cannot_parse(arg, "usize")),
        }
    }
}

pub open spec fn is_true_word(w: Seq<char>) -> bool {
    w == "true"@ || w == "1"@ || w == "yes"@ || w == "on"@
}

pub open spec fn is_false_word(w: Seq<char>) -> bool {
    w == "false"@ || w == "0"@ || w == "no"@ || w == "off"@
}

impl FromArg for bool {
    open spec fn parses_as(s: Seq<char>, v: bool) -> bool {
        if v {
            is_true_word(lowercase_of(s))
        } else {
            is_false_word(lowercase_of(s))
        }
    }

    fn from_arg(arg: &str) -> (r: Result<bool, ParseError>)
        ensures
            r is Err ==> r->Err_0@ == ErrorView::InvalidValue(cannot_parse_message(arg@, "bool"@)),
    {
        let lower = to_lowercase(arg);
        let w = lower.as_str();
        if str_eq(w, "true") || str_eq(w, "1") || str_eq(w, "yes") || str_eq(w, "on") {
            Ok(true)
        } else if str_eq(w, "false") || str_eq(w, "0") || str_eq(w, "no") || str_eq(w, "off") {
            Ok(false)
        } else {
            proof {
                reveal_strlit("true");
                reveal_strlit("false");
                reveal_strlit("1");
                reveal_strlit("0");
                reveal_strlit("yes");
                reveal_strlit("no");
                reveal_strlit("on");
                reveal_strlit("off");
            }
            Err(cannot_parse(arg, "bool"))
        }
    }
}

impl<T: FromArg> FromArg for Option<T> {
    open spec fn parses_as(s: Seq<char>, v: Option<T>) -> bool {
        v is Some && T::parses_as(s, v->0)
    }

    fn from_arg(arg: &str) -> (r: Result<Option<T>, ParseError>) {
        match T::from_arg(arg) {
            Ok(x) => Ok(Some(x)),
            Err(e) => {
                proof {
                    assert forall|v: Option<T>| !#[trigger] Self::parses_as(arg@, v) by {
                        if v is Some {
                            assert(!T::parses_as(arg@, v->0));
                        }
                    }
                }
                Err(e)
            },
        }
    }
}

/// Splitting on commas: the pieces seen so far and the piece being read.
pub open spec fn comma_run(s: Seq<char>) -> (Seq<Seq<char>>, Seq<char>)
    decreases s.len(),
{
    if s.len() == 0 {
        (seq![], seq![])
    } else {
        let st = comma_run(s.drop_last());
        if s.last() == ',' {
            (st.0.push(st.1), seq![])
        } else {
            (st.0, st.1.push(s.last()))
        }
    }
}

/// The comma-separated pieces of `s` (at least one, possibly empty).
pub open spec fn comma_pieces(s: Seq<char>) -> Seq<Seq<char>> {
    comma_run(s).0.push(comma_run(s).1)
}

fn split_commas(s: &str) -> (r: Vec<String>)
    ensures
        r@.map_values(|p: String| p@) == comma_pieces(s@),
{
    let cs = chars_of(s);
    let mut pieces: Vec<String> = Vec::new();
    let mut start: usize = 0;
    let mut i: usize = 0;
    proof {
        assert(cs@.take(0) == Seq::<char>::empty());
        assert(pieces@.map_values(|p: String| p@) == Seq::<Seq<char>>::empty());
    }
    while i < cs.len()
        invariant
            start <= i <= cs@.len(),
            cs@ == s@,
            comma_run(cs@.take(i as int)) == (
                pieces@.map_values(|p: String| p@),
                cs@.subrange(start as int, i as int),
            ),
        decreases cs.len() - i,
    {
        proof {
            assert(cs@.take(i + 1).drop_last() == cs@.take(i as int));
            assert(cs@.take(i + 1).last() == cs@[i as int]);
        }
        if cs[i] == ',' {
            let piece = string_of(&cs, start, i);
            let ghost before = pieces@;
            pieces.push(piece);
            proof {
                assert(pieces@.map_values(|p: String| p@) =~= before.map_values(|p: String| p@).push(
                    piece@,
                ));
                assert(cs@.subrange((i + 1) as int, (i + 1) as int) =~= Seq::<char>::empty());
            }
            start = i + 1;
        } else {
            proof {
                assert(cs@.subrange(start as int, i + 1) =~= cs@.subrange(
                    start as int,
                    i as int,
                ).push(cs@[i as int]));
            }
        }
        i = i + 1;
    }
    let last = string_of(&cs, start, cs.len());
    let ghost before = pieces@;
    pieces.push(last);
    proof {
        assert(cs@.take(cs@.len() as int) == cs@);
        assert(pieces@.map_values(|p: String| p@) =~= before.map_values(|p: String| p@).push(
            last@,
        ));
    }
    pieces
}

impl<T: FromArg> FromArg for Vec<T> {
    /// One value per comma-separated piece, each piece trimmed.
    open spec fn parses_as(s: Seq<char>, v: Vec<T>) -> bool {
        v@.len() == comma_pieces(s).len() && forall|i: int|
            0 <= i < v@.len() ==> T::parses_as(trimmed(comma_pieces(s)[i]), #[trigger] v@[i])
    }

    fn from_arg(arg: &str) -> (r: Result<Vec<T>, ParseError>) {
        let pieces = split_commas(arg);
        let ghost ps = comma_pieces(arg@);
        let mut values: Vec<T> = Vec::new();
        let mut i: usize = 0;
        while i < pieces.len()
            invariant
                i <= pieces@.len(),
                ps == comma_pieces(arg@),
                pieces@.map_values(|p: String| p@) == ps,
                values@.len() == i,
                forall|k: int| 0 <= k < i ==> T::parses_as(trimmed(ps[k]), #[trigger] values@[k]),
            decreases pieces.len() - i,
        {
            let piece = trim(pieces[i].as_str());
            proof {
                assert(pieces@.map_values(|p: String| p@)[i as int] == pieces@[i as int]@);
                assert(piece@ == trimmed(ps[i as int]));
            }
            match T::from_arg(piece) {
                Ok(x) => {
                    values.push(x);
                },
                Err(e) => {
                    proof {
                        assert forall|v: Vec<T>| !#[trigger] Self::parses_as(arg@, v) by {
                            if v@.len() == ps.len() {
                                assert(!T::parses_as(piece@, v@[i as int]));
                                assert(!T::parses_as(trimmed(ps[i as int]), v@[i as int]));
                                assert(0 <= i < v@.len());
                            }
                        }
                    }
                    return Err(e);
                },
            }
            i = i + 1;
        }
        Ok(values)
    }
}

} // verus!
