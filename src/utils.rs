use vstd::prelude::*;
use crate::text::{chars_of, push_char};

verus! {

/// Unicode's Lowercase property.
pub uninterp spec fn lowercase_char(c: char) -> bool;

/// Unicode's Uppercase property.
pub uninterp spec fn uppercase_char(c: char) -> bool;

/// The full lower-case mapping of one character.
pub uninterp spec fn char_lowercase_of(c: char) -> Seq<char>;

/// Relies on `char::is_lowercase`: whether the character is lowercase.
#[verifier::external_body]
fn is_lowercase(c: char) -> (r: bool)
    ensures
        r == lowercase_char(c),
{
    c.is_lowercase()
}

/// Relies on `char::is_uppercase`: whether the character is uppercase.
#[verifier::external_body]
fn is_uppercase(c: char) -> (r: bool)
    ensures
        r == uppercase_char(c),
{
    c.is_uppercase()
}

/// Relies on `char::to_lowercase`: the characters of the lower-case mapping.
#[verifier::external_body]
fn char_to_lowercase(c: char) -> (r: String)
    ensures
        r@ == char_lowercase_of(c),
{
    c.to_lowercase().to_string()
}

/// What the character `s[p - 1]` becomes: a dash before it when it ends a
/// leading acronym (`ABc`), then its lower-case form, then a dash when a
/// lowercase letter meets an uppercase one (`aB`).
pub open spec fn kebab_piece(s: Seq<char>, p: int) -> Seq<char> {
    (if p >= 2 && !lowercase_char(s[p - 2]) && !lowercase_char(s[p - 1]) && lowercase_char(s[p])
        && uppercase_char(s[p - 2]) && uppercase_char(s[p - 1]) {
        seq!['-']
    } else {
        seq![]
    }) + char_lowercase_of(s[p - 1]) + if lowercase_char(s[p - 1]) && uppercase_char(s[p]) {
        seq!['-']
    } else {
        seq![]
    }
}

/// The pieces of the characters before `s[p - 1]`.
pub open spec fn kebab_prefix(s: Seq<char>, p: int) -> Seq<char>
    decreases p,
{
    if p <= 1 {
        seq![]
    } else {
        kebab_prefix(s, p - 1) + kebab_piece(s, p - 1)
    }
}

/// Kebab case of an identifier: words split at case changes, joined by
/// dashes, all in lower case (`ComposedName` becomes `composed-name`).
pub open spec fn kebab_case(s: Seq<char>) -> Seq<char> {
    if s.len() == 0 {
        seq![]
    } else {
        kebab_prefix(s, s.len() as int) + char_lowercase_of(s.last())
    }
}

/// Kebab case of an identifier, as used for names derived from Rust items.
pub fn to_kebab_case_case(input: &str) -> (r: String)
    ensures
        r@ == kebab_case(input@),
{
    let cs = chars_of(input);
    let mut out = String::new();
    if cs.len() == 0 {
        return out;
    }
    let mut p: usize = 1;
    while p < cs.len()
        invariant
            1 <= p <= cs@.len(),
            out@ == kebab_prefix(cs@, p as int),
        decreases cs.len() - p,
    {
        let ghost start = out@;
        let b = cs[p - 1];
        let c = cs[p];
        if p >= 2 {
            let a = cs[p - 2];
            if !is_lowercase(a) && !is_lowercase(b) && is_lowercase(c) && is_uppercase(a)
                && is_uppercase(b) {
                push_char(&mut out, '-');
            }
        }
        let lower = char_to_lowercase(b);
        out.append(lower.as_str());
        if is_lowercase(b) && is_uppercase(c) {
            push_char(&mut out, '-');
        }
        proof {
            assert(out@ =~= start + kebab_piece(cs@, p as int));
        }
        p = p + 1;
    }
    let last = char_to_lowercase(cs[cs.len() - 1]);
    out.append(last.as_str());
    proof {
        assert(cs@.last() == cs@[cs@.len() - 1]);
    }
    out
}

} // verus!
