//! The arguments of `locale!`: `"path"` optionally followed by
//! `, fallback = "lang"`.

use vstd::prelude::*;
use crate::naming::{parses_as_ident, syn_parses_ident};

verus! {

/// One token of the macro input.
pub enum MacroToken {
    /// A literal, by its source text.
    Literal(String),
    /// An identifier or a keyword, by its text.
    Ident(String),
    /// A punctuation character.
    Punct(char),
    /// Any other token (a delimited group).
    Other,
}

/// What `syn` reads from the source text of a literal as a string literal
/// (`syn::LitStr`): its value, or `None` when it is not a string literal.
pub uninterp spec fn lit_str_value(text: Seq<char>) -> Option<Seq<char>>;

/// `syn::parse_str::<syn::LitStr>` on the source text of a literal, then
/// `LitStr::value`. The result is the named function of the text; nothing
/// more is claimed of it.
#[verifier::external_body]
fn string_literal(text: &str) -> (r: Option<String>)
    ensures
        match r {
            Some(v) => lit_str_value(text@) == Some(v@),
            None => lit_str_value(text@) is None,
        },
{
    syn::parse_str::<syn::LitStr>(text).ok().map(|l| l.value())
}

/// Macro input: `shakehand::locale!("../i18n/", fallback = "en")`.
pub struct ShakehandInput {
    pub path: String,
    pub fallback: String,
}

/// Why the macro input was refused.
#[derive(PartialEq, Eq, Structural, Debug, Clone, Copy)]
pub enum InputError {
    /// A string literal was expected.
    ExpectedString,
    /// `=` was expected after `fallback`.
    ExpectedEquals,
    /// Tokens were left over after the arguments.
    UnexpectedToken,
}

/// The token is a string literal.
pub open spec fn is_any_str(t: MacroToken) -> bool {
    t matches MacroToken::Literal(x) && lit_str_value(x@) is Some
}

/// The value of a string-literal token.
pub open spec fn str_value(t: MacroToken) -> Seq<char> {
    match t {
        MacroToken::Literal(x) => match lit_str_value(x@) {
            Some(v) => v,
            None => Seq::empty(),
        },
        _ => Seq::empty(),
    }
}

/// The token is an identifier that `syn` takes as one (not a keyword).
pub open spec fn is_ident(t: MacroToken) -> bool {
    t matches MacroToken::Ident(x) && syn_parses_ident(x@)
}

/// What the argument grammar gives for a token list: the path and the
/// fallback language (`"en"` unless given), or the first error met.
pub open spec fn input_outcome(t: Seq<MacroToken>) -> Result<(Seq<char>, Seq<char>), InputError> {
    if t.len() == 0 || !is_any_str(t[0]) {
        Err(InputError::ExpectedString)
    } else if t.len() == 1 {
        Ok((str_value(t[0]), "en"@))
    } else if !(t[1] matches MacroToken::Punct(c) && c == ',') {
        Err(InputError::UnexpectedToken)
    } else if t.len() == 2 {
        Ok((str_value(t[0]), "en"@))
    } else {
        if !is_ident(t[2]) {
            Err(InputError::UnexpectedToken)
        } else if t[2] matches MacroToken::Ident(x) && x@ == "fallback"@ {
            if t.len() < 4 || !(t[3] matches MacroToken::Punct(c) && c == '=') {
                Err(InputError::ExpectedEquals)
            } else if t.len() < 5 || !is_any_str(t[4]) {
                Err(InputError::ExpectedString)
            } else if t.len() > 5 {
                Err(InputError::UnexpectedToken)
            } else {
                Ok((str_value(t[0]), str_value(t[4])))
            }
        } else if t.len() > 3 {
            Err(InputError::UnexpectedToken)
        } else {
            Ok((str_value(t[0]), "en"@))
        }
    }
}

/// The value of a string-literal token; `None` for any other token.
fn str_of(t: &MacroToken) -> (r: Option<String>)
    ensures
        r matches Some(s) ==> is_any_str(*t) && s@ == str_value(*t),
        r is None <==> !is_any_str(*t),
{
    match t {
        MacroToken::Literal(x) => string_literal(x.as_str()),
        _ => None,
    }
}

/// The text of an identifier token that `syn` takes as one; `None` for any
/// other token.
fn ident_of(t: &MacroToken) -> (r: Option<String>)
    ensures
        r matches Some(s) ==> is_ident(*t) && (*t matches MacroToken::Ident(y) && y@ == s@),
        r is None <==> !is_ident(*t),
{
    match t {
        MacroToken::Ident(x) => if parses_as_ident(x.as_str()) {
            Some(x.clone())
        } else {
            None
        },
        _ => None,
    }
}

fn is_punct(t: &MacroToken, c: char) -> (r: bool)
    ensures
        r == (*t matches MacroToken::Punct(d) && d == c),
{
    match t {
        MacroToken::Punct(d) => *d == c,
        _ => false,
    }
}

impl ShakehandInput {
    /// Parses the macro arguments: a string literal (the path), then
    /// optionally `,` and `fallback = "lang"`; another identifier after the
    /// comma is ignored when nothing follows it. All tokens must be used.
    /// Which tokens are string literals, and their values, and which are
    /// identifiers, `syn` decides.
    pub fn parse(tokens: &Vec<MacroToken>) -> (r: Result<ShakehandInput, InputError>)
        ensures
            match input_outcome(tokens@) {
                Ok((p, f)) => r matches Ok(i) && i.path@ == p && i.fallback@ == f,
                Err(e) => r == Err::<ShakehandInput, InputError>(e),
            },
    {
        proof {
            reveal_strlit("en");
            reveal_strlit("fallback");
        }
        let path = match if tokens.len() > 0 { str_of(&tokens[0]) } else { None } {
            Some(p) => p,
            None => {
                return Err(InputError::ExpectedString);
            },
        };
        let en = "en".to_owned();
        if tokens.len() == 1 {
            return Ok(ShakehandInput { path, fallback: en });
        }
        if !is_punct(&tokens[1], ',') {
            return Err(InputError::UnexpectedToken);
        }
        if tokens.len() == 2 {
            return Ok(ShakehandInput { path, fallback: en });
        }
        let x = match ident_of(&tokens[2]) {
            Some(x) => x,
            None => {
                return Err(InputError::UnexpectedToken);
            },
        };
        if x.eq(&"fallback".to_owned()) {
            if tokens.len() < 4 || !is_punct(&tokens[3], '=') {
                return Err(InputError::ExpectedEquals);
            }
            let fb = match if tokens.len() >= 5 { str_of(&tokens[4]) } else { None } {
                Some(v) => v,
                None => {
                    return Err(InputError::ExpectedString);
                },
            };
            if tokens.len() > 5 {
                return Err(InputError::UnexpectedToken);
            }
            Ok(ShakehandInput { path, fallback: fb })
        } else if tokens.len() > 3 {
            Err(InputError::UnexpectedToken)
        } else {
            Ok(ShakehandInput { path, fallback: en })
        }
    }
}

} // verus!
