//! Rust names derived from keys, file names and directory names.

use vstd::prelude::*;
use crate::chars::{ascii_digit, is_ascii_digit};

verus! {

/// What `just_fmt` makes of a text in snake_case.
pub uninterp spec fn snake_case(s: Seq<char>) -> Seq<char>;

/// What `just_fmt` makes of a text in PascalCase.
pub uninterp spec fn pascal_case(s: Seq<char>) -> Seq<char>;

/// Whether `syn` parses the text as one identifier (a keyword is not one).
pub uninterp spec fn syn_parses_ident(s: Seq<char>) -> bool;

/// `just_fmt::CaseFormatter::to_snake_case` on the text: the result is the
/// named function of the text and nothing more is claimed of it.
#[verifier::external_body]
pub(crate) fn to_snake_case(s: &str) -> (r: String)
    ensures
        r@ == snake_case(s@),
{
    just_fmt::CaseFormatter::from(s).to_snake_case()
}

/// `just_fmt::CaseFormatter::to_pascal_case` on the text: the result is the
/// named function of the text and nothing more is claimed of it.
#[verifier::external_body]
fn to_pascal_case(s: &str) -> (r: String)
    ensures
        r@ == pascal_case(s@),
{
    just_fmt::CaseFormatter::from(s).to_pascal_case()
}

/// `syn::parse_str::<syn::Ident>` on the text, reduced to whether it
/// succeeded; the answer is the named function of the text.
#[verifier::external_body]
pub(crate) fn parses_as_ident(s: &str) -> (r: bool)
    ensures
        r == syn_parses_ident(s@),
{
    syn::parse_str::<syn::Ident>(s).is_ok()
}

/// The method name of a translation key: its snake_case, behind `a` when that
/// starts with a digit, behind `a_` when it is not an identifier otherwise.
pub open spec fn ident_of_key(key: Seq<char>) -> Seq<char> {
    let snake = snake_case(key);
    if snake.len() > 0 && is_ascii_digit(snake[0]) {
        seq!['a'] + snake
    } else if syn_parses_ident(snake) {
        snake
    } else {
        seq!['a', '_'] + snake
    }
}

/// Converts a key to a valid Rust identifier.
pub fn key_to_ident(key: &str) -> (r: String)
    ensures
        r@ == ident_of_key(key@),
{
    let snake = to_snake_case(key);
    if snake.unicode_len() > 0 && ascii_digit(snake.get_char(0)) {
        let mut r = "a".to_owned();
        r.append(snake.as_str());
        proof {
            reveal_strlit("a");
        }
        r
    } else if parses_as_ident(snake.as_str()) {
        snake
    } else {
        let mut r = "a_".to_owned();
        r.append(snake.as_str());
        proof {
            reveal_strlit("a_");
        }
        assert(r@ =~= seq!['a', '_'] + snake@);
        r
    }
}

/// Generates a struct name (PascalCase) from a file name (without extension).
pub fn filename_to_struct_name(filename: &str) -> (r: String)
    ensures
        r@ == pascal_case(filename@),
{
    to_pascal_case(filename)
}

/// Generates a module name (snake_case) from a directory name.
pub fn path_to_mod_name(filename: &str) -> (r: String)
    ensures
        r@ == snake_case(filename@),
{
    to_snake_case(filename)
}

} // verus!
