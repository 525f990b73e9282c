//! Language names, `%{param}` placeholders and the format strings built from them.

use vstd::prelude::*;
use crate::chars::{ascii_digit, chars_of, contains_string, is_ascii_digit, names, push_char};

verus! {

/// Every `-` of a language key replaced by `_`.
pub open spec fn dashes_to_underscores(s: Seq<char>) -> Seq<char> {
    Seq::new(s.len(), |i: int| if s[i] == '-' { '_' } else { s[i] })
}

/// The enum variant name of a language key: `-` becomes `_`, and a name that
/// starts with an ASCII digit gets a leading `_`.
pub open spec fn variant_of(lang: Seq<char>) -> Seq<char> {
    let raw = dashes_to_underscores(lang);
    if raw.len() > 0 && is_ascii_digit(raw[0]) {
        seq!['_'] + raw
    } else {
        raw
    }
}

/// Converts a language key (e.g. `"en"`, `"zh_CN"`, `"en-US"`) to a valid enum
/// variant name: `-` → `_`, case kept, `_` prepended when it starts with a digit.
pub fn lang_to_variant(lang: &str) -> (r: String)
    ensures
        r@ == variant_of(lang@),
{
    let n = lang.unicode_len();
    let mut raw = String::new();
    let mut i: usize = 0;
    while i < n
        invariant
            n == lang@.len(),
            i <= n,
            raw@ == dashes_to_underscores(lang@).subrange(0, i as int),
        decreases n - i,
    {
        let c = lang.get_char(i);
        if c == '-' {
            push_char(&mut raw, '_');
        } else {
            push_char(&mut raw, c);
        }
        i += 1;
        assert(raw@ =~= dashes_to_underscores(lang@).subrange(0, i as int));
    }
    assert(raw@ =~= dashes_to_underscores(lang@));
    if n > 0 && ascii_digit(raw.get_char(0)) {
        let mut r = String::new();
        push_char(&mut r, '_');
        r.append(raw.as_str());
        r
    } else {
        raw
    }
}

} // verus!

verus! {

/// Index of the first `}` at or after `k`, or the length when there is none.
pub open spec fn close_index(s: Seq<char>, k: int) -> int
    decreases s.len() - k,
{
    if k >= s.len() {
        s.len() as int
    } else if s[k] == '}' {
        k
    } else {
        close_index(s, k + 1)
    }
}

/// `close_index` never goes back, and stops on a `}` or at the end.
pub proof fn lemma_close_index(s: Seq<char>, k: int)
    requires
        0 <= k <= s.len(),
    ensures
        k <= close_index(s, k) <= s.len(),
        close_index(s, k) < s.len() ==> s[close_index(s, k)] == '}',
        forall|j: int| k <= j < close_index(s, k) ==> s[j] != '}',
    decreases s.len() - k,
{
    if k < s.len() && s[k] != '}' {
        lemma_close_index(s, k + 1);
    }
}

/// A placeholder `%{` opens at index `i`.
pub open spec fn opens_at(s: Seq<char>, i: int) -> bool {
    0 <= i && i + 1 < s.len() && s[i] == '%' && s[i + 1] == '{'
}

/// Index just past the token that starts at `i`: a placeholder runs to its
/// closing `}` (or to the end of the text when it is never closed); any other
/// character is a token of its own.
pub open spec fn token_end(s: Seq<char>, i: int) -> int {
    if opens_at(s, i) {
        let c = close_index(s, i + 2);
        if c < s.len() {
            c + 1
        } else {
            c
        }
    } else {
        i + 1
    }
}

/// The name written between `%{` and `}` of the placeholder at `i`.
pub open spec fn placeholder_name(s: Seq<char>, i: int) -> Seq<char> {
    s.subrange(i + 2, close_index(s, i + 2))
}

/// The token that starts at `i` ends after it, and no later than the end.
pub proof fn lemma_token_end(s: Seq<char>, i: int)
    requires
        0 <= i < s.len(),
    ensures
        i < token_end(s, i) <= s.len(),
{
    if opens_at(s, i) {
        lemma_close_index(s, i + 2);
    }
}

/// The names of all placeholders from index `i` on, in order of occurrence,
/// empty names and repetitions included.
pub open spec fn placeholders_from(s: Seq<char>, i: int) -> Seq<Seq<char>>
    decreases s.len() - i,
{
    if i < 0 || i >= s.len() {
        Seq::empty()
    } else {
        proof {
            lemma_token_end(s, i);
        }
        if opens_at(s, i) {
            seq![placeholder_name(s, i)] + placeholders_from(s, token_end(s, i))
        } else {
            placeholders_from(s, i + 1)
        }
    }
}

/// The non-empty names of `ps`, each kept at its first occurrence.
pub open spec fn distinct_names(ps: Seq<Seq<char>>) -> Seq<Seq<char>>
    decreases ps.len(),
{
    if ps.len() == 0 {
        Seq::empty()
    } else {
        let r = distinct_names(ps.drop_last());
        let x = ps.last();
        if x.len() > 0 && !r.contains(x) {
            r.push(x)
        } else {
            r
        }
    }
}

/// The parameters of a text: its placeholder names, non-empty, each once,
/// in order of first occurrence.
pub open spec fn params_of(s: Seq<char>) -> Seq<Seq<char>> {
    distinct_names(placeholders_from(s, 0))
}

/// The text with each placeholder replaced by `{}` and every other character kept.
pub open spec fn format_text_from(s: Seq<char>, i: int) -> Seq<char>
    decreases s.len() - i,
{
    if i < 0 || i >= s.len() {
        Seq::empty()
    } else {
        proof {
            lemma_token_end(s, i);
        }
        if opens_at(s, i) {
            seq!['{', '}'] + format_text_from(s, token_end(s, i))
        } else {
            seq![s[i]] + format_text_from(s, i + 1)
        }
    }
}

/// Reads the placeholder that opens at `i`: returns its name and the index
/// just past it.
fn read_placeholder(s: &Vec<char>, i: usize) -> (r: (String, usize))
    requires
        opens_at(s@, i as int),
    ensures
        r.0@ == placeholder_name(s@, i as int),
        r.1 as int == token_end(s@, i as int),
{
    proof {
        lemma_close_index(s@, i + 2);
    }
    let mut name = String::new();
    assert(i + 2 <= s.len());
    let mut j: usize = i + 2;
    while j < s.len() && s[j] != '}'
        invariant
            i + 2 <= j <= s.len(),
            j <= close_index(s@, i + 2),
            close_index(s@, j as int) == close_index(s@, i + 2),
            name@ == s@.subrange(i + 2, j as int),
        decreases s.len() - j,
    {
        push_char(&mut name, s[j]);
        proof {
            lemma_close_index(s@, j + 1);
        }
        j += 1;
        assert(name@ =~= s@.subrange(i + 2, j as int));
    }
    let end = if j < s.len() { j + 1 } else { j };
    (name, end)
}

/// Extracts the `%{param}` parameters of a text: each non-empty name once, in
/// order of first occurrence.
pub fn extract_params(s: &str) -> (r: Vec<String>)
    ensures
        names(r@) == params_of(s@),
{
    let cs = chars_of(s);
    let n = cs.len();
    let mut params: Vec<String> = Vec::new();
    let mut i: usize = 0;
    let ghost mut seen: Seq<Seq<char>> = Seq::empty();
    while i < n
        invariant
            n == cs@.len(),
            cs@ == s@,
            i <= n,
            placeholders_from(s@, 0) == seen + placeholders_from(s@, i as int),
            names(params@) == distinct_names(seen),
        decreases n - i,
    {
        if cs[i] == '%' && i + 1 < n && cs[i + 1] == '{' {
            let (param, end) = read_placeholder(&cs, i);
            proof {
                lemma_token_end(s@, i as int);
            }
            let ghost old_seen = seen;
            proof {
                seen = seen.push(param@);
                assert(seen.drop_last() =~= old_seen);
                assert(placeholders_from(s@, i as int) == seq![param@] + placeholders_from(
                    s@,
                    end as int,
                ));
                assert(old_seen + (seq![param@] + placeholders_from(s@, end as int)) =~= seen
                    + placeholders_from(s@, end as int));
            }
            if param.unicode_len() > 0 && !contains_string(&params, &param) {
                params.push(param);
                assert(names(params@) =~= distinct_names(seen));
            }
            i = end;
        } else {
            i += 1;
        }
    }
    assert(seen =~= seen + Seq::<Seq<char>>::empty());
    params
}

/// Replaces every `%{param}` with `{}`, keeping the order of occurrence, so
/// the result can serve as a `format!` string.
pub fn replace_params_with_format(s: &str) -> (r: String)
    ensures
        r@ == format_text_from(s@, 0),
{
    let cs = chars_of(s);
    let n = cs.len();
    let mut result = String::new();
    let mut i: usize = 0;
    while i < n
        invariant
            n == cs@.len(),
            cs@ == s@,
            i <= n,
            format_text_from(s@, 0) == result@ + format_text_from(s@, i as int),
        decreases n - i,
    {
        let ghost before = result@;
        if cs[i] == '%' && i + 1 < n && cs[i + 1] == '{' {
            let (_param, end) = read_placeholder(&cs, i);
            proof {
                lemma_token_end(s@, i as int);
            }
            push_char(&mut result, '{');
            push_char(&mut result, '}');
            assert(before + (seq!['{', '}'] + format_text_from(s@, end as int)) =~= result@
                + format_text_from(s@, end as int));
            i = end;
        } else {
            push_char(&mut result, cs[i]);
            assert(before + (seq![cs@[i as int]] + format_text_from(s@, i + 1)) =~= result@
                + format_text_from(s@, i + 1));
            i += 1;
        }
    }
    assert(result@ =~= result@ + Seq::<char>::empty());
    result
}

} // verus!
