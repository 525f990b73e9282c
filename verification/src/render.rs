//! What `format!` makes of the format strings of parameterised translations:
//! `{{` and `}}` stand for braces and each `{}` takes the next argument.

use vstd::prelude::*;
use crate::chars::{chars_of, names, push_char};

verus! {

/// The text that `format!(f, vals…)` produces from character `i` of `f` on,
/// with the first `k` arguments already used; `None` where `f` uses a brace
/// in any other way, or the arguments are not used up exactly.
pub open spec fn render_from(f: Seq<char>, vals: Seq<Seq<char>>, i: int, k: int) -> Option<
    Seq<char>,
>
    decreases f.len() - i,
{
    if i < 0 || i >= f.len() {
        if k == vals.len() {
            Some(Seq::empty())
        } else {
            None
        }
    } else if f[i] == '{' {
        if i + 1 < f.len() && f[i + 1] == '{' {
            match render_from(f, vals, i + 2, k) {
                Some(rest) => Some(seq!['{'] + rest),
                None => None,
            }
        } else if i + 1 < f.len() && f[i + 1] == '}' && 0 <= k < vals.len() {
            match render_from(f, vals, i + 2, k + 1) {
                Some(rest) => Some(vals[k] + rest),
                None => None,
            }
        } else {
            None
        }
    } else if f[i] == '}' {
        if i + 1 < f.len() && f[i + 1] == '}' {
            match render_from(f, vals, i + 2, k) {
                Some(rest) => Some(seq!['}'] + rest),
                None => None,
            }
        } else {
            None
        }
    } else {
        match render_from(f, vals, i + 1, k) {
            Some(rest) => Some(seq![f[i]] + rest),
            None => None,
        }
    }
}

/// The number of `{}` from character `i` of `f` on, when every brace there
/// is part of `{{`, `}}` or `{}`.
pub open spec fn arity_from(f: Seq<char>, i: int) -> Option<nat>
    decreases f.len() - i,
{
    if i < 0 || i >= f.len() {
        Some(0)
    } else if f[i] == '{' {
        if i + 1 < f.len() && f[i + 1] == '{' {
            arity_from(f, i + 2)
        } else if i + 1 < f.len() && f[i + 1] == '}' {
            match arity_from(f, i + 2) {
                Some(n) => Some(n + 1),
                None => None,
            }
        } else {
            None
        }
    } else if f[i] == '}' {
        if i + 1 < f.len() && f[i + 1] == '}' {
            arity_from(f, i + 2)
        } else {
            None
        }
    } else {
        arity_from(f, i + 1)
    }
}

/// A format string renders exactly when it takes as many arguments as given.
pub proof fn lemma_render_arity(f: Seq<char>, vals: Seq<Seq<char>>, i: int, k: int)
    requires
        0 <= i,
        0 <= k <= vals.len(),
    ensures
        (render_from(f, vals, i, k) is Some) <==> arity_from(f, i) == Some((vals.len() - k) as nat),
    decreases f.len() - i,
{
    if i < f.len() {
        if f[i] == '{' {
            if i + 1 < f.len() && f[i + 1] == '{' {
                lemma_render_arity(f, vals, i + 2, k);
            } else if i + 1 < f.len() && f[i + 1] == '}' {
                if k < vals.len() {
                    lemma_render_arity(f, vals, i + 2, k + 1);
                }
            }
        } else if f[i] == '}' {
            if i + 1 < f.len() && f[i + 1] == '}' {
                lemma_render_arity(f, vals, i + 2, k);
            }
        } else {
            lemma_render_arity(f, vals, i + 1, k);
        }
    }
}

/// The number of arguments a format string takes, when it is of the forms
/// rendered here.
pub fn format_arity(f: &str) -> (r: Option<usize>)
    ensures
        match r {
            Some(n) => arity_from(f@, 0) == Some(n as nat),
            None => arity_from(f@, 0) is None,
        },
{
    let cs = chars_of(f);
    let n = cs.len();
    let mut i: usize = 0;
    let mut count: usize = 0;
    while i < n
        invariant
            n == cs@.len(),
            cs@ == f@,
            i <= n + 1,
            count <= i,
            arity_from(f@, 0) == match arity_from(f@, i as int) {
                Some(a) => Some((a + count) as nat),
                None => None,
            },
        decreases n + 1 - i,
    {
        if cs[i] == '{' {
            if i + 1 < n && cs[i + 1] == '{' {
                i += 2;
            } else if i + 1 < n && cs[i + 1] == '}' {
                count += 1;
                i += 2;
            } else {
                return None;
            }
        } else if cs[i] == '}' {
            if i + 1 < n && cs[i + 1] == '}' {
                i += 2;
            } else {
                return None;
            }
        } else {
            i += 1;
        }
    }
    Some(count)
}

/// Renders `format!(f, vals…)`; `None` when `f` does not take exactly these
/// arguments in the forms rendered here.
pub fn render_format(f: &str, vals: &Vec<String>) -> (r: Option<String>)
    ensures
        match r {
            Some(s) => render_from(f@, names(vals@), 0, 0) == Some(s@),
            None => render_from(f@, names(vals@), 0, 0) is None,
        },
{
    let cs = chars_of(f);
    let n = cs.len();
    let ghost vs = names(vals@);
    let mut out = String::new();
    let mut i: usize = 0;
    let mut k: usize = 0;
    while i < n
        invariant
            n == cs@.len(),
            cs@ == f@,
            vs == names(vals@),
            i <= n + 1,
            k <= vals.len(),
            render_from(f@, vs, 0, 0) == match render_from(f@, vs, i as int, k as int) {
                Some(rest) => Some(out@ + rest),
                None => None,
            },
        decreases n + 1 - i,
    {
        let ghost before = out@;
        if cs[i] == '{' {
            if i + 1 < n && cs[i + 1] == '{' {
                push_char(&mut out, '{');
                proof {
                    match render_from(f@, vs, i + 2, k as int) {
                        Some(rest) => {
                            assert(before + (seq!['{'] + rest) =~= out@ + rest);
                        },
                        None => {},
                    }
                }
                i += 2;
            } else if i + 1 < n && cs[i + 1] == '}' && k < vals.len() {
                out.append(vals[k].as_str());
                proof {
                    match render_from(f@, vs, i + 2, k + 1) {
                        Some(rest) => {
                            assert(before + (vs[k as int] + rest) =~= out@ + rest);
                        },
                        None => {},
                    }
                }
                k += 1;
                i += 2;
            } else {
                return None;
            }
        } else if cs[i] == '}' {
            if i + 1 < n && cs[i + 1] == '}' {
                push_char(&mut out, '}');
                proof {
                    match render_from(f@, vs, i + 2, k as int) {
                        Some(rest) => {
                            assert(before + (seq!['}'] + rest) =~= out@ + rest);
                        },
                        None => {},
                    }
                }
                i += 2;
            } else {
                return None;
            }
        } else {
            push_char(&mut out, cs[i]);
            proof {
                match render_from(f@, vs, i + 1, k as int) {
                    Some(rest) => {
                        assert(before + (seq![cs@[i as int]] + rest) =~= out@ + rest);
                    },
                    None => {},
                }
            }
            i += 1;
        }
    }
    if k == vals.len() {
        assert(out@ + Seq::<char>::empty() =~= out@);
        Some(out)
    } else {
        None
    }
}

} // verus!
