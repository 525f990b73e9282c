//! What the generated module does when it runs: the current language,
//! `Languages::from(&str)`, `Display`, the fallback solver and the
//! translation functions, which walk the fallback chain.

use vstd::prelude::*;
use crate::chars::{chars_of, is_ascii_alphanumeric, names, push_char};

verus! {

/// The Unicode `White_Space` characters (PropList.txt), which `str::trim` removes.
pub open spec fn is_white_space(c: char) -> bool {
    ||| ('\u{9}' <= c && c <= '\u{d}')
    ||| c == ' '
    ||| c == '\u{85}'
    ||| c == '\u{a0}'
    ||| c == '\u{1680}'
    ||| ('\u{2000}' <= c && c <= '\u{200a}')
    ||| c == '\u{2028}'
    ||| c == '\u{2029}'
    ||| c == '\u{202f}'
    ||| c == '\u{205f}'
    ||| c == '\u{3000}'
}

/// Whether the character has the Unicode `White_Space` property, as
/// `char::is_whitespace` answers.
fn white_space(c: char) -> (r: bool)
    ensures
        r == is_white_space(c),
{
    ('\u{9}' <= c && c <= '\u{d}') || c == ' ' || c == '\u{85}' || c == '\u{a0}' || c == '\u{1680}'
        || ('\u{2000}' <= c && c <= '\u{200a}') || c == '\u{2028}' || c == '\u{2029}' || c
        == '\u{202f}' || c == '\u{205f}' || c == '\u{3000}'
}

/// The first index from `i` on that holds no white space (or the length).
pub open spec fn lead_from(s: Seq<char>, i: int) -> int
    decreases s.len() - i,
{
    if i < 0 || i >= s.len() {
        s.len() as int
    } else if is_white_space(s[i]) {
        lead_from(s, i + 1)
    } else {
        i
    }
}

/// The end of `s.take(j)` once its trailing white space is cut.
pub open spec fn tail_from(s: Seq<char>, j: int) -> int
    decreases j,
{
    if j <= 0 || j > s.len() {
        0
    } else if is_white_space(s[j - 1]) {
        tail_from(s, j - 1)
    } else {
        j
    }
}

/// `s` without leading and trailing white space (`str::trim`).
pub open spec fn trimmed(s: Seq<char>) -> Seq<char> {
    let a = lead_from(s, 0);
    if a >= s.len() {
        Seq::empty()
    } else {
        s.subrange(a, tail_from(s, s.len() as int))
    }
}

/// An ASCII letter or digit in lower case; anything else becomes `_`.
pub open spec fn normal_char(c: char) -> char {
    if 'A' <= c && c <= 'Z' {
        ((c as int) + 32) as char
    } else if is_ascii_alphanumeric(c) {
        c
    } else {
        '_'
    }
}

/// How `Languages::from(&str)` normalises its input: trimmed, ASCII letters
/// and digits in lower case, every other character `_`.
pub open spec fn normalized(s: Seq<char>) -> Seq<char> {
    Seq::new(trimmed(s).len(), |i: int| normal_char(trimmed(s)[i]))
}

proof fn lemma_lead(s: Seq<char>, i: int)
    requires
        0 <= i <= s.len(),
    ensures
        i <= lead_from(s, i) <= s.len(),
        lead_from(s, i) < s.len() ==> !is_white_space(s[lead_from(s, i)]),
    decreases s.len() - i,
{
    if i < s.len() && is_white_space(s[i]) {
        lemma_lead(s, i + 1);
    }
}

proof fn lemma_tail(s: Seq<char>, j: int, a: int)
    requires
        0 <= a < j <= s.len(),
        !is_white_space(s[a]),
    ensures
        a < tail_from(s, j) <= j,
    decreases j,
{
    if is_white_space(s[j - 1]) {
        lemma_tail(s, j - 1, a);
    }
}

proof fn lemma_lead_spaces(s: Seq<char>, i: int)
    requires
        0 <= i <= s.len(),
    ensures
        forall|k: int| i <= k < lead_from(s, i) ==> is_white_space(#[trigger] s[k]),
    decreases s.len() - i,
{
    if i < s.len() && is_white_space(s[i]) {
        lemma_lead_spaces(s, i + 1);
    }
}

proof fn lemma_tail_spaces(s: Seq<char>, j: int)
    requires
        0 <= j <= s.len(),
    ensures
        0 <= tail_from(s, j) <= j,
        forall|k: int| tail_from(s, j) <= k < j ==> is_white_space(#[trigger] s[k]),
        tail_from(s, j) > 0 ==> !is_white_space(s[tail_from(s, j) - 1]),
    decreases j,
{
    if j > 0 && is_white_space(s[j - 1]) {
        lemma_tail_spaces(s, j - 1);
    }
}

/// Trimming removes the white space at both ends and nothing else: the
/// result is a stretch of the text that neither starts nor ends with white
/// space, and everything of the text before or after it is white space.
pub proof fn lemma_trimmed(s: Seq<char>)
    ensures
        trimmed(s).len() == 0 ==> forall|k: int| 0 <= k < s.len() ==> is_white_space(#[trigger] s[k]),
        trimmed(s).len() > 0 ==> {
            let a = lead_from(s, 0);
            let b = a + trimmed(s).len();
            &&& 0 <= a < b <= s.len()
            &&& trimmed(s) == s.subrange(a, b)
            &&& !is_white_space(trimmed(s)[0])
            &&& !is_white_space(trimmed(s).last())
            &&& forall|k: int| (0 <= k < a || b <= k < s.len()) ==> is_white_space(#[trigger] s[k])
        },
{
    lemma_lead(s, 0);
    lemma_lead_spaces(s, 0);
    lemma_tail_spaces(s, s.len() as int);
    let a = lead_from(s, 0);
    if a < s.len() {
        lemma_tail(s, s.len() as int, a);
        let b = tail_from(s, s.len() as int);
        assert(trimmed(s) == s.subrange(a, b));
        assert(trimmed(s)[0] == s[a]);
        assert(trimmed(s).last() == s[b - 1]);
    }
}

/// Normalises a language name as `Languages::from(&str)` does.
pub fn normalize_lang(s: &str) -> (r: String)
    ensures
        r@ == normalized(s@),
{
    let cs = chars_of(s);
    let n = cs.len();
    let mut a: usize = 0;
    while a < n && white_space(cs[a])
        invariant
            n == cs@.len(),
            cs@ == s@,
            a <= n,
            lead_from(s@, 0) == lead_from(s@, a as int),
        decreases n - a,
    {
        a += 1;
    }
    let mut out = String::new();
    if a >= n {
        assert(out@ =~= normalized(s@));
        return out;
    }
    let mut b: usize = n;
    while b > 0 && white_space(cs[b - 1])
        invariant
            n == cs@.len(),
            cs@ == s@,
            b <= n,
            a < n,
            !is_white_space(s@[a as int]),
            tail_from(s@, n as int) == tail_from(s@, b as int),
        decreases b,
    {
        b -= 1;
    }
    proof {
        lemma_tail(s@, n as int, a as int);
    }
    assert(b == tail_from(s@, n as int));
    let ghost t = trimmed(s@);
    assert(t == s@.subrange(a as int, b as int));
    let mut i: usize = a;
    while i < b
        invariant
            a <= i <= b,
            b <= n,
            n == cs@.len(),
            cs@ == s@,
            t == s@.subrange(a as int, b as int),
            out@ == Seq::new((i - a) as nat, |j: int| normal_char(t[j])),
        decreases b - i,
    {
        let c = cs[i];
        let d = if 'A' <= c && c <= 'Z' {
            ((c as u32) + 32) as u8 as char
        } else if ('0' <= c && c <= '9') || ('a' <= c && c <= 'z') {
            c
        } else {
            '_'
        };
        assert(d == normal_char(c)) by {
            if 'A' <= c && c <= 'Z' {
                assert(((c as u32) + 32) < 256);
            }
        }
        push_char(&mut out, d);
        i += 1;
        assert(out@ =~= Seq::new((i - a) as nat, |j: int| normal_char(t[j])));
    }
    assert(out@ =~= normalized(s@));
    out
}

} // verus!

verus! {

/// The language reached after `n` fallback steps from `x`, one step being
/// `next[x]`.
pub open spec fn ichain(next: Seq<usize>, x: int, n: nat) -> int
    decreases n,
{
    if n == 0 {
        x
    } else {
        next[ichain(next, x, (n - 1) as nat)] as int
    }
}

/// Every step stays among the `next.len()` languages.
pub open spec fn closed_steps(next: Seq<usize>) -> bool {
    forall|i: int| 0 <= i < next.len() ==> (#[trigger] next[i]) < next.len()
}

proof fn lemma_ichain_in_range(next: Seq<usize>, x: int, n: nat)
    requires
        closed_steps(next),
        0 <= x < next.len(),
    ensures
        0 <= ichain(next, x, n) < next.len(),
    decreases n,
{
    if n > 0 {
        lemma_ichain_in_range(next, x, (n - 1) as nat);
    }
}

/// Two positions of a chain that meet keep meeting.
proof fn lemma_ichain_shift(next: Seq<usize>, x: int, i: nat, j: nat, t: nat)
    requires
        ichain(next, x, i) == ichain(next, x, j),
    ensures
        ichain(next, x, i + t) == ichain(next, x, j + t),
    decreases t,
{
    if t > 0 {
        lemma_ichain_shift(next, x, i, j, (t - 1) as nat);
        assert(ichain(next, x, i + t) == next[ichain(next, x, (i + t - 1) as nat)] as int);
        assert(ichain(next, x, j + t) == next[ichain(next, x, (j + t - 1) as nat)] as int);
    }
}

/// A chain over `L` languages that ever reaches a language satisfying `has`
/// reaches one within its first `L` steps: after that, it only repeats itself.
pub proof fn lemma_reached_early(next: Seq<usize>, x: int, has: spec_fn(int) -> bool, n: nat)
    requires
        closed_steps(next),
        0 <= x < next.len(),
        has(ichain(next, x, n)),
    ensures
        exists|m: nat| m < next.len() && #[trigger] has(ichain(next, x, m)),
    decreases n,
{
    if n < next.len() {
        assert(has(ichain(next, x, n)));
    } else {
        let s = Seq::new((n + 1) as nat, |k: int| ichain(next, x, k as nat));
        let pool = Seq::new(next.len() as nat, |k: int| k);
        assert forall|k: int| 0 <= k < s.len() implies pool.contains(#[trigger] s[k]) by {
            lemma_ichain_in_range(next, x, k as nat);
            assert(pool[s[k]] == s[k]);
        }
        if s.no_duplicates() {
            crate::fallback::lemma_distinct_within(s, pool);
        }
        let (i, j) = choose|i: int, j: int|
            0 <= i < s.len() && 0 <= j < s.len() && i != j && s[i] == s[j];
        let (lo, hi) = if i < j { (i as nat, j as nat) } else { (j as nat, i as nat) };
        assert(ichain(next, x, lo) == ichain(next, x, hi));
        lemma_ichain_shift(next, x, lo, hi, (n - hi) as nat);
        assert(ichain(next, x, (lo + (n - hi)) as nat) == ichain(next, x, n));
        lemma_reached_early(next, x, has, (lo + (n - hi)) as nat);
    }
}

} // verus!

verus! {

use crate::fallback::{FallbackSolver, joined};
use crate::naming::{parses_as_ident, snake_case, syn_parses_ident, to_snake_case};
use crate::plan::{ArmValue, EntryBody, EntryPlan, ModulePlan, StructPlan, SubModule, snake_entries};
use crate::render::{arity_from, format_arity, lemma_render_arity, render_format, render_from};
use crate::trie::{TrieNode, entries_view, first_named, gen_trie_match, node_lookup, arm_lookup, first_exact};

/// Why a module plan would not compile.
#[derive(Debug)]
pub enum CompileError {
    /// The enum would have no variant, and so no default.
    NoLanguages,
    /// Two languages give the same variant name.
    DuplicateVariant(String),
    /// Some fallback chain does not end.
    FallbackChain,
    /// A variant is named that the enum does not have.
    UnknownVariant(String),
    /// A key has inconsistent parameter names across languages.
    ParamConflict(String),
    /// A format string does not take its arguments (the function is named).
    InvalidFormat(String),
    /// A format argument is not a parameter of its function (the function is named).
    UnknownParameter(String),
    /// Two structs of one module, two functions of one struct, two
    /// parameters of one function, or two submodules have the same name.
    DuplicateName(String),
    /// A variant, struct, function, parameter or module name is not a Rust
    /// identifier (or is a keyword).
    InvalidName(String),
}

/// Why a translation function call gives no text.
#[derive(PartialEq, Eq, Structural, Debug, Clone, Copy)]
pub enum CallError {
    /// No such struct or function in the module.
    NoSuchFunction,
    /// The number of arguments is not the number of parameters.
    WrongArgumentCount,
    /// No language translates the key: the function panics.
    Untranslated,
    /// No language on the fallback chain of the current language translates
    /// the key: the function never returns.
    Unreachable,
}

/// The generated module, running.
pub struct Locale {
    /// The language names, in variant order.
    pub languages: Vec<String>,
    /// The variant names.
    pub variants: Vec<String>,
    /// The trie of `From<&str>`.
    pub trie: TrieNode,
    /// The snake_case language names joined by `, `.
    pub available: String,
    /// `next[i]`: the language `try_fallback_once` gives for language `i`.
    pub next: Vec<usize>,
    /// The default variant, current at start.
    pub default_lang: usize,
    /// The structs of the root.
    pub root: Vec<StructPlan>,
    /// The submodules.
    pub modules: Vec<SubModule>,
    /// The current language.
    pub current: usize,
}

/// The first arm, from `i` on, of variant `v`.
pub open spec fn arm_for(arms: Seq<(String, ArmValue)>, v: Seq<char>, i: int) -> Option<ArmValue>
    decreases arms.len() - i,
{
    if i < 0 || i >= arms.len() {
        None
    } else if arms[i].0@ == v {
        Some(arms[i].1)
    } else {
        arm_for(arms, v, i + 1)
    }
}

/// The position of `x` among `params`, first occurrence.
pub open spec fn param_index(params: Seq<Seq<char>>, x: Seq<char>, i: int) -> Option<int>
    decreases params.len() - i,
{
    if i < 0 || i >= params.len() {
        None
    } else if params[i] == x {
        Some(i)
    } else {
        param_index(params, x, i + 1)
    }
}

/// The arguments of a `format!`: for each variable, the call argument of the
/// parameter of that name.
pub open spec fn bound_args(idents: Seq<Seq<char>>, params: Seq<Seq<char>>, args: Seq<Seq<char>>) -> Seq<
    Seq<char>,
> {
    Seq::new(
        idents.len(),
        |k: int|
            match param_index(params, idents[k], 0) {
                Some(p) => args[p],
                None => Seq::empty(),
            },
    )
}

/// The text an arm returns for the call arguments `args`.
pub open spec fn arm_text(a: ArmValue, params: Seq<Seq<char>>, args: Seq<Seq<char>>) -> Seq<char> {
    match a {
        ArmValue::Text(t) => t@,
        ArmValue::Format(f, idents) => match render_from(f@, bound_args(names(idents@), params, args), 0, 0) {
            Some(s) => s,
            None => Seq::empty(),
        },
    }
}

/// Every name of the list is an identifier that `syn` takes as one.
pub open spec fn all_idents(v: Seq<Seq<char>>) -> bool {
    forall|i: int| 0 <= i < v.len() ==> syn_parses_ident(#[trigger] v[i])
}

/// A function of the module compiles as far as checked here: its name and
/// parameters are identifiers, no parameter conflict, each arm names a
/// variant of the enum, and each format string takes exactly its arguments,
/// all of them parameters of the function.
pub open spec fn method_ok(p: EntryPlan, variants: Seq<Seq<char>>) -> bool {
    &&& syn_parses_ident(p.method@)
    &&& all_idents(names(p.params@))
    &&& names(p.params@).no_duplicates()
    &&& !(p.body is Conflict)
    &&& p.body matches EntryBody::Arms(arms) ==> forall|i: int|
        0 <= i < arms.len() ==> variants.contains((#[trigger] arms@[i]).0@) && match arms@[i].1 {
            ArmValue::Format(f, idents) => {
                &&& arity_from(f@, 0) == Some(idents.len() as nat)
                &&& forall|k: int|
                    0 <= k < idents.len() ==> param_index(names(p.params@), (#[trigger] idents@[k])@, 0) is Some
            },
            ArmValue::Text(_) => true,
        }
}

/// The names of a list of structs.
pub open spec fn struct_names(v: Seq<StructPlan>) -> Seq<Seq<char>> {
    Seq::new(v.len(), |i: int| v[i].name@)
}

/// The names of a list of functions.
pub open spec fn method_names(v: Seq<EntryPlan>) -> Seq<Seq<char>> {
    Seq::new(v.len(), |i: int| v[i].method@)
}

/// The names of a list of submodules.
pub open spec fn module_idents(v: Seq<SubModule>) -> Seq<Seq<char>> {
    Seq::new(v.len(), |i: int| v[i].ident@)
}

/// The structs have distinct names, the functions of each struct too, and
/// every function compiles as far as checked here.
pub open spec fn structs_ok(v: Seq<StructPlan>, variants: Seq<Seq<char>>) -> bool {
    &&& all_idents(struct_names(v))
    &&& struct_names(v).no_duplicates()
    &&& forall|i: int| 0 <= i < v.len() ==> method_names((#[trigger] v[i]).methods@).no_duplicates()
    &&& forall|i: int, k: int|
        0 <= i < v.len() && 0 <= k < v[i].methods.len() ==> method_ok(
            #[trigger] v[i].methods@[k],
            variants,
        )
}

impl Locale {
    /// The state the generated module keeps: one variant per language, steps
    /// among the languages, the trie over the snake_case names, and functions
    /// that compile.
    pub open spec fn wf(&self) -> bool {
        let n = self.languages.len();
        &&& n > 0
        &&& self.variants.len() == n
        &&& self.next.len() == n
        &&& self.current < n
        &&& self.default_lang < n
        &&& closed_steps(self.next@)
        &&& forall|s: Seq<char>| #[trigger]
            node_lookup(self.trie, s, 0) == first_named(snake_entries(names(self.languages@)), s)
        &&& self.available@ == joined(
            Seq::new(n as nat, |i: int| snake_case(self.languages@[i]@)),
            ", "@,
        )
        &&& structs_ok(self.root@, names(self.variants@))
        &&& forall|j: int|
            0 <= j < self.modules.len() ==> structs_ok(
                (#[trigger] self.modules@[j]).structs@,
                names(self.variants@),
            )
    }
}

} // verus!

verus! {

use crate::plan::{position, position_of};
use crate::chars::contains_string;

/// The variant names of a plan's `(variant, language)` pairs.
pub open spec fn first_of_pairs(v: Seq<(String, String)>) -> Seq<Seq<char>> {
    Seq::new(v.len(), |i: int| v[i].0@)
}

/// The language names of a plan's `(variant, language)` pairs.
pub open spec fn second_of_pairs(v: Seq<(String, String)>) -> Seq<Seq<char>> {
    Seq::new(v.len(), |i: int| v[i].1@)
}

/// The target of the first solver arm, from `i` on, for variant `v`.
pub open spec fn solver_arm(arms: Seq<(String, String)>, v: Seq<char>, i: int) -> Option<Seq<char>>
    decreases arms.len() - i,
{
    if i < 0 || i >= arms.len() {
        None
    } else if arms[i].0@ == v {
        Some(arms[i].1@)
    } else {
        solver_arm(arms, v, i + 1)
    }
}

/// The variant `try_fallback_once` gives for variant `v`: its arm's target,
/// or the catch-all arm's.
pub open spec fn solver_step(s: FallbackSolver, v: Seq<char>) -> Seq<char> {
    match s {
        FallbackSolver::Table { arms, default_variant } => match solver_arm(arms@, v, 0) {
            Some(t) => t,
            None => default_variant@,
        },
        FallbackSolver::Rejected { default_variant, .. } => default_variant@,
    }
}

/// The module of a plan compiles, as far as checked here.
pub open spec fn plan_compiles(plan: ModulePlan) -> bool {
    let vs = first_of_pairs(plan.languages.variants@);
    &&& vs.len() > 0
    &&& all_idents(vs)
    &&& vs.no_duplicates()
    &&& plan.solver is Table
    &&& forall|i: int|
        0 <= i < vs.len() ==> position_of(vs, solver_step(plan.solver, #[trigger] vs[i]), 0) is Some
    &&& plan.languages.fallback_idx < vs.len()
    &&& structs_ok(plan.root@, vs)
    &&& all_idents(module_idents(plan.modules@))
    &&& module_idents(plan.modules@).no_duplicates()
    &&& forall|j: int| 0 <= j < plan.modules.len() ==> structs_ok((#[trigger] plan.modules@[j]).structs@, vs)
}

/// The position of `x` among `params`.
fn param_position(params: &Vec<String>, x: &String) -> (r: Option<usize>)
    ensures
        match r {
            Some(i) => param_index(names(params@), x@, 0) == Some(i as int),
            None => param_index(names(params@), x@, 0) is None,
        },
{
    let mut i: usize = 0;
    while i < params.len()
        invariant
            i <= params.len(),
            param_index(names(params@), x@, 0) == param_index(names(params@), x@, i as int),
        decreases params.len() - i,
    {
        if params[i].eq(x) {
            return Some(i);
        }
        i += 1;
    }
    None
}

/// Checks one function, as [`method_ok`] says.
fn check_method(p: &EntryPlan, variants: &Vec<String>) -> (r: Result<(), CompileError>)
    ensures
        r is Ok <==> method_ok(*p, names(variants@)),
{
    if !parses_as_ident(p.method.as_str()) {
        return Err(CompileError::InvalidName(p.method.clone()));
    }
    match first_non_ident(&p.params) {
        Some(q) => {
            return Err(CompileError::InvalidName(p.params[q].clone()));
        },
        None => {},
    }
    match first_repeat(&p.params) {
        Some(q) => {
            return Err(CompileError::DuplicateName(p.params[q].clone()));
        },
        None => {},
    }
    match &p.body {
        EntryBody::Conflict { .. } => Err(CompileError::ParamConflict(p.method.clone())),
        EntryBody::Untranslated { .. } => Ok(()),
        EntryBody::Arms(arms) => {
            let mut i: usize = 0;
            while i < arms.len()
                invariant
                    i <= arms.len(),
                    p.body == EntryBody::Arms(*arms),
                    forall|j: int|
                        0 <= j < i ==> names(variants@).contains((#[trigger] arms@[j]).0@) && match arms@[j].1 {
                            ArmValue::Format(f, idents) => {
                                &&& arity_from(f@, 0) == Some(idents.len() as nat)
                                &&& forall|k: int|
                                    0 <= k < idents.len() ==> param_index(
                                        names(p.params@),
                                        (#[trigger] idents@[k])@,
                                        0,
                                    ) is Some
                            },
                            ArmValue::Text(_) => true,
                        },
                decreases arms.len() - i,
            {
                if !contains_string(variants, &arms[i].0) {
                    return Err(CompileError::UnknownVariant(arms[i].0.clone()));
                }
                match &arms[i].1 {
                    ArmValue::Format(f, idents) => {
                        match format_arity(f.as_str()) {
                            Some(n) => {
                                if n != idents.len() {
                                    return Err(CompileError::InvalidFormat(p.method.clone()));
                                }
                            },
                            None => {
                                return Err(CompileError::InvalidFormat(p.method.clone()));
                            },
                        }
                        let mut k: usize = 0;
                        while k < idents.len()
                            invariant
                                k <= idents.len(),
                                i < arms.len(),
                                p.body == EntryBody::Arms(*arms),
                                arms@[i as int].1 == ArmValue::Format(*f, *idents),
                                forall|q: int|
                                    0 <= q < k ==> param_index(
                                        names(p.params@),
                                        (#[trigger] idents@[q])@,
                                        0,
                                    ) is Some,
                            decreases idents.len() - k,
                        {
                            if param_position(&p.params, &idents[k]).is_none() {
                                proof {
                                    if method_ok(*p, names(variants@)) {
                                        assert(names(variants@).contains(arms@[i as int].0@));
                                        assert(param_index(names(p.params@), idents@[k as int]@, 0) is Some);
                                    }
                                }
                                return Err(CompileError::UnknownParameter(p.method.clone()));
                            }
                            k += 1;
                        }
                    },
                    ArmValue::Text(_) => {},
                }
                i += 1;
            }
            Ok(())
        },
    }
}

/// Checks a list of structs, as [`structs_ok`] says.
fn check_structs(v: &Vec<StructPlan>, variants: &Vec<String>) -> (r: Result<(), CompileError>)
    ensures
        r is Ok <==> structs_ok(v@, names(variants@)),
{
    let mut struct_list: Vec<String> = Vec::new();
    let mut i: usize = 0;
    while i < v.len()
        invariant
            i <= v.len(),
            names(struct_list@) == struct_names(v@).subrange(0, i as int),
            forall|a: int| 0 <= a < i ==> method_names((#[trigger] v@[a]).methods@).no_duplicates(),
            forall|a: int, k: int|
                0 <= a < i && 0 <= k < v@[a].methods.len() ==> method_ok(
                    #[trigger] v@[a].methods@[k],
                    names(variants@),
                ),
        decreases v.len() - i,
    {
        let mut method_list: Vec<String> = Vec::new();
        let mut k: usize = 0;
        while k < v[i].methods.len()
            invariant
                i < v.len(),
                k <= v@[i as int].methods.len(),
                names(method_list@) == method_names(v@[i as int].methods@).subrange(0, k as int),
                forall|a: int, q: int|
                    0 <= a < i && 0 <= q < v@[a].methods.len() ==> method_ok(
                        #[trigger] v@[a].methods@[q],
                        names(variants@),
                    ),
                forall|q: int| 0 <= q < k ==> method_ok(#[trigger] v@[i as int].methods@[q], names(variants@)),
            decreases v@[i as int].methods.len() - k,
        {
            match check_method(&v[i].methods[k], variants) {
                Ok(()) => {},
                Err(e) => {
                    return Err(e);
                },
            }
            let ghost before = names(method_list@);
            method_list.push(v[i].methods[k].method.clone());
            assert(names(method_list@) =~= before.push(v@[i as int].methods@[k as int].method@));
            k += 1;
            assert(names(method_list@) =~= method_names(v@[i as int].methods@).subrange(0, k as int));
        }
        assert(names(method_list@) =~= method_names(v@[i as int].methods@));
        match first_repeat(&method_list) {
            Some(q) => {
                return Err(CompileError::DuplicateName(method_list[q].clone()));
            },
            None => {},
        }
        let ghost before = names(struct_list@);
        struct_list.push(v[i].name.clone());
        assert(names(struct_list@) =~= before.push(v@[i as int].name@));
        i += 1;
        assert(names(struct_list@) =~= struct_names(v@).subrange(0, i as int));
    }
    assert(names(struct_list@) =~= struct_names(v@));
    match first_non_ident(&struct_list) {
        Some(q) => {
            return Err(CompileError::InvalidName(struct_list[q].clone()));
        },
        None => {},
    }
    match first_repeat(&struct_list) {
        Some(q) => Err(CompileError::DuplicateName(struct_list[q].clone())),
        None => Ok(()),
    }
}

/// The first position whose string repeats an earlier one, if any.
fn first_repeat(v: &Vec<String>) -> (r: Option<usize>)
    ensures
        r is None <==> names(v@).no_duplicates(),
        r matches Some(i) ==> i < v.len(),
{
    let mut i: usize = 0;
    while i < v.len()
        invariant
            i <= v.len(),
            forall|a: int, b: int| 0 <= a < b < i ==> names(v@)[a] != names(v@)[b],
        decreases v.len() - i,
    {
        let mut j: usize = 0;
        while j < i
            invariant
                j <= i < v.len(),
                forall|a: int| 0 <= a < j ==> names(v@)[a] != names(v@)[i as int],
            decreases i - j,
        {
            if v[j].eq(&v[i]) {
                assert(names(v@)[j as int] == names(v@)[i as int]);
                return Some(i);
            }
            j += 1;
        }
        i += 1;
    }
    None
}

/// The first position whose string `syn` does not take as an identifier.
fn first_non_ident(v: &Vec<String>) -> (r: Option<usize>)
    ensures
        r is None <==> all_idents(names(v@)),
        r matches Some(i) ==> i < v.len(),
{
    let mut i: usize = 0;
    while i < v.len()
        invariant
            i <= v.len(),
            forall|a: int| 0 <= a < i ==> syn_parses_ident(#[trigger] names(v@)[a]),
        decreases v.len() - i,
    {
        if !parses_as_ident(v[i].as_str()) {
            assert(!syn_parses_ident(names(v@)[i as int]));
            return Some(i);
        }
        i += 1;
    }
    None
}

/// The target of the first solver arm for variant `v`.
fn solver_arm_of(arms: &Vec<(String, String)>, v: &String) -> (r: Option<String>)
    ensures
        match r {
            Some(t) => solver_arm(arms@, v@, 0) == Some(t@),
            None => solver_arm(arms@, v@, 0) is None,
        },
{
    let mut i: usize = 0;
    while i < arms.len()
        invariant
            i <= arms.len(),
            solver_arm(arms@, v@, 0) == solver_arm(arms@, v@, i as int),
        decreases arms.len() - i,
    {
        if arms[i].0.eq(v) {
            return Some(arms[i].1.clone());
        }
        i += 1;
    }
    None
}

} // verus!

verus! {

use crate::fallback::join_strings;

/// The variant names of a plan, copied.
fn plan_variants(pairs: &Vec<(String, String)>) -> (r: (Vec<String>, Vec<String>))
    ensures
        names(r.0@) == first_of_pairs(pairs@),
        names(r.1@) == second_of_pairs(pairs@),
        r.0.len() == pairs.len(),
        r.1.len() == pairs.len(),
{
    let mut variants: Vec<String> = Vec::new();
    let mut langs: Vec<String> = Vec::new();
    let mut i: usize = 0;
    while i < pairs.len()
        invariant
            i <= pairs.len(),
            names(variants@) == first_of_pairs(pairs@).subrange(0, i as int),
            names(langs@) == second_of_pairs(pairs@).subrange(0, i as int),
        decreases pairs.len() - i,
    {
        let ghost (bv, bl) = (names(variants@), names(langs@));
        variants.push(pairs[i].0.clone());
        langs.push(pairs[i].1.clone());
        assert(names(variants@) =~= bv.push(pairs@[i as int].0@));
        assert(names(langs@) =~= bl.push(pairs@[i as int].1@));
        i += 1;
        assert(names(variants@) =~= first_of_pairs(pairs@).subrange(0, i as int));
        assert(names(langs@) =~= second_of_pairs(pairs@).subrange(0, i as int));
    }
    assert(names(variants@) =~= first_of_pairs(pairs@));
    assert(names(langs@) =~= second_of_pairs(pairs@));
    (variants, langs)
}

/// Checks that a plan compiles; gives the fallback step of each language.
fn check_plan(plan: &ModulePlan, variants: &Vec<String>) -> (r: Result<Vec<usize>, CompileError>)
    requires
        names(variants@) == first_of_pairs(plan.languages.variants@),
    ensures
        r is Ok <==> plan_compiles(*plan),
        r matches Ok(next) ==> next.len() == variants.len() && forall|i: int|
            0 <= i < next.len() ==> Some((#[trigger] next@[i]) as int) == position_of(
                names(variants@),
                solver_step(plan.solver, names(variants@)[i]),
                0,
            ) && next@[i] < variants.len(),
{
    let ghost vs = names(variants@);
    let n = variants.len();
    if n == 0 {
        return Err(CompileError::NoLanguages);
    }
    match first_non_ident(variants) {
        Some(k) => {
            return Err(CompileError::InvalidName(variants[k].clone()));
        },
        None => {},
    }
    match first_repeat(variants) {
        Some(k) => {
            return Err(CompileError::DuplicateVariant(variants[k].clone()));
        },
        None => {},
    }
    let (arms, default_variant) = match &plan.solver {
        FallbackSolver::Table { arms, default_variant } => (arms, default_variant),
        FallbackSolver::Rejected { .. } => {
            return Err(CompileError::FallbackChain);
        },
    };
    let mut next: Vec<usize> = Vec::new();
    let mut i: usize = 0;
    while i < n
        invariant
            i <= n,
            n == variants.len(),
            vs == names(variants@),
            vs == first_of_pairs(plan.languages.variants@),
            plan.solver == (FallbackSolver::Table { arms: *arms, default_variant: *default_variant }),
            next.len() == i,
            forall|j: int|
                0 <= j < i ==> Some((#[trigger] next@[j]) as int) == position_of(
                    vs,
                    solver_step(plan.solver, vs[j]),
                    0,
                ) && next@[j] < n,
        decreases n - i,
    {
        let target = match solver_arm_of(arms, &variants[i]) {
            Some(t) => t,
            None => default_variant.clone(),
        };
        assert(target@ == solver_step(plan.solver, vs[i as int]));
        match position(variants, &target) {
            Some(p) => {
                proof {
                    crate::plan::lemma_position_bound(vs, target@, 0);
                }
                next.push(p);
            },
            None => {
                proof {
                    if plan_compiles(*plan) {
                        assert(position_of(vs, solver_step(plan.solver, vs[i as int]), 0) is Some);
                    }
                }
                return Err(CompileError::UnknownVariant(target));
            },
        }
        i += 1;
    }
    if plan.languages.fallback_idx >= n {
        return Err(CompileError::UnknownVariant(default_variant.clone()));
    }
    match check_structs(&plan.root, variants) {
        Ok(()) => {},
        Err(e) => {
            return Err(e);
        },
    }
    let mut idents: Vec<String> = Vec::new();
    let mut j: usize = 0;
    while j < plan.modules.len()
        invariant
            j <= plan.modules.len(),
            names(idents@) == module_idents(plan.modules@).subrange(0, j as int),
        decreases plan.modules.len() - j,
    {
        let ghost before = names(idents@);
        idents.push(plan.modules[j].ident.clone());
        assert(names(idents@) =~= before.push(plan.modules@[j as int].ident@));
        j += 1;
        assert(names(idents@) =~= module_idents(plan.modules@).subrange(0, j as int));
    }
    assert(names(idents@) =~= module_idents(plan.modules@));
    match first_non_ident(&idents) {
        Some(q) => {
            return Err(CompileError::InvalidName(idents[q].clone()));
        },
        None => {},
    }
    match first_repeat(&idents) {
        Some(q) => {
            return Err(CompileError::DuplicateName(idents[q].clone()));
        },
        None => {},
    }
    let mut j: usize = 0;
    while j < plan.modules.len()
        invariant
            j <= plan.modules.len(),
            vs == names(variants@),
            vs == first_of_pairs(plan.languages.variants@),
            forall|q: int| 0 <= q < j ==> structs_ok((#[trigger] plan.modules@[q]).structs@, vs),
        decreases plan.modules.len() - j,
    {
        match check_structs(&plan.modules[j].structs, variants) {
            Ok(()) => {},
            Err(e) => {
                proof {
                    if plan_compiles(*plan) {
                        assert(structs_ok(plan.modules@[j as int].structs@, vs));
                    }
                }
                return Err(e);
            },
        }
        j += 1;
    }
    assert forall|q: int| 0 <= q < vs.len() implies position_of(
        vs,
        solver_step(plan.solver, #[trigger] vs[q]),
        0,
    ) is Some by {
        assert(Some(next@[q] as int) == position_of(vs, solver_step(plan.solver, vs[q]), 0));
    }
    Ok(next)
}

impl Locale {
    /// Starts the module a plan describes, when it compiles: the languages in
    /// variant order, the fallback step of each language, and the default
    /// language as the current one.
    pub fn new(plan: ModulePlan) -> (r: Result<Locale, CompileError>)
        ensures
            r is Ok <==> plan_compiles(plan),
            r matches Ok(l) ==> {
                &&& l.wf()
                &&& names(l.variants@) == first_of_pairs(plan.languages.variants@)
                &&& names(l.languages@) == second_of_pairs(plan.languages.variants@)
                &&& l.default_lang == plan.languages.fallback_idx
                &&& l.current == l.default_lang
                &&& forall|i: int|
                    0 <= i < l.next.len() ==> Some((#[trigger] l.next@[i]) as int) == position_of(
                        names(l.variants@),
                        solver_step(plan.solver, names(l.variants@)[i]),
                        0,
                    )
                &&& l.root == plan.root
                &&& l.modules == plan.modules
            },
    {
        let (variants, langs) = plan_variants(&plan.languages.variants);
        let next = match check_plan(&plan, &variants) {
            Ok(next) => next,
            Err(e) => {
                return Err(e);
            },
        };
        let n = variants.len();
        let ModulePlan { languages, solver, root, modules } = plan;
        let mut snakes: Vec<String> = Vec::new();
        let mut trie_data: Vec<(String, usize)> = Vec::new();
        let mut i: usize = 0;
        while i < n
            invariant
                i <= n,
                n == langs.len(),
                snakes.len() == i,
                trie_data.len() == i,
                forall|q: int| 0 <= q < i ==> (#[trigger] snakes@[q])@ == snake_case(langs@[q]@),
                entries_view(trie_data@) == snake_entries(names(langs@)).subrange(0, i as int),
            decreases n - i,
        {
            let snake = to_snake_case(langs[i].as_str());
            trie_data.push((snake.clone(), i));
            snakes.push(snake);
            assert(entries_view(trie_data@) =~= snake_entries(names(langs@)).subrange(0, i + 1));
            i += 1;
        }
        assert(entries_view(trie_data@) =~= snake_entries(names(langs@)));
        let trie = gen_trie_match(&trie_data, 0);
        let available = join_strings(&snakes, ", ");
        assert(names(snakes@) =~= Seq::new(n as nat, |q: int| snake_case(langs@[q]@)));
        assert(closed_steps(next@));
        let fallback_idx = languages.fallback_idx;
        Ok(
            Locale {
                languages: langs,
                variants,
                trie,
                available,
                next,
                default_lang: fallback_idx,
                root,
                modules,
                current: fallback_idx,
            },
        )
    }
}

} // verus!

verus! {

/// What the generated matcher answers for the input `s` (given as a string
/// and as its characters).
pub fn trie_lookup(n: &TrieNode, s: &String, cs: &Vec<char>, depth: usize) -> (r: Option<usize>)
    requires
        cs@ == s@,
    ensures
        r == node_lookup(*n, s@, depth as int),
    decreases n,
{
    let mut i: usize = 0;
    while i < n.exact.len()
        invariant
            i <= n.exact.len(),
            first_exact(n.exact@, s@, 0) == first_exact(n.exact@, s@, i as int),
        decreases n.exact.len() - i,
    {
        if n.exact[i].0.eq(s) {
            return Some(n.exact[i].1);
        }
        i += 1;
    }
    if depth >= cs.len() {
        return None;
    }
    let c = cs[depth];
    let mut k: usize = 0;
    while k < n.arms.len()
        invariant
            k <= n.arms.len(),
            depth < s@.len(),
            depth < cs.len(),
            cs@ == s@,
            first_exact(n.exact@, s@, 0) is None,
            c == s@[depth as int],
            arm_lookup(*n, s@, depth as int, 0) == arm_lookup(*n, s@, depth as int, k as int),
        decreases n.arms.len() - k,
    {
        if n.arms[k].0 == c {
            match &n.arms[k].1 {
                crate::trie::TrieArm::Single(name, v) => {
                    return if name.eq(s) {
                        Some(*v)
                    } else {
                        None
                    };
                },
                crate::trie::TrieArm::Branch(sub) => {
                    assert(decreases_to!(*n => n.arms));
                    return trie_lookup(sub, s, cs, depth + 1);
                },
            }
        }
        k += 1;
    }
    None
}

/// The first struct, from `i` on, named `name`.
pub open spec fn struct_in(v: Seq<StructPlan>, name: Seq<char>, i: int) -> Option<StructPlan>
    decreases v.len() - i,
{
    if i < 0 || i >= v.len() {
        None
    } else if v[i].name@ == name {
        Some(v[i])
    } else {
        struct_in(v, name, i + 1)
    }
}

/// The first submodule, from `i` on, named `ident`.
pub open spec fn module_in(v: Seq<SubModule>, ident: Seq<char>, i: int) -> Option<SubModule>
    decreases v.len() - i,
{
    if i < 0 || i >= v.len() {
        None
    } else if v[i].ident@ == ident {
        Some(v[i])
    } else {
        module_in(v, ident, i + 1)
    }
}

/// The first function, from `i` on, named `name`.
pub open spec fn method_in(v: Seq<EntryPlan>, name: Seq<char>, i: int) -> Option<EntryPlan>
    decreases v.len() - i,
{
    if i < 0 || i >= v.len() {
        None
    } else if v[i].method@ == name {
        Some(v[i])
    } else {
        method_in(v, name, i + 1)
    }
}

/// A language of the chain translates the key: some arm names its variant.
pub open spec fn translates(arms: Seq<(String, ArmValue)>, variants: Seq<String>, x: int) -> bool {
    arm_for(arms, variants[x]@, 0) is Some
}

impl Locale {
    /// The struct `name` of submodule `module` (`None`: of the root).
    pub open spec fn struct_of(&self, module: Option<Seq<char>>, name: Seq<char>) -> Option<StructPlan> {
        match module {
            None => struct_in(self.root@, name, 0),
            Some(m) => match module_in(self.modules@, m, 0) {
                Some(sm) => struct_in(sm.structs@, name, 0),
                None => None,
            },
        }
    }

    /// The function `method` of that struct.
    pub open spec fn method_of(&self, module: Option<Seq<char>>, name: Seq<char>, method: Seq<char>) -> Option<
        EntryPlan,
    > {
        match self.struct_of(module, name) {
            Some(s) => method_in(s.methods@, method, 0),
            None => None,
        }
    }

    /// The current language (`lang()`).
    pub fn lang(&self) -> (r: usize)
        ensures
            r == self.current,
    {
        self.current
    }

    /// Sets the current language (`set_lang(Languages)`).
    pub fn set_lang(&mut self, lang: usize)
        requires
            old(self).wf(),
            lang < old(self).languages.len(),
        ensures
            final(self).wf(),
            *final(self) == (Locale { current: lang, ..*old(self) }),
    {
        self.current = lang;
    }

    /// The language named by the variant `name` (`Languages::name`).
    pub fn variant(&self, name: &str) -> (r: Option<usize>)
        ensures
            match r {
                Some(i) => position_of(names(self.variants@), name@, 0) == Some(i as int),
                None => position_of(names(self.variants@), name@, 0) is None,
            },
    {
        position(&self.variants, &name.to_owned())
    }

    /// `Languages::from(&str)`: the first language whose snake_case name is
    /// the normalised input; `None` where the generated code panics.
    pub fn language_from_str(&self, s: &str) -> (r: Option<usize>)
        requires
            self.wf(),
        ensures
            r == first_named(snake_entries(names(self.languages@)), normalized(s@)),
    {
        let norm = normalize_lang(s);
        let cs = chars_of(norm.as_str());
        trie_lookup(&self.trie, &norm, &cs, 0)
    }

    /// `set_lang(&str)`: sets the language the text names; on an unknown
    /// name, the message the generated code panics with.
    pub fn set_lang_str(&mut self, s: &str) -> (r: Result<(), String>)
        requires
            old(self).wf(),
        ensures
            final(self).wf(),
            match first_named(snake_entries(names(old(self).languages@)), normalized(s@)) {
                Some(i) => r is Ok && *final(self) == (Locale { current: i, ..*old(self) }),
                None => *final(self) == *old(self) && (r matches Err(m) && m@
                    == "shakehand: unknown language '"@ + normalized(s@)
                    + "', available languages: ["@ + old(self).available@ + "]"@),
            },
    {
        match self.language_from_str(s) {
            Some(i) => {
                proof {
                    crate::trie::lemma_first_named_bound(snake_entries(names(self.languages@)), normalized(s@));
                }
                self.current = i;
                Ok(())
            },
            None => {
                let norm = normalize_lang(s);
                let mut m = "shakehand: unknown language '".to_owned();
                m.append(norm.as_str());
                m.append("', available languages: [");
                m.append(self.available.as_str());
                m.append("]");
                Err(m)
            },
        }
    }

    /// `Display`: the language's own name.
    pub fn display(&self, lang: usize) -> (r: String)
        requires
            lang < self.languages.len(),
        ensures
            r@ == self.languages@[lang as int]@,
    {
        self.languages[lang].clone()
    }

    /// `FallbackSolver::try_fallback_once`.
    pub fn fallback_once(&self, lang: usize) -> (r: usize)
        requires
            self.wf(),
            lang < self.languages.len(),
        ensures
            r == self.next@[lang as int],
            r < self.languages.len(),
    {
        self.next[lang]
    }
}

} // verus!

verus! {

fn find_struct(v: &Vec<StructPlan>, name: &String) -> (r: Option<usize>)
    ensures
        match r {
            Some(i) => i < v.len() && struct_in(v@, name@, 0) == Some(v@[i as int]),
            None => struct_in(v@, name@, 0) is None,
        },
{
    let mut i: usize = 0;
    while i < v.len()
        invariant
            i <= v.len(),
            struct_in(v@, name@, 0) == struct_in(v@, name@, i as int),
        decreases v.len() - i,
    {
        if v[i].name.eq(name) {
            return Some(i);
        }
        i += 1;
    }
    None
}

fn find_module(v: &Vec<SubModule>, ident: &String) -> (r: Option<usize>)
    ensures
        match r {
            Some(i) => i < v.len() && module_in(v@, ident@, 0) == Some(v@[i as int]),
            None => module_in(v@, ident@, 0) is None,
        },
{
    let mut i: usize = 0;
    while i < v.len()
        invariant
            i <= v.len(),
            module_in(v@, ident@, 0) == module_in(v@, ident@, i as int),
        decreases v.len() - i,
    {
        if v[i].ident.eq(ident) {
            return Some(i);
        }
        i += 1;
    }
    None
}

fn find_method(v: &Vec<EntryPlan>, name: &String) -> (r: Option<usize>)
    ensures
        match r {
            Some(i) => i < v.len() && method_in(v@, name@, 0) == Some(v@[i as int]),
            None => method_in(v@, name@, 0) is None,
        },
{
    let mut i: usize = 0;
    while i < v.len()
        invariant
            i <= v.len(),
            method_in(v@, name@, 0) == method_in(v@, name@, i as int),
        decreases v.len() - i,
    {
        if v[i].method.eq(name) {
            return Some(i);
        }
        i += 1;
    }
    None
}

fn find_arm(arms: &Vec<(String, ArmValue)>, v: &String) -> (r: Option<usize>)
    ensures
        match r {
            Some(i) => i < arms.len() && arm_for(arms@, v@, 0) == Some(arms@[i as int].1),
            None => arm_for(arms@, v@, 0) is None,
        },
{
    let mut i: usize = 0;
    while i < arms.len()
        invariant
            i <= arms.len(),
            arm_for(arms@, v@, 0) == arm_for(arms@, v@, i as int),
        decreases arms.len() - i,
    {
        if arms[i].0.eq(v) {
            return Some(i);
        }
        i += 1;
    }
    None
}

/// The `format!` arguments: for each variable, the call argument of its parameter.
fn bind_args(idents: &Vec<String>, params: &Vec<String>, args: &Vec<String>) -> (r: Vec<String>)
    requires
        args.len() == params.len(),
        forall|k: int|
            0 <= k < idents.len() ==> param_index(names(params@), (#[trigger] idents@[k])@, 0) is Some,
    ensures
        names(r@) == bound_args(names(idents@), names(params@), names(args@)),
{
    let mut r: Vec<String> = Vec::new();
    let mut k: usize = 0;
    while k < idents.len()
        invariant
            k <= idents.len(),
            args.len() == params.len(),
            forall|q: int|
                0 <= q < idents.len() ==> param_index(names(params@), (#[trigger] idents@[q])@, 0) is Some,
            names(r@) == bound_args(names(idents@), names(params@), names(args@)).subrange(0, k as int),
        decreases idents.len() - k,
    {
        let p = match param_position(params, &idents[k]) {
            Some(p) => p,
            None => {
                assert(false);
                0
            },
        };
        proof {
            lemma_param_index_bound(names(params@), idents@[k as int]@, 0);
        }
        let ghost before = names(r@);
        r.push(args[p].clone());
        assert(names(r@) =~= before.push(args@[p as int]@));
        k += 1;
        assert(names(r@) =~= bound_args(names(idents@), names(params@), names(args@)).subrange(0, k as int));
    }
    assert(bound_args(names(idents@), names(params@), names(args@)).subrange(0, idents.len() as int)
        =~= bound_args(names(idents@), names(params@), names(args@)));
    r
}

/// A position found is a position of the list.
proof fn lemma_param_index_bound(s: Seq<Seq<char>>, x: Seq<char>, i: int)
    ensures
        param_index(s, x, i) matches Some(p) ==> i <= p < s.len(),
    decreases s.len() - i,
{
    if 0 <= i < s.len() && s[i] != x {
        lemma_param_index_bound(s, x, i + 1);
    }
}

/// What a call of a translation function with arms gives: the text of the
/// first language on the fallback chain of `start` that has an arm; never
/// returning when there is none.
pub open spec fn walk_result(
    next: Seq<usize>,
    variants: Seq<String>,
    arms: Seq<(String, ArmValue)>,
    params: Seq<Seq<char>>,
    args: Seq<Seq<char>>,
    start: int,
    r: Result<String, CallError>,
) -> bool {
    match r {
        Ok(s) => exists|n: nat|
            n < next.len() && translates(arms, variants, #[trigger] ichain(next, start, n)) && (forall|m: nat|
                m < n ==> !translates(arms, variants, #[trigger] ichain(next, start, m))) && s@
                == arm_text(arm_for(arms, variants[ichain(next, start, n)]@, 0)->0, params, args),
        Err(e) => e == CallError::Unreachable && forall|n: nat|
            !translates(arms, variants, #[trigger] ichain(next, start, n)),
    }
}

impl Locale {
    /// What calling function `method` of struct `name` gives.
    pub open spec fn call_outcome(
        &self,
        module: Option<Seq<char>>,
        name: Seq<char>,
        method: Seq<char>,
        args: Seq<String>,
        r: Result<String, CallError>,
    ) -> bool {
        match self.method_of(module, name, method) {
            None => r == Err::<String, CallError>(CallError::NoSuchFunction),
            Some(p) => match p.body {
                EntryBody::Arms(arms) => if args.len() != p.params.len() {
                    r == Err::<String, CallError>(CallError::WrongArgumentCount)
                } else {
                    walk_result(
                        self.next@,
                        self.variants@,
                        arms@,
                        names(p.params@),
                        names(args),
                        self.current as int,
                        r,
                    )
                },
                _ => r == Err::<String, CallError>(CallError::Untranslated),
            },
        }
    }

    /// Calls the translation function `method` of struct `struct_name` (in
    /// submodule `module`, or the root) with the current language and the
    /// arguments in parameter order.
    pub fn translate(&self, module: Option<&str>, struct_name: &str, method: &str, args: &Vec<String>) -> (r:
        Result<String, CallError>)
        requires
            self.wf(),
        ensures
            self.call_outcome(
                match module {
                    Some(m) => Some(m@),
                    None => None,
                },
                struct_name@,
                method@,
                args@,
                r,
            ),
    {
        let sname = struct_name.to_owned();
        let structs: &Vec<StructPlan> = match module {
            None => &self.root,
            Some(m) => match find_module(&self.modules, &m.to_owned()) {
                Some(j) => &self.modules[j].structs,
                None => {
                    return Err(CallError::NoSuchFunction);
                },
            },
        };
        assert(structs_ok(structs@, names(self.variants@)));
        let si = match find_struct(structs, &sname) {
            Some(i) => i,
            None => {
                return Err(CallError::NoSuchFunction);
            },
        };
        let mi = match find_method(&structs[si].methods, &method.to_owned()) {
            Some(k) => k,
            None => {
                return Err(CallError::NoSuchFunction);
            },
        };
        let p = &structs[si].methods[mi];
        assert(method_ok(*p, names(self.variants@)));
        let arms = match &p.body {
            EntryBody::Arms(arms) => arms,
            _ => {
                return Err(CallError::Untranslated);
            },
        };
        if args.len() != p.params.len() {
            return Err(CallError::WrongArgumentCount);
        }
        let ghost has = |x: int| translates(arms@, self.variants@, x);
        let ghost mv = match module {
            Some(m) => Some(m@),
            None => None::<Seq<char>>,
        };
        assert(self.method_of(mv, struct_name@, method@) == Some(*p));
        let n = self.languages.len();
        let mut cur = self.current;
        let mut steps: usize = 0;
        while steps < n
            invariant
                self.wf(),
                n == self.languages.len(),
                steps <= n,
                cur < n,
                args.len() == p.params.len(),
                method_ok(*p, names(self.variants@)),
                p.body == EntryBody::Arms(*arms),
                self.method_of(mv, struct_name@, method@) == Some(*p),
                mv == match module {
                    Some(m) => Some(m@),
                    None => None::<Seq<char>>,
                },
                cur as int == ichain(self.next@, self.current as int, steps as nat),
                forall|m: nat|
                    m < steps ==> !translates(arms@, self.variants@, #[trigger] ichain(self.next@, self.current as int, m)),
            decreases n - steps,
        {
            match find_arm(arms, &self.variants[cur]) {
                Some(a) => {
                    assert(translates(arms@, self.variants@, ichain(self.next@, self.current as int, steps as nat)));
                    let text = match &arms[a].1 {
                        ArmValue::Text(t) => t.clone(),
                        ArmValue::Format(f, idents) => {
                            assert(arms@[a as int].1 == ArmValue::Format(*f, *idents));
                            assert(arity_from(f@, 0) == Some(idents.len() as nat));
                            let vals = bind_args(idents, &p.params, args);
                            proof {
                                assert(names(vals@).len() == idents.len());
                                lemma_render_arity(f@, names(vals@), 0, 0);
                            }
                            match render_format(f.as_str(), &vals) {
                                Some(s) => s,
                                None => {
                                    assert(false);
                                    String::new()
                                },
                            }
                        },
                    };
                    proof {
                        let st = steps as nat;
                        assert(cur as int == ichain(self.next@, self.current as int, st));
                        assert(arm_for(arms@, self.variants@[cur as int]@, 0) == Some(arms@[a as int].1));
                        assert(text@ == arm_text(arms@[a as int].1, names(p.params@), names(args@)));
                        assert(translates(arms@, self.variants@, ichain(self.next@, self.current as int, st)));
                        assert(walk_result(
                            self.next@,
                            self.variants@,
                            arms@,
                            names(p.params@),
                            names(args@),
                            self.current as int,
                            Ok::<String, CallError>(text),
                        ));
                        assert(self.call_outcome(mv, struct_name@, method@, args@, Ok::<String, CallError>(text)));
                    }
                    return Ok(text);
                },
                None => {},
            }
            cur = self.next[cur];
            steps += 1;
        }
        proof {
            assert forall|k: nat| !translates(arms@, self.variants@, #[trigger] ichain(self.next@, self.current as int, k)) by {
                if translates(arms@, self.variants@, ichain(self.next@, self.current as int, k)) {
                    lemma_reached_early(self.next@, self.current as int, has, k);
                    let m = choose|m: nat| m < self.next@.len() && #[trigger] has(ichain(self.next@, self.current as int, m));
                    assert(!translates(arms@, self.variants@, ichain(self.next@, self.current as int, m)));
                }
            }
        }
        Err(CallError::Unreachable)
    }
}

} // verus!
