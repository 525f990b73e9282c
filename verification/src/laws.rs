//! What holds of the library as a whole: how the generated module answers
//! language names, where the fallback solver sends each language, and what a
//! translation call returns.

use vstd::prelude::*;
use crate::chars::names;
use crate::fallback::{
    FallbackSolver, chain, chain_settles, distinct_upto, ends_well, fallback_of, lemma_lookup_index, lookup,
    pairs_view, solver_plan_of,
};
use crate::naming::snake_case;
use crate::plan::{ArmValue, ModulePlan, arm_matches, languages_plan_of, position_of, snake_all, snake_entries};
use crate::render::render_from;
use crate::runtime::{
    Locale, arm_for, arm_text, bound_args, closed_steps, first_of_pairs, ichain, param_index, plan_compiles,
    solver_arm, solver_step, translates, walk_result,
};
use crate::text::{
    distinct_names, format_text_from, lemma_token_end, opens_at, params_of, placeholder_name,
    placeholders_from, token_end, variant_of,
};
use crate::trie::first_named;

verus! {

/// The variant names of a list of languages.
pub open spec fn variants_of(langs: Seq<String>) -> Seq<Seq<char>> {
    Seq::new(langs.len(), |j: int| variant_of(langs[j]@))
}

/// `Languages::from(&str)` answers the first language whose snake_case name
/// is the (normalised) input, and has no answer exactly when no language has
/// that snake_case name.
pub proof fn lemma_from_str_answer(langs: Seq<Seq<char>>, x: Seq<char>)
    requires
        langs.len() <= usize::MAX,
    ensures
        match first_named(snake_entries(langs), x) {
            Some(k) => {
                &&& k < langs.len()
                &&& snake_case(langs[k as int]) == x
                &&& forall|j: int| 0 <= j < k ==> snake_case(#[trigger] langs[j]) != x
            },
            None => forall|j: int| 0 <= j < langs.len() ==> snake_case(#[trigger] langs[j]) != x,
        },
    decreases langs.len(),
{
    if langs.len() > 0 {
        let init = langs.drop_last();
        let last = (langs.len() - 1) as int;
        lemma_from_str_answer(init, x);
        assert(snake_entries(langs).drop_last() =~= snake_entries(init));
        assert(snake_entries(langs).last() == (snake_case(langs[last]), last as usize));
        assert forall|j: int| 0 <= j < init.len() implies #[trigger] init[j] == langs[j] by {}
        match first_named(snake_entries(init), x) {
            Some(k) => {
                assert(first_named(snake_entries(langs), x) == Some(k));
                assert(init[k as int] == langs[k as int]);
                assert forall|j: int| 0 <= j < k implies snake_case(#[trigger] langs[j]) != x by {
                    assert(init[j] == langs[j]);
                }
            },
            None => {
                if snake_case(langs[last]) == x {
                    assert(first_named(snake_entries(langs), x) == Some(last as usize));
                    assert forall|j: int| 0 <= j < last implies snake_case(#[trigger] langs[j]) != x by {
                        assert(init[j] == langs[j]);
                    }
                } else {
                    assert(first_named(snake_entries(langs), x) is None);
                    assert forall|j: int| 0 <= j < langs.len() implies snake_case(#[trigger] langs[j]) != x by {
                        if j < last {
                            assert(init[j] == langs[j]);
                        }
                    }
                }
            },
        }
    }
}

/// First match of a solver arm: an arm for `v` at `i`, with none for `v`
/// between `j` and `i`, is the one found from `j`.
proof fn lemma_solver_arm_at(arms: Seq<(String, String)>, v: Seq<char>, j: int, i: int)
    requires
        0 <= j <= i < arms.len(),
        arms[i].0@ == v,
        forall|k: int| j <= k < i ==> (#[trigger] arms[k]).0@ != v,
    ensures
        solver_arm(arms, v, j) == Some(arms[i].1@),
    decreases i - j,
{
    if j < i {
        lemma_solver_arm_at(arms, v, j + 1, i);
    }
}

/// Where every fallback chain ends and the variant names are distinct, the
/// solver sends each language to the variant of its configured fallback, or
/// of the default fallback when it has none.
pub proof fn lemma_solver_step(
    solver: FallbackSolver,
    langs: Seq<String>,
    m: Seq<(String, String)>,
    d: Seq<char>,
    i: int,
)
    requires
        solver_plan_of(solver, langs, m, d),
        forall|j: int| 0 <= j < langs.len() ==> chain_settles(pairs_view(m), d, #[trigger] langs[j]@),
        variants_of(langs).no_duplicates(),
        0 <= i < langs.len(),
    ensures
        solver_step(solver, variant_of(langs[i]@)) == variant_of(
            fallback_of(pairs_view(m), d, langs[i]@),
        ),
{
    match solver {
        FallbackSolver::Table { arms, default_variant } => {
            let v = variant_of(langs[i]@);
            assert(arms@[i].0@ == v);
            assert forall|k: int| 0 <= k < i implies (#[trigger] arms@[k]).0@ != v by {
                assert(arms@[k].0@ == variants_of(langs)[k]);
                assert(v == variants_of(langs)[i]);
            }
            lemma_solver_arm_at(arms@, v, 0, i);
        },
        FallbackSolver::Rejected { .. } => {
            let j = choose|j: int| 0 <= j < langs.len() && !chain_settles(pairs_view(m), d, #[trigger] langs[j]@);
            assert(chain_settles(pairs_view(m), d, langs[j]@));
        },
    }
}

/// In a module started from a plan whose enum and solver were decided for
/// `langs` (as `locale_plan` decides them), `try_fallback_once` takes each
/// language to its configured fallback, or to the default fallback.
pub proof fn lemma_fallback_once(
    l: Locale,
    plan: ModulePlan,
    langs: Seq<String>,
    m: Seq<(String, String)>,
    d: Seq<char>,
    fallback: Seq<char>,
    path: Seq<char>,
    i: int,
)
    requires
        languages_plan_of(plan.languages, langs, fallback, path),
        solver_plan_of(plan.solver, langs, m, d),
        plan_compiles(plan),
        l.wf(),
        names(l.variants@) == first_of_pairs(plan.languages.variants@),
        forall|k: int|
            0 <= k < l.next.len() ==> Some((#[trigger] l.next@[k]) as int) == position_of(
                names(l.variants@),
                solver_step(plan.solver, names(l.variants@)[k]),
                0,
            ),
        0 <= i < langs.len(),
    ensures
        names(l.variants@)[l.next@[i] as int] == variant_of(fallback_of(pairs_view(m), d, langs[i]@)),
{
    let vs = names(l.variants@);
    assert(vs =~= variants_of(langs)) by {
        assert forall|k: int| 0 <= k < vs.len() implies vs[k] == variants_of(langs)[k] by {
            assert(plan.languages.variants@[k].0@ == variant_of(langs[k]@));
        }
    }
    assert forall|j: int| 0 <= j < langs.len() implies chain_settles(
        pairs_view(m),
        d,
        #[trigger] langs[j]@,
    ) by {
        if !chain_settles(pairs_view(m), d, langs[j]@) {
            assert(plan.solver is Rejected);
        }
    }
    lemma_solver_step(plan.solver, langs, m, d, i);
    crate::plan::lemma_position_bound(vs, solver_step(plan.solver, vs[i]), 0);
}

/// Every language of a chain is a language of the list, when the default
/// fallback and every configured fallback are.
proof fn lemma_chain_in_langs(
    langs: Seq<String>,
    m: Seq<(String, String)>,
    d: Seq<char>,
    x: Seq<char>,
    t: nat,
)
    requires
        names(langs).contains(x),
        names(langs).contains(d),
        forall|k: int| 0 <= k < m.len() ==> names(langs).contains(#[trigger] m[k].1@),
    ensures
        names(langs).contains(chain(pairs_view(m), d, x, t)),
    decreases t,
{
    if t > 0 {
        lemma_chain_in_langs(langs, m, d, x, (t - 1) as nat);
        let y = chain(pairs_view(m), d, x, (t - 1) as nat);
        match lookup(pairs_view(m), y) {
            Some(z) => {
                let k = lemma_lookup_index(pairs_view(m), y, 0);
                assert(pairs_view(m)[k].1 == m[k].1@);
            },
            None => {},
        }
    }
}

/// Following `try_fallback_once` `t` times from language `i` follows the
/// fallback chain of its language `t` steps.
proof fn lemma_steps_follow_chain(
    next: Seq<usize>,
    vs: Seq<Seq<char>>,
    langs: Seq<String>,
    m: Seq<(String, String)>,
    d: Seq<char>,
    i: int,
    t: nat,
)
    requires
        next.len() == langs.len(),
        vs.len() == langs.len(),
        closed_steps(next),
        vs.no_duplicates(),
        forall|k: int| 0 <= k < vs.len() ==> #[trigger] vs[k] == variant_of(langs[k]@),
        forall|k: int|
            0 <= k < next.len() ==> vs[#[trigger] next[k] as int] == variant_of(
                fallback_of(pairs_view(m), d, langs[k]@),
            ),
        names(langs).contains(d),
        forall|k: int| 0 <= k < m.len() ==> names(langs).contains(#[trigger] m[k].1@),
        0 <= i < langs.len(),
    ensures
        0 <= ichain(next, i, t) < langs.len(),
        langs[ichain(next, i, t)]@ == chain(pairs_view(m), d, langs[i]@, t),
    decreases t,
{
    if t > 0 {
        lemma_steps_follow_chain(next, vs, langs, m, d, i, (t - 1) as nat);
        let c = ichain(next, i, (t - 1) as nat);
        assert(names(langs)[i] == langs[i]@);
        lemma_chain_in_langs(langs, m, d, langs[i]@, t);
        let y = chain(pairs_view(m), d, langs[i]@, t);
        let k2 = choose|k2: int| 0 <= k2 < names(langs).len() && names(langs)[k2] == y;
        assert(langs[k2]@ == y);
        let nc = next[c] as int;
        assert(nc < next.len());
        assert(vs[nc] == variant_of(y));
        assert(vs[k2] == variant_of(y));
        assert(nc == k2);
    }
}

/// In a module started from a plan whose enum and solver were decided for
/// `langs` (as `locale_plan` decides them, with every configured fallback and
/// the default among the languages), the chain of `try_fallback_once` from
/// every language reaches the default fallback within as many steps as there
/// are languages, and there it stays.
pub proof fn lemma_fallback_reaches_default(
    l: Locale,
    plan: ModulePlan,
    langs: Seq<String>,
    m: Seq<(String, String)>,
    d: Seq<char>,
    fallback: Seq<char>,
    path: Seq<char>,
    i: int,
)
    requires
        languages_plan_of(plan.languages, langs, fallback, path),
        solver_plan_of(plan.solver, langs, m, d),
        plan_compiles(plan),
        l.wf(),
        names(l.variants@) == first_of_pairs(plan.languages.variants@),
        forall|k: int|
            0 <= k < l.next.len() ==> Some((#[trigger] l.next@[k]) as int) == position_of(
                names(l.variants@),
                solver_step(plan.solver, names(l.variants@)[k]),
                0,
            ),
        names(langs).contains(d),
        forall|k: int| 0 <= k < m.len() ==> names(langs).contains(#[trigger] m[k].1@),
        0 <= i < langs.len(),
    ensures
        exists|n: nat|
            n < langs.len() && names(l.variants@)[ichain(l.next@, i, n)] == variant_of(d) && l.next@[ichain(
                l.next@,
                i,
                n,
            )] as int == #[trigger] ichain(l.next@, i, n),
{
    let vs = names(l.variants@);
    let next = l.next@;
    let mv = pairs_view(m);
    assert forall|k: int| 0 <= k < vs.len() implies #[trigger] vs[k] == variant_of(langs[k]@) by {
        assert(plan.languages.variants@[k].0@ == variant_of(langs[k]@));
    }
    assert forall|k: int| 0 <= k < next.len() implies vs[#[trigger] next[k] as int] == variant_of(
        fallback_of(mv, d, langs[k]@),
    ) by {
        lemma_fallback_once(l, plan, langs, m, d, fallback, path, k);
    }
    assert(chain_settles(mv, d, langs[i]@)) by {
        if !chain_settles(mv, d, langs[i]@) {
            assert(plan.solver is Rejected);
        }
    }
    let n = choose|n: nat| distinct_upto(mv, d, langs[i]@, n) && ends_well(mv, d, #[trigger] chain(mv, d, langs[i]@, n));
    lemma_steps_follow_chain(next, vs, langs, m, d, i, n);
    let c = ichain(next, i, n);
    assert(langs[c]@ == d);
    assert(vs[next[c] as int] == variant_of(fallback_of(mv, d, d)));
    assert(vs[c] == variant_of(d));
    assert(next[c] < next.len());
    assert(next[c] as int == c);
    let s = Seq::new(n + 1, |t: int| chain(mv, d, langs[i]@, t as nat));
    assert forall|t: int| 0 <= t < s.len() implies names(langs).contains(#[trigger] s[t]) by {
        assert(names(langs)[i] == langs[i]@);
        lemma_chain_in_langs(langs, m, d, langs[i]@, t as nat);
    }
    assert(s.no_duplicates()) by {
        assert forall|a: int, b: int| 0 <= a < s.len() && 0 <= b < s.len() && a != b implies s[a] != s[b] by {
            if a < b {
                assert(chain(mv, d, langs[i]@, a as nat) != chain(mv, d, langs[i]@, b as nat));
            } else {
                assert(chain(mv, d, langs[i]@, b as nat) != chain(mv, d, langs[i]@, a as nat));
            }
        }
    }
    crate::fallback::lemma_distinct_within(s, names(langs));
    assert(ichain(next, i, n) == c);
}

/// A call made in a language that translates the key answers that
/// language's own text.
pub proof fn lemma_own_text_first(
    next: Seq<usize>,
    variants: Seq<String>,
    arms: Seq<(String, ArmValue)>,
    params: Seq<Seq<char>>,
    args: Seq<Seq<char>>,
    start: int,
    r: Result<String, crate::runtime::CallError>,
)
    requires
        walk_result(next, variants, arms, params, args, start, r),
        translates(arms, variants, start),
    ensures
        r matches Ok(s) && s@ == arm_text(arm_for(arms, variants[start]@, 0)->0, params, args),
{
    assert(ichain(next, start, 0) == start);
    match r {
        Ok(s) => {
            let n = choose|n: nat|
                n < next.len() && translates(arms, variants, #[trigger] ichain(next, start, n)) && (forall|m: nat|
                    m < n ==> !translates(arms, variants, #[trigger] ichain(next, start, m))) && s@
                    == arm_text(arm_for(arms, variants[ichain(next, start, n)]@, 0)->0, params, args);
            if n > 0 {
                assert(!translates(arms, variants, ichain(next, start, 0)));
            }
        },
        Err(_) => {
            assert(!translates(arms, variants, ichain(next, start, 0)));
        },
    }
}

} // verus!

verus! {

/// From index `i` on, every brace of the text belongs to a placeholder.
pub open spec fn braces_only_in_placeholders(s: Seq<char>, i: int) -> bool
    decreases s.len() - i,
{
    if i < 0 || i >= s.len() {
        true
    } else {
        proof {
            lemma_token_end(s, i);
        }
        if opens_at(s, i) {
            braces_only_in_placeholders(s, token_end(s, i))
        } else {
            s[i] != '{' && s[i] != '}' && braces_only_in_placeholders(s, i + 1)
        }
    }
}

/// The call argument of the parameter named `x`, if there is one.
pub open spec fn argument_for(params: Seq<Seq<char>>, args: Seq<Seq<char>>, x: Seq<char>) -> Seq<char> {
    match param_index(params, x, 0) {
        Some(p) => args[p],
        None => Seq::empty(),
    }
}

/// The text from index `i` on with each placeholder replaced by the argument
/// of the parameter of its (snake_case) name.
pub open spec fn filled_from(
    s: Seq<char>,
    i: int,
    params: Seq<Seq<char>>,
    args: Seq<Seq<char>>,
) -> Seq<char>
    decreases s.len() - i,
{
    if i < 0 || i >= s.len() {
        Seq::empty()
    } else {
        proof {
            lemma_token_end(s, i);
        }
        if opens_at(s, i) {
            argument_for(params, args, snake_case(placeholder_name(s, i))) + filled_from(
                s,
                token_end(s, i),
                params,
                args,
            )
        } else {
            seq![s[i]] + filled_from(s, i + 1, params, args)
        }
    }
}

/// Formatting a text behind a prefix, from past the prefix on, is
/// formatting the text alone.
proof fn lemma_render_shift(a: Seq<char>, b: Seq<char>, vals: Seq<Seq<char>>, j: int, k: int)
    requires
        0 <= j <= b.len(),
    ensures
        render_from(a + b, vals, a.len() + j, k) == render_from(b, vals, j, k),
    decreases b.len() - j,
{
    let f = a + b;
    if j < b.len() {
        assert(f[a.len() + j] == b[j]);
        if j + 1 < b.len() {
            assert(f[a.len() + j + 1] == b[j + 1]);
        }
        lemma_render_shift(a, b, vals, j + 1, k);
        if j + 2 <= b.len() {
            lemma_render_shift(a, b, vals, j + 2, k);
            lemma_render_shift(a, b, vals, j + 2, k + 1);
        }
    }
}

/// Names that are non-empty and distinct are their own distinct names.
proof fn lemma_distinct_names_same(ps: Seq<Seq<char>>)
    requires
        ps.no_duplicates(),
        forall|t: int| 0 <= t < ps.len() ==> (#[trigger] ps[t]).len() > 0,
    ensures
        distinct_names(ps) == ps,
    decreases ps.len(),
{
    if ps.len() > 0 {
        let init = ps.drop_last();
        assert forall|t: int| 0 <= t < init.len() implies (#[trigger] init[t]).len() > 0 by {
            assert(init[t] == ps[t]);
        }
        assert(init.no_duplicates()) by {
            assert forall|x: int, y: int| 0 <= x < init.len() && 0 <= y < init.len() && x != y implies init[x] != init[y] by {
                assert(init[x] == ps[x] && init[y] == ps[y]);
            }
        }
        lemma_distinct_names_same(init);
        assert(!init.contains(ps.last())) by {
            if init.contains(ps.last()) {
                let t = choose|t: int| 0 <= t < init.len() && init[t] == ps.last();
                assert(ps[t] == ps[ps.len() - 1]);
            }
        }
        assert(ps.last().len() > 0) by {
            assert(ps[ps.len() - 1] == ps.last());
        }
        assert(init.push(ps.last()) =~= ps);
    }
}

/// Formatting the `{}` text of `s` from index `i` on, with the first `k`
/// arguments used and the rest those of the placeholders there in order,
/// gives the text with the placeholders filled.
proof fn lemma_fill(
    s: Seq<char>,
    i: int,
    vals: Seq<Seq<char>>,
    k: int,
    params: Seq<Seq<char>>,
    args: Seq<Seq<char>>,
)
    requires
        0 <= i <= s.len(),
        0 <= k,
        braces_only_in_placeholders(s, i),
        vals.len() == k + placeholders_from(s, i).len(),
        forall|t: int|
            0 <= t < placeholders_from(s, i).len() ==> vals[k + t] == argument_for(
                params,
                args,
                snake_case(#[trigger] placeholders_from(s, i)[t]),
            ),
    ensures
        render_from(format_text_from(s, i), vals, 0, k) == Some(filled_from(s, i, params, args)),
    decreases s.len() - i,
{
    if i < s.len() {
        lemma_token_end(s, i);
        if opens_at(s, i) {
            let e = token_end(s, i);
            let name = placeholder_name(s, i);
            let rest = format_text_from(s, e);
            let f = format_text_from(s, i);
            assert(placeholders_from(s, i) == seq![name] + placeholders_from(s, e));
            assert forall|t: int| 0 <= t < placeholders_from(s, e).len() implies vals[(k + 1) + t]
                == argument_for(params, args, snake_case(#[trigger] placeholders_from(s, e)[t])) by {
                assert(placeholders_from(s, i)[t + 1] == placeholders_from(s, e)[t]);
            }
            lemma_fill(s, e, vals, k + 1, params, args);
            assert(f == seq!['{', '}'] + rest);
            lemma_render_shift(seq!['{', '}'], rest, vals, 0, k + 1);
            assert(placeholders_from(s, i)[0] == name);
            assert(vals[k] == argument_for(params, args, snake_case(name)));
            assert(f[0] == '{' && f[1] == '}');
        } else {
            let rest = format_text_from(s, i + 1);
            let f = format_text_from(s, i);
            assert(placeholders_from(s, i) == placeholders_from(s, i + 1));
            lemma_fill(s, i + 1, vals, k, params, args);
            assert(f == seq![s[i]] + rest);
            lemma_render_shift(seq![s[i]], rest, vals, 0, k);
            assert(f[0] == s[i]);
        }
    }
}

/// A parameterised translation answers its text with each `%{name}`
/// replaced by the argument of the parameter of that name, where every
/// placeholder is named, no name occurs twice, and no other brace is in the
/// text.
pub proof fn lemma_placeholders_filled(
    a: ArmValue,
    v: Seq<char>,
    params: Seq<Seq<char>>,
    args: Seq<Seq<char>>,
)
    requires
        arm_matches(a, v, true),
        braces_only_in_placeholders(v, 0),
        placeholders_from(v, 0).no_duplicates(),
        forall|t: int|
            0 <= t < placeholders_from(v, 0).len() ==> (#[trigger] placeholders_from(v, 0)[t]).len() > 0,
    ensures
        arm_text(a, params, args) == filled_from(v, 0, params, args),
{
    let ps = placeholders_from(v, 0);
    lemma_distinct_names_same(ps);
    assert(params_of(v) == ps);
    match a {
        ArmValue::Format(f, idents) => {
            let vals = bound_args(names(idents@), params, args);
            assert(names(idents@) == snake_all(ps));
            assert forall|t: int| 0 <= t < ps.len() implies vals[0 + t] == argument_for(
                params,
                args,
                snake_case(#[trigger] ps[t]),
            ) by {
                assert(names(idents@)[t] == snake_case(ps[t]));
            }
            lemma_fill(v, 0, vals, 0, params, args);
        },
        ArmValue::Text(_) => {},
    }
}

/// The names kept by `distinct_names` are non-empty and distinct, and they
/// are the non-empty names of the list.
proof fn lemma_distinct_names_distinct(ps: Seq<Seq<char>>)
    ensures
        distinct_names(ps).no_duplicates(),
        forall|t: int| 0 <= t < distinct_names(ps).len() ==> (#[trigger] distinct_names(ps)[t]).len() > 0,
        forall|x: Seq<char>| #[trigger] distinct_names(ps).contains(x) <==> x.len() > 0 && ps.contains(x),
    decreases ps.len(),
{
    if ps.len() > 0 {
        lemma_distinct_names_distinct(ps.drop_last());
        let r = distinct_names(ps.drop_last());
        let x = ps.last();
        assert forall|y: Seq<char>| #[trigger] ps.contains(y) <==> ps.drop_last().contains(y) || y == x by {
            if ps.contains(y) {
                let t = choose|t: int| 0 <= t < ps.len() && ps[t] == y;
                if t < ps.len() - 1 {
                    assert(ps.drop_last()[t] == y);
                }
            }
            if ps.drop_last().contains(y) {
                let t = choose|t: int| 0 <= t < ps.drop_last().len() && ps.drop_last()[t] == y;
                assert(ps[t] == y);
            }
            if y == x {
                assert(ps[ps.len() - 1] == y);
            }
        }
        if x.len() > 0 && !r.contains(x) {
            assert forall|y: Seq<char>| #[trigger] r.push(x).contains(y) <==> r.contains(y) || y == x by {
                if r.push(x).contains(y) {
                    let t = choose|t: int| 0 <= t < r.push(x).len() && r.push(x)[t] == y;
                    if t < r.len() {
                        assert(r[t] == y);
                    }
                }
                if r.contains(y) {
                    let t = choose|t: int| 0 <= t < r.len() && r[t] == y;
                    assert(r.push(x)[t] == y);
                }
                if y == x {
                    assert(r.push(x)[r.len() as int] == y);
                }
            }
        }
        if x.len() > 0 && !r.contains(x) {
            assert forall|a: int, b: int| 0 <= a < r.push(x).len() && 0 <= b < r.push(x).len() && a != b
                implies r.push(x)[a] != r.push(x)[b] by {
                if a == r.len() {
                    assert(r[b] == r.push(x)[b]);
                } else if b == r.len() {
                    assert(r[a] == r.push(x)[a]);
                } else {
                    assert(r[a] == r.push(x)[a] && r[b] == r.push(x)[b]);
                }
            }
            assert forall|t: int| 0 <= t < r.push(x).len() implies (#[trigger] r.push(x)[t]).len() > 0 by {
                if t < r.len() {
                    assert(r[t] == r.push(x)[t]);
                }
            }
        }
    }
}

/// The parameters of a text, which become the parameters of its function,
/// are its placeholder names that are not empty, each once.
pub proof fn lemma_params_are_named_placeholders(s: Seq<char>)
    ensures
        params_of(s).no_duplicates(),
        forall|t: int| 0 <= t < params_of(s).len() ==> (#[trigger] params_of(s)[t]).len() > 0,
        forall|x: Seq<char>| #[trigger]
            params_of(s).contains(x) <==> x.len() > 0 && placeholders_from(s, 0).contains(x),
{
    lemma_distinct_names_distinct(placeholders_from(s, 0));
}

} // verus!

verus! {

use crate::runtime::{normalized, trimmed};
use crate::naming::{ident_of_key, syn_parses_ident};
use crate::chars::is_ascii_digit;

/// Normalising a language name keeps its trimmed length; ASCII digits and
/// lower-case letters stay where they are, upper-case ASCII letters become
/// the same letter in lower case, and every other character becomes `_`.
pub proof fn lemma_normalized_chars(s: Seq<char>)
    ensures
        normalized(s).len() == trimmed(s).len(),
        forall|i: int|
            #![trigger normalized(s)[i]]
            0 <= i < trimmed(s).len() ==> {
                let c = trimmed(s)[i];
                &&& (('0' <= c && c <= '9') || ('a' <= c && c <= 'z')) ==> normalized(s)[i] == c
                &&& ('A' <= c && c <= 'Z') ==> normalized(s)[i] as int == c as int + 32
                &&& !(('0' <= c && c <= '9') || ('a' <= c && c <= 'z') || ('A' <= c && c <= 'Z'))
                    ==> normalized(s)[i] == '_'
            },
{
}

/// The method name of a key depends on the key's snake_case alone: keys
/// with the same snake_case get the same name, and a snake_case that is an
/// identifier not starting with a digit is the name itself.
pub proof fn lemma_method_name_of_snake_case(k1: Seq<char>, k2: Seq<char>)
    ensures
        snake_case(k1) == snake_case(k2) ==> ident_of_key(k1) == ident_of_key(k2),
        syn_parses_ident(snake_case(k1)) && !(snake_case(k1).len() > 0 && is_ascii_digit(snake_case(k1)[0]))
            ==> ident_of_key(k1) == snake_case(k1),
        ident_of_key(k1).len() >= snake_case(k1).len(),
        ident_of_key(k1).subrange(
            ident_of_key(k1).len() - snake_case(k1).len(),
            ident_of_key(k1).len() as int,
        ) == snake_case(k1),
{
    let sn = snake_case(k1);
    let id = ident_of_key(k1);
    assert(id.subrange(id.len() - sn.len(), id.len() as int) =~= sn);
}

} // verus!

verus! {

use crate::document::{TranslationEntry, SectionsView, entry_matches, first_params_from, texts, pairs_of, values_of};

/// From index `i` on, the canonical parameters are those of the first text
/// that has any, and there are none when no text has any.
proof fn lemma_first_params(ts: Seq<Seq<char>>, i: int)
    requires
        0 <= i,
    ensures
        first_params_from(ts, i).len() > 0 ==> exists|j: int|
            i <= j < ts.len() && first_params_from(ts, i) == params_of(#[trigger] ts[j]) && forall|q: int|
                i <= q < j ==> params_of(#[trigger] ts[q]).len() == 0,
        first_params_from(ts, i).len() == 0 ==> forall|q: int| i <= q < ts.len() ==> params_of(#[trigger] ts[q]).len() == 0,
    decreases ts.len() - i,
{
    if i < ts.len() {
        lemma_first_params(ts, i + 1);
        if params_of(ts[i]).len() > 0 {
            assert(first_params_from(ts, i) == params_of(ts[i]));
        } else {
            if first_params_from(ts, i + 1).len() > 0 {
                let j = choose|j: int|
                    i + 1 <= j < ts.len() && first_params_from(ts, i + 1) == params_of(#[trigger] ts[j]) && forall|q: int|
                        i + 1 <= q < j ==> params_of(#[trigger] ts[q]).len() == 0;
                assert(first_params_from(ts, i) == params_of(ts[j]));
            }
        }
    }
}

/// The parameters of an entry without a conflict are those of its first text
/// (in language order) that has any, in the order that text names them
/// first; an entry with a conflict, or whose texts have none, has none.
pub proof fn lemma_entry_params(e: TranslationEntry, doc: SectionsView, langs: Seq<Seq<char>>, k: Seq<char>)
    requires
        entry_matches(e, doc, langs, k),
    ensures
        !e.params_conflict && e.has_params ==> exists|i: int|
            0 <= i < e.values.len() && names(e.params@) == params_of(#[trigger] e.values@[i].1@) && forall|j: int|
                0 <= j < i ==> params_of(#[trigger] e.values@[j].1@).len() == 0,
        !e.params_conflict && !e.has_params ==> e.params.len() == 0 && forall|j: int|
            0 <= j < e.values.len() ==> params_of(#[trigger] e.values@[j].1@).len() == 0,
        e.params_conflict ==> e.params.len() == 0 && !e.has_params,
{
    let vals = values_of(doc, langs, k);
    let ts = texts(vals);
    lemma_first_params(ts, 0);
    assert(names(e.params@).len() == e.params.len());
    assert(pairs_of(e.values@) == vals);
    assert forall|j: int| 0 <= j < e.values.len() implies #[trigger] e.values@[j].1@ == ts[j] by {
        assert(pairs_of(e.values@)[j] == vals[j]);
    }
    if !e.params_conflict && e.has_params {
        let j = choose|j: int|
            0 <= j < ts.len() && first_params_from(ts, 0) == params_of(#[trigger] ts[j]) && forall|q: int|
                0 <= q < j ==> params_of(#[trigger] ts[q]).len() == 0;
        assert(e.values@[j].1@ == ts[j]);
        assert forall|q: int| 0 <= q < j implies params_of(#[trigger] e.values@[q].1@).len() == 0 by {
            assert(e.values@[q].1@ == ts[q]);
        }
    }
    if !e.params_conflict && !e.has_params {
        assert forall|q: int| 0 <= q < e.values.len() implies params_of(#[trigger] e.values@[q].1@).len() == 0 by {
            assert(e.values@[q].1@ == ts[q]);
        }
    }
}

/// The position of the first occurrence of `x` in `ps` (the length when
/// there is none).
pub open spec fn first_index(ps: Seq<Seq<char>>, x: Seq<char>) -> int
    decreases ps.len(),
{
    if ps.len() == 0 {
        0
    } else {
        let f = first_index(ps.drop_last(), x);
        if f < ps.len() - 1 {
            f
        } else if ps.last() == x {
            ps.len() - 1
        } else {
            ps.len() as int
        }
    }
}

/// `first_index` finds the first occurrence, or gives the length.
pub proof fn lemma_first_index(ps: Seq<Seq<char>>, x: Seq<char>)
    ensures
        ps.contains(x) ==> 0 <= first_index(ps, x) < ps.len() && ps[first_index(ps, x)] == x && forall|j: int|
            0 <= j < first_index(ps, x) ==> #[trigger] ps[j] != x,
        !ps.contains(x) ==> first_index(ps, x) == ps.len(),
    decreases ps.len(),
{
    if ps.len() > 0 {
        let init = ps.drop_last();
        lemma_first_index(init, x);
        if init.contains(x) {
            let j = choose|j: int| 0 <= j < init.len() && init[j] == x;
            assert(ps[j] == x);
            assert(ps[first_index(init, x)] == init[first_index(init, x)]);
            assert forall|j: int| 0 <= j < first_index(ps, x) implies #[trigger] ps[j] != x by {
                assert(ps[j] == init[j]);
            }
        } else {
            if ps.contains(x) {
                let j = choose|j: int| 0 <= j < ps.len() && ps[j] == x;
                if j < ps.len() - 1 {
                    assert(init[j] == x);
                }
                assert(ps.last() == x);
            }
            if ps.last() == x {
                assert(ps.contains(x));
                assert forall|j: int| 0 <= j < first_index(ps, x) implies #[trigger] ps[j] != x by {
                    assert(ps[j] == init[j]);
                    if init[j] == x {
                        assert(init.contains(x));
                    }
                }
            }
        }
    }
}

/// The parameters of a text come in the order of their first occurrence:
/// a parameter listed before another first occurs before it.
pub proof fn lemma_params_in_order_of_occurrence(s: Seq<char>)
    ensures
        forall|a: int, b: int|
            #![trigger params_of(s)[a], params_of(s)[b]]
            0 <= a < b < params_of(s).len() ==> first_index(placeholders_from(s, 0), params_of(s)[a])
                < first_index(placeholders_from(s, 0), params_of(s)[b]),
{
    lemma_distinct_names_order(placeholders_from(s, 0));
}

proof fn lemma_distinct_names_order(ps: Seq<Seq<char>>)
    ensures
        forall|a: int, b: int|
            #![trigger distinct_names(ps)[a], distinct_names(ps)[b]]
            0 <= a < b < distinct_names(ps).len() ==> first_index(ps, distinct_names(ps)[a]) < first_index(
                ps,
                distinct_names(ps)[b],
            ),
    decreases ps.len(),
{
    if ps.len() > 0 {
        let init = ps.drop_last();
        lemma_distinct_names_order(init);
        lemma_distinct_names_distinct(init);
        lemma_distinct_names_distinct(ps);
        let r = distinct_names(init);
        let x = ps.last();
        let dn = distinct_names(ps);
        assert forall|a: int, b: int|
            #![trigger dn[a], dn[b]]
            0 <= a < b < dn.len() implies first_index(ps, dn[a]) < first_index(ps, dn[b]) by {
            assert(dn[a] == r[a]);
            assert(r.contains(r[a]));
            assert(init.contains(r[a]));
            lemma_first_index(init, r[a]);
            if b < r.len() {
                assert(dn[b] == r[b]);
                assert(r.contains(r[b]));
                assert(init.contains(r[b]));
                lemma_first_index(init, r[b]);
                assert(first_index(init, r[a]) < first_index(init, r[b]));
            } else {
                assert(x.len() > 0 && !r.contains(x));
                assert(dn == r.push(x));
                assert(dn[b] == x);
                assert(!init.contains(x));
                lemma_first_index(init, x);
            }
        }
    } else {
        assert(distinct_names(ps).len() == 0);
    }
}

} // verus!

verus! {

use crate::scan::{FsEntry, toml_files_in, toml_files_of, under};
use crate::plan::{in_dir, indices_in, structs_match, struct_plan_of};
use crate::document::TomlFile;
use crate::plan::StructPlan;

/// Every `.toml` file of a listing is found, with no directory before it,
/// and every `.toml` file found below a listed directory is found with that
/// directory put in front of its own.
pub proof fn lemma_every_toml_file_found(l: Seq<FsEntry>, n: int, j: int)
    requires
        0 <= j < n <= l.len(),
    ensures
        match l[j] {
            FsEntry::File(p, ext) => (ext matches Some(x) && x@ == "toml"@) ==> toml_files_in(l, n).contains(
                (Seq::<Seq<char>>::empty(), p@),
            ),
            FsEntry::Dir(stem, children) => forall|q: (Seq<Seq<char>>, Seq<char>)|
                #[trigger] toml_files_in(children@, children@.len() as int).contains(q) ==> toml_files_in(
                    l,
                    n,
                ).contains((seq![stem@] + q.0, q.1)),
        },
    decreases n,
{
    let prev = toml_files_in(l, n - 1);
    let last = toml_files_of(l[n - 1]);
    assert(toml_files_in(l, n) == prev + last);
    if j < n - 1 {
        lemma_every_toml_file_found(l, n - 1, j);
        match l[j] {
            FsEntry::File(p, ext) => {
                if ext matches Some(x) && x@ == "toml"@ {
                    let e = (Seq::<Seq<char>>::empty(), p@);
                    let t = choose|t: int| 0 <= t < prev.len() && prev[t] == e;
                    assert((prev + last)[t] == e);
                }
            },
            FsEntry::Dir(stem, children) => {
                assert forall|q: (Seq<Seq<char>>, Seq<char>)|
                    #[trigger] toml_files_in(children@, children@.len() as int).contains(q) implies (prev
                    + last).contains((seq![stem@] + q.0, q.1)) by {
                    let e = (seq![stem@] + q.0, q.1);
                    assert(prev.contains(e));
                    let t = choose|t: int| 0 <= t < prev.len() && prev[t] == e;
                    assert((prev + last)[t] == e);
                }
            },
        }
    } else {
        match l[j] {
            FsEntry::File(p, ext) => {
                if ext matches Some(x) && x@ == "toml"@ {
                    let e = (Seq::<Seq<char>>::empty(), p@);
                    assert(last == seq![e]);
                    assert((prev + last)[prev.len() as int] == e);
                }
            },
            FsEntry::Dir(stem, children) => {
                let sub = toml_files_in(children@, children@.len() as int);
                assert(last == under(stem@, sub));
                assert forall|q: (Seq<Seq<char>>, Seq<char>)| #[trigger] sub.contains(q) implies (prev
                    + last).contains((seq![stem@] + q.0, q.1)) by {
                    let t = choose|t: int| 0 <= t < sub.len() && sub[t] == q;
                    assert(last[t] == (seq![stem@] + q.0, q.1));
                    assert((prev + last)[prev.len() + t] == (seq![stem@] + q.0, q.1));
                }
            },
        }
    }
}

/// What is found comes from the listing: a `.toml` file of it, with no
/// directory before it, or a file found below one of its directories, with
/// that directory put in front.
pub proof fn lemma_found_from_listing(l: Seq<FsEntry>, n: int, t: int)
    requires
        0 <= n <= l.len(),
        0 <= t < toml_files_in(l, n).len(),
    ensures
        exists|j: int|
            0 <= j < n && match #[trigger] l[j] {
                FsEntry::File(p, ext) => (ext matches Some(x) && x@ == "toml"@) && toml_files_in(l, n)[t]
                    == (Seq::<Seq<char>>::empty(), p@),
                FsEntry::Dir(stem, children) => exists|q: (Seq<Seq<char>>, Seq<char>)|
                    #[trigger] toml_files_in(children@, children@.len() as int).contains(q) && toml_files_in(
                        l,
                        n,
                    )[t] == (seq![stem@] + q.0, q.1),
            },
    decreases n,
{
    let prev = toml_files_in(l, n - 1);
    let last = toml_files_of(l[n - 1]);
    assert(toml_files_in(l, n) == prev + last);
    if t < prev.len() {
        lemma_found_from_listing(l, n - 1, t);
        let j = choose|j: int|
            0 <= j < n - 1 && match #[trigger] l[j] {
                FsEntry::File(p, ext) => (ext matches Some(x) && x@ == "toml"@) && prev[t] == (
                    Seq::<Seq<char>>::empty(),
                    p@,
                ),
                FsEntry::Dir(stem, children) => exists|q: (Seq<Seq<char>>, Seq<char>)|
                    #[trigger] toml_files_in(children@, children@.len() as int).contains(q) && prev[t] == (
                        seq![stem@] + q.0,
                        q.1,
                    ),
            };
        assert((prev + last)[t] == prev[t]);
    } else {
        let u = t - prev.len();
        assert((prev + last)[t] == last[u]);
        match l[n - 1] {
            FsEntry::File(p, ext) => {},
            FsEntry::Dir(stem, children) => {
                let sub = toml_files_in(children@, children@.len() as int);
                assert(last == under(stem@, sub));
                assert(sub.contains(sub[u]));
                assert(last[u] == (seq![stem@] + sub[u].0, sub[u].1));
            },
        }
        assert(0 <= n - 1 < n);
    }
}

/// How many of the first `n` entries of a listing are `.toml` files.
pub open spec fn toml_file_count(l: Seq<FsEntry>, n: int) -> nat
    decreases n,
{
    if n <= 0 || n > l.len() {
        0
    } else {
        toml_file_count(l, n - 1) + match l[n - 1] {
            FsEntry::File(_, ext) => if ext matches Some(x) && x@ == "toml"@ {
                1nat
            } else {
                0nat
            },
            FsEntry::Dir(_, _) => 0nat,
        }
    }
}

/// A listing without directories gives one result per `.toml` file.
pub proof fn lemma_flat_listing_count(l: Seq<FsEntry>, n: int)
    requires
        0 <= n <= l.len(),
        forall|j: int| 0 <= j < n ==> (#[trigger] l[j]) is File,
    ensures
        toml_files_in(l, n).len() == toml_file_count(l, n),
    decreases n,
{
    if n > 0 {
        lemma_flat_listing_count(l, n - 1);
        assert(l[n - 1] is File);
        assert(toml_files_in(l, n) == toml_files_in(l, n - 1) + toml_files_of(l[n - 1]));
        match l[n - 1] {
            FsEntry::File(p, ext) => {
                if ext matches Some(x) && x@ == "toml"@ {
                    assert(toml_files_of(l[n - 1]).len() == 1);
                } else {
                    assert(toml_files_of(l[n - 1]).len() == 0);
                }
            },
            FsEntry::Dir(_, _) => {},
        }
    }
}

/// The positions of the files of a directory: exactly those of the files
/// that lie in it, in increasing order.
pub proof fn lemma_indices_in(files: Seq<TomlFile>, dir: Option<Seq<char>>)
    ensures
        forall|a: int, b: int|
            #![trigger indices_in(files, dir)[a], indices_in(files, dir)[b]]
            0 <= a < b < indices_in(files, dir).len() ==> indices_in(files, dir)[a] < indices_in(files, dir)[b],
        forall|k: int|
            0 <= k < indices_in(files, dir).len() ==> 0 <= #[trigger] indices_in(files, dir)[k] < files.len()
                && in_dir(files[indices_in(files, dir)[k]], dir),
        forall|f: int| 0 <= f < files.len() && in_dir(#[trigger] files[f], dir) ==> indices_in(files, dir).contains(f),
    decreases files.len(),
{
    if files.len() > 0 {
        let init = files.drop_last();
        lemma_indices_in(init, dir);
        let r = indices_in(init, dir);
        let idx = indices_in(files, dir);
        assert forall|k: int| 0 <= k < r.len() implies #[trigger] files[r[k]] == init[r[k]] by {}
        assert forall|f: int| 0 <= f < files.len() && in_dir(#[trigger] files[f], dir) implies idx.contains(f) by {
            if f < files.len() - 1 {
                assert(files[f] == init[f]);
                assert(r.contains(f));
                let k = choose|k: int| 0 <= k < r.len() && r[k] == f;
                assert(idx[k] == f);
            } else {
                assert(idx[idx.len() - 1] == f);
            }
        }
        assert forall|k: int| 0 <= k < idx.len() implies 0 <= #[trigger] idx[k] < files.len() && in_dir(
            files[idx[k]],
            dir,
        ) by {
            if k < r.len() {
                assert(idx[k] == r[k]);
                assert(files[r[k]] == init[r[k]]);
            }
        }
        assert forall|a: int, b: int| #![trigger idx[a], idx[b]] 0 <= a < b < idx.len() implies idx[a] < idx[b] by {
            if b < r.len() {
                assert(idx[a] == r[a] && idx[b] == r[b]);
            } else {
                assert(idx[a] == r[a]);
            }
        }
    }
}

/// The structs planned for a directory: one for every file that lies in it,
/// and the k-th planned from the k-th file that lies in it, those files
/// taken in order.
pub proof fn lemma_struct_for_every_file(
    v: Seq<StructPlan>,
    files: Seq<TomlFile>,
    dir: Option<Seq<char>>,
    langs: Seq<String>,
    path: Seq<char>,
)
    requires
        structs_match(v, files, dir, langs, path),
    ensures
        forall|f: int|
            0 <= f < files.len() && in_dir(#[trigger] files[f], dir) ==> exists|k: int|
                0 <= k < v.len() && struct_plan_of(#[trigger] v[k], files[f], langs, path),
        forall|k: int|
            0 <= k < v.len() ==> 0 <= #[trigger] indices_in(files, dir)[k] < files.len() && in_dir(
                files[indices_in(files, dir)[k]],
                dir,
            ) && struct_plan_of(v[k], files[indices_in(files, dir)[k]], langs, path),
        forall|a: int, b: int|
            #![trigger indices_in(files, dir)[a], indices_in(files, dir)[b]]
            0 <= a < b < v.len() ==> indices_in(files, dir)[a] < indices_in(files, dir)[b],
{
    lemma_indices_in(files, dir);
    let idx = indices_in(files, dir);
    assert forall|f: int| 0 <= f < files.len() && in_dir(#[trigger] files[f], dir) implies exists|k: int|
        0 <= k < v.len() && struct_plan_of(#[trigger] v[k], files[f], langs, path) by {
        assert(idx.contains(f));
        let k = choose|k: int| 0 <= k < idx.len() && idx[k] == f;
        assert(struct_plan_of(v[k], files[idx[k]], langs, path));
    }
}

} // verus!
