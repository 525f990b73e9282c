//! Fallback chains between languages: a check that every chain ends, and the
//! one-step table of the generated `FallbackSolver`.

use vstd::prelude::*;
use crate::chars::{contains_string, copy_prefix, find_string, names};
use crate::text::{lang_to_variant, variant_of};

verus! {

/// The fallback table as character sequences: `(language, fallback language)`.
pub open spec fn pairs_view(m: Seq<(String, String)>) -> Seq<(Seq<char>, Seq<char>)> {
    Seq::new(m.len(), |i: int| (m[i].0@, m[i].1@))
}

/// The fallback of `x` in the table, searched from entry `i` on; the first
/// entry for `x` counts.
pub open spec fn lookup_from(m: Seq<(Seq<char>, Seq<char>)>, x: Seq<char>, i: int) -> Option<
    Seq<char>,
>
    decreases m.len() - i,
{
    if i < 0 || i >= m.len() {
        None
    } else if m[i].0 == x {
        Some(m[i].1)
    } else {
        lookup_from(m, x, i + 1)
    }
}

/// The configured fallback of `x`, if the table has one.
pub open spec fn lookup(m: Seq<(Seq<char>, Seq<char>)>, x: Seq<char>) -> Option<Seq<char>> {
    lookup_from(m, x, 0)
}

/// The `n`-th language of the chain that starts at `x`, each step going to
/// the language's fallback ([`fallback_of`]).
pub open spec fn chain(m: Seq<(Seq<char>, Seq<char>)>, d: Seq<char>, x: Seq<char>, n: nat) -> Seq<char>
    decreases n,
{
    if n == 0 {
        x
    } else {
        fallback_of(m, d, chain(m, d, x, (n - 1) as nat))
    }
}

/// The first `n + 1` languages of the chain from `x` are pairwise distinct.
pub open spec fn distinct_upto(m: Seq<(Seq<char>, Seq<char>)>, d: Seq<char>, x: Seq<char>, n: nat) -> bool {
    forall|i: nat, j: nat| i < j <= n ==> chain(m, d, x, i) != chain(m, d, x, j)
}

/// A chain may stop at `y`: `y` is the default fallback, and the default
/// falls back to itself (it has no configured fallback, or points to itself).
pub open spec fn ends_well(m: Seq<(Seq<char>, Seq<char>)>, d: Seq<char>, y: Seq<char>) -> bool {
    y == d && fallback_of(m, d, d) == d
}

/// The chain from `x` reaches the default fallback, which falls back to
/// itself, without meeting any language twice.
pub open spec fn chain_settles(m: Seq<(Seq<char>, Seq<char>)>, d: Seq<char>, x: Seq<char>) -> bool {
    exists|n: nat| distinct_upto(m, d, x, n) && ends_well(m, d, #[trigger] chain(m, d, x, n))
}

/// Following `a` steps of a chain and then `b` more is following `a + b` steps.
pub proof fn lemma_chain_add(m: Seq<(Seq<char>, Seq<char>)>, d: Seq<char>, x: Seq<char>, a: nat, b: nat)
    ensures
        chain(m, d, chain(m, d, x, a), b) == chain(m, d, x, a + b),
    decreases b,
{
    if b > 0 {
        lemma_chain_add(m, d, x, a, (b - 1) as nat);
        assert((a + b - 1) as nat == a + (b - 1) as nat);
    }
}

/// A list of distinct values drawn from `pool` is no longer than `pool`.
pub proof fn lemma_distinct_within<A>(s: Seq<A>, pool: Seq<A>)
    requires
        s.no_duplicates(),
        forall|i: int| 0 <= i < s.len() ==> pool.contains(#[trigger] s[i]),
    ensures
        s.len() <= pool.len(),
{
    s.unique_seq_to_set();
    pool.lemma_cardinality_of_set();
    assert(s.to_set().subset_of(pool.to_set()));
    vstd::seq_lib::seq_to_set_is_finite(pool);
    vstd::set_lib::lemma_len_subset(s.to_set(), pool.to_set());
}

/// Looks up the configured fallback of `x`.
pub fn lookup_fallback(m: &Vec<(String, String)>, x: &String) -> (r: Option<String>)
    ensures
        match r {
            Some(y) => lookup(pairs_view(m@), x@) == Some(y@),
            None => lookup(pairs_view(m@), x@) is None,
        },
{
    let ghost mv = pairs_view(m@);
    let mut i: usize = 0;
    while i < m.len()
        invariant
            i <= m.len(),
            mv == pairs_view(m@),
            lookup(mv, x@) == lookup_from(mv, x@, i as int),
        decreases m.len() - i,
    {
        if m[i].0.eq(x) {
            return Some(m[i].1.clone());
        }
        i += 1;
    }
    None
}

/// The end of a walk along a fallback chain.
pub enum WalkEnd {
    /// The chain reaches the default fallback, which falls back to itself.
    Settled,
    /// The chain reaches a language, other than the default fallback, that
    /// falls back to itself.
    SelfLoop(String),
    /// The chain comes back to a language it met before.
    Cycle(Vec<String>),
    /// The chain reaches a language of the list of languages to avoid.
    Joined,
}

/// `y`, on the chain from `x`, falls back to itself without being the
/// default fallback.
pub open spec fn self_loop_on(m: Seq<(Seq<char>, Seq<char>)>, d: Seq<char>, x: Seq<char>, y: Seq<char>) -> bool {
    &&& lookup(m, y) == Some(y)
    &&& y != d
    &&& exists|n: nat| #[trigger] chain(m, d, x, n) == y
}

/// `p` is the chain from `x` as far as the first language that the chain
/// meets twice: to its first occurrence, or, when that language is `x`
/// itself, back to `x`. No language of the path falls back to itself, so
/// the loop is one of two languages or more, not a step that stays put.
pub open spec fn cycle_path(m: Seq<(Seq<char>, Seq<char>)>, d: Seq<char>, x: Seq<char>, p: Seq<Seq<char>>) -> bool {
    &&& p.len() >= 2
    &&& forall|t: int| 0 <= t < p.len() ==> #[trigger] p[t] == chain(m, d, x, t as nat)
    &&& forall|t: int| 0 <= t < p.len() ==> fallback_of(m, d, #[trigger] p[t]) != p[t]
    &&& p[p.len() - 2] != p.last()
    &&& exists|n: nat|
        #[trigger] distinct_upto(m, d, x, n) && chain(m, d, x, n + 1) == p.last() && if p.last() == x {
            p.len() == n + 2
        } else {
            p.len() <= n + 1
        }
}

/// Walks the fallback chain from `start`, stopping early at a language of
/// `avoid`. Also returns the languages met, in order, before the walk stopped;
/// none of them is in `avoid`.
pub fn walk_chain(m: &Vec<(String, String)>, d: &String, start: &String, avoid: &Vec<String>) -> (r: (
    WalkEnd,
    Vec<String>,
))
    requires
        !names(avoid@).contains(start@),
    ensures
        r.1.len() >= 1,
        (r.0 is Settled) ==> chain_settles(pairs_view(m@), d@, start@),
        (r.0 is SelfLoop || r.0 is Cycle) ==> !chain_settles(pairs_view(m@), d@, start@),
        r.0 matches WalkEnd::SelfLoop(y) ==> self_loop_on(pairs_view(m@), d@, start@, y@) && y@
            == chain(pairs_view(m@), d@, start@, (r.1.len() - 1) as nat),
        r.0 matches WalkEnd::Cycle(p) ==> {
            &&& cycle_path(pairs_view(m@), d@, start@, names(p@))
            &&& names(p@).last() == chain(pairs_view(m@), d@, start@, r.1.len() as nat)
            &&& forall|t: int| 0 <= t < p.len() ==> names(r.1@).contains(#[trigger] names(p@)[t])
        },
        r.0 is Joined ==> names(avoid@).contains(chain(pairs_view(m@), d@, start@, r.1.len() as nat)),
        forall|t: int| 0 <= t < r.1.len() ==> #[trigger] names(r.1@)[t] == chain(
            pairs_view(m@),
            d@,
            start@,
            t as nat,
        ),
        forall|t: int| 0 <= t < r.1.len() ==> !names(avoid@).contains(#[trigger] names(r.1@)[t]),
{
    let ghost mv = pairs_view(m@);
    let ghost pool = seq![start@, d@] + Seq::new(mv.len(), |i: int| mv[i].1);
    let mut visited: Vec<String> = Vec::new();
    visited.push(start.clone());
    let mut current = start.clone();
    let ghost mut k: nat = 0;
    assert(names(visited@) =~= seq![start@]);
    proof {
        lemma_walk_bound(mv, d@, start@, names(visited@), k);
    }
    loop
        invariant
            mv == pairs_view(m@),
            pool == seq![start@, d@] + Seq::new(mv.len(), |i: int| mv[i].1),
            visited.len() == k + 1,
            current@ == chain(mv, d@, start@, k),
            forall|t: int| 0 <= t <= k ==> #[trigger] names(visited@)[t] == chain(mv, d@, start@, t as nat),
            forall|t: int| 0 <= t <= k ==> !names(avoid@).contains(#[trigger] names(visited@)[t]),
            distinct_upto(mv, d@, start@, k),
            visited.len() <= pool.len(),
        decreases pool.len() - visited.len(),
    {
        let configured = lookup_fallback(m, &current);
        let next = match configured {
            Some(y) => y,
            None => d.clone(),
        };
        assert(next@ == chain(mv, d@, start@, k + 1));
        if next.eq(&current) {
            if current.eq(d) {
                proof {
                    assert(ends_well(mv, d@, chain(mv, d@, start@, k)));
                }
                return (WalkEnd::Settled, visited);
            }
            proof {
                lemma_unsettled_at(mv, d@, start@, k, k);
            }
            return (WalkEnd::SelfLoop(current), visited);
        }
        if contains_string(avoid, &next) {
            return (WalkEnd::Joined, visited);
        }
        if let Some(i) = find_string(&visited, &next) {
            proof {
                assert(names(visited@)[i as int] == chain(mv, d@, start@, i as nat));
                lemma_unsettled_at(mv, d@, start@, k, i as nat);
            }
            let upto: usize = if i >= 1 { i as usize } else { visited.len() - 1 };
            let mut path = copy_prefix(&visited, upto + 1);
            let ghost prefix = path@;
            if i == 0 {
                path.push(next);
                assert(names(path@) =~= names(prefix).push(next@));
                assert(names(prefix) =~= names(visited@));
            }
            proof {
                let pv = names(path@);
                if i == 0 {
                    assert(pv.drop_last()[0] == pv.last());
                    assert(pv.last() == start@);
                    assert(pv.len() == k + 2);
                } else {
                    assert(pv.last() == chain(mv, d@, start@, k + 1));
                    assert(chain(mv, d@, start@, 0) != chain(mv, d@, start@, i as nat));
                    assert(pv.last() != start@);
                    assert(pv.len() <= k + 1);
                }
                assert(distinct_upto(mv, d@, start@, k));
                assert(next@ != current@);
                assert forall|t: int| 0 <= t < pv.len() implies fallback_of(mv, d@, #[trigger] pv[t]) != pv[t] by {
                    if t <= k {
                        assert(pv[t] == chain(mv, d@, start@, t as nat));
                        assert(chain(mv, d@, start@, (t + 1) as nat) == fallback_of(mv, d@, chain(mv, d@, start@, t as nat)));
                        if t < k {
                            assert(chain(mv, d@, start@, t as nat) != chain(mv, d@, start@, (t + 1) as nat));
                        }
                    } else {
                        assert(pv[t] == chain(mv, d@, start@, 0));
                        assert(chain(mv, d@, start@, 1) == fallback_of(mv, d@, chain(mv, d@, start@, 0)));
                        if k >= 1 {
                            assert(chain(mv, d@, start@, 0) != chain(mv, d@, start@, 1));
                        }
                    }
                }
                assert(pv[pv.len() - 1] == chain(mv, d@, start@, (pv.len() - 1) as nat));
                assert(pv[pv.len() - 2] == chain(mv, d@, start@, (pv.len() - 2) as nat));
                assert(chain(mv, d@, start@, (pv.len() - 1) as nat) == fallback_of(mv, d@, chain(mv, d@, start@, (pv.len() - 2) as nat)));
                assert(fallback_of(mv, d@, pv[pv.len() - 2]) != pv[pv.len() - 2]);
                assert(cycle_path(mv, d@, start@, pv));
                assert forall|t: int| 0 <= t < pv.len() implies names(visited@).contains(#[trigger] pv[t]) by {
                    if t <= k {
                        assert(names(visited@)[t] == pv[t]);
                    } else {
                        assert(names(visited@)[i as int] == pv[t]);
                    }
                }
            }
            return (WalkEnd::Cycle(path), visited);
        }
        proof {
            assert forall|a: nat, b: nat| a < b <= k + 1 implies chain(mv, d@, start@, a) != chain(
                mv,
                d@,
                start@,
                b,
            ) by {
                if b == k + 1 {
                    assert(names(visited@)[a as int] == chain(mv, d@, start@, a));
                }
            }
            k = k + 1;
        }
        let ghost before = visited@;
        visited.push(next.clone());
        assert(names(visited@) =~= names(before).push(next@));
        proof {
            lemma_walk_bound(mv, d@, start@, names(visited@), k);
        }
        current = next;
    }
}

/// The first `k + 1` languages of a chain, when distinct, are no more than
/// the start, the default and the configured fallbacks.
pub proof fn lemma_walk_bound(
    mv: Seq<(Seq<char>, Seq<char>)>,
    d: Seq<char>,
    start: Seq<char>,
    visited: Seq<Seq<char>>,
    k: nat,
)
    requires
        visited.len() == k + 1,
        forall|t: int| 0 <= t <= k ==> #[trigger] visited[t] == chain(mv, d, start, t as nat),
        distinct_upto(mv, d, start, k),
    ensures
        visited.len() <= 2 + mv.len(),
{
    let pool = seq![start, d] + Seq::new(mv.len(), |i: int| mv[i].1);
    assert forall|t: int| 0 <= t < visited.len() implies pool.contains(#[trigger] visited[t]) by {
        lemma_chain_in_pool(mv, d, start, t as nat);
    }
    assert forall|a: int, b: int|
        0 <= a < visited.len() && 0 <= b < visited.len() && a != b implies visited[a]
        != visited[b] by {
        if a < b {
            assert(chain(mv, d, start, a as nat) != chain(mv, d, start, b as nat));
        } else {
            assert(chain(mv, d, start, b as nat) != chain(mv, d, start, a as nat));
        }
    }
    lemma_distinct_within(visited, pool);
}

/// Every language of a chain is its start, the default or some configured fallback.
pub proof fn lemma_chain_in_pool(m: Seq<(Seq<char>, Seq<char>)>, d: Seq<char>, x: Seq<char>, n: nat)
    ensures
        (seq![x, d] + Seq::new(m.len(), |i: int| m[i].1)).contains(chain(m, d, x, n)),
    decreases n,
{
    let pool = seq![x, d] + Seq::new(m.len(), |i: int| m[i].1);
    if n == 0 {
        assert(pool[0] == x);
    } else {
        lemma_chain_in_pool(m, d, x, (n - 1) as nat);
        let y = chain(m, d, x, (n - 1) as nat);
        match lookup(m, y) {
            Some(z) => {
                let i = lemma_lookup_index(m, y, 0);
                assert(pool[i + 2] == z);
            },
            None => {
                assert(pool[1] == d);
            },
        }
    }
}

/// A configured fallback comes from some entry of the table.
pub proof fn lemma_lookup_index(m: Seq<(Seq<char>, Seq<char>)>, x: Seq<char>, i: int) -> (k: int)
    requires
        0 <= i,
        lookup_from(m, x, i) is Some,
    ensures
        i <= k < m.len(),
        m[k].0 == x,
        lookup_from(m, x, i) == Some(m[k].1),
    decreases m.len() - i,
{
    if m[i].0 == x {
        i
    } else {
        lemma_lookup_index(m, x, i + 1)
    }
}

/// When the first `k + 1` languages of the chain are distinct and the `k`-th
/// may not stop the chain while its successor repeats one of them (or is
/// itself), the chain never settles.
pub proof fn lemma_unsettled_at(
    m: Seq<(Seq<char>, Seq<char>)>,
    d: Seq<char>,
    x: Seq<char>,
    k: nat,
    i: nat,
)
    requires
        distinct_upto(m, d, x, k),
        !ends_well(m, d, chain(m, d, x, k)),
        i <= k,
        chain(m, d, x, i) == chain(m, d, x, k + 1),
    ensures
        !chain_settles(m, d, x),
{
    if chain_settles(m, d, x) {
        let n = choose|n: nat| distinct_upto(m, d, x, n) && ends_well(m, d, #[trigger] chain(m, d, x, n));
        if n < k {
            // the default, met at step n, falls back to itself
            assert(chain(m, d, x, n) != chain(m, d, x, n + 1));
            assert(chain(m, d, x, n + 1) == fallback_of(m, d, chain(m, d, x, n)));
        } else if n > k {
            assert(chain(m, d, x, i) != chain(m, d, x, k + 1));
        }
    }
}

} // verus!

verus! {

/// A fallback chain that does not end.
pub enum FallbackIssue {
    /// A language other than the default fallback falls back to itself.
    SelfLoop(String),
    /// A chain comes back to a language it met before; the path follows the
    /// chain from its start.
    Cycle(Vec<String>),
}

/// `issue` is found on the chain from `x`.
#[verifier::opaque]
pub open spec fn issue_for(m: Seq<(Seq<char>, Seq<char>)>, d: Seq<char>, x: Seq<char>, issue: FallbackIssue) -> bool {
    &&& !chain_settles(m, d, x)
    &&& match issue {
        FallbackIssue::SelfLoop(y) => self_loop_on(m, d, x, y@),
        FallbackIssue::Cycle(p) => cycle_path(m, d, x, names(p@)),
    }
}

/// The language `y` is named by the issue: the language that points to
/// itself, or a language of the cycle's path.
pub open spec fn on_issue(issue: FallbackIssue, y: Seq<char>) -> bool {
    match issue {
        FallbackIssue::SelfLoop(x) => x@ == y,
        FallbackIssue::Cycle(p) => names(p@).contains(y),
    }
}

/// `r` reports the fallback chains of `langs` that do not end: none exactly
/// when every chain ends; each issue found on the chain of some language;
/// no language named by two issues, so that each loop is reported once;
/// every chain that does not end running into a reported issue; the first
/// issue that of the first language whose chain does not end; and a
/// language other than the default that points to itself reported as
/// pointing to itself, never as part of a cycle.
pub open spec fn issues_of(
    r: Seq<FallbackIssue>,
    langs: Seq<String>,
    m: Seq<(Seq<char>, Seq<char>)>,
    d: Seq<char>,
) -> bool {
    &&& r.len() == 0 <==> forall|i: int| 0 <= i < langs.len() ==> chain_settles(m, d, #[trigger] langs[i]@)
    &&& forall|k: int|
        0 <= k < r.len() ==> exists|j: int| 0 <= j < langs.len() && issue_for(m, d, langs[j]@, #[trigger] r[k])
    &&& forall|a: int, b: int, y: Seq<char>|
        #![trigger on_issue(r[a], y), on_issue(r[b], y)]
        0 <= a < b < r.len() ==> !(on_issue(r[a], y) && on_issue(r[b], y))
    &&& forall|i: int|
        0 <= i < langs.len() && !chain_settles(m, d, #[trigger] langs[i]@) ==> exists|k: int, n: nat|
            0 <= k < r.len() && #[trigger] on_issue(r[k], chain(m, d, langs[i]@, n))
    &&& r.len() > 0 ==> exists|j: int|
        0 <= j < langs.len() && issue_for(m, d, langs[j]@, r[0]) && forall|q: int|
            0 <= q < j ==> chain_settles(m, d, #[trigger] langs[q]@)
    &&& forall|k: int, y: Seq<char>|
        0 <= k < r.len() && #[trigger] on_issue(r[k], y) && fallback_of(m, d, y) == y ==> (r[k] matches FallbackIssue::SelfLoop(
            z,
        ) && z@ == y)
}

/// Each issue so far is found on the chain of one of the first `i` languages.
#[verifier::opaque]
pub open spec fn issues_real(
    issues: Seq<FallbackIssue>,
    langs: Seq<String>,
    m: Seq<(Seq<char>, Seq<char>)>,
    d: Seq<char>,
    i: int,
) -> bool {
    forall|k: int|
        0 <= k < issues.len() ==> exists|j: int| 0 <= j < i && issue_for(m, d, langs[j]@, #[trigger] issues[k])
}

/// No language is named by two issues.
#[verifier::opaque]
pub open spec fn issues_disjoint(issues: Seq<FallbackIssue>) -> bool {
    forall|a: int, b: int, y: Seq<char>|
        #![trigger on_issue(issues[a], y), on_issue(issues[b], y)]
        0 <= a < b < issues.len() ==> !(on_issue(issues[a], y) && on_issue(issues[b], y))
}

/// Every language named by an issue is in `seen`.
#[verifier::opaque]
pub open spec fn issues_in_seen(issues: Seq<FallbackIssue>, seen: Seq<Seq<char>>) -> bool {
    forall|k: int, y: Seq<char>| 0 <= k < issues.len() && #[trigger] on_issue(issues[k], y) ==> seen.contains(y)
}

/// The chain of every language of `seen` runs into an issue.
#[verifier::opaque]
pub open spec fn seen_leads(
    issues: Seq<FallbackIssue>,
    seen: Seq<Seq<char>>,
    m: Seq<(Seq<char>, Seq<char>)>,
    d: Seq<char>,
) -> bool {
    forall|s: Seq<char>|
        #[trigger] seen.contains(s) ==> exists|k: int, n: nat|
            0 <= k < issues.len() && #[trigger] on_issue(issues[k], chain(m, d, s, n))
}

/// The chain of every one of the first `i` languages that does not end runs
/// into an issue.
#[verifier::opaque]
pub open spec fn unsettled_lead(
    issues: Seq<FallbackIssue>,
    langs: Seq<String>,
    m: Seq<(Seq<char>, Seq<char>)>,
    d: Seq<char>,
    i: int,
) -> bool {
    forall|j: int|
        0 <= j < i && !chain_settles(m, d, #[trigger] langs[j]@) ==> exists|k: int, n: nat|
            0 <= k < issues.len() && #[trigger] on_issue(issues[k], chain(m, d, langs[j]@, n))
}

/// The first issue is that of the first language whose chain does not end.
#[verifier::opaque]
pub open spec fn first_issue(
    issues: Seq<FallbackIssue>,
    langs: Seq<String>,
    m: Seq<(Seq<char>, Seq<char>)>,
    d: Seq<char>,
    i: int,
) -> bool {
    issues.len() > 0 ==> exists|j: int|
        0 <= j < i && issue_for(m, d, langs[j]@, issues[0]) && forall|q: int|
            0 <= q < j ==> chain_settles(m, d, #[trigger] langs[q]@)
}

/// What the scan of the first `i` languages has found, with `seen` the
/// languages met on the way to the issues reported so far.
pub open spec fn scan_state(
    issues: Seq<FallbackIssue>,
    seen: Seq<Seq<char>>,
    langs: Seq<String>,
    m: Seq<(Seq<char>, Seq<char>)>,
    d: Seq<char>,
    i: int,
) -> bool {
    &&& 0 <= i <= langs.len()
    &&& seen.len() > 0 ==> issues.len() > 0
    &&& issues.len() == 0 ==> forall|j: int| 0 <= j < i ==> chain_settles(m, d, #[trigger] langs[j]@)
    &&& issues.len() > 0 ==> exists|j: int| 0 <= j < i && !chain_settles(m, d, #[trigger] langs[j]@)
    &&& issues_real(issues, langs, m, d, i)
    &&& issues_disjoint(issues)
    &&& issues_in_seen(issues, seen)
    &&& seen_leads(issues, seen, m, d)
    &&& unsettled_lead(issues, langs, m, d, i)
    &&& first_issue(issues, langs, m, d, i)
}

/// The scan moves past language `i` without a new issue: its chain ends, or
/// it runs into an issue already reported.
#[verifier::spinoff_prover]
#[verifier::rlimit(40)]
proof fn lemma_scan_keep(
    issues: Seq<FallbackIssue>,
    seen: Seq<Seq<char>>,
    langs: Seq<String>,
    m: Seq<(Seq<char>, Seq<char>)>,
    d: Seq<char>,
    i: int,
)
    requires
        scan_state(issues, seen, langs, m, d, i),
        i < langs.len(),
        chain_settles(m, d, langs[i]@) || exists|k: int, n: nat|
            0 <= k < issues.len() && #[trigger] on_issue(issues[k], chain(m, d, langs[i]@, n)),
    ensures
        scan_state(issues, seen, langs, m, d, i + 1),
{
    assert(issues_real(issues, langs, m, d, i + 1)) by {
        reveal(issues_real);
        assert forall|k: int| 0 <= k < issues.len() implies exists|j: int|
            0 <= j < i + 1 && issue_for(m, d, langs[j]@, #[trigger] issues[k]) by {
            let j = choose|j: int| 0 <= j < i && issue_for(m, d, langs[j]@, issues[k]);
        }
    }
    assert(unsettled_lead(issues, langs, m, d, i + 1)) by {
        reveal(unsettled_lead);
    }
    assert(first_issue(issues, langs, m, d, i + 1)) by {
        reveal(first_issue);
        if issues.len() > 0 {
            let j = choose|j: int|
                0 <= j < i && issue_for(m, d, langs[j]@, issues[0]) && forall|q: int|
                    0 <= q < j ==> chain_settles(m, d, #[trigger] langs[q]@);
        }
    }
    if issues.len() > 0 {
        let j2 = choose|j: int| 0 <= j < i && !chain_settles(m, d, #[trigger] langs[j]@);
    } else {
        assert(chain_settles(m, d, langs[i]@));
    }
}

/// The facts about a new issue `ni` found on the chain of language `i`,
/// whose walk met the languages `vn`, none of them seen before.
pub open spec fn new_issue(
    seen: Seq<Seq<char>>,
    langs: Seq<String>,
    m: Seq<(Seq<char>, Seq<char>)>,
    d: Seq<char>,
    i: int,
    ni: FallbackIssue,
    vn: Seq<Seq<char>>,
    n0: nat,
) -> bool {
    &&& 0 <= i < langs.len()
    &&& issue_for(m, d, langs[i]@, ni)
    &&& !chain_settles(m, d, langs[i]@)
    &&& forall|y: Seq<char>| #[trigger] on_issue(ni, y) ==> vn.contains(y)
    &&& forall|t: int| 0 <= t < vn.len() ==> #[trigger] vn[t] == chain(m, d, langs[i]@, t as nat)
    &&& forall|t: int| 0 <= t < vn.len() ==> !seen.contains(#[trigger] vn[t])
    &&& n0 + 1 >= vn.len()
    &&& on_issue(ni, chain(m, d, langs[i]@, n0))
}

#[verifier::spinoff_prover]
proof fn lemma_push_real(
    issues: Seq<FallbackIssue>,
    langs: Seq<String>,
    m: Seq<(Seq<char>, Seq<char>)>,
    d: Seq<char>,
    i: int,
    ni: FallbackIssue,
)
    requires
        issues_real(issues, langs, m, d, i),
        0 <= i < langs.len(),
        issue_for(m, d, langs[i]@, ni),
    ensures
        issues_real(issues.push(ni), langs, m, d, i + 1),
{
    reveal(issues_real);
    let r = issues.push(ni);
    assert forall|k: int| 0 <= k < r.len() implies exists|j: int|
        0 <= j < i + 1 && issue_for(m, d, langs[j]@, #[trigger] r[k]) by {
        if k < issues.len() {
            assert(r[k] == issues[k]);
            let j = choose|j: int| 0 <= j < i && issue_for(m, d, langs[j]@, issues[k]);
        } else {
            assert(r[k] == ni);
        }
    }
}

#[verifier::spinoff_prover]
#[verifier::rlimit(40)]
proof fn lemma_push_disjoint(
    issues: Seq<FallbackIssue>,
    seen: Seq<Seq<char>>,
    langs: Seq<String>,
    m: Seq<(Seq<char>, Seq<char>)>,
    d: Seq<char>,
    i: int,
    ni: FallbackIssue,
    vn: Seq<Seq<char>>,
    n0: nat,
)
    requires
        issues_disjoint(issues),
        issues_in_seen(issues, seen),
        new_issue(seen, langs, m, d, i, ni, vn, n0),
    ensures
        issues_disjoint(issues.push(ni)),
        issues_in_seen(issues.push(ni), seen + vn),
{
    reveal(issues_disjoint);
    reveal(issues_in_seen);
    let r = issues.push(ni);
    let ns = seen + vn;
    let kk = issues.len() as int;
    assert forall|a: int, b: int, y: Seq<char>|
        #![trigger on_issue(r[a], y), on_issue(r[b], y)]
        0 <= a < b < r.len() implies !(on_issue(r[a], y) && on_issue(r[b], y)) by {
        assert(r[a] == issues[a]);
        if b < kk {
            assert(r[b] == issues[b]);
            assert(!(on_issue(issues[a], y) && on_issue(issues[b], y)));
        } else if on_issue(r[a], y) && on_issue(r[b], y) {
            assert(r[b] == ni);
            assert(on_issue(issues[a], y));
            assert(seen.contains(y));
            assert(vn.contains(y));
            let t = choose|t: int| 0 <= t < vn.len() && vn[t] == y;
            assert(!seen.contains(vn[t]));
        }
    }
    assert forall|k: int, y: Seq<char>| 0 <= k < r.len() && #[trigger] on_issue(r[k], y) implies ns.contains(
        y,
    ) by {
        if k < kk {
            assert(r[k] == issues[k]);
            assert(on_issue(issues[k], y));
            assert(seen.contains(y));
            let t = choose|t: int| 0 <= t < seen.len() && seen[t] == y;
            assert(ns[t] == y);
        } else {
            assert(r[k] == ni);
            assert(vn.contains(y));
            let t = choose|t: int| 0 <= t < vn.len() && vn[t] == y;
            assert(ns[seen.len() + t] == y);
        }
    }
}

/// The languages met on the way to a new issue run into it.
#[verifier::spinoff_prover]
#[verifier::rlimit(40)]
proof fn lemma_push_seen_leads(
    issues: Seq<FallbackIssue>,
    seen: Seq<Seq<char>>,
    langs: Seq<String>,
    m: Seq<(Seq<char>, Seq<char>)>,
    d: Seq<char>,
    i: int,
    ni: FallbackIssue,
    vn: Seq<Seq<char>>,
    n0: nat,
)
    requires
        seen_leads(issues, seen, m, d),
        0 <= i < langs.len(),
        forall|t: int| 0 <= t < vn.len() ==> #[trigger] vn[t] == chain(m, d, langs[i]@, t as nat),
        n0 + 1 >= vn.len(),
        on_issue(ni, chain(m, d, langs[i]@, n0)),
    ensures
        seen_leads(issues.push(ni), seen + vn, m, d),
{
    reveal(seen_leads);
    let x = langs[i]@;
    let r = issues.push(ni);
    let ns = seen + vn;
    let kk = issues.len() as int;
    assert(r[kk] == ni);
    assert forall|s: Seq<char>| #[trigger] ns.contains(s) implies exists|k: int, n: nat|
        0 <= k < r.len() && #[trigger] on_issue(r[k], chain(m, d, s, n)) by {
        let t = choose|t: int| 0 <= t < ns.len() && ns[t] == s;
        if t < seen.len() {
            assert(seen[t] == s);
            assert(seen.contains(s));
            let (k, n) = choose|k: int, n: nat|
                0 <= k < issues.len() && #[trigger] on_issue(issues[k], chain(m, d, s, n));
            assert(r[k] == issues[k]);
            assert(on_issue(r[k], chain(m, d, s, n)));
        } else {
            let u = t - seen.len();
            assert(vn[u] == s);
            lemma_chain_add(m, d, x, u as nat, (n0 - u) as nat);
            assert(u as nat + (n0 - u) as nat == n0);
            assert(on_issue(r[kk], chain(m, d, s, (n0 - u) as nat)));
        }
    }
}

/// Language `i`, whose chain does not end, runs into its new issue.
#[verifier::spinoff_prover]
#[verifier::rlimit(40)]
proof fn lemma_push_unsettled_lead(
    issues: Seq<FallbackIssue>,
    seen: Seq<Seq<char>>,
    langs: Seq<String>,
    m: Seq<(Seq<char>, Seq<char>)>,
    d: Seq<char>,
    i: int,
    ni: FallbackIssue,
    vn: Seq<Seq<char>>,
    n0: nat,
)
    requires
        unsettled_lead(issues, langs, m, d, i),
        0 <= i < langs.len(),
        on_issue(ni, chain(m, d, langs[i]@, n0)),
    ensures
        unsettled_lead(issues.push(ni), langs, m, d, i + 1),
{
    reveal(unsettled_lead);
    let r = issues.push(ni);
    let kk = issues.len() as int;
    assert(r[kk] == ni);
    assert forall|j: int| 0 <= j < i + 1 && !chain_settles(m, d, #[trigger] langs[j]@) implies exists|
        k: int,
        n: nat,
    | 0 <= k < r.len() && #[trigger] on_issue(r[k], chain(m, d, langs[j]@, n)) by {
        if j < i {
            let (k, n) = choose|k: int, n: nat|
                0 <= k < issues.len() && #[trigger] on_issue(issues[k], chain(m, d, langs[j]@, n));
            assert(r[k] == issues[k]);
            assert(on_issue(r[k], chain(m, d, langs[j]@, n)));
        } else {
            assert(on_issue(r[kk], chain(m, d, langs[j]@, n0)));
        }
    }
}

/// The scan records the issue `ni` found on the chain of language `i`.
#[verifier::spinoff_prover]
#[verifier::rlimit(40)]
proof fn lemma_scan_push(
    issues: Seq<FallbackIssue>,
    seen: Seq<Seq<char>>,
    langs: Seq<String>,
    m: Seq<(Seq<char>, Seq<char>)>,
    d: Seq<char>,
    i: int,
    ni: FallbackIssue,
    vn: Seq<Seq<char>>,
    n0: nat,
)
    requires
        scan_state(issues, seen, langs, m, d, i),
        new_issue(seen, langs, m, d, i, ni, vn, n0),
    ensures
        scan_state(issues.push(ni), seen + vn, langs, m, d, i + 1),
{
    lemma_push_real(issues, langs, m, d, i, ni);
    lemma_push_disjoint(issues, seen, langs, m, d, i, ni, vn, n0);
    lemma_push_seen_leads(issues, seen, langs, m, d, i, ni, vn, n0);
    lemma_push_unsettled_lead(issues, seen, langs, m, d, i, ni, vn, n0);
    let r = issues.push(ni);
    assert(first_issue(r, langs, m, d, i + 1)) by {
        reveal(first_issue);
        if issues.len() > 0 {
            assert(r[0] == issues[0]);
            let j = choose|j: int|
                0 <= j < i && issue_for(m, d, langs[j]@, issues[0]) && forall|q: int|
                    0 <= q < j ==> chain_settles(m, d, #[trigger] langs[q]@);
        } else {
            assert(r[0] == ni);
            assert(issue_for(m, d, langs[i]@, r[0]));
        }
    }
    assert(!chain_settles(m, d, langs[i]@));
}

/// A finished scan reports the issues [`issues_of`] describes.
#[verifier::spinoff_prover]
#[verifier::rlimit(40)]
proof fn lemma_scan_done(
    issues: Seq<FallbackIssue>,
    seen: Seq<Seq<char>>,
    langs: Seq<String>,
    m: Seq<(Seq<char>, Seq<char>)>,
    d: Seq<char>,
)
    requires
        scan_state(issues, seen, langs, m, d, langs.len() as int),
    ensures
        issues_of(issues, langs, m, d),
{
    reveal(issues_real);
    reveal(issues_disjoint);
    reveal(unsettled_lead);
    reveal(first_issue);
    reveal(issue_for);
    assert forall|k: int, y: Seq<char>|
        0 <= k < issues.len() && #[trigger] on_issue(issues[k], y) && fallback_of(m, d, y) == y implies (
        issues[k] matches FallbackIssue::SelfLoop(z) && z@ == y) by {
        let j = choose|j: int| 0 <= j < langs.len() && issue_for(m, d, langs[j]@, issues[k]);
        match issues[k] {
            FallbackIssue::Cycle(p) => {
                let t = choose|t: int| 0 <= t < names(p@).len() && names(p@)[t] == y;
                assert(fallback_of(m, d, names(p@)[t]) != names(p@)[t]);
            },
            FallbackIssue::SelfLoop(z) => {},
        }
    }
}

/// Appends the strings of `v`.
fn append_all(seen: &mut Vec<String>, v: &Vec<String>)
    ensures
        names(final(seen)@) == names(old(seen)@) + names(v@),
{
    let ghost start = names(seen@);
    let mut t: usize = 0;
    while t < v.len()
        invariant
            t <= v.len(),
            names(seen@) == start + names(v@).subrange(0, t as int),
        decreases v.len() - t,
    {
        let ghost before = names(seen@);
        seen.push(v[t].clone());
        assert(names(seen@) =~= before.push(v@[t as int]@));
        t += 1;
        assert(names(seen@) =~= start + names(v@).subrange(0, t as int));
    }
    assert(names(v@).subrange(0, v.len() as int) =~= names(v@));
}

/// Checks the fallback chain of every language, in order. The languages met
/// on the way to a reported issue are not walked again, and a walk that
/// reaches one of them stops there, so each loop is reported once.
#[verifier::spinoff_prover]
#[verifier::rlimit(60)]
pub fn fallback_issues(langs: &Vec<String>, m: &Vec<(String, String)>, d: &String) -> (r: Vec<
    FallbackIssue,
>)
    ensures
        issues_of(r@, langs@, pairs_view(m@), d@),
{
    let ghost mv = pairs_view(m@);
    let mut issues: Vec<FallbackIssue> = Vec::new();
    let mut seen: Vec<String> = Vec::new();
    let mut i: usize = 0;
    assert(names(seen@) =~= Seq::<Seq<char>>::empty());
    proof {
        reveal(issues_real);
        reveal(issues_disjoint);
        reveal(issues_in_seen);
        reveal(seen_leads);
        reveal(unsettled_lead);
        reveal(first_issue);
    }
    while i < langs.len()
        invariant
            mv == pairs_view(m@),
            scan_state(issues@, names(seen@), langs@, mv, d@, i as int),
        decreases langs.len() - i,
    {
        let ghost x = langs@[i as int]@;
        if contains_string(&seen, &langs[i]) {
            proof {
                assert(names(seen@).contains(x));
                reveal(seen_leads);
                lemma_scan_keep(issues@, names(seen@), langs@, mv, d@, i as int);
            }
            i += 1;
            continue;
        }
        let (end, visited) = walk_chain(m, d, &langs[i], &seen);
        let ghost vn = names(visited@);
        match end {
            WalkEnd::Settled => {
                proof {
                    lemma_scan_keep(issues@, names(seen@), langs@, mv, d@, i as int);
                }
            },
            WalkEnd::Joined => {
                proof {
                    let c = chain(mv, d@, x, visited.len() as nat);
                    assert(names(seen@).contains(c));
                    reveal(seen_leads);
                    let (k0, n0) = choose|k: int, n: nat|
                        0 <= k < issues@.len() && #[trigger] on_issue(issues@[k], chain(mv, d@, c, n));
                    lemma_chain_add(mv, d@, x, visited.len() as nat, n0);
                    assert(on_issue(issues@[k0], chain(mv, d@, x, (visited.len() + n0) as nat)));
                    lemma_scan_keep(issues@, names(seen@), langs@, mv, d@, i as int);
                }
            },
            WalkEnd::SelfLoop(y) => {
                let ghost ni = FallbackIssue::SelfLoop(y);
                proof {
                    assert(issue_for(mv, d@, x, ni)) by {
                        reveal(issue_for);
                    }
                    assert forall|z: Seq<char>| #[trigger] on_issue(ni, z) implies vn.contains(z) by {
                        assert(vn[vn.len() - 1] == z);
                    }
                    lemma_scan_push(
                        issues@,
                        names(seen@),
                        langs@,
                        mv,
                        d@,
                        i as int,
                        ni,
                        vn,
                        (vn.len() - 1) as nat,
                    );
                }
                issues.push(FallbackIssue::SelfLoop(y));
                append_all(&mut seen, &visited);
            },
            WalkEnd::Cycle(path) => {
                let ghost ni = FallbackIssue::Cycle(path);
                proof {
                    assert(issue_for(mv, d@, x, ni)) by {
                        reveal(issue_for);
                    }
                    assert forall|z: Seq<char>| #[trigger] on_issue(ni, z) implies vn.contains(z) by {
                        let t = choose|t: int| 0 <= t < path.len() && names(path@)[t] == z;
                    }
                    assert(names(path@)[path.len() - 1] == names(path@).last());
                    lemma_scan_push(
                        issues@,
                        names(seen@),
                        langs@,
                        mv,
                        d@,
                        i as int,
                        ni,
                        vn,
                        vn.len() as nat,
                    );
                }
                issues.push(FallbackIssue::Cycle(path));
                append_all(&mut seen, &visited);
            },
        }
        i += 1;
    }
    proof {
        lemma_scan_done(issues@, names(seen@), langs@, mv, d@);
    }
    issues
}

/// The language a language falls back to: its configured fallback, else the
/// default fallback.
pub open spec fn fallback_of(m: Seq<(Seq<char>, Seq<char>)>, d: Seq<char>, x: Seq<char>) -> Seq<
    char,
> {
    match lookup(m, x) {
        Some(y) => y,
        None => d,
    }
}

/// The decisions behind the generated `FallbackSolver`.
pub enum FallbackSolver {
    /// Some chain does not end: the module reports each issue as a compile
    /// error, and the solver sends every language to the default fallback.
    Rejected { issues: Vec<FallbackIssue>, default_variant: String },
    /// One arm per language, `(variant, variant it falls back to)`, and the
    /// variant of the catch-all arm.
    Table { arms: Vec<(String, String)>, default_variant: String },
}

/// `r` is the solver [`generate_fallback_solver`] decides.
pub open spec fn solver_plan_of(
    r: FallbackSolver,
    langs: Seq<String>,
    m: Seq<(String, String)>,
    d: Seq<char>,
) -> bool {
    &&& (r is Rejected) <==> exists|i: int|
        0 <= i < langs.len() && !chain_settles(pairs_view(m), d, #[trigger] langs[i]@)
    &&& r matches FallbackSolver::Rejected { issues, default_variant } ==> {
        &&& issues_of(issues@, langs, pairs_view(m), d)
        &&& default_variant@ == variant_of(d)
    }
    &&& r matches FallbackSolver::Table { arms, default_variant } ==> {
        &&& arms.len() == langs.len()
        &&& forall|i: int|
            0 <= i < langs.len() ==> {
                &&& (#[trigger] arms@[i]).0@ == variant_of(langs[i]@)
                &&& arms@[i].1@ == variant_of(fallback_of(pairs_view(m), d, langs[i]@))
            }
        &&& default_variant@ == if names(langs).contains(d) {
            variant_of(d)
        } else {
            variant_of(langs[0]@)
        }
    }
}

/// Decides the `FallbackSolver` of a module: every chain must end; then each
/// language falls back to its configured fallback, or to the default one.
pub fn generate_fallback_solver(langs: &Vec<String>, m: &Vec<(String, String)>, d: &String) -> (r:
    FallbackSolver)
    requires
        langs.len() > 0,
    ensures
        solver_plan_of(r, langs@, m@, d@),
{
    let issues = fallback_issues(langs, m, d);
    if issues.len() > 0 {
        return FallbackSolver::Rejected { issues, default_variant: lang_to_variant(d.as_str()) };
    }
    let mut arms: Vec<(String, String)> = Vec::new();
    let mut i: usize = 0;
    while i < langs.len()
        invariant
            i <= langs.len(),
            arms.len() == i,
            forall|j: int|
                0 <= j < i ==> {
                    &&& (#[trigger] arms@[j]).0@ == variant_of(langs@[j]@)
                    &&& arms@[j].1@ == variant_of(fallback_of(pairs_view(m@), d@, langs@[j]@))
                },
        decreases langs.len() - i,
    {
        let fb = match lookup_fallback(m, &langs[i]) {
            Some(y) => y,
            None => d.clone(),
        };
        arms.push((lang_to_variant(langs[i].as_str()), lang_to_variant(fb.as_str())));
        i += 1;
    }
    let default_variant = if contains_string(langs, d) {
        lang_to_variant(d.as_str())
    } else {
        lang_to_variant(langs[0].as_str())
    };
    FallbackSolver::Table { arms, default_variant }
}

impl FallbackIssue {
    /// The compile error reported for this issue.
    pub fn message(&self) -> (r: String)
        ensures
            match self {
                FallbackIssue::SelfLoop(y) => r@ == "shakehand: `fallback."@ + y@
                    + "` points to itself, which is only allowed for the default fallback"@,
                FallbackIssue::Cycle(p) => r@ == "shakehand: fallback chain cycle detected: "@
                    + joined(names(p@), " → "@),
            },
    {
        match self {
            FallbackIssue::SelfLoop(y) => {
                let mut r = "shakehand: `fallback.".to_owned();
                r.append(y.as_str());
                r.append("` points to itself, which is only allowed for the default fallback");
                r
            },
            FallbackIssue::Cycle(p) => {
                let mut r = "shakehand: fallback chain cycle detected: ".to_owned();
                let j = join_strings(p, " → ");
                r.append(j.as_str());
                r
            },
        }
    }
}

/// The strings of `v` with `sep` between neighbours.
pub open spec fn joined(v: Seq<Seq<char>>, sep: Seq<char>) -> Seq<char>
    decreases v.len(),
{
    if v.len() == 0 {
        Seq::empty()
    } else if v.len() == 1 {
        v[0]
    } else {
        joined(v.drop_last(), sep) + sep + v.last()
    }
}

/// Joins strings with a separator between neighbours.
pub fn join_strings(v: &Vec<String>, sep: &str) -> (r: String)
    ensures
        r@ == joined(names(v@), sep@),
{
    let mut r = String::new();
    let mut i: usize = 0;
    while i < v.len()
        invariant
            i <= v.len(),
            r@ == joined(names(v@).subrange(0, i as int), sep@),
        decreases v.len() - i,
    {
        if i > 0 {
            r.append(sep);
        }
        r.append(v[i].as_str());
        i += 1;
        assert(names(v@).subrange(0, i as int).drop_last() =~= names(v@).subrange(0, i - 1));
    }
    assert(names(v@).subrange(0, v.len() as int) =~= names(v@));
    r
}

} // verus!
