//! The order of `String` (lexicographic by character) and sorted lists of
//! distinct strings, which stand for ordered string sets.

use vstd::prelude::*;
use crate::chars::{chars_of, names};

verus! {

/// `a` and `b` agree on their first `k` characters.
pub open spec fn agree_before(a: Seq<char>, b: Seq<char>, k: int) -> bool {
    forall|j: int| 0 <= j < k ==> a[j] == b[j]
}

/// `k` is where `a` and `b` first differ, and there `a` is the smaller: `a`
/// ends first, or its character is the smaller one.
pub open spec fn less_at(a: Seq<char>, b: Seq<char>, k: int) -> bool {
    &&& 0 <= k <= a.len()
    &&& k <= b.len()
    &&& agree_before(a, b, k)
    &&& ((k == a.len() && k < b.len()) || (k < a.len() && k < b.len() && a[k] < b[k]))
}

/// Lexicographic order on character sequences: the order of `String`, whose
/// byte order coincides with the order of code points.
pub open spec fn seq_lt(a: Seq<char>, b: Seq<char>) -> bool {
    exists|k: int| less_at(a, b, k)
}

/// Strictly increasing: sorted and without repetition.
pub open spec fn strictly_sorted(s: Seq<Seq<char>>) -> bool {
    forall|i: int, j: int| 0 <= i < j < s.len() ==> seq_lt(s[i], s[j])
}

/// No sequence is below itself.
pub proof fn lemma_lt_irreflexive(a: Seq<char>)
    ensures
        !seq_lt(a, a),
{
}

/// Finds, from `k` on, the first index below `m` where `a` and `b` differ
/// (or `m` when they agree up to there).
pub proof fn lemma_first_difference(a: Seq<char>, b: Seq<char>, k: int, m: int) -> (r: int)
    requires
        0 <= k <= m,
        m <= a.len(),
        m <= b.len(),
        agree_before(a, b, k),
    ensures
        k <= r <= m,
        agree_before(a, b, r),
        r < m ==> a[r] != b[r],
    decreases m - k,
{
    if k < m && a[k] == b[k] {
        lemma_first_difference(a, b, k + 1, m)
    } else {
        k
    }
}

/// Comparison is decided at the first difference: exactly one of `a < b`,
/// `a == b`, `b < a` holds.
pub proof fn lemma_lt_trichotomy(a: Seq<char>, b: Seq<char>)
    ensures
        seq_lt(a, b) || a == b || seq_lt(b, a),
        !(seq_lt(a, b) && seq_lt(b, a)),
        seq_lt(a, b) ==> a != b,
{
    let m = if a.len() < b.len() { a.len() as int } else { b.len() as int };
    let k = lemma_first_difference(a, b, 0, m);
    assert(agree_before(b, a, k));
    if k < m {
        if a[k] < b[k] {
            assert(less_at(a, b, k));
        } else {
            assert(less_at(b, a, k));
        }
    } else if a.len() < b.len() {
        assert(less_at(a, b, k));
    } else if b.len() < a.len() {
        assert(less_at(b, a, k));
    } else {
        assert(a =~= b);
    }
    if seq_lt(a, b) && seq_lt(b, a) {
        let k1 = choose|k1: int| less_at(a, b, k1);
        let k2 = choose|k2: int| less_at(b, a, k2);
        if k1 < k2 {
            assert(a[k1] == b[k1]);
        } else if k2 < k1 {
            assert(a[k2] == b[k2]);
        }
    }
}

/// The order is transitive.
pub proof fn lemma_lt_transitive(a: Seq<char>, b: Seq<char>, c: Seq<char>)
    requires
        seq_lt(a, b),
        seq_lt(b, c),
    ensures
        seq_lt(a, c),
{
    let k1 = choose|k1: int| less_at(a, b, k1);
    let k2 = choose|k2: int| less_at(b, c, k2);
    if k1 < k2 {
        assert(less_at(a, c, k1));
    } else if k2 < k1 {
        assert(less_at(a, c, k2));
    } else {
        assert(less_at(a, c, k1));
    }
}

/// Whether `a` comes before `b` in the order of `String`.
pub fn str_lt(a: &str, b: &str) -> (r: bool)
    ensures
        r == seq_lt(a@, b@),
{
    let x = chars_of(a);
    let y = chars_of(b);
    let m = if x.len() < y.len() { x.len() } else { y.len() };
    let mut k: usize = 0;
    while k < m && x[k] == y[k]
        invariant
            x@ == a@,
            y@ == b@,
            k <= m,
            m <= x.len(),
            m <= y.len(),
            m == x.len() || m == y.len(),
            agree_before(a@, b@, k as int),
        decreases m - k,
    {
        k += 1;
    }
    let r = if k < m { x[k] < y[k] } else { x.len() < y.len() };
    proof {
        lemma_lt_trichotomy(a@, b@);
        if r {
            assert(less_at(a@, b@, k as int));
        } else if seq_lt(a@, b@) {
            let k1 = choose|k1: int| less_at(a@, b@, k1);
            if k1 < k {
                assert(a@[k1] == b@[k1]);
            }
        }
    }
    r
}

/// Inserts `s` into a strictly sorted list of strings, where it is not
/// already; the list stays strictly sorted and gains exactly `s`.
pub fn insert_sorted(v: &mut Vec<String>, s: String)
    requires
        strictly_sorted(names(old(v)@)),
    ensures
        strictly_sorted(names(final(v)@)),
        forall|x: Seq<char>| #[trigger]
            names(final(v)@).contains(x) <==> (names(old(v)@).contains(x) || x == s@),
{
    let ghost old_names = names(v@);
    let mut p: usize = 0;
    while p < v.len() && str_lt(v[p].as_str(), s.as_str())
        invariant
            p <= v.len(),
            v@ == old(v)@,
            forall|j: int| 0 <= j < p ==> seq_lt(#[trigger] names(v@)[j], s@),
        decreases v.len() - p,
    {
        p += 1;
    }
    if p < v.len() && v[p].eq(&s) {
        assert forall|x: Seq<char>| #[trigger]
            names(v@).contains(x) <==> (names(old(v)@).contains(x) || x == s@) by {
            if x == s@ {
                assert(names(v@)[p as int] == x);
            }
        }
        return;
    }
    proof {
        if p < v.len() {
            lemma_lt_trichotomy(s@, v@[p as int]@);
        }
    }
    v.insert(p, s);
    let ghost new_names = names(v@);
    assert(new_names =~= old_names.insert(p as int, v@[p as int]@));
    assert forall|i: int, j: int| 0 <= i < j < new_names.len() implies seq_lt(
        new_names[i],
        new_names[j],
    ) by {
        if j < p {
            assert(new_names[i] == old_names[i] && new_names[j] == old_names[j]);
        } else if j == p {
            assert(new_names[i] == old_names[i]);
        } else if i == p {
            assert(new_names[j] == old_names[j - 1]);
            if j - 1 > p {
                lemma_lt_transitive(new_names[i], old_names[p as int], old_names[j - 1]);
            }
        } else if i < p {
            assert(new_names[i] == old_names[i] && new_names[j] == old_names[j - 1]);
        } else {
            assert(new_names[i] == old_names[i - 1] && new_names[j] == old_names[j - 1]);
        }
    }
    assert forall|x: Seq<char>| #[trigger]
        new_names.contains(x) <==> (old_names.contains(x) || x == new_names[p as int]) by {
        if new_names.contains(x) {
            let k = choose|k: int| 0 <= k < new_names.len() && new_names[k] == x;
            if k < p {
                assert(old_names[k] == x);
            } else if k > p {
                assert(old_names[k - 1] == x);
            }
        }
        if old_names.contains(x) {
            let k = choose|k: int| 0 <= k < old_names.len() && old_names[k] == x;
            if k < p {
                assert(new_names[k] == x);
            } else {
                assert(new_names[k + 1] == x);
            }
        }
    }
}

} // verus!
