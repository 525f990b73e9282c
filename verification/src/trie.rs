//! The character trie that the generated `From<&str>` for `Languages` walks
//! to recognise a language name.

use vstd::prelude::*;

verus! {

/// `(name, variant index)` pairs as character sequences.
pub open spec fn entries_view(l: Seq<(String, usize)>) -> Seq<(Seq<char>, usize)> {
    Seq::new(l.len(), |i: int| (l[i].0@, l[i].1))
}

/// The variant of the first entry named `s`.
pub open spec fn first_named(l: Seq<(Seq<char>, usize)>, s: Seq<char>) -> Option<usize>
    decreases l.len(),
{
    if l.len() == 0 {
        None
    } else {
        match first_named(l.drop_last(), s) {
            Some(v) => Some(v),
            None => if l.last().0 == s {
                Some(l.last().1)
            } else {
                None
            },
        }
    }
}

/// The entries whose name has no character at `depth`.
pub open spec fn ending_by(l: Seq<(Seq<char>, usize)>, depth: int) -> Seq<(Seq<char>, usize)>
    decreases l.len(),
{
    if l.len() == 0 {
        l
    } else if l.last().0.len() <= depth {
        ending_by(l.drop_last(), depth).push(l.last())
    } else {
        ending_by(l.drop_last(), depth)
    }
}

/// The entries whose name has the character `c` at `depth`.
pub open spec fn group_of(l: Seq<(Seq<char>, usize)>, depth: int, c: char) -> Seq<
    (Seq<char>, usize),
>
    decreases l.len(),
{
    if l.len() == 0 {
        l
    } else if l.last().0.len() > depth && l.last().0[depth] == c {
        group_of(l.drop_last(), depth, c).push(l.last())
    } else {
        group_of(l.drop_last(), depth, c)
    }
}

/// One node of the trie, for the character at some depth.
pub struct TrieNode {
    /// Names that end at this depth: checked first, whole.
    pub exact: Vec<(String, usize)>,
    /// One arm per character found at this depth, in character order.
    pub arms: Vec<(char, TrieArm)>,
}

/// What the arm of one character leads to.
pub enum TrieArm {
    /// Only one name has this character here: it is checked whole.
    Single(String, usize),
    /// Several names do: the next character decides.
    Branch(Box<TrieNode>),
}

/// The first entry of `l` (from index `i` on) whose name is `s`.
pub open spec fn first_exact(l: Seq<(String, usize)>, s: Seq<char>, i: int) -> Option<usize>
    decreases l.len() - i,
{
    if i < 0 || i >= l.len() {
        None
    } else if l[i].0@ == s {
        Some(l[i].1)
    } else {
        first_exact(l, s, i + 1)
    }
}

/// What the generated matcher answers for the input `s` at node `n`, which
/// looks at the character at `depth`.
pub open spec fn node_lookup(n: TrieNode, s: Seq<char>, depth: int) -> Option<usize>
    decreases n,
{
    match first_exact(n.exact@, s, 0) {
        Some(v) => Some(v),
        None => if 0 <= depth < s.len() {
            arm_lookup(n, s, depth, 0)
        } else {
            None
        },
    }
}

/// The answer of the first arm, from arm `i` on, for the character of `s` at `depth`.
pub open spec fn arm_lookup(n: TrieNode, s: Seq<char>, depth: int, i: int) -> Option<usize>
    decreases n, n.arms@.len() - i,
{
    if i < 0 || i >= n.arms@.len() {
        None
    } else if n.arms@[i].0 == s[depth] {
        match n.arms@[i].1 {
            TrieArm::Single(name, v) => if name@ == s {
                Some(v)
            } else {
                None
            },
            TrieArm::Branch(sub) => {
                proof {
                    assert(decreases_to!(n => n.arms));
                }
                node_lookup(*sub, s, depth + 1)
            },
        }
    } else {
        arm_lookup(n, s, depth, i + 1)
    }
}

} // verus!

verus! {

/// The length of the longest name.
pub open spec fn max_len(l: Seq<(Seq<char>, usize)>) -> int
    decreases l.len(),
{
    if l.len() == 0 {
        0
    } else {
        let m = max_len(l.drop_last());
        if l.last().0.len() > m {
            l.last().0.len() as int
        } else {
            m
        }
    }
}

/// No name is longer than `max_len`, and `max_len` is no larger than a bound
/// that every name respects.
proof fn lemma_max_len(l: Seq<(Seq<char>, usize)>, bound: int)
    ensures
        forall|i: int| 0 <= i < l.len() ==> (#[trigger] l[i]).0.len() <= max_len(l),
        max_len(l) >= 0,
        (forall|i: int| 0 <= i < l.len() ==> (#[trigger] l[i]).0.len() <= bound) && bound >= 0
            ==> max_len(l) <= bound,
    decreases l.len(),
{
    if l.len() > 0 {
        lemma_max_len(l.drop_last(), bound);
        assert forall|i: int| 0 <= i < l.len() implies (#[trigger] l[i]).0.len() <= max_len(l) by {
            if i < l.len() - 1 {
                assert(l[i] == l.drop_last()[i]);
            }
        }
        if (forall|i: int| 0 <= i < l.len() ==> (#[trigger] l[i]).0.len() <= bound) && bound >= 0 {
            assert forall|i: int| 0 <= i < l.drop_last().len() implies (
            #[trigger] l.drop_last()[i]).0.len() <= bound by {
                assert(l.drop_last()[i] == l[i]);
            }
            assert(l.last() == l[l.len() - 1]);
        }
    }
}

/// Every entry of a group comes from the list, and has the group's character.
proof fn lemma_group_members(l: Seq<(Seq<char>, usize)>, depth: int, c: char)
    ensures
        forall|i: int|
            0 <= i < group_of(l, depth, c).len() ==> l.contains(#[trigger] group_of(
                l,
                depth,
                c,
            )[i]) && group_of(l, depth, c)[i].0.len() > depth && group_of(l, depth, c)[i].0[depth]
                == c,
    decreases l.len(),
{
    if l.len() > 0 {
        lemma_group_members(l.drop_last(), depth, c);
        let g = group_of(l, depth, c);
        let g0 = group_of(l.drop_last(), depth, c);
        assert forall|i: int| 0 <= i < g.len() implies l.contains(#[trigger] g[i]) && g[i].0.len()
            > depth && g[i].0[depth] == c by {
            if i < g0.len() {
                assert(g[i] == g0[i]);
                let k = choose|k: int| 0 <= k < l.drop_last().len() && l.drop_last()[k] == g0[i];
                assert(l[k] == g0[i]);
            } else {
                assert(g[i] == l[l.len() - 1]);
            }
        }
    }
}

/// Keeping the entries of a group keeps the first entry named `s`, when `s`
/// has the group's character; otherwise no entry named `s` is kept.
proof fn lemma_first_in_group(l: Seq<(Seq<char>, usize)>, depth: int, c: char, s: Seq<char>)
    requires
        0 <= depth,
    ensures
        first_named(group_of(l, depth, c), s) == if s.len() > depth && s[depth] == c {
            first_named(l, s)
        } else {
            None
        },
    decreases l.len(),
{
    if l.len() > 0 {
        lemma_first_in_group(l.drop_last(), depth, c, s);
        let g = group_of(l, depth, c);
        if l.last().0.len() > depth && l.last().0[depth] == c {
            assert(g.drop_last() =~= group_of(l.drop_last(), depth, c));
        }
    }
}

/// Keeping the names that end by `depth` keeps the first entry named `s`,
/// when `s` ends by `depth`; otherwise no entry named `s` is kept.
proof fn lemma_first_ending(l: Seq<(Seq<char>, usize)>, depth: int, s: Seq<char>)
    ensures
        first_named(ending_by(l, depth), s) == if s.len() <= depth {
            first_named(l, s)
        } else {
            None
        },
    decreases l.len(),
{
    if l.len() > 0 {
        lemma_first_ending(l.drop_last(), depth, s);
        let g = ending_by(l, depth);
        if l.last().0.len() <= depth {
            assert(g.drop_last() =~= ending_by(l.drop_last(), depth));
        }
    }
}

/// The exact checks of a node answer as `first_named` does on them.
proof fn lemma_first_exact(l: Seq<(String, usize)>, s: Seq<char>, i: int)
    requires
        0 <= i <= l.len(),
        first_named(entries_view(l).subrange(0, i), s) is None,
    ensures
        first_exact(l, s, i) == first_named(entries_view(l), s),
    decreases l.len() - i,
{
    let v = entries_view(l);
    if i == l.len() {
        assert(v.subrange(0, i) =~= v);
    } else {
        assert(v.subrange(0, i + 1).drop_last() =~= v.subrange(0, i));
        if l[i].0@ == s {
            lemma_first_named_prefix(v, s, i + 1);
        } else {
            lemma_first_exact(l, s, i + 1);
        }
    }
}

/// Once a prefix holds an entry named `s`, the first one found there is the
/// first of the whole list.
proof fn lemma_first_named_prefix(l: Seq<(Seq<char>, usize)>, s: Seq<char>, i: int)
    requires
        0 <= i <= l.len(),
        first_named(l.subrange(0, i), s) is Some,
    ensures
        first_named(l, s) == first_named(l.subrange(0, i), s),
    decreases l.len() - i,
{
    if i == l.len() {
        assert(l.subrange(0, i) =~= l);
    } else {
        assert(l.subrange(0, i + 1).drop_last() =~= l.subrange(0, i));
        lemma_first_named_prefix(l, s, i + 1);
    }
}

} // verus!

verus! {

/// The entries of `l` split at `depth`: the names that end by `depth`, and
/// one group per character found at `depth`, in character order.
pub struct Split {
    pub exact: Vec<(String, usize)>,
    pub chars: Vec<char>,
    pub members: Vec<Vec<(String, usize)>>,
}

/// A split of `l` at `depth` as described by [`Split`].
pub open spec fn is_split(l: Seq<(Seq<char>, usize)>, depth: int, r: Split) -> bool {
    &&& entries_view(r.exact@) == ending_by(l, depth)
    &&& r.chars.len() == r.members.len()
    &&& forall|k: int|
        0 <= k < r.members.len() ==> entries_view((#[trigger] r.members@[k])@) == group_of(
            l,
            depth,
            r.chars@[k],
        ) && r.members@[k].len() > 0
    &&& forall|a: int, b: int| 0 <= a < b < r.chars.len() ==> r.chars@[a] < r.chars@[b]
    &&& forall|c: char| group_of(l, depth, c).len() > 0 ==> #[trigger] r.chars@.contains(c)
    &&& r.chars.len() > 0 ==> depth < usize::MAX
}

/// Splits the entries of `l` by their character at `depth`.
pub fn split_at_depth(l: &Vec<(String, usize)>, depth: usize) -> (r: Split)
    ensures
        is_split(entries_view(l@), depth as int, r),
{
    let ghost v = entries_view(l@);
    let mut exact: Vec<(String, usize)> = Vec::new();
    let mut chars: Vec<char> = Vec::new();
    let mut members: Vec<Vec<(String, usize)>> = Vec::new();
    let mut i: usize = 0;
    assert(v.subrange(0, 0) =~= Seq::<(Seq<char>, usize)>::empty());
    assert(entries_view(exact@) =~= Seq::<(Seq<char>, usize)>::empty());
    while i < l.len()
        invariant
            i <= l.len(),
            v == entries_view(l@),
            is_split(v.subrange(0, i as int), depth as int, Split { exact, chars, members }),
        decreases l.len() - i,
    {
        let ghost p = v.subrange(0, i as int);
        let ghost q = v.subrange(0, i + 1);
        assert(q.drop_last() =~= p);
        assert(q.last() == v[i as int]);
        let name = &l[i].0;
        let n = name.unicode_len();
        let e = (name.clone(), l[i].1);
        assert(forall|c: char|
            #![trigger group_of(q, depth as int, c)]
            !(q.last().0.len() > depth && q.last().0[depth as int] == c) ==> group_of(
                q,
                depth as int,
                c,
            ) == group_of(p, depth as int, c));
        if n <= depth {
            let ghost before = exact@;
            exact.push(e);
            assert(entries_view(exact@) =~= entries_view(before).push(q.last()));
            assert forall|c: char| group_of(q, depth as int, c).len() > 0 implies #[trigger] chars@.contains(c) by {
                assert(group_of(q, depth as int, c) == group_of(p, depth as int, c));
            }
        } else {
            let c = name.get_char(depth);
            assert(depth < usize::MAX);
            assert(ending_by(q, depth as int) == ending_by(p, depth as int));
            let mut k: usize = 0;
            while k < chars.len() && chars[k] < c
                invariant
                    k <= chars.len(),
                    forall|j: int| 0 <= j < k ==> chars@[j] < c,
                decreases chars.len() - k,
            {
                k += 1;
            }
            if k < chars.len() && chars[k] == c {
                let ghost old_members = members@;
                let mut g = members.remove(k);
                let ghost gv = g@;
                g.push(e);
                members.insert(k, g);
                assert(entries_view(members@[k as int]@) =~= entries_view(gv).push(q.last()));
                assert forall|j: int| 0 <= j < members.len() implies entries_view(
                    (#[trigger] members@[j])@,
                ) == group_of(q, depth as int, chars@[j]) && members@[j].len() > 0 by {
                    if j != k {
                        assert(members@[j] == old_members[j]);
                        assert(chars@[j] != c);
                    }
                }
                assert forall|d: char| group_of(q, depth as int, d).len() > 0 implies #[trigger] chars@.contains(d) by {
                    if d != c {
                        assert(group_of(q, depth as int, d) == group_of(p, depth as int, d));
                    }
                }
            } else {
                let ghost old_members = members@;
                let ghost old_chars = chars@;
                assert(group_of(p, depth as int, c).len() == 0) by {
                    if group_of(p, depth as int, c).len() > 0 {
                        assert(old_chars.contains(c));
                        let j = choose|j: int| 0 <= j < old_chars.len() && old_chars[j] == c;
                        if j < k {
                        } else {
                            assert(old_chars[k as int] <= old_chars[j]);
                        }
                    }
                }
                assert(group_of(p, depth as int, c) =~= Seq::<(Seq<char>, usize)>::empty());
                let mut g: Vec<(String, usize)> = Vec::new();
                g.push(e);
                chars.insert(k, c);
                members.insert(k, g);
                assert(entries_view(members@[k as int]@) =~= seq![q.last()]);
                assert(group_of(q, depth as int, c) =~= seq![q.last()]);
                assert forall|j: int| 0 <= j < members.len() implies entries_view(
                    (#[trigger] members@[j])@,
                ) == group_of(q, depth as int, chars@[j]) && members@[j].len() > 0 by {
                    if j < k {
                        assert(members@[j] == old_members[j]);
                        assert(chars@[j] == old_chars[j]);
                    } else if j > k {
                        assert(members@[j] == old_members[j - 1]);
                        assert(chars@[j] == old_chars[j - 1]);
                    }
                }
                assert forall|a: int, b: int| 0 <= a < b < chars.len() implies chars@[a]
                    < chars@[b] by {
                    if b < k {
                        assert(chars@[a] == old_chars[a] && chars@[b] == old_chars[b]);
                    } else if b == k {
                        assert(chars@[a] == old_chars[a]);
                    } else if a < k {
                        assert(chars@[a] == old_chars[a] && chars@[b] == old_chars[b - 1]);
                        assert(old_chars[k as int] <= old_chars[b - 1]);
                    } else if a == k {
                        assert(chars@[b] == old_chars[b - 1]);
                        assert(old_chars[k as int] <= old_chars[b - 1]);
                    } else {
                        assert(chars@[a] == old_chars[a - 1] && chars@[b] == old_chars[b - 1]);
                    }
                }
                assert forall|d: char| group_of(q, depth as int, d).len() > 0 implies #[trigger] chars@.contains(d) by {
                    if d == c {
                        assert(chars@[k as int] == c);
                    } else {
                        assert(group_of(q, depth as int, d) == group_of(p, depth as int, d));
                        assert(old_chars.contains(d));
                        let j = choose|j: int| 0 <= j < old_chars.len() && old_chars[j] == d;
                        if j < k {
                            assert(chars@[j] == d);
                        } else {
                            assert(chars@[j + 1] == d);
                        }
                    }
                }
            }
        }
        i += 1;
    }
    assert(v.subrange(0, l.len() as int) =~= v);
    Split { exact, chars, members }
}

} // verus!

verus! {

/// What one arm answers for `s`, whose character at `depth` is the arm's.
pub open spec fn arm_answer(a: TrieArm, s: Seq<char>, depth: int) -> Option<usize> {
    match a {
        TrieArm::Single(name, v) => if name@ == s {
            Some(v)
        } else {
            None
        },
        TrieArm::Branch(sub) => node_lookup(*sub, s, depth + 1),
    }
}

/// The arms of a node, from `i` on, answer with the only arm for the
/// character of `s` at `depth`, or not at all.
proof fn lemma_arm_lookup(n: TrieNode, s: Seq<char>, depth: int, i: int)
    requires
        0 <= depth < s.len(),
        0 <= i <= n.arms@.len(),
        forall|a: int, b: int|
            0 <= a < b < n.arms@.len() ==> n.arms@[a].0 != n.arms@[b].0,
    ensures
        arm_lookup(n, s, depth, i) == if exists|k: int|
            i <= k < n.arms@.len() && #[trigger] n.arms@[k].0 == s[depth] {
            arm_answer(
                n.arms@[choose|k: int| i <= k < n.arms@.len() && #[trigger] n.arms@[k].0 == s[depth]].1,
                s,
                depth,
            )
        } else {
            None
        },
    decreases n.arms@.len() - i,
{
    if i < n.arms@.len() {
        if n.arms@[i].0 == s[depth] {
            let k = choose|k: int| i <= k < n.arms@.len() && #[trigger] n.arms@[k].0 == s[depth];
            if k != i {
                if k < i {
                } else {
                    assert(n.arms@[i].0 != n.arms@[k].0);
                }
            }
        } else {
            lemma_arm_lookup(n, s, depth, i + 1);
            if exists|k: int| i <= k < n.arms@.len() && #[trigger] n.arms@[k].0 == s[depth] {
                let k = choose|k: int| i <= k < n.arms@.len() && #[trigger] n.arms@[k].0 == s[depth];
                assert(i + 1 <= k);
                let k2 = choose|k: int|
                    i + 1 <= k < n.arms@.len() && #[trigger] n.arms@[k].0 == s[depth];
                if k != k2 {
                    if k < k2 {
                        assert(n.arms@[k].0 != n.arms@[k2].0);
                    } else {
                        assert(n.arms@[k2].0 != n.arms@[k].0);
                    }
                }
            }
        }
    }
}

/// Builds the trie that the generated `From<&str>` walks, for names compared
/// from character `depth` on: names ending by `depth` are checked whole; the
/// others are grouped by their character at `depth`, a group of one name is
/// checked whole and a larger group gets a trie of its own one character
/// deeper. The trie answers the variant of the first entry named like the input.
pub fn gen_trie_match(langs: &Vec<(String, usize)>, depth: usize) -> (r: TrieNode)
    ensures
        langs.len() == 0 ==> r.exact.len() == 0 && r.arms.len() == 0,
        forall|s: Seq<char>| #[trigger]
            node_lookup(r, s, depth as int) == first_named(entries_view(langs@), s),
    decreases max_len(entries_view(langs@)) - depth,
{
    let ghost v = entries_view(langs@);
    if langs.len() == 0 {
        let r = TrieNode { exact: Vec::new(), arms: Vec::new() };
        assert forall|s: Seq<char>| #[trigger] node_lookup(r, s, depth as int) == first_named(v, s) by {
            assert(r.arms@.len() == 0);
            assert(arm_lookup(r, s, depth as int, 0) is None);
        }
        return r;
    }
    if langs.len() == 1 {
        let mut exact: Vec<(String, usize)> = Vec::new();
        exact.push((langs[0].0.clone(), langs[0].1));
        let r = TrieNode { exact, arms: Vec::new() };
        assert forall|s: Seq<char>| #[trigger] node_lookup(r, s, depth as int) == first_named(v, s) by {
            assert(v.drop_last().len() == 0);
            assert(first_named(v.drop_last(), s) is None);
            assert(r.arms@.len() == 0);
            assert(first_exact(r.exact@, s, 1) is None);
            assert(arm_lookup(r, s, depth as int, 0) is None);
        }
        return r;
    }
    let split = split_at_depth(langs, depth);
    let Split { exact, chars, members } = split;
    let ghost chars_v = chars@;
    let ghost members_v = members@;
    let mut arms: Vec<(char, TrieArm)> = Vec::new();
    let mut k: usize = 0;
    while k < members.len()
        invariant
            k <= members.len(),
            chars@ == chars_v,
            members@ == members_v,
            is_split(v, depth as int, Split { exact, chars, members }),
            v == entries_view(langs@),
            arms.len() == k,
            forall|j: int| 0 <= j < k ==> (#[trigger] arms@[j]).0 == chars_v[j],
            forall|j: int, s: Seq<char>|
                0 <= j < k && s.len() > depth && s[depth as int] == chars_v[j] ==> #[trigger] arm_answer(
                    arms@[j].1,
                    s,
                    depth as int,
                ) == first_named(v, s),
        decreases members.len() - k,
    {
        let g = &members[k];
        proof {
            lemma_group_members(v, depth as int, chars_v[k as int]);
            assert(entries_view(members_v[k as int]@) == group_of(v, depth as int, chars_v[k as int]));
        }
        if g.len() == 1 {
            arms.push((chars[k], TrieArm::Single(g[0].0.clone(), g[0].1)));
            assert forall|s: Seq<char>|
                s.len() > depth && s[depth as int] == chars_v[k as int] implies #[trigger] arm_answer(
                arms@[k as int].1,
                s,
                depth as int,
            ) == first_named(v, s) by {
                lemma_first_in_group(v, depth as int, chars_v[k as int], s);
                let gv = entries_view(g@);
                assert(gv.drop_last().len() == 0);
                assert(first_named(gv.drop_last(), s) is None);
                assert(gv.last() == gv[0]);
            }
        } else {
            proof {
                let gv = entries_view(g@);
                assert forall|i: int| 0 <= i < gv.len() implies (#[trigger] gv[i]).0.len() <= max_len(
                    v,
                ) by {
                    lemma_max_len(v, 0);
                    assert(v.contains(gv[i]));
                }
                lemma_max_len(gv, max_len(v));
                assert(gv[0].0.len() > depth);
            }
            let sub = gen_trie_match(g, depth + 1);
            arms.push((chars[k], TrieArm::Branch(Box::new(sub))));
            assert forall|s: Seq<char>|
                s.len() > depth && s[depth as int] == chars_v[k as int] implies #[trigger] arm_answer(
                arms@[k as int].1,
                s,
                depth as int,
            ) == first_named(v, s) by {
                lemma_first_in_group(v, depth as int, chars_v[k as int], s);
                assert(node_lookup(sub, s, depth + 1) == first_named(entries_view(g@), s));
            }
        }
        k += 1;
    }
    let r = TrieNode { exact, arms };
    assert forall|s: Seq<char>| #[trigger] node_lookup(r, s, depth as int) == first_named(v, s) by {
        lemma_first_exact(r.exact@, s, 0);
        assert(entries_view(r.exact@).subrange(0, 0) =~= Seq::<(Seq<char>, usize)>::empty());
        lemma_first_ending(v, depth as int, s);
        if s.len() > depth {
            assert forall|a: int, b: int| 0 <= a < b < r.arms@.len() implies r.arms@[a].0 != r.arms@[b].0 by {
                assert(chars_v[a] < chars_v[b]);
            }
            lemma_arm_lookup(r, s, depth as int, 0);
            let c = s[depth as int];
            lemma_first_in_group(v, depth as int, c, s);
            if exists|j: int| 0 <= j < r.arms@.len() && #[trigger] r.arms@[j].0 == c {
                let j = choose|j: int| 0 <= j < r.arms@.len() && #[trigger] r.arms@[j].0 == c;
                assert(arm_answer(r.arms@[j].1, s, depth as int) == first_named(v, s));
            } else {
                if group_of(v, depth as int, c).len() > 0 {
                    assert(chars_v.contains(c));
                    let j = choose|j: int| 0 <= j < chars_v.len() && chars_v[j] == c;
                    assert(r.arms@[j].0 == c);
                }
                assert(group_of(v, depth as int, c).len() == 0);
            }
        }
    }
    r
}

} // verus!

verus! {

/// The variant of the first entry named `s` is one of the entries' variants.
pub proof fn lemma_first_named_bound(l: Seq<(Seq<char>, usize)>, s: Seq<char>)
    ensures
        first_named(l, s) matches Some(v) ==> exists|i: int| 0 <= i < l.len() && #[trigger] l[i].1 == v,
    decreases l.len(),
{
    if l.len() > 0 {
        lemma_first_named_bound(l.drop_last(), s);
        if first_named(l.drop_last(), s) is Some {
            let v = first_named(l.drop_last(), s)->0;
            let i = choose|i: int| 0 <= i < l.drop_last().len() && #[trigger] l.drop_last()[i].1 == v;
            assert(l[i].1 == v);
        } else {
            assert(l[l.len() - 1].1 == l.last().1);
        }
    }
}

} // verus!
