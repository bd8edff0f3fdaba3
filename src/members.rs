//! Member lists: the classes of a cell, kept in strictly increasing order.
use vstd::prelude::*;

verus! {

pub open spec fn strictly_sorted(s: Seq<usize>) -> bool {
    forall|i: int, j: int| 0 <= i < j < s.len() ==> s[i] < s[j]
}

/// The member list whose classes are exactly those that satisfy `pred`.
pub open spec fn sorted_members(pred: spec_fn(usize) -> bool) -> Seq<usize> {
    choose|t: Seq<usize>| strictly_sorted(t) && forall|g: usize| t.contains(g) <==> #[trigger] pred(g)
}

/// The classes below `n` that satisfy `pred`, in increasing order.
pub open spec fn members_below_bound(pred: spec_fn(usize) -> bool, n: nat) -> Seq<usize>
    decreases n,
{
    if n == 0 {
        seq![]
    } else if pred((n - 1) as usize) {
        members_below_bound(pred, (n - 1) as nat).push((n - 1) as usize)
    } else {
        members_below_bound(pred, (n - 1) as nat)
    }
}

proof fn lemma_members_below_bound(pred: spec_fn(usize) -> bool, n: nat)
    requires
        n <= usize::MAX + 1,
    ensures
        strictly_sorted(members_below_bound(pred, n)),
        forall|k: int|
            0 <= k < members_below_bound(pred, n).len() ==> #[trigger] members_below_bound(pred, n)[k] < n,
        forall|g: usize| members_below_bound(pred, n).contains(g) <==> g < n && #[trigger] pred(g),
    decreases n,
{
    if n > 0 {
        let m = (n - 1) as nat;
        lemma_members_below_bound(pred, m);
        let s = members_below_bound(pred, m);
        if pred(m as usize) {
            lemma_push_contains(s, m as usize);
            assert(s.push(m as usize)[s.len() as int] == m);
        }
    }
}

/// Every predicate on classes has its member list.
pub proof fn lemma_sorted_members(pred: spec_fn(usize) -> bool)
    ensures
        strictly_sorted(sorted_members(pred)),
        forall|g: usize| sorted_members(pred).contains(g) <==> #[trigger] pred(g),
{
    lemma_members_below_bound(pred, (usize::MAX + 1) as nat);
    let w = members_below_bound(pred, (usize::MAX + 1) as nat);
    assert(strictly_sorted(w) && forall|g: usize| w.contains(g) <==> #[trigger] pred(g));
}

/// Two strictly increasing lists with the same elements are equal.
pub proof fn lemma_sorted_unique(a: Seq<usize>, b: Seq<usize>)
    requires
        strictly_sorted(a),
        strictly_sorted(b),
        forall|g: usize| a.contains(g) <==> b.contains(g),
    ensures
        a == b,
    decreases a.len(),
{
    if a.len() == 0 {
        if b.len() > 0 {
            assert(b.contains(b[0]));
        }
        assert(a =~= b);
    } else {
        assert(a.contains(a[0]));
        assert(b.len() > 0);
        assert(b.contains(b[0]));
        let i = choose|i: int| 0 <= i < a.len() && a[i] == b[0];
        let j = choose|j: int| 0 <= j < b.len() && b[j] == a[0];
        assert(a[0] <= a[i]);
        assert(b[0] <= b[j]);
        assert(a[0] == b[0]);
        let a1 = a.subrange(1, a.len() as int);
        let b1 = b.subrange(1, b.len() as int);
        assert forall|g: usize| a1.contains(g) <==> b1.contains(g) by {
            if a1.contains(g) {
                let k = choose|k: int| 0 <= k < a1.len() && a1[k] == g;
                assert(a[k + 1] == g);
                assert(a.contains(g));
                let l = choose|l: int| 0 <= l < b.len() && b[l] == g;
                assert(l != 0);
                assert(b1[l - 1] == g);
            }
            if b1.contains(g) {
                let k = choose|k: int| 0 <= k < b1.len() && b1[k] == g;
                assert(b[k + 1] == g);
                assert(b.contains(g));
                let l = choose|l: int| 0 <= l < a.len() && a[l] == g;
                assert(l != 0);
                assert(a1[l - 1] == g);
            }
        }
        lemma_sorted_unique(a1, b1);
        assert(a =~= b) by {
            assert forall|k: int| 0 <= k < a.len() implies a[k] == b[k] by {
                if k > 0 {
                    assert(a[k] == a1[k - 1]);
                    assert(b[k] == b1[k - 1]);
                }
            }
        }
    }
}

/// A strictly increasing list whose elements are exactly those satisfying
/// `pred` is `sorted_members(pred)`.
pub proof fn lemma_is_sorted_members(t: Seq<usize>, pred: spec_fn(usize) -> bool)
    requires
        strictly_sorted(t),
        forall|g: usize| t.contains(g) <==> #[trigger] pred(g),
    ensures
        t == sorted_members(pred),
{
    assert(exists|w: Seq<usize>| strictly_sorted(w) && forall|g: usize| w.contains(g) <==> #[trigger] pred(g));
    let u = sorted_members(pred);
    assert forall|g: usize| t.contains(g) <==> u.contains(g) by {
        assert(t.contains(g) <==> pred(g));
        assert(u.contains(g) <==> pred(g));
    }
    lemma_sorted_unique(t, u);
}

/// Pushing `a` adds exactly `a` to what the sequence contains.
pub proof fn lemma_push_contains<A>(s: Seq<A>, a: A)
    ensures
        forall|c: A| #[trigger] s.push(a).contains(c) <==> s.contains(c) || c == a,
{
    assert forall|c: A| #[trigger] s.push(a).contains(c) <==> s.contains(c) || c == a by {
        if s.contains(c) {
            let k = choose|k: int| 0 <= k < s.len() && s[k] == c;
            assert(s.push(a)[k] == c);
        }
        if c == a {
            assert(s.push(a)[s.len() as int] == a);
        }
        if s.push(a).contains(c) {
            let k = choose|k: int| 0 <= k < s.len() + 1 && s.push(a)[k] == c;
            if k < s.len() {
                assert(s[k] == c);
            }
        }
    }
}

/// Whether `g` is in the list.
pub fn has_member(s: &Vec<usize>, g: usize) -> (r: bool)
    ensures
        r == s@.contains(g),
{
    for i in 0..s.len()
        invariant
            forall|k: int| 0 <= k < i ==> s@[k] != g,
    {
        if s[i] == g {
            return true;
        }
    }
    false
}

/// Adds `g` to a strictly increasing list, keeping it strictly increasing.
pub fn insert_member(s: &mut Vec<usize>, g: usize)
    requires
        strictly_sorted(old(s)@),
    ensures
        strictly_sorted(final(s)@),
        forall|h: usize| final(s)@.contains(h) <==> (old(s)@.contains(h) || h == g),
{
    let mut i: usize = 0;
    while i < s.len() && s[i] < g
        invariant
            0 <= i <= s@.len(),
            strictly_sorted(s@),
            forall|k: int| 0 <= k < i ==> s@[k] < g,
        decreases s@.len() - i,
    {
        i = i + 1;
    }
    if i < s.len() && s[i] == g {
        assert(s@.contains(g));
        return;
    }
    let ghost before = s@;
    s.insert(i, g);
    proof {
        before.insert_ensures(i as int, g);
        assert forall|a: int, b: int| 0 <= a < b < s@.len() implies s@[a] < s@[b] by {
            if b < i {
            } else if b == i {
            } else if a < i {
                assert(before[b - 1] >= g);
            } else if a == i {
                assert(before[b - 1] >= g);
                assert(before[b - 1] != g) by {
                    if before[b - 1] == g {
                        assert(before[i as int] <= before[b - 1]);
                    }
                }
            } else {
            }
        }
        assert forall|h: usize| s@.contains(h) <==> (before.contains(h) || h == g) by {
            if s@.contains(h) {
                let k = choose|k: int| 0 <= k < s@.len() && s@[k] == h;
                if k < i {
                    assert(before[k] == h);
                } else if k > i {
                    assert(before[k - 1] == h);
                }
            }
            if before.contains(h) {
                let k = choose|k: int| 0 <= k < before.len() && before[k] == h;
                if k < i {
                    assert(s@[k] == h);
                } else {
                    assert(s@[k + 1] == h);
                }
            }
            if h == g {
                assert(s@[i as int] == g);
            }
        }
    }
}

} // verus!
