//! Sequences of distinct numbers kept in increasing order.

use vstd::prelude::*;

verus! {

/// Whether `s` is in strictly increasing order.
pub open spec fn strictly_increasing(s: Seq<usize>) -> bool {
    forall|i: int, j: int| 0 <= i < j < s.len() ==> s[i] < s[j]
}

/// Strictly increasing sequences with the same elements are equal.
pub proof fn lemma_sorted_unique(a: Seq<usize>, b: Seq<usize>)
    requires
        strictly_increasing(a),
        strictly_increasing(b),
        a.to_set() == b.to_set(),
    ensures
        a == b,
    decreases a.len(),
{
    if a.len() == 0 {
        if b.len() > 0 {
            assert(b.to_set().contains(b[0]));
        }
    } else if b.len() == 0 {
        assert(a.to_set().contains(a[0]));
    } else {
        assert(b.to_set().contains(a[0]));
        let k = choose|k: int| 0 <= k < b.len() && b[k] == a[0];
        assert(a.to_set().contains(b[0]));
        let m = choose|m: int| 0 <= m < a.len() && a[m] == b[0];
        assert(a[0] == b[0]) by {
            if k > 0 {
                assert(b[0] < b[k]);
            }
            if m > 0 {
                assert(a[0] < a[m]);
            }
        }
        let ar = a.drop_first();
        let br = b.drop_first();
        assert(ar.to_set() == br.to_set()) by {
            assert forall|x: usize| ar.to_set().contains(x) implies br.to_set().contains(x) by {
                let i = choose|i: int| 0 <= i < ar.len() && ar[i] == x;
                assert(a[i + 1] == x);
                assert(b.to_set().contains(x));
                let j = choose|j: int| 0 <= j < b.len() && b[j] == x;
                if j == 0 {
                    assert(a[0] < a[i + 1]);
                }
                assert(br[j - 1] == x);
            }
            assert forall|x: usize| br.to_set().contains(x) implies ar.to_set().contains(x) by {
                let i = choose|i: int| 0 <= i < br.len() && br[i] == x;
                assert(b[i + 1] == x);
                assert(a.to_set().contains(x));
                let j = choose|j: int| 0 <= j < a.len() && a[j] == x;
                if j == 0 {
                    assert(b[0] < b[i + 1]);
                }
                assert(ar[j - 1] == x);
            }
        }
        lemma_sorted_unique(ar, br);
        assert(a == seq![a[0]] + ar);
        assert(b == seq![b[0]] + br);
    }
}

/// The elements of a finite set of numbers in increasing order.
pub open spec fn increasing_members(s: Set<usize>) -> Seq<usize> {
    choose|l: Seq<usize>| strictly_increasing(l) && l.to_set() == s
}

/// The numbers below `n`, in order.
pub open spec fn below(n: nat) -> Seq<usize> {
    Seq::new(n, |i: int| i as usize)
}

/// The elements of `s` below `n`, in order.
pub open spec fn members_below(s: Set<usize>, n: nat) -> Seq<usize> {
    below(n).filter(|x: usize| s.contains(x))
}

proof fn lemma_filter_below(s: Set<usize>, n: nat)
    requires
        n <= usize::MAX + 1,
    ensures
        strictly_increasing(members_below(s, n)),
        forall|x: usize| #[trigger] members_below(s, n).contains(x) <==> (x < n && s.contains(x)),
    decreases n,
{
    let p = |x: usize| s.contains(x);
    let f = members_below(s, n);
    if n == 0 {
        reveal(Seq::filter);
        assert(f == Seq::<usize>::empty());
    } else {
        let m = (n - 1) as nat;
        lemma_filter_below(s, m);
        let g = members_below(s, m);
        assert(below(n) == below(m).push(m as usize));
        below(m).lemma_filter_push(m as usize, p);
        assert forall|q: int| 0 <= q < g.len() implies #[trigger] g[q] < m by {
            assert(g.contains(g[q]));
        }
        assert forall|x: usize| #[trigger] f.contains(x) <==> (x < n && s.contains(x)) by {
            if s.contains(m as usize) {
                assert(f == g.push(m as usize));
                if f.contains(x) && x != m as usize {
                    let w = choose|w: int| 0 <= w < f.len() && f[w] == x;
                    if w < g.len() {
                        assert(g[w] == x);
                    }
                }
                if g.contains(x) {
                    let w = choose|w: int| 0 <= w < g.len() && g[w] == x;
                    assert(f[w] == x);
                }
                if x == m as usize {
                    assert(f[g.len() as int] == x);
                }
            } else {
                assert(f == g);
            }
        }
    }
}

/// A set of numbers below `n` has an increasing enumeration.
pub proof fn lemma_increasing_members(s: Set<usize>, n: nat)
    requires
        n <= usize::MAX + 1,
        forall|x: usize| #[trigger] s.contains(x) ==> x < n,
    ensures
        strictly_increasing(increasing_members(s)),
        increasing_members(s).to_set() == s,
{
    lemma_filter_below(s, n);
    let f = members_below(s, n);
    assert(f.to_set() == s);
}

/// Distinct numbers below `n` are at most `n` many.
pub proof fn lemma_distinct_below(s: Seq<usize>, n: nat)
    requires
        s.no_duplicates(),
        forall|i: int| 0 <= i < s.len() ==> #[trigger] s[i] < n,
    ensures
        s.len() <= n,
    decreases n,
{
    if n == 0 {
        if s.len() > 0 {
            assert(s[0] < n);
        }
    } else if s.contains((n - 1) as usize) {
        let k = choose|k: int| 0 <= k < s.len() && s[k] == (n - 1) as usize;
        let r = s.remove(k);
        assert forall|i: int| 0 <= i < r.len() implies #[trigger] r[i] < n - 1 by {
            if i < k {
                assert(r[i] == s[i]);
            } else {
                assert(r[i] == s[i + 1]);
            }
        }
        assert(r.no_duplicates()) by {
            assert forall|i: int, j: int| 0 <= i < r.len() && 0 <= j < r.len() && i != j implies r[i] != r[j] by {
                let si = if i < k { i } else { i + 1 };
                let sj = if j < k { j } else { j + 1 };
                assert(r[i] == s[si] && r[j] == s[sj]);
            }
        }
        lemma_distinct_below(r, (n - 1) as nat);
    } else {
        assert forall|i: int| 0 <= i < s.len() implies #[trigger] s[i] < n - 1 by {
            assert(s[i] != (n - 1) as usize);
        }
        lemma_distinct_below(s, (n - 1) as nat);
    }
}

/// Adds `x`, which `v` does not hold, at its place in increasing order.
pub fn insert_sorted(v: &mut Vec<usize>, x: usize)
    requires
        strictly_increasing(old(v)@),
        !old(v)@.contains(x),
    ensures
        strictly_increasing(final(v)@),
        final(v)@.to_set() == old(v)@.to_set().insert(x),
        final(v)@.len() == old(v)@.len() + 1,
{
    let ghost s = v@;
    let mut pos: usize = 0;
    while pos < v.len() && v[pos] < x
        invariant
            v@ == s,
            pos <= v.len(),
            forall|k: int| 0 <= k < pos ==> #[trigger] s[k] < x,
        decreases v.len() - pos,
    {
        pos += 1;
    }
    v.insert(pos, x);
    proof {
        let t = v@;
        assert(t == s.take(pos as int).push(x) + s.skip(pos as int));
        assert forall|i: int, j: int| 0 <= i < j < t.len() implies t[i] < t[j] by {
            if pos < s.len() {
                assert(s[pos as int] != x);
                assert(s[pos as int] > x);
            }
            if i < pos && j > pos {
                assert(t[j] == s[j - 1]);
            } else if i == pos && j > pos {
                assert(t[j] == s[j - 1]);
                assert(s[pos as int] <= s[j - 1]);
            } else if i > pos {
                assert(t[i] == s[i - 1]);
                assert(t[j] == s[j - 1]);
            }
        }
        assert forall|y: usize| t.to_set().contains(y) <==> s.to_set().insert(x).contains(y) by {
            if t.to_set().contains(y) {
                let k = choose|k: int| 0 <= k < t.len() && t[k] == y;
                if k < pos {
                    assert(s[k] == y);
                } else if k > pos {
                    assert(s[k - 1] == y);
                }
            }
            if s.to_set().contains(y) {
                let k = choose|k: int| 0 <= k < s.len() && s[k] == y;
                if k < pos {
                    assert(t[k] == y);
                } else {
                    assert(t[k + 1] == y);
                }
            }
            if y == x {
                assert(t[pos as int] == x);
            }
        }
    }
}

} // verus!
