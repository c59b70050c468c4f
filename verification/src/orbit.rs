//! Orbits of puzzle faces under the two turning moves, and the permutation
//! generators that the moves induce on each orbit.
//!
//! Which face each move sends each face to is found geometrically elsewhere;
//! here that matching is the input: `targets[m][i]` is the face that move `m`
//! (in the order A, A', B, B') sends face `i` to, if any.

use vstd::prelude::*;
use std::collections::HashMap;
use std::collections::HashSet;
use vstd::string::StringExecFns;
use crate::generator::gens_view;
use crate::text::{decimal, push_decimal};
use crate::sorted::{
    increasing_members, insert_sorted, lemma_distinct_below, lemma_sorted_unique, strictly_increasing,
};

verus! {

/// Number of moves whose face matchings are given: A, A', B, B'.
pub const MOVE_COUNT: usize = 4;

/// The matchings are well formed: one per move, one entry per face, every
/// target a face.
pub open spec fn targets_wf(t: Seq<Seq<Option<usize>>>, n: nat) -> bool {
    &&& t.len() == MOVE_COUNT
    &&& forall|m: int| 0 <= m < MOVE_COUNT ==> (#[trigger] t[m]).len() == n
    &&& forall|m: int, i: int|
        0 <= m < MOVE_COUNT && 0 <= i < n && #[trigger] t[m][i] is Some ==> t[m][i]->0 < n
}

/// Faces `i` and `j` are matched by some move, in either direction.
pub open spec fn linked(t: Seq<Seq<Option<usize>>>, i: int, j: int) -> bool {
    exists|m: int|
        #![trigger t[m][i]]
        #![trigger t[m][j]]
        0 <= m < MOVE_COUNT && (t[m][i] == Some(j as usize) || t[m][j] == Some(i as usize))
}

/// The faces linked to `i`.
pub open spec fn neighbours(t: Seq<Seq<Option<usize>>>, n: nat, i: int) -> Set<usize> {
    Set::new(|j: usize| j < n && linked(t, i, j as int))
}

/// Where a move sends each face: its match, or the face itself.
pub open spec fn move_perm(t: Seq<Option<usize>>) -> Seq<usize> {
    Seq::new(t.len(), |i: int| if t[i] is Some { t[i]->0 } else { i as usize })
}

/// A walk through faces below `n`, each linked to the next.
pub open spec fn is_walk(t: Seq<Seq<Option<usize>>>, n: nat, p: Seq<int>) -> bool {
    &&& p.len() >= 1
    &&& forall|k: int| 0 <= k < p.len() ==> 0 <= #[trigger] p[k] < n
    &&& forall|k: int| 0 <= k < p.len() - 1 ==> linked(t, #[trigger] p[k], p[k + 1])
}

/// Faces `a` and `b` lie in one orbit: a walk leads from one to the other.
pub open spec fn connected(t: Seq<Seq<Option<usize>>>, n: nat, a: int, b: int) -> bool {
    exists|p: Seq<int>| #[trigger] is_walk(t, n, p) && p[0] == a && p.last() == b
}

/// The orbit of face `a`: the faces connected to it.
pub open spec fn orbit_of(t: Seq<Seq<Option<usize>>>, n: nat, a: int) -> Set<usize> {
    Set::new(|x: usize| x < n && connected(t, n, a, x as int))
}

/// Face `a` is the smallest of its orbit.
pub open spec fn is_least_in_orbit(t: Seq<Seq<Option<usize>>>, n: nat, a: int) -> bool {
    forall|b: int| 0 <= b < a ==> !#[trigger] connected(t, n, a, b)
}

/// The orbits of the faces `i..n` whose smallest face is at least `i`, each
/// in increasing order, ordered by their smallest face.
pub open spec fn orbits_from(t: Seq<Seq<Option<usize>>>, n: nat, i: nat) -> Seq<Seq<usize>>
    decreases n - i,
{
    if i >= n {
        Seq::empty()
    } else if is_least_in_orbit(t, n, i as int) {
        seq![increasing_members(orbit_of(t, n, i as int))] + orbits_from(t, n, i + 1)
    } else {
        orbits_from(t, n, i + 1)
    }
}

/// Every orbit of the faces `0..n`, each in increasing order, ordered by
/// smallest face.
pub open spec fn all_orbits(t: Seq<Seq<Option<usize>>>, n: nat) -> Seq<Seq<usize>> {
    orbits_from(t, n, 0)
}

/// No face of `c` is linked to a face below `n` outside `c`.
pub open spec fn closed(t: Seq<Seq<Option<usize>>>, n: nat, c: Set<usize>) -> bool {
    forall|j: usize, k: usize| #[trigger] c.contains(j) && k < n && #[trigger] linked(t, j as int, k as int) ==> c.contains(k)
}

proof fn lemma_walk_stays(t: Seq<Seq<Option<usize>>>, n: nat, c: Set<usize>, p: Seq<int>)
    requires
        n <= usize::MAX,
        closed(t, n, c),
        is_walk(t, n, p),
        c.contains(p[0] as usize),
    ensures
        c.contains(p.last() as usize),
    decreases p.len(),
{
    if p.len() > 1 {
        let q = p.drop_last();
        assert(is_walk(t, n, q)) by {
            assert forall|k: int| 0 <= k < q.len() implies 0 <= #[trigger] q[k] < n by {
                assert(q[k] == p[k]);
            }
            assert forall|k: int| 0 <= k < q.len() - 1 implies linked(t, #[trigger] q[k], q[k + 1]) by {
                assert(q[k] == p[k] && q[k + 1] == p[k + 1]);
                assert(linked(t, p[k], p[k + 1]));
            }
        }
        lemma_walk_stays(t, n, c, q);
        let j = p[p.len() - 2];
        let k = p[p.len() - 1];
        assert(linked(t, j, k));
        assert(0 <= p[p.len() - 2] < n);
        assert(0 <= p[p.len() - 1] < n);
        assert((j as usize) as int == j && (k as usize) as int == k);
        assert(c.contains(j as usize));
        assert(linked(t, (j as usize) as int, (k as usize) as int));
    }
}

pub proof fn lemma_connected_refl(t: Seq<Seq<Option<usize>>>, n: nat, a: int)
    requires
        0 <= a < n,
    ensures
        connected(t, n, a, a),
{
    let p = seq![a];
    assert(is_walk(t, n, p));
}

proof fn lemma_connected_step(t: Seq<Seq<Option<usize>>>, n: nat, a: int, b: int, c: int)
    requires
        connected(t, n, a, b),
        linked(t, b, c),
        0 <= c < n,
    ensures
        connected(t, n, a, c),
{
    let p = choose|p: Seq<int>| #[trigger] is_walk(t, n, p) && p[0] == a && p.last() == b;
    let q = p.push(c);
    assert(is_walk(t, n, q)) by {
        assert forall|k: int| 0 <= k < q.len() - 1 implies linked(t, #[trigger] q[k], q[k + 1]) by {
            if k < p.len() - 1 {
                assert(linked(t, p[k], p[k + 1]));
            }
        }
    }
    assert(q[0] == a && q.last() == c);
}

pub proof fn lemma_connected_symm(t: Seq<Seq<Option<usize>>>, n: nat, a: int, b: int)
    requires
        connected(t, n, a, b),
    ensures
        connected(t, n, b, a),
{
    let p = choose|p: Seq<int>| #[trigger] is_walk(t, n, p) && p[0] == a && p.last() == b;
    let q = p.reverse();
    assert(is_walk(t, n, q)) by {
        assert forall|k: int| 0 <= k < q.len() implies 0 <= #[trigger] q[k] < n by {
            assert(q[k] == p[p.len() - 1 - k]);
        }
        assert forall|k: int| 0 <= k < q.len() - 1 implies linked(t, #[trigger] q[k], q[k + 1]) by {
            let j = p.len() - 2 - k;
            assert(q[k] == p[j + 1] && q[k + 1] == p[j]);
            assert(linked(t, p[j], p[j + 1]));
        }
    }
    assert(q[0] == b && q.last() == a);
}

/// The matchings as sequences.
pub open spec fn targets_view(t: Seq<Vec<Option<usize>>>) -> Seq<Seq<Option<usize>>> {
    t.map_values(|v: Vec<Option<usize>>| v@)
}

/// Faces `a` and `b` are matched by move `m2` at a face `i2` visited before
/// move `m`, face `i`.
pub open spec fn linked_before(t: Seq<Seq<Option<usize>>>, m: int, i: int, a: int, b: int) -> bool {
    exists|m2: int, i2: int|
        0 <= m2 < MOVE_COUNT && 0 <= i2 < t[m2].len() && (m2 < m || (m2 == m && i2 < i)) && ((i2 == a
            && #[trigger] t[m2][i2] == Some(b as usize)) || (i2 == b && t[m2][i2] == Some(a as usize)))
}

fn vec_contains(v: &Vec<usize>, x: usize) -> (b: bool)
    ensures
        b == v@.contains(x),
{
    let mut k: usize = 0;
    while k < v.len()
        invariant
            k <= v.len(),
            forall|k2: int| 0 <= k2 < k ==> v@[k2] != x,
        decreases v.len() - k,
    {
        if v[k] == x {
            return true;
        }
        k += 1;
    }
    false
}

proof fn lemma_linked_before_step(t: Seq<Seq<Option<usize>>>, m: int, i: int, a: int, b: int)
    requires
        0 <= m < MOVE_COUNT,
        t.len() == MOVE_COUNT,
        0 <= i < t[m].len(),
    ensures
        linked_before(t, m, i + 1, a, b) == (linked_before(t, m, i, a, b) || ((i == a && t[m][i]
            == Some(b as usize)) || (i == b && t[m][i] == Some(a as usize)))),
{
    if linked_before(t, m, i + 1, a, b) {
        let (m2, i2) = choose|m2: int, i2: int|
            0 <= m2 < MOVE_COUNT && 0 <= i2 < t[m2].len() && (m2 < m || (m2 == m && i2 < i + 1)) && ((
            i2 == a && #[trigger] t[m2][i2] == Some(b as usize)) || (i2 == b && t[m2][i2] == Some(
            a as usize)));
        if !(m2 == m && i2 == i) {
            assert(linked_before(t, m, i, a, b));
        }
    }
    if (i == a && t[m][i] == Some(b as usize)) || (i == b && t[m][i] == Some(a as usize)) {
        assert(linked_before(t, m, i + 1, a, b));
    }
}

proof fn lemma_linked_before_next_move(t: Seq<Seq<Option<usize>>>, m: int, a: int, b: int)
    requires
        0 <= m < MOVE_COUNT,
        t.len() == MOVE_COUNT,
    ensures
        linked_before(t, m + 1, 0, a, b) == linked_before(t, m, t[m].len() as int, a, b),
{
}

proof fn lemma_linked_before_all(t: Seq<Seq<Option<usize>>>, n: nat, a: int, b: int)
    requires
        targets_wf(t, n),
        0 <= a < n,
        0 <= b < n,
    ensures
        linked_before(t, MOVE_COUNT as int, 0, a, b) == linked(t, a, b),
{
    if linked(t, a, b) {
        let m = choose|m: int|
            #![trigger t[m][a]]
            #![trigger t[m][b]]
            0 <= m < MOVE_COUNT && (t[m][a] == Some(b as usize) || t[m][b] == Some(a as usize));
        assert(t[m].len() == n);
        if t[m][a] == Some(b as usize) {
            assert(t[m][a] == Some(b as usize));
        } else {
            assert(t[m][b] == Some(a as usize));
        }
        assert(linked_before(t, MOVE_COUNT as int, 0, a, b));
    }
    if linked_before(t, MOVE_COUNT as int, 0, a, b) {
        let (m2, i2) = choose|m2: int, i2: int|
            0 <= m2 < MOVE_COUNT && 0 <= i2 < t[m2].len() && (m2 < MOVE_COUNT || (m2 == MOVE_COUNT && i2 < 0)) && ((
            i2 == a && #[trigger] t[m2][i2] == Some(b as usize)) || (i2 == b && t[m2][i2] == Some(
            a as usize)));
        if i2 == a && t[m2][i2] == Some(b as usize) {
            assert(t[m2][a] == Some(b as usize));
        } else {
            assert(t[m2][b] == Some(a as usize));
        }
        assert(linked(t, a, b));
    }
}

/// `s` with `x` appended unless it is there already.
pub open spec fn with_new(s: Seq<usize>, x: usize) -> Seq<usize> {
    if s.contains(x) {
        s
    } else {
        s.push(x)
    }
}

fn push_new(v: &mut Vec<usize>, x: usize)
    ensures
        final(v)@ == with_new(old(v)@, x),
{
    if !vec_contains(v, x) {
        v.push(x);
    }
}

proof fn lemma_push_new(s: Seq<usize>, x: usize)
    ensures
        forall|y: usize| #[trigger] with_new(s, x).contains(y) <==> (s.contains(y) || y == x),
        s.no_duplicates() ==> with_new(s, x).no_duplicates(),
{
    let t = with_new(s, x);
    assert forall|y: usize| #[trigger] t.contains(y) <==> (s.contains(y) || y == x) by {
        if t.contains(y) && !s.contains(x) {
            let w = choose|w: int| 0 <= w < t.len() && t[w] == y;
            if w < s.len() {
                assert(s[w] == y);
            }
        }
        if s.contains(y) && !s.contains(x) {
            let w = choose|w: int| 0 <= w < s.len() && s[w] == y;
            assert(t[w] == y);
        }
        if y == x && !s.contains(x) {
            assert(t[s.len() as int] == x);
        }
    }
}

/// The faces linked to each face, and the permutations of moves A and B.
fn build_links(t: &Vec<Vec<Option<usize>>>, n: usize) -> (r: (Vec<Vec<usize>>, Vec<usize>, Vec<usize>))
    requires
        targets_wf(targets_view(t@), n as nat),
    ensures
        r.0.len() == n,
        forall|i: int| 0 <= i < n ==> (#[trigger] r.0@[i])@.to_set() == neighbours(targets_view(t@), n as nat, i),
        forall|i: int| 0 <= i < n ==> (#[trigger] r.0@[i])@.no_duplicates(),
        r.1@ == move_perm(targets_view(t@)[0]),
        r.2@ == move_perm(targets_view(t@)[2]),
{
    let ghost tv = targets_view(t@);
    let mut adj: Vec<Vec<usize>> = Vec::new();
    let mut perm_a: Vec<usize> = Vec::new();
    let mut perm_b: Vec<usize> = Vec::new();
    let mut k: usize = 0;
    while k < n
        invariant
            k <= n,
            adj.len() == k,
            perm_a@ == Seq::new(k as nat, |i: int| i as usize),
            perm_b@ == Seq::new(k as nat, |i: int| i as usize),
            forall|i: int| 0 <= i < k ==> (#[trigger] adj@[i])@ == Seq::<usize>::empty(),
        decreases n - k,
    {
        adj.push(Vec::new());
        perm_a.push(k);
        perm_b.push(k);
        k += 1;
    }
    let mut m: usize = 0;
    while m < MOVE_COUNT
        invariant
            m <= MOVE_COUNT,
            tv == targets_view(t@),
            targets_wf(tv, n as nat),
            adj.len() == n,
            perm_a.len() == n,
            perm_b.len() == n,
            forall|i: int| 0 <= i < n ==> (#[trigger] adj@[i])@.no_duplicates(),
            forall|a: int, b: int|
                0 <= a < n && 0 <= b < n ==> (#[trigger] adj@[a]@.contains(b as usize) <==> linked_before(tv, m as int, 0, a, b)),
            forall|a: int, k2: int| 0 <= a < n && 0 <= k2 < adj@[a]@.len() ==> #[trigger] adj@[a]@[k2] < n,
            forall|i: int| 0 <= i < n ==> #[trigger] perm_a@[i] == if m > 0 { move_perm(tv[0])[i] } else { i as usize },
            forall|i: int| 0 <= i < n ==> #[trigger] perm_b@[i] == if m > 2 { move_perm(tv[2])[i] } else { i as usize },
        decreases MOVE_COUNT - m,
    {
        let row = &t[m];
        assert(row@ == tv[m as int]);
        let mut i: usize = 0;
        while i < n
            invariant
                m < MOVE_COUNT,
                i <= n,
                tv == targets_view(t@),
                targets_wf(tv, n as nat),
                row@ == tv[m as int],
                adj.len() == n,
                perm_a.len() == n,
                perm_b.len() == n,
                forall|i2: int| 0 <= i2 < n ==> (#[trigger] adj@[i2])@.no_duplicates(),
                forall|a: int, k2: int| 0 <= a < n && 0 <= k2 < adj@[a]@.len() ==> #[trigger] adj@[a]@[k2] < n,
                forall|a: int, b: int|
                    0 <= a < n && 0 <= b < n ==> (#[trigger] adj@[a]@.contains(b as usize) <==> linked_before(tv, m as int, i as int, a, b)),
                forall|i2: int| 0 <= i2 < n ==> #[trigger] perm_a@[i2] == if m > 0 || (m == 0 && i2 < i) { move_perm(tv[0])[i2] } else { i2 as usize },
                forall|i2: int| 0 <= i2 < n ==> #[trigger] perm_b@[i2] == if m > 2 || (m == 2 && i2 < i) { move_perm(tv[2])[i2] } else { i2 as usize },
            decreases n - i,
        {
            let ghost before = adj@;
            if let Some(idx) = row[i] {
                proof {
                    assert(tv[m as int][i as int] == Some(idx));
                    assert(idx < n);
                    lemma_push_new(before[i as int]@, idx);
                }
                push_new(&mut adj[i], idx);
                let ghost mid = adj@;
                proof {
                    lemma_push_new(mid[idx as int]@, i);
                }
                push_new(&mut adj[idx], i);
                if m == 0 {
                    perm_a.set(i, idx);
                }
                if m == 2 {
                    perm_b.set(i, idx);
                }
            }
            proof {
                assert forall|a: int, b: int|
                    0 <= a < n && 0 <= b < n implies (#[trigger] adj@[a]@.contains(b as usize) <==> linked_before(tv, m as int, i + 1, a, b)) by {
                    lemma_linked_before_step(tv, m as int, i as int, a, b);
                }
            }
            i += 1;
        }
        proof {
            assert forall|a: int, b: int|
                0 <= a < n && 0 <= b < n implies (#[trigger] adj@[a]@.contains(b as usize) <==> linked_before(tv, m + 1, 0, a, b)) by {
                lemma_linked_before_next_move(tv, m as int, a, b);
            }
        }
        m += 1;
    }
    proof {
        assert forall|i: int| 0 <= i < n implies (#[trigger] adj@[i])@.to_set() == neighbours(tv, n as nat, i) by {
            assert forall|j: usize| adj@[i]@.to_set().contains(j) <==> neighbours(tv, n as nat, i).contains(j) by {
                if adj@[i]@.to_set().contains(j) {
                    let w = choose|w: int| 0 <= w < adj@[i]@.len() && adj@[i]@[w] == j;
                    assert(adj@[i]@[w] < n);
                }
                if j < n {
                    let b = j as int;
                    lemma_linked_before_all(tv, n as nat, i, b);
                    assert(adj@[i]@.contains(b as usize) <==> linked_before(tv, MOVE_COUNT as int, 0, i, b));
                    assert(neighbours(tv, n as nat, i).contains(j) <==> linked(tv, i, b));
                }
            }
        }
        assert(perm_a@ == move_perm(tv[0]));
        assert(perm_b@ == move_perm(tv[2]));
    }
    (adj, perm_a, perm_b)
}

/// An orbit as listed: non-empty, increasing, of faces below `n`.
pub open spec fn orbit_shape(o: Seq<usize>, n: nat) -> bool {
    &&& o.len() >= 1
    &&& strictly_increasing(o)
    &&& forall|q: int| 0 <= q < o.len() ==> #[trigger] o[q] < n
}

/// The faces marked in `visited`.
pub open spec fn marked(visited: Seq<bool>) -> Set<usize> {
    Set::new(|j: usize| j < visited.len() && visited[j as int])
}

proof fn lemma_members_count(members: Seq<usize>, queue: Seq<usize>, n: nat)
    requires
        strictly_increasing(members),
        queue.no_duplicates(),
        forall|j: usize| members.contains(j) ==> !queue.contains(j),
        forall|k: int| 0 <= k < members.len() ==> #[trigger] members[k] < n,
        forall|k: int| 0 <= k < queue.len() ==> #[trigger] queue[k] < n,
    ensures
        members.len() + queue.len() <= n,
{
    let s = members + queue;
    assert(s.no_duplicates()) by {
        assert forall|a: int, b: int| 0 <= a < s.len() && 0 <= b < s.len() && a != b implies s[a] != s[b] by {
            if a < members.len() && b < members.len() {
                if a < b {
                    assert(members[a] < members[b]);
                } else {
                    assert(members[b] < members[a]);
                }
            } else if a >= members.len() && b >= members.len() {
                assert(s[a] == queue[a - members.len()] && s[b] == queue[b - members.len()]);
            } else if a < members.len() {
                assert(members.contains(s[a]));
                assert(queue.contains(s[b]));
            } else {
                assert(members.contains(s[b]));
                assert(queue.contains(s[a]));
            }
        }
    }
    assert forall|k: int| 0 <= k < s.len() implies #[trigger] s[k] < n by {
        if k < members.len() {
            assert(s[k] == members[k]);
        } else {
            assert(s[k] == queue[k - members.len()]);
        }
    }
    lemma_distinct_below(s, n);
}

/// The bookkeeping of a search from face `i`: `visited` marks the faces of
/// `v0` (reached before), of `members` (explored) and of `queue` (waiting),
/// which are disjoint; all are faces, and those found are connected to `i`.
pub open spec fn search_state(
    tv: Seq<Seq<Option<usize>>>,
    n: nat,
    visited: Seq<bool>,
    v0: Set<usize>,
    members: Seq<usize>,
    queue: Seq<usize>,
    i: int,
) -> bool {
    &&& visited.len() == n
    &&& forall|j: usize| j < n ==> (visited[j as int] <==> (v0.contains(j) || members.contains(j) || queue.contains(j)))
    &&& strictly_increasing(members)
    &&& queue.no_duplicates()
    &&& forall|j: usize| members.contains(j) ==> !queue.contains(j)
    &&& forall|j: usize| #[trigger] v0.contains(j) ==> !members.contains(j) && !queue.contains(j)
    &&& forall|q: int| 0 <= q < members.len() ==> #[trigger] members[q] < n
    &&& forall|q: int| 0 <= q < queue.len() ==> #[trigger] queue[q] < n
    &&& forall|j: usize| #[trigger] members.contains(j) ==> connected(tv, n, i, j as int)
    &&& forall|j: usize| #[trigger] queue.contains(j) ==> connected(tv, n, i, j as int)
    &&& members.len() + queue.len() <= n
}

/// Queues every unvisited neighbour of the explored face `u`.
fn queue_neighbours(
    Ghost(tv): Ghost<Seq<Seq<Option<usize>>>>,
    adj: &Vec<Vec<usize>>,
    n: usize,
    visited: &mut Vec<bool>,
    queue: &mut Vec<usize>,
    u: usize,
    Ghost(i): Ghost<int>,
    Ghost(v0): Ghost<Set<usize>>,
    Ghost(members): Ghost<Seq<usize>>,
)
    requires
        u < n,
        adj.len() == n,
        forall|j: int| 0 <= j < n ==> (#[trigger] adj@[j])@.to_set() == neighbours(tv, n as nat, j),
        members.contains(u),
        search_state(tv, n as nat, old(visited)@, v0, members, old(queue)@, i),
    ensures
        search_state(tv, n as nat, final(visited)@, v0, members, final(queue)@, i),
        final(queue)@.len() >= old(queue)@.len(),
        forall|j: usize| #[trigger] old(queue)@.contains(j) ==> final(queue)@.contains(j),
        forall|k2: usize| k2 < n && #[trigger] linked(tv, u as int, k2 as int) ==> final(visited)@[k2 as int],
        forall|j: int| 0 <= j < n && #[trigger] old(visited)@[j] ==> final(visited)@[j],
{
    let nbrs = &adj[u];
    let mut q: usize = 0;
    while q < nbrs.len()
        invariant
            u < n,
            nbrs@ == adj@[u as int]@,
            q <= nbrs.len(),
            adj.len() == n,
            forall|j: int| 0 <= j < n ==> (#[trigger] adj@[j])@.to_set() == neighbours(tv, n as nat, j),
            members.contains(u),
            search_state(tv, n as nat, visited@, v0, members, queue@, i),
            queue@.len() >= old(queue)@.len(),
            forall|j: usize| #[trigger] old(queue)@.contains(j) ==> queue@.contains(j),
            forall|q2: int| 0 <= q2 < q ==> visited@[#[trigger] nbrs@[q2] as int],
            forall|j: int| 0 <= j < n && #[trigger] old(visited)@[j] ==> visited@[j],
        decreases nbrs.len() - q,
    {
        let v = nbrs[q];
        proof {
            assert(adj@[u as int]@.to_set().contains(v));
            assert(neighbours(tv, n as nat, u as int).contains(v));
        }
        let ghost iter_visited = visited@;
        if !visited[v] {
            let ghost old_queue = queue@;
            let ghost old_visited = visited@;
            visited.set(v, true);
            queue.push(v);
            proof {
                assert(!old_queue.contains(v));
                assert(!members.contains(v));
                lemma_connected_step(tv, n as nat, i, u as int, v as int);
                assert forall|j: usize| #[trigger] queue@.contains(j) <==> (old_queue.contains(j) || j == v) by {
                    if queue@.contains(j) {
                        let w = choose|w: int| 0 <= w < queue@.len() && queue@[w] == j;
                        if w < old_queue.len() {
                            assert(old_queue[w] == j);
                        }
                    }
                    if old_queue.contains(j) {
                        let w = choose|w: int| 0 <= w < old_queue.len() && old_queue[w] == j;
                        assert(queue@[w] == j);
                    }
                    if j == v {
                        assert(queue@[old_queue.len() as int] == v);
                    }
                }
                assert(queue@.no_duplicates()) by {
                    assert forall|a: int, b: int| 0 <= a < queue@.len() && 0 <= b < queue@.len() && a != b implies queue@[a] != queue@[b] by {
                        if a < old_queue.len() && b < old_queue.len() {
                            assert(queue@[a] == old_queue[a] && queue@[b] == old_queue[b]);
                        } else if a < old_queue.len() {
                            assert(old_queue.contains(queue@[a]));
                        } else {
                            assert(old_queue.contains(queue@[b]));
                        }
                    }
                }
                assert forall|j: usize| j < n implies (visited@[j as int] <==> (v0.contains(j) || members.contains(j) || queue@.contains(j))) by {
                    if j != v {
                        assert(visited@[j as int] == old_visited[j as int]);
                    }
                }
                assert forall|q2: int| 0 <= q2 < queue@.len() implies #[trigger] queue@[q2] < n by {
                    if q2 < old_queue.len() {
                        assert(queue@[q2] == old_queue[q2]);
                    }
                }
                lemma_members_count(members, queue@, n as nat);
            }
        }
        proof {
            assert forall|q2: int| 0 <= q2 < q + 1 implies visited@[#[trigger] nbrs@[q2] as int] by {
                assert(v < n);
                assert(visited@[v as int]);
                if q2 < q {
                    assert(iter_visited[nbrs@[q2] as int]);
                    if nbrs@[q2] != v {
                        assert(adj@[u as int]@.to_set().contains(nbrs@[q2]));
                        assert(neighbours(tv, n as nat, u as int).contains(nbrs@[q2]));
                        assert(visited@[nbrs@[q2] as int] == iter_visited[nbrs@[q2] as int]);
                    }
                } else {
                    assert(nbrs@[q2] == v);
                }
            }
        }
        q += 1;
    }
    proof {
        assert forall|k2: usize| k2 < n && #[trigger] linked(tv, u as int, k2 as int) implies visited@[k2 as int] by {
            assert(neighbours(tv, n as nat, u as int).contains(k2));
            assert(adj@[u as int]@.to_set().contains(k2));
            let w = choose|w: int| 0 <= w < nbrs@.len() && nbrs@[w] == k2;
            assert(visited@[nbrs@[w] as int]);
        }
    }
}

proof fn lemma_pop(oq: Seq<usize>, queue: Seq<usize>, u: usize)
    requires
        oq == queue.push(u),
        oq.no_duplicates(),
    ensures
        forall|j: usize| #[trigger] oq.contains(j) <==> (queue.contains(j) || j == u),
        !queue.contains(u),
        queue.no_duplicates(),
        forall|q: int| 0 <= q < queue.len() ==> #[trigger] queue[q] == oq[q],
{
    assert(oq[oq.len() - 1] == u);
    assert forall|j: usize| #[trigger] oq.contains(j) <==> (queue.contains(j) || j == u) by {
        if oq.contains(j) {
            let w = choose|w: int| 0 <= w < oq.len() && oq[w] == j;
            if w < queue.len() {
                assert(queue[w] == j);
            }
        }
        if queue.contains(j) {
            let w = choose|w: int| 0 <= w < queue.len() && queue[w] == j;
            assert(oq[w] == j);
        }
    }
    assert(!queue.contains(u)) by {
        if queue.contains(u) {
            let w = choose|w: int| 0 <= w < queue.len() && queue[w] == u;
            assert(oq[w] == u);
        }
    }
    assert(queue.no_duplicates()) by {
        assert forall|a: int, b: int| 0 <= a < queue.len() && 0 <= b < queue.len() && a != b implies queue[a] != queue[b] by {
            assert(queue[a] == oq[a] && queue[b] == oq[b]);
        }
    }
}

/// Moving the face `u` from the queue to the explored faces keeps the search
/// bookkeeping.
proof fn lemma_explore_step(
    tv: Seq<Seq<Option<usize>>>,
    n: nat,
    visited: Seq<bool>,
    v0: Set<usize>,
    old_members: Seq<usize>,
    members: Seq<usize>,
    oq: Seq<usize>,
    queue: Seq<usize>,
    u: usize,
    i: int,
)
    requires
        search_state(tv, n, visited, v0, old_members, oq, i),
        oq == queue.push(u),
        strictly_increasing(members),
        members.to_set() == old_members.to_set().insert(u),
        members.len() == old_members.len() + 1,
    ensures
        search_state(tv, n, visited, v0, members, queue, i),
        forall|j: usize| #[trigger] members.contains(j) <==> (old_members.contains(j) || j == u),
        members.contains(u),
        u < n,
{
    lemma_pop(oq, queue, u);
    assert(oq[oq.len() - 1] == u);
    assert forall|j: usize| #[trigger] members.contains(j) <==> (old_members.contains(j) || j == u) by {
        assert(members.to_set().contains(j) == members.contains(j));
        assert(old_members.to_set().contains(j) == old_members.contains(j));
    }
    assert forall|q: int| 0 <= q < members.len() implies #[trigger] members[q] < n by {
        assert(members.contains(members[q]));
        if members[q] != u {
            assert(old_members.contains(members[q]));
            let w = choose|w: int| 0 <= w < old_members.len() && old_members[w] == members[q];
            assert(old_members[w] < n);
        }
    }
    assert forall|q: int| 0 <= q < queue.len() implies #[trigger] queue[q] < n by {
        assert(queue[q] == oq[q]);
    }
    assert(oq.contains(u));
    assert forall|j: usize| j < n implies (visited[j as int] <==> (v0.contains(j) || members.contains(j) || queue.contains(j))) by {
        assert(oq.contains(j) <==> (queue.contains(j) || j == u));
    }
    assert forall|j: usize| members.contains(j) implies !queue.contains(j) by {
        if j != u {
            assert(old_members.contains(j));
            assert(!oq.contains(j));
        }
    }
    assert forall|j: usize| #[trigger] v0.contains(j) implies !members.contains(j) && !queue.contains(j) by {
        assert(!oq.contains(j));
    }
    assert forall|j: usize| #[trigger] members.contains(j) implies connected(tv, n, i, j as int) by {
        if j != u {
            assert(old_members.contains(j));
        }
    }
    assert forall|j: usize| #[trigger] queue.contains(j) implies connected(tv, n, i, j as int) by {
        assert(oq.contains(j));
    }
}

/// Explores the orbit of the unvisited face `i`, marking its faces.
fn explore_orbit(
    Ghost(tv): Ghost<Seq<Seq<Option<usize>>>>,
    adj: &Vec<Vec<usize>>,
    n: usize,
    visited: &mut Vec<bool>,
    i: usize,
) -> (members: Vec<usize>)
    requires
        i < n,
        adj.len() == n,
        forall|j: int| 0 <= j < n ==> (#[trigger] adj@[j])@.to_set() == neighbours(tv, n as nat, j),
        old(visited)@.len() == n,
        !old(visited)@[i as int],
        closed(tv, n as nat, marked(old(visited)@)),
    ensures
        final(visited)@.len() == n,
        strictly_increasing(members@),
        members@.to_set() == orbit_of(tv, n as nat, i as int),
        forall|j: usize| #[trigger] marked(final(visited)@).contains(j) <==> (marked(old(visited)@).contains(j) || members@.contains(j)),
        closed(tv, n as nat, marked(final(visited)@)),
        is_least_in_orbit(tv, n as nat, i as int) <== (forall|b: int| 0 <= b < i ==> #[trigger] old(visited)@[b]),
{
    let ghost v0 = marked(visited@);
    let ghost old_visited = visited@;
    let mut queue: Vec<usize> = Vec::new();
    queue.push(i);
    visited.set(i, true);
    let mut members: Vec<usize> = Vec::new();
    proof {
        lemma_connected_refl(tv, n as nat, i as int);
        assert(queue@ == seq![i]);
        assert(!v0.contains(i));
        assert forall|j: usize| j < n implies (visited@[j as int] <==> (v0.contains(j) || members@.contains(j) || queue@.contains(j))) by {
            if j != i {
                assert(visited@[j as int] == old_visited[j as int]);
                assert(!queue@.contains(j));
            } else {
                assert(queue@[0] == j);
            }
        }
        assert forall|j: usize| #[trigger] queue@.contains(j) implies connected(tv, n as nat, i as int, j as int) by {
            assert(queue@[0] == j);
        }
    }
    while queue.len() > 0
        invariant
            i < n,
            adj.len() == n,
            forall|j: int| 0 <= j < n ==> (#[trigger] adj@[j])@.to_set() == neighbours(tv, n as nat, j),
            closed(tv, n as nat, v0),
            !v0.contains(i),
            v0 == marked(old_visited),
            old_visited.len() == n,
            search_state(tv, n as nat, visited@, v0, members@, queue@, i as int),
            forall|j: usize, k2: usize| #[trigger] members@.contains(j) && k2 < n && #[trigger] linked(tv, j as int, k2 as int) ==> visited@[k2 as int],
            members@.contains(i) || queue@.contains(i),
        decreases 2 * (n - members.len() - queue.len()) + queue.len(),
    {
        let ghost oq = queue@;
        let u = queue.pop().unwrap();
        let ghost old_members = members@;
        proof {
            assert(oq == queue@.push(u));
            lemma_pop(oq, queue@, u);
            assert(oq.contains(u));
            assert(!members@.contains(u));
        }
        insert_sorted(&mut members, u);
        proof {
            lemma_explore_step(tv, n as nat, visited@, v0, old_members, members@, oq, queue@, u, i as int);
        }
        let ghost before_visited = visited@;
        queue_neighbours(Ghost(tv), adj, n, visited, &mut queue, u, Ghost(i as int), Ghost(v0), Ghost(members@));
        proof {
            assert forall|j: usize, k2: usize| #[trigger] members@.contains(j) && k2 < n && #[trigger] linked(tv, j as int, k2 as int) implies visited@[k2 as int] by {
                if j != u {
                    assert(old_members.contains(j));
                    assert(before_visited[k2 as int]);
                }
            }
        }
    }
    proof {
        let vs = marked(visited@);
        assert forall|j: usize| #[trigger] vs.contains(j) <==> (v0.contains(j) || members@.contains(j)) by {
            if members@.contains(j) {
                let w = choose|w: int| 0 <= w < members@.len() && members@[w] == j;
                assert(members@[w] < n);
            }
        }
        assert(closed(tv, n as nat, vs)) by {
            assert forall|j: usize, k2: usize| #[trigger] vs.contains(j) && k2 < n && #[trigger] linked(tv, j as int, k2 as int) implies vs.contains(k2) by {
                if v0.contains(j) {
                    assert(v0.contains(k2));
                } else {
                    assert(members@.contains(j));
                }
            }
        }
        let orb = orbit_of(tv, n as nat, i as int);
        assert(members@.contains(i));
        assert forall|x: usize| orb.contains(x) implies members@.to_set().contains(x) by {
            let p = choose|p: Seq<int>| #[trigger] is_walk(tv, n as nat, p) && p[0] == i as int && p.last() == x as int;
            lemma_walk_stays(tv, n as nat, vs, p);
            if v0.contains(x) {
                lemma_connected_symm(tv, n as nat, i as int, x as int);
                let p2 = choose|p2: Seq<int>| #[trigger] is_walk(tv, n as nat, p2) && p2[0] == x as int && p2.last() == i as int;
                lemma_walk_stays(tv, n as nat, v0, p2);
            }
        }
        assert forall|x: usize| members@.to_set().contains(x) implies orb.contains(x) by {
            assert(members@.contains(x));
            let w = choose|w: int| 0 <= w < members@.len() && members@[w] == x;
            assert(members@[w] < n);
        }
        assert(members@.to_set() == orb);
        if forall|b: int| 0 <= b < i ==> #[trigger] old_visited[b] {
            assert forall|b: int| 0 <= b < i implies !#[trigger] connected(tv, n as nat, i as int, b) by {
                if connected(tv, n as nat, i as int, b) {
                    lemma_connected_symm(tv, n as nat, i as int, b);
                    let p = choose|p: Seq<int>| #[trigger] is_walk(tv, n as nat, p) && p[0] == b && p.last() == i as int;
                    assert(old_visited[b]);
                    assert(v0.contains(b as usize));
                    lemma_walk_stays(tv, n as nat, v0, p);
                }
            }
        }
    }
    members
}

/// The orbits, found by a depth-first search from each face not yet reached.
fn find_orbits(Ghost(tv): Ghost<Seq<Seq<Option<usize>>>>, adj: &Vec<Vec<usize>>, n: usize) -> (orbits: Vec<Vec<usize>>)
    requires
        adj.len() == n,
        forall|j: int| 0 <= j < n ==> (#[trigger] adj@[j])@.to_set() == neighbours(tv, n as nat, j),
    ensures
        orbits@.map_values(|o: Vec<usize>| o@) == all_orbits(tv, n as nat),
        forall|k: int| 0 <= k < orbits.len() ==> orbit_shape(#[trigger] orbits@[k]@, n as nat),
{
    let mut visited: Vec<bool> = Vec::new();
    let mut k: usize = 0;
    while k < n
        invariant
            k <= n,
            visited.len() == k,
            forall|j: int| 0 <= j < k ==> !(#[trigger] visited@[j]),
        decreases n - k,
    {
        visited.push(false);
        k += 1;
    }
    let mut orbits: Vec<Vec<usize>> = Vec::new();
    proof {
        assert(marked(visited@) == Set::<usize>::empty());
        assert(orbits@.map_values(|o: Vec<usize>| o@) + orbits_from(tv, n as nat, 0) == all_orbits(tv, n as nat));
    }
    let mut i: usize = 0;
    while i < n
        invariant
            i <= n,
            adj.len() == n,
            forall|j: int| 0 <= j < n ==> (#[trigger] adj@[j])@.to_set() == neighbours(tv, n as nat, j),
            visited.len() == n,
            closed(tv, n as nat, marked(visited@)),
            forall|j: int| 0 <= j < i ==> #[trigger] visited@[j],
            forall|j: int| 0 <= j < n && #[trigger] visited@[j] ==> exists|b: int| 0 <= b < i && #[trigger] connected(tv, n as nat, b, j),
            orbits@.map_values(|o: Vec<usize>| o@) + orbits_from(tv, n as nat, i as nat) == all_orbits(tv, n as nat),
            forall|k: int| 0 <= k < orbits.len() ==> orbit_shape(#[trigger] orbits@[k]@, n as nat),
        decreases n - i,
    {
        if visited[i] {
            proof {
                let b = choose|b: int| 0 <= b < i && #[trigger] connected(tv, n as nat, b, i as int);
                lemma_connected_symm(tv, n as nat, b, i as int);
                assert(!is_least_in_orbit(tv, n as nat, i as int));
            }
            i += 1;
            continue;
        }
        let ghost old_visited = visited@;
        let members = explore_orbit(Ghost(tv), adj, n, &mut visited, i);
        proof {
            lemma_connected_refl(tv, n as nat, i as int);
            assert(orbit_of(tv, n as nat, i as int).contains(i));
            lemma_sorted_unique(members@, increasing_members(orbit_of(tv, n as nat, i as int)));
            assert(orbit_shape(members@, n as nat)) by {
                assert forall|q: int| 0 <= q < members@.len() implies #[trigger] members@[q] < n by {
                    assert(members@.to_set().contains(members@[q]));
                }
            }
        }
        let ghost before = orbits@;
        orbits.push(members);
        proof {
            let ov = orbits@.map_values(|o: Vec<usize>| o@);
            assert(ov == before.map_values(|o: Vec<usize>| o@).push(increasing_members(orbit_of(tv, n as nat, i as int))));
            assert forall|j: int| 0 <= j < n && #[trigger] visited@[j] implies exists|b: int| 0 <= b < i + 1 && #[trigger] connected(tv, n as nat, b, j) by {
                assert(marked(visited@).contains(j as usize));
                if !marked(old_visited).contains(j as usize) {
                    assert(members@.contains(j as usize));
                    assert(members@.to_set().contains(j as usize));
                    assert(connected(tv, n as nat, i as int, j));
                } else {
                    assert(old_visited[j]);
                    let b = choose|b: int| 0 <= b < i && #[trigger] connected(tv, n as nat, b, j);
                    assert(connected(tv, n as nat, b, j));
                }
            }
            assert forall|j: int| 0 <= j < i + 1 implies #[trigger] visited@[j] by {
                if j < i {
                    assert(old_visited[j]);
                    assert(marked(old_visited).contains(j as usize));
                    assert(marked(visited@).contains(j as usize));
                } else {
                    assert(members@.contains(i));
                    assert(marked(visited@).contains(i));
                }
            }
        }
        i += 1;
    }
    proof {
        assert(orbits_from(tv, n as nat, n as nat) == Seq::<Seq<usize>>::empty());
    }
    orbits
}

broadcast use vstd::std_specs::hash::group_hash_axioms;

/// Following `perm` from `cur` through the faces of `members` not in `seen`,
/// until a face is seen already or lies outside `members`.
pub open spec fn trail(perm: Seq<usize>, members: Seq<usize>, seen: Set<usize>, cur: usize, fuel: nat) -> Seq<usize>
    decreases fuel,
{
    if fuel == 0 || seen.contains(cur) || !members.contains(cur) {
        Seq::empty()
    } else {
        seq![cur] + trail(perm, members, seen.insert(cur), perm[cur as int], (fuel - 1) as nat)
    }
}

/// The position of face `v` in `members`.
pub open spec fn local_index(members: Seq<usize>, v: usize) -> usize {
    choose|k: usize| k < members.len() && members[k as int] == v
}

/// The faces of `c` by their positions in `members`.
pub open spec fn localize(members: Seq<usize>, c: Seq<usize>) -> Seq<usize> {
    c.map_values(|v: usize| local_index(members, v))
}

/// The faces seen and the cycles found after starting a trail from each of
/// the first `k` faces of `members` not seen yet; trails of one face are
/// fixed points and are left out.
pub open spec fn cycle_walk(perm: Seq<usize>, members: Seq<usize>, k: nat) -> (Set<usize>, Seq<Seq<usize>>)
    decreases k,
{
    if k == 0 || k > members.len() {
        (Set::empty(), Seq::empty())
    } else {
        let (seen, cs) = cycle_walk(perm, members, (k - 1) as nat);
        let start = members[k - 1];
        if seen.contains(start) {
            (seen, cs)
        } else {
            let c = trail(perm, members, seen, start, members.len());
            (
                seen.union(c.to_set()),
                if c.len() > 1 {
                    cs.push(localize(members, c))
                } else {
                    cs
                },
            )
        }
    }
}

/// The cycles of `perm` on the faces `members`, each written with the
/// positions of its faces in `members`, starting from its first face in
/// `members`.
pub open spec fn orbit_cycles(perm: Seq<usize>, members: Seq<usize>) -> Seq<Seq<usize>> {
    cycle_walk(perm, members, members.len()).1
}

/// Distinct faces of `members` are no more than `members` holds.
pub proof fn lemma_distinct_within(s: Seq<usize>, members: Seq<usize>)
    requires
        s.no_duplicates(),
        members.no_duplicates(),
        forall|j: usize| #[trigger] s.contains(j) ==> members.contains(j),
    ensures
        s.len() <= members.len(),
{
    s.unique_seq_to_set();
    members.unique_seq_to_set();
    assert(s.to_set().subset_of(members.to_set()));
    vstd::set_lib::lemma_len_subset(s.to_set(), members.to_set());
}

/// The cycles of `perm` on `subset`, by positions in `subset`.
fn perm_to_0_indexed_cycles(perm: &Vec<usize>, subset: &Vec<usize>) -> (cycles: Vec<Vec<usize>>)
    requires
        strictly_increasing(subset@),
        forall|k: int| 0 <= k < subset.len() ==> #[trigger] subset@[k] < perm.len(),
    ensures
        cycles@.map_values(|c: Vec<usize>| c@) == orbit_cycles(perm@, subset@),
{
    let ghost members = subset@;
    let ghost fuel = members.len();
    let mut in_set: HashMap<usize, usize> = HashMap::new();
    let mut k: usize = 0;
    while k < subset.len()
        invariant
            k <= subset.len(),
            members == subset@,
            strictly_increasing(members),
            forall|v: usize| #[trigger] in_set@.contains_key(v) <==> members.take(k as int).contains(v),
            forall|v: usize| #[trigger] in_set@.contains_key(v) ==> in_set@[v] < k && members[in_set@[v] as int] == v,
        decreases subset.len() - k,
    {
        proof {
            assert(members.take(k + 1) == members.take(k as int).push(members[k as int]));
            assert(!members.take(k as int).contains(members[k as int])) by {
                if members.take(k as int).contains(members[k as int]) {
                    let w = choose|w: int| 0 <= w < k && members.take(k as int)[w] == members[k as int];
                    assert(members[w] < members[k as int]);
                }
            }
        }
        in_set.insert(subset[k], k);
        proof {
            assert forall|v: usize| #[trigger] in_set@.contains_key(v) <==> members.take(k + 1).contains(v) by {
                if members.take(k + 1).contains(v) && v != members[k as int] {
                    let w = choose|w: int| 0 <= w < k + 1 && #[trigger] members.take(k + 1)[w] == v;
                    assert(members.take(k as int)[w] == v);
                }
                if v == members[k as int] {
                    assert(members.take(k + 1)[k as int] == v);
                }
            }
        }
        k += 1;
    }
    proof {
        assert(members.take(members.len() as int) == members);
        assert(members.no_duplicates()) by {
            assert forall|a: int, b: int| 0 <= a < members.len() && 0 <= b < members.len() && a != b implies members[a] != members[b] by {
                if a < b {
                    assert(members[a] < members[b]);
                } else {
                    assert(members[b] < members[a]);
                }
            }
        }
    }
    let mut seen: HashSet<usize> = HashSet::new();
    let mut cycles: Vec<Vec<usize>> = Vec::new();
    let mut si: usize = 0;
    while si < subset.len()
        invariant
            si <= subset.len(),
            members == subset@,
            fuel == members.len(),
            members.no_duplicates(),
            strictly_increasing(members),
            forall|q: int| 0 <= q < subset.len() ==> #[trigger] subset@[q] < perm.len(),
            forall|v: usize| #[trigger] in_set@.contains_key(v) <==> members.contains(v),
            forall|v: usize| #[trigger] in_set@.contains_key(v) ==> in_set@[v] < members.len() && members[in_set@[v] as int] == v,
            seen@ == cycle_walk(perm@, members, si as nat).0,
            forall|v: usize| #[trigger] seen@.contains(v) ==> members.contains(v),
            cycles@.map_values(|c: Vec<usize>| c@) == cycle_walk(perm@, members, si as nat).1,
        decreases subset.len() - si,
    {
        let start = subset[si];
        if seen.contains(&start) {
            si += 1;
            continue;
        }
        let ghost seen0 = seen@;
        let mut cycle: Vec<usize> = Vec::new();
        let ghost mut gc: Seq<usize> = Seq::empty();
        let mut cur = start;
        proof {
            assert(members.contains(start));
        }
        while !seen.contains(&cur) && in_set.contains_key(&cur)
            invariant
                members == subset@,
                fuel == members.len(),
                members.no_duplicates(),
                forall|q: int| 0 <= q < subset.len() ==> #[trigger] subset@[q] < perm.len(),
                forall|v: usize| #[trigger] in_set@.contains_key(v) <==> members.contains(v),
                forall|v: usize| #[trigger] in_set@.contains_key(v) ==> in_set@[v] < members.len() && members[in_set@[v] as int] == v,
                forall|v: usize| #[trigger] seen@.contains(v) ==> members.contains(v),
                seen@ == seen0.union(gc.to_set()),
                gc.no_duplicates(),
                forall|v: usize| #[trigger] gc.contains(v) ==> members.contains(v) && !seen0.contains(v),
                cycle@ == localize(members, gc),
                trail(perm@, members, seen0, start, fuel) == gc + trail(perm@, members, seen@, cur, (fuel - gc.len()) as nat),
                gc.len() <= fuel,
            decreases fuel - gc.len(),
        {
            let idx = match in_set.get(&cur) {
                Some(x) => *x,
                None => {
                    assert(false);
                    0
                },
            };
            proof {
                assert(in_set@.contains_key(cur));
                assert(members.contains(cur));
                assert(!seen@.contains(cur));
                assert(!seen0.contains(cur));
                assert(!gc.contains(cur)) by {
                    if gc.contains(cur) {
                        assert(gc.to_set().contains(cur));
                    }
                }
                assert forall|j: usize| #[trigger] gc.push(cur).contains(j) implies members.contains(j) by {
                    if j != cur {
                        let w = choose|w: int| 0 <= w < gc.push(cur).len() && gc.push(cur)[w] == j;
                        if w < gc.len() {
                            assert(gc[w] == j);
                            assert(gc.contains(j));
                        }
                    }
                }
                assert(gc.push(cur).no_duplicates()) by {
                    assert forall|a: int, b: int| 0 <= a < gc.len() + 1 && 0 <= b < gc.len() + 1 && a != b implies gc.push(cur)[a] != gc.push(cur)[b] by {
                        if a < gc.len() && b < gc.len() {
                            assert(gc.push(cur)[a] == gc[a] && gc.push(cur)[b] == gc[b]);
                        } else if a < gc.len() {
                            assert(gc.contains(gc[a]));
                        } else {
                            assert(gc.contains(gc[b]));
                        }
                    }
                }
                lemma_distinct_within(gc.push(cur), members);
                gc.lemma_push_to_set_commute(cur);
            }
            seen.insert(cur);
            cycle.push(idx);
            proof {
                assert(local_index(members, cur) == idx) by {
                    let w = local_index(members, cur);
                    assert(members[idx as int] == cur);
                    assert(w < members.len() && members[w as int] == cur);
                }
                assert(cycle@ == localize(members, gc.push(cur)));
                assert(members.contains(cur));
                let rest = (fuel - gc.len()) as nat;
                assert(rest > 0);
                assert(trail(perm@, members, seen@.remove(cur), cur, rest) == seq![cur] + trail(perm@, members, seen@, perm@[cur as int], (rest - 1) as nat));
                let old_gc = gc;
                gc = gc.push(cur);
                assert(seen@ == seen0.union(gc.to_set()));
                assert forall|v: usize| #[trigger] gc.contains(v) implies members.contains(v) && !seen0.contains(v) by {
                    if v != cur {
                        let w = choose|w: int| 0 <= w < gc.len() && gc[w] == v;
                        if w < old_gc.len() {
                            assert(old_gc[w] == v);
                            assert(old_gc.contains(v));
                        }
                    }
                }
            }
            cur = perm[cur];
        }
        proof {
            assert(trail(perm@, members, seen@, cur, (fuel - gc.len()) as nat) == Seq::<usize>::empty());
            assert(gc + Seq::<usize>::empty() == gc);
        }
        if cycle.len() > 1 {
            let ghost before = cycles@;
            cycles.push(cycle);
            proof {
                assert(cycles@.map_values(|c: Vec<usize>| c@) == before.map_values(|c: Vec<usize>| c@).push(localize(members, gc)));
            }
        }
        si += 1;
    }
    cycles
}

/// Some cycle of `cs` does not have length `len`.
pub open spec fn has_other_length(cs: Seq<Seq<usize>>, len: int) -> bool {
    exists|k: int| 0 <= k < cs.len() && #[trigger] cs[k].len() != len
}

/// The generators kept for an orbit outside fudged mode: those of A and of B
/// that are not empty.
pub open spec fn nonempty_generators(ga: Seq<Seq<usize>>, gb: Seq<Seq<usize>>) -> Seq<Seq<Seq<usize>>> {
    (if ga.len() > 0 {
        seq![ga]
    } else {
        Seq::empty()
    }) + (if gb.len() > 0 {
        seq![gb]
    } else {
        Seq::empty()
    })
}

/// What the first `k` orbits give: the faces set aside as degenerate, the
/// orbits kept and their generators; or, outside fudged mode, the first move
/// (0 for A, 1 for B) whose cycles on some orbit have the wrong length.
pub open spec fn classify_orbits(
    orbs: Seq<Seq<usize>>,
    pa: Seq<usize>,
    pb: Seq<usize>,
    n_a: int,
    n_b: int,
    fudged: bool,
    k: nat,
) -> Result<(Set<usize>, Seq<Seq<usize>>, Seq<Seq<Seq<Seq<usize>>>>), nat>
    decreases k,
{
    if k == 0 || k > orbs.len() {
        Ok((Set::empty(), Seq::empty(), Seq::empty()))
    } else {
        match classify_orbits(orbs, pa, pb, n_a, n_b, fudged, (k - 1) as nat) {
            Err(e) => Err(e),
            Ok((deg, os, gs)) => {
                let m = orbs[k - 1];
                if m.len() == 1 {
                    Ok((deg, os.push(m), gs.push(Seq::empty())))
                } else {
                    let ga = orbit_cycles(pa, m);
                    let gb = orbit_cycles(pb, m);
                    let ma = has_other_length(ga, n_a);
                    let mb = has_other_length(gb, n_b);
                    if ma && !fudged {
                        Err(0)
                    } else if mb && !fudged {
                        Err(1)
                    } else if fudged {
                        if ma || mb {
                            Ok((deg.union(m.to_set()), os, gs))
                        } else {
                            Ok((deg, os.push(m), gs.push(seq![ga, gb])))
                        }
                    } else {
                        Ok((deg, os.push(m), gs.push(nonempty_generators(ga, gb))))
                    }
                }
            },
        }
    }
}

proof fn lemma_classify_err_stays(
    orbs: Seq<Seq<usize>>,
    pa: Seq<usize>,
    pb: Seq<usize>,
    n_a: int,
    n_b: int,
    fudged: bool,
    k: nat,
    k2: nat,
)
    requires
        1 <= k <= k2 <= orbs.len(),
        classify_orbits(orbs, pa, pb, n_a, n_b, fudged, k) is Err,
    ensures
        classify_orbits(orbs, pa, pb, n_a, n_b, fudged, k2) == classify_orbits(orbs, pa, pb, n_a, n_b, fudged, k),
    decreases k2 - k,
{
    if k < k2 {
        lemma_classify_err_stays(orbs, pa, pb, n_a, n_b, fudged, k, (k2 - 1) as nat);
    }
}

/// The outcome for the face matchings `t` of `n` faces.
pub open spec fn orbit_outcome(
    t: Seq<Seq<Option<usize>>>,
    n: nat,
    n_a: int,
    n_b: int,
    fudged: bool,
) -> Result<(Set<usize>, Seq<Seq<usize>>, Seq<Seq<Seq<Seq<usize>>>>), nat> {
    classify_orbits(
        all_orbits(t, n),
        move_perm(t[0]),
        move_perm(t[2]),
        n_a,
        n_b,
        fudged,
        all_orbits(t, n).len(),
    )
}

/// The message for cycles of move A (`which == 0`) or B of the wrong length.
pub open spec fn mismatch_message(which: nat, len: nat) -> Seq<char> {
    "Orbit Cycle Length mismatch: expected cycle length of "@ + decimal(len) + if which == 0 {
        " for move A."@
    } else {
        " for move B."@
    }
}

/// The orbits of the faces and the generators the moves induce on them.
pub struct OrbitStructure {
    /// In fudged mode, the faces of orbits whose cycles had the wrong length.
    pub degenerate_faces: HashSet<usize>,
    /// The orbits kept, each in increasing order, ordered by smallest face.
    pub orbits: Vec<Vec<usize>>,
    /// The generators of each kept orbit, faces by their position in it.
    pub generators: Vec<Vec<Vec<Vec<usize>>>>,
}

impl OrbitStructure {
    /// The generators as nested sequences.
    pub open spec fn generators_view(&self) -> Seq<Seq<Seq<Seq<usize>>>> {
        self.generators@.map_values(|g: Vec<Vec<Vec<usize>>>| gens_view(g@))
    }

    /// The orbits as sequences.
    pub open spec fn orbits_view(&self) -> Seq<Seq<usize>> {
        self.orbits@.map_values(|o: Vec<usize>| o@)
    }
}

fn has_other_length_exec(cs: &Vec<Vec<usize>>, len: usize) -> (b: bool)
    ensures
        b == has_other_length(cs@.map_values(|c: Vec<usize>| c@), len as int),
{
    let ghost cv = cs@.map_values(|c: Vec<usize>| c@);
    let mut k: usize = 0;
    while k < cs.len()
        invariant
            k <= cs.len(),
            cv == cs@.map_values(|c: Vec<usize>| c@),
            forall|k2: int| 0 <= k2 < k ==> #[trigger] cv[k2].len() == len,
        decreases cs.len() - k,
    {
        if cs[k].len() != len {
            assert(cv[k as int].len() != len);
            return true;
        }
        k += 1;
    }
    false
}

fn mismatch_error(which: usize, len: u32) -> (msg: String)
    requires
        which <= 1,
    ensures
        msg@ == mismatch_message(which as nat, len as nat),
{
    let mut msg = String::new();
    msg.append("Orbit Cycle Length mismatch: expected cycle length of ");
    push_decimal(&mut msg, len as usize);
    if which == 0 {
        msg.append(" for move A.");
    } else {
        msg.append(" for move B.");
    }
    msg
}

/// Splits the faces into orbits under moves A and B, given where each move
/// sends each face, and finds the permutations the moves induce on each
/// orbit. Outside fudged mode an orbit on which a move's cycles do not all
/// have the move's order is an error; in fudged mode its faces are set aside
/// as degenerate.
pub fn orbit_structure(
    targets: &Vec<Vec<Option<usize>>>,
    n_faces: usize,
    n_a: u32,
    n_b: u32,
    fudged_mode: bool,
) -> (r: Result<OrbitStructure, String>)
    requires
        targets_wf(targets_view(targets@), n_faces as nat),
    ensures
        match (r, orbit_outcome(targets_view(targets@), n_faces as nat, n_a as int, n_b as int, fudged_mode)) {
            (Ok(st), Ok((deg, os, gs))) => st.degenerate_faces@ == deg && st.orbits_view() == os
                && st.generators_view() == gs,
            (Err(msg), Err(which)) => msg@ == mismatch_message(which, if which == 0 { n_a as nat } else { n_b as nat }),
            _ => false,
        },
{
    let ghost tv = targets_view(targets@);
    let (adj, perm_a, perm_b) = build_links(targets, n_faces);
    let orbits = find_orbits(Ghost(tv), &adj, n_faces);
    let ghost orbs = all_orbits(tv, n_faces as nat);
    let ghost pa = move_perm(tv[0]);
    let ghost pb = move_perm(tv[2]);
    proof {
        assert(perm_a.len() == n_faces);
        assert(perm_b.len() == n_faces);
    }
    let mut degenerate_faces: HashSet<usize> = HashSet::new();
    let mut orbits_final: Vec<Vec<usize>> = Vec::new();
    let mut generators: Vec<Vec<Vec<Vec<usize>>>> = Vec::new();
    let mut k: usize = 0;
    proof {
        assert(orbits_final@.map_values(|o: Vec<usize>| o@) == Seq::<Seq<usize>>::empty());
        assert(generators@.map_values(|g: Vec<Vec<Vec<usize>>>| gens_view(g@)) == Seq::<Seq<Seq<Seq<usize>>>>::empty());
    }
    while k < orbits.len()
        invariant
            k <= orbits.len(),
            tv == targets_view(targets@),
            orbs == all_orbits(tv, n_faces as nat),
            pa == move_perm(tv[0]),
            pb == move_perm(tv[2]),
            orbits@.map_values(|o: Vec<usize>| o@) == orbs,
            forall|k2: int| 0 <= k2 < orbits.len() ==> orbit_shape(#[trigger] orbits@[k2]@, n_faces as nat),
            perm_a@ == pa,
            perm_b@ == pb,
            perm_a.len() == n_faces,
            perm_b.len() == n_faces,
            classify_orbits(orbs, pa, pb, n_a as int, n_b as int, fudged_mode, k as nat) == Ok::<(Set<usize>, Seq<Seq<usize>>, Seq<Seq<Seq<Seq<usize>>>>), nat>((
                degenerate_faces@,
                orbits_final@.map_values(|o: Vec<usize>| o@),
                generators@.map_values(|g: Vec<Vec<Vec<usize>>>| gens_view(g@)),
            )),
        decreases orbits.len() - k,
    {
        let members = &orbits[k];
        proof {
            assert(orbs[k as int] == members@);
            assert(orbit_shape(members@, n_faces as nat));
        }
        let ghost deg0 = degenerate_faces@;
        let ghost os0 = orbits_final@;
        let ghost gs0 = generators@;
        if members.len() == 1 {
            generators.push(Vec::new());
            orbits_final.push(members.clone());
            proof {
                assert(orbits_final@ == os0.push(orbits_final@[os0.len() as int]));
                assert(orbits_final@.map_values(|o: Vec<usize>| o@) == os0.map_values(|o: Vec<usize>| o@).push(members@));
                assert(gens_view(generators@[gs0.len() as int]@) == Seq::<Seq<Seq<usize>>>::empty());
                assert(generators@.map_values(|g: Vec<Vec<Vec<usize>>>| gens_view(g@)) == gs0.map_values(|g: Vec<Vec<Vec<usize>>>| gens_view(g@)).push(Seq::empty()));
            }
        } else {
            let gen_a = perm_to_0_indexed_cycles(&perm_a, members);
            let gen_b = perm_to_0_indexed_cycles(&perm_b, members);
            let ghost ga = orbit_cycles(pa, members@);
            let ghost gb = orbit_cycles(pb, members@);
            let mismatch_a = has_other_length_exec(&gen_a, n_a as usize);
            let mismatch_b = has_other_length_exec(&gen_b, n_b as usize);
            if mismatch_a && !fudged_mode {
                proof {
                    assert(classify_orbits(orbs, pa, pb, n_a as int, n_b as int, fudged_mode, (k + 1) as nat) == Err::<(Set<usize>, Seq<Seq<usize>>, Seq<Seq<Seq<Seq<usize>>>>), nat>(0));
                    lemma_classify_err_stays(orbs, pa, pb, n_a as int, n_b as int, fudged_mode, (k + 1) as nat, orbs.len());
                }
                return Err(mismatch_error(0, n_a));
            }
            if mismatch_b && !fudged_mode {
                proof {
                    assert(classify_orbits(orbs, pa, pb, n_a as int, n_b as int, fudged_mode, (k + 1) as nat) == Err::<(Set<usize>, Seq<Seq<usize>>, Seq<Seq<Seq<Seq<usize>>>>), nat>(1));
                    lemma_classify_err_stays(orbs, pa, pb, n_a as int, n_b as int, fudged_mode, (k + 1) as nat, orbs.len());
                }
                return Err(mismatch_error(1, n_b));
            }
            if fudged_mode {
                if mismatch_a || mismatch_b {
                    let mut q: usize = 0;
                    while q < members.len()
                        invariant
                            q <= members.len(),
                            degenerate_faces@ == deg0.union(members@.take(q as int).to_set()),
                        decreases members.len() - q,
                    {
                        degenerate_faces.insert(members[q]);
                        proof {
                            assert(members@.take(q + 1) == members@.take(q as int).push(members@[q as int]));
                            members@.take(q as int).lemma_push_to_set_commute(members@[q as int]);
                        }
                        q += 1;
                    }
                    proof {
                        assert(members@.take(members.len() as int) == members@);
                    }
                    k += 1;
                    continue;
                }
                orbits_final.push(members.clone());
                let mut pair: Vec<Vec<Vec<usize>>> = Vec::new();
                pair.push(gen_a);
                pair.push(gen_b);
                generators.push(pair);
                proof {
                    assert(orbits_final@.map_values(|o: Vec<usize>| o@) == os0.map_values(|o: Vec<usize>| o@).push(members@));
                    assert(gens_view(generators@[gs0.len() as int]@) == seq![ga, gb]);
                    assert(generators@.map_values(|g: Vec<Vec<Vec<usize>>>| gens_view(g@)) == gs0.map_values(|g: Vec<Vec<Vec<usize>>>| gens_view(g@)).push(seq![ga, gb]));
                }
            } else {
                let mut gens_for_orbit: Vec<Vec<Vec<usize>>> = Vec::new();
                if gen_a.len() > 0 {
                    gens_for_orbit.push(gen_a);
                }
                if gen_b.len() > 0 {
                    gens_for_orbit.push(gen_b);
                }
                generators.push(gens_for_orbit);
                orbits_final.push(members.clone());
                proof {
                    assert(orbits_final@.map_values(|o: Vec<usize>| o@) == os0.map_values(|o: Vec<usize>| o@).push(members@));
                    assert(gens_view(generators@[gs0.len() as int]@) == nonempty_generators(ga, gb));
                    assert(generators@.map_values(|g: Vec<Vec<Vec<usize>>>| gens_view(g@)) == gs0.map_values(|g: Vec<Vec<Vec<usize>>>| gens_view(g@)).push(nonempty_generators(ga, gb)));
                }
            }
        }
        k += 1;
    }
    Ok(OrbitStructure { degenerate_faces, orbits: orbits_final, generators })
}

} // verus!
