//! What the orbit analysis guarantees: the orbits partition the faces; the
//! orbits reported, with the faces set aside, account for every face once;
//! and the cycles given for a move on an orbit are cycles of that move.

use vstd::prelude::*;
use crate::orbit::{
    all_orbits, classify_orbits, connected, cycle_walk, is_least_in_orbit, is_walk, lemma_connected_refl,
    lemma_connected_symm, lemma_distinct_within, local_index, localize, move_perm, orbit_cycles, orbit_of,
    orbit_outcome, orbits_from, trail,
};
use crate::sorted::{increasing_members, lemma_increasing_members, strictly_increasing};
use crate::orbit::has_other_length;

verus! {

/// Face `x` is in one of the listed orbits.
pub open spec fn in_some_orbit(os: Seq<Seq<usize>>, x: usize) -> bool {
    exists|k: int| 0 <= k < os.len() && #[trigger] os[k].contains(x)
}

/// `o` lists, in increasing order, the orbit of a face from `lo` on that is
/// the smallest of its orbit.
pub open spec fn orbit_listed_from(t: Seq<Seq<Option<usize>>>, n: nat, lo: int, o: Seq<usize>) -> bool {
    exists|r: int| lo <= r < n && is_least_in_orbit(t, n, r) && o == #[trigger] increasing_members(orbit_of(t, n, r))
}

proof fn lemma_connected_trans(t: Seq<Seq<Option<usize>>>, n: nat, a: int, b: int, c: int)
    requires
        connected(t, n, a, b),
        connected(t, n, b, c),
    ensures
        connected(t, n, a, c),
{
    let p = choose|p: Seq<int>| #[trigger] is_walk(t, n, p) && p[0] == a && p.last() == b;
    let q = choose|q: Seq<int>| #[trigger] is_walk(t, n, q) && q[0] == b && q.last() == c;
    let w = p + q.drop_first();
    assert(is_walk(t, n, w)) by {
        assert forall|k: int| 0 <= k < w.len() implies 0 <= #[trigger] w[k] < n by {
            if k < p.len() {
                assert(w[k] == p[k]);
            } else {
                assert(w[k] == q[k - p.len() + 1]);
            }
        }
        assert forall|k: int| 0 <= k < w.len() - 1 implies crate::orbit::linked(t, #[trigger] w[k], w[k + 1]) by {
            if k < p.len() - 1 {
                assert(w[k] == p[k] && w[k + 1] == p[k + 1]);
                assert(crate::orbit::linked(t, p[k], p[k + 1]));
            } else if k == p.len() - 1 {
                assert(w[k] == p.last() && w[k + 1] == q[1]);
                assert(crate::orbit::linked(t, q[0], q[1]));
            } else {
                let j = k - p.len() + 1;
                assert(w[k] == q[j] && w[k + 1] == q[j + 1]);
                assert(crate::orbit::linked(t, q[j], q[j + 1]));
            }
        }
    }
    if q.len() == 1 {
        assert(w.last() == p.last());
    } else {
        assert(w.last() == q.last());
    }
}

/// The increasing listing of the orbit of `a`.
proof fn lemma_orbit_listing(t: Seq<Seq<Option<usize>>>, n: nat, a: int)
    requires
        n <= usize::MAX,
    ensures
        strictly_increasing(increasing_members(orbit_of(t, n, a))),
        increasing_members(orbit_of(t, n, a)).to_set() == orbit_of(t, n, a),
{
    lemma_increasing_members(orbit_of(t, n, a), n);
}

/// The listing of the orbit of a face that is smallest in its orbit starts
/// with that face.
proof fn lemma_least_listing_head(t: Seq<Seq<Option<usize>>>, n: nat, r: int)
    requires
        n <= usize::MAX,
        0 <= r < n,
        is_least_in_orbit(t, n, r),
    ensures
        increasing_members(orbit_of(t, n, r)).len() >= 1,
        increasing_members(orbit_of(t, n, r))[0] == r,
{
    let l = increasing_members(orbit_of(t, n, r));
    lemma_orbit_listing(t, n, r);
    lemma_connected_refl(t, n, r);
    assert(orbit_of(t, n, r).contains(r as usize));
    assert(l.to_set().contains(r as usize));
    assert(l.contains(r as usize));
    let w = choose|w: int| 0 <= w < l.len() && l[w] == r as usize;
    if w > 0 {
        assert(l[0] < l[w]);
        assert(l.to_set().contains(l[0]));
        assert(orbit_of(t, n, r).contains(l[0]));
        assert(connected(t, n, r, l[0] as int));
    }
}

proof fn lemma_orbits_from(t: Seq<Seq<Option<usize>>>, n: nat, i: nat)
    requires
        n <= usize::MAX,
    ensures
        forall|k: int|
            0 <= k < orbits_from(t, n, i).len() ==> #[trigger] orbit_listed_from(t, n, i as int, orbits_from(t, n, i)[k]),
        forall|r: int|
            i <= r < n && #[trigger] is_least_in_orbit(t, n, r) ==> exists|k: int|
                0 <= k < orbits_from(t, n, i).len() && orbits_from(t, n, i)[k] == increasing_members(
                    orbit_of(t, n, r),
                ),
        forall|k: int|
            0 <= k < orbits_from(t, n, i).len() ==> (#[trigger] orbits_from(t, n, i)[k]).len() >= 1
                && i <= orbits_from(t, n, i)[k][0],
        forall|k1: int, k2: int|
            0 <= k1 < k2 < orbits_from(t, n, i).len() ==> (#[trigger] orbits_from(t, n, i)[k1])[0]
                < (#[trigger] orbits_from(t, n, i)[k2])[0],
    decreases n - i,
{
    if i < n {
        lemma_orbits_from(t, n, i + 1);
        let rest = orbits_from(t, n, i + 1);
        let here = orbits_from(t, n, i);
        if is_least_in_orbit(t, n, i as int) {
            let o = increasing_members(orbit_of(t, n, i as int));
            assert(here == seq![o] + rest);
            lemma_least_listing_head(t, n, i as int);
            assert forall|k: int| 0 <= k < here.len() implies (#[trigger] here[k]).len() >= 1 && i <= here[k][0] by {
                if k > 0 {
                    assert(here[k] == rest[k - 1]);
                }
            }
            assert forall|k1: int, k2: int| 0 <= k1 < k2 < here.len() implies (#[trigger] here[k1])[0] < (#[trigger] here[k2])[0] by {
                assert(here[k2] == rest[k2 - 1]);
                if k1 > 0 {
                    assert(here[k1] == rest[k1 - 1]);
                } else {
                    assert(rest[k2 - 1].len() >= 1);
                }
            }
            assert forall|k: int| 0 <= k < here.len() implies #[trigger] orbit_listed_from(t, n, i as int, here[k]) by {
                if k == 0 {
                    assert(here[0] == o);
                    assert(is_least_in_orbit(t, n, i as int) && here[0] == increasing_members(orbit_of(t, n, i as int)));
                } else {
                    assert(here[k] == rest[k - 1]);
                    assert(orbit_listed_from(t, n, i + 1int, rest[k - 1]));
                }
            }
            assert forall|r: int| i <= r < n && #[trigger] is_least_in_orbit(t, n, r) implies exists|k: int|
                0 <= k < here.len() && here[k] == increasing_members(orbit_of(t, n, r)) by {
                if r == i {
                    assert(here[0] == o);
                } else {
                    let k = choose|k: int| 0 <= k < rest.len() && rest[k] == increasing_members(orbit_of(t, n, r));
                    assert(here[k + 1] == rest[k]);
                }
            }
        } else {
            assert(here == rest);
            assert forall|k: int| 0 <= k < here.len() implies #[trigger] orbit_listed_from(t, n, i as int, here[k]) by {
                assert(here[k] == rest[k]);
                assert(orbit_listed_from(t, n, i + 1int, rest[k]));
            }
        }
    }
}

/// The orbits of faces `a` and `b`, both smallest in their orbits, are the
/// same orbit only if `a == b`, and share no face otherwise.
proof fn lemma_least_orbits_disjoint(t: Seq<Seq<Option<usize>>>, n: nat, a: int, b: int, x: usize)
    requires
        0 <= a < n,
        0 <= b < n,
        a != b,
        is_least_in_orbit(t, n, a),
        is_least_in_orbit(t, n, b),
    ensures
        !(orbit_of(t, n, a).contains(x) && orbit_of(t, n, b).contains(x)),
{
    if orbit_of(t, n, a).contains(x) && orbit_of(t, n, b).contains(x) {
        lemma_connected_symm(t, n, b, x as int);
        lemma_connected_trans(t, n, a, x as int, b);
        if b < a {
            assert(!connected(t, n, a, b));
        } else {
            lemma_connected_symm(t, n, a, b);
            assert(!connected(t, n, b, a));
        }
    }
}

proof fn lemma_orbits_listed(t: Seq<Seq<Option<usize>>>, n: nat)
    requires
        n <= usize::MAX,
    ensures
        forall|k: int|
            0 <= k < all_orbits(t, n).len() ==> {
                &&& strictly_increasing(#[trigger] all_orbits(t, n)[k])
                &&& all_orbits(t, n)[k].len() >= 1
                &&& all_orbits(t, n)[k].to_set() == orbit_of(t, n, all_orbits(t, n)[k][0] as int)
            },
{
    let os = all_orbits(t, n);
    lemma_orbits_from(t, n, 0);
    assert forall|k: int| 0 <= k < os.len() implies {
        &&& strictly_increasing(#[trigger] os[k])
        &&& os[k].len() >= 1
        &&& os[k].to_set() == orbit_of(t, n, os[k][0] as int)
    } by {
        assert(orbit_listed_from(t, n, 0, os[k]));
        let r = choose|r: int| 0 <= r < n && is_least_in_orbit(t, n, r) && os[k] == #[trigger] increasing_members(orbit_of(t, n, r));
        lemma_orbit_listing(t, n, r);
        lemma_least_listing_head(t, n, r);
    }
}

proof fn lemma_orbits_disjoint(t: Seq<Seq<Option<usize>>>, n: nat)
    requires
        n <= usize::MAX,
    ensures
        forall|k1: int, k2: int, x: usize|
            0 <= k1 < all_orbits(t, n).len() && 0 <= k2 < all_orbits(t, n).len() && k1 != k2
                ==> !(#[trigger] all_orbits(t, n)[k1].contains(x) && #[trigger] all_orbits(t, n)[k2].contains(x)),
{
    let os = all_orbits(t, n);
    lemma_orbits_from(t, n, 0);
    assert forall|k1: int, k2: int, x: usize|
        0 <= k1 < os.len() && 0 <= k2 < os.len() && k1 != k2 implies !(#[trigger] os[k1].contains(x) && #[trigger] os[k2].contains(x)) by {
        assert(orbit_listed_from(t, n, 0, os[k1]));
        assert(orbit_listed_from(t, n, 0, os[k2]));
        let r1 = choose|r: int| 0 <= r < n && is_least_in_orbit(t, n, r) && os[k1] == #[trigger] increasing_members(orbit_of(t, n, r));
        let r2 = choose|r: int| 0 <= r < n && is_least_in_orbit(t, n, r) && os[k2] == #[trigger] increasing_members(orbit_of(t, n, r));
        lemma_orbit_listing(t, n, r1);
        lemma_orbit_listing(t, n, r2);
        if os[k1].contains(x) && os[k2].contains(x) {
            assert(os[k1].to_set().contains(x));
            assert(os[k2].to_set().contains(x));
            if r1 == r2 {
                assert(os[k1] == os[k2]);
                if k1 < k2 {
                    assert(os[k1][0] < os[k2][0]);
                } else {
                    assert(os[k2][0] < os[k1][0]);
                }
            } else {
                lemma_least_orbits_disjoint(t, n, r1, r2, x);
            }
        }
    }
}

proof fn lemma_orbits_cover(t: Seq<Seq<Option<usize>>>, n: nat)
    requires
        n <= usize::MAX,
    ensures
        forall|x: usize| x < n ==> #[trigger] in_some_orbit(all_orbits(t, n), x),
{
    let os = all_orbits(t, n);
    lemma_orbits_from(t, n, 0);
    assert forall|x: usize| x < n implies #[trigger] in_some_orbit(os, x) by {
        lemma_orbit_listing(t, n, x as int);
        let l = increasing_members(orbit_of(t, n, x as int));
        lemma_connected_refl(t, n, x as int);
        assert(orbit_of(t, n, x as int).contains(x));
        assert(l.to_set().contains(x));
        assert(l.len() > 0);
        let r = l[0];
        assert(l.to_set().contains(r));
        assert(connected(t, n, x as int, r as int));
        assert(is_least_in_orbit(t, n, r as int)) by {
            assert forall|b: int| 0 <= b < r implies !#[trigger] connected(t, n, r as int, b) by {
                if connected(t, n, r as int, b) {
                    lemma_connected_trans(t, n, x as int, r as int, b);
                    assert(orbit_of(t, n, x as int).contains(b as usize));
                    assert(l.contains(b as usize));
                    let w = choose|w: int| 0 <= w < l.len() && l[w] == b as usize;
                    if w > 0 {
                        assert(l[0] < l[w]);
                    }
                }
            }
        }
        let k = choose|k: int| 0 <= k < os.len() && os[k] == increasing_members(orbit_of(t, n, r as int));
        lemma_orbit_listing(t, n, r as int);
        lemma_connected_symm(t, n, x as int, r as int);
        assert(orbit_of(t, n, r as int).contains(x));
        assert(os[k].to_set().contains(x));
    }
}

/// The orbits listed are the orbits of the faces: each lists, in increasing
/// order, every face connected to its first face, no two share a face, and
/// every face is in one of them.
pub proof fn law_orbits_partition_faces(t: Seq<Seq<Option<usize>>>, n: nat)
    requires
        n <= usize::MAX,
    ensures
        forall|k: int|
            0 <= k < all_orbits(t, n).len() ==> {
                &&& strictly_increasing(#[trigger] all_orbits(t, n)[k])
                &&& all_orbits(t, n)[k].len() >= 1
                &&& all_orbits(t, n)[k].to_set() == orbit_of(t, n, all_orbits(t, n)[k][0] as int)
            },
        forall|k1: int, k2: int, x: usize|
            0 <= k1 < all_orbits(t, n).len() && 0 <= k2 < all_orbits(t, n).len() && k1 != k2
                ==> !(#[trigger] all_orbits(t, n)[k1].contains(x) && #[trigger] all_orbits(t, n)[k2].contains(x)),
        forall|x: usize| x < n ==> #[trigger] in_some_orbit(all_orbits(t, n), x),
{
    lemma_orbits_listed(t, n);
    lemma_orbits_disjoint(t, n);
    lemma_orbits_cover(t, n);
}

/// Face `x` is in one of the first `k` orbits of `orbs`.
pub open spec fn in_first_orbits(orbs: Seq<Seq<usize>>, k: int, x: usize) -> bool {
    exists|j: int| 0 <= j < k && #[trigger] orbs[j].contains(x)
}

/// `o` is one of the first `k` orbits of `orbs`.
pub open spec fn among_first_orbits(orbs: Seq<Seq<usize>>, k: int, o: Seq<usize>) -> bool {
    exists|j: int| 0 <= j < k && o == #[trigger] orbs[j]
}

/// No face is in two of the listed orbits.
pub open spec fn orbits_disjoint(os: Seq<Seq<usize>>) -> bool {
    forall|k1: int, k2: int, x: usize|
        0 <= k1 < os.len() && 0 <= k2 < os.len() && k1 != k2 ==> !(#[trigger] os[k1].contains(x)
            && #[trigger] os[k2].contains(x))
}

proof fn lemma_classify_accounts(
    orbs: Seq<Seq<usize>>,
    pa: Seq<usize>,
    pb: Seq<usize>,
    n_a: int,
    n_b: int,
    fudged: bool,
    k: nat,
    deg: Set<usize>,
    os: Seq<Seq<usize>>,
    gs: Seq<Seq<Seq<Seq<usize>>>>,
)
    requires
        k <= orbs.len(),
        orbits_disjoint(orbs),
        classify_orbits(orbs, pa, pb, n_a, n_b, fudged, k) == Ok::<(Set<usize>, Seq<Seq<usize>>, Seq<Seq<Seq<Seq<usize>>>>), nat>((deg, os, gs)),
    ensures
        gs.len() == os.len(),
        forall|i: int| 0 <= i < os.len() ==> #[trigger] among_first_orbits(orbs, k as int, os[i]),
        orbits_disjoint(os),
        forall|x: usize|
            #![trigger in_some_orbit(os, x)]
            #![trigger deg.contains(x)]
            #![trigger in_first_orbits(orbs, k as int, x)]
            (deg.contains(x) || in_some_orbit(os, x)) == in_first_orbits(orbs, k as int, x),
        forall|x: usize|
            #![trigger in_some_orbit(os, x)]
            #![trigger deg.contains(x)]
            !(deg.contains(x) && in_some_orbit(os, x)),
        !fudged ==> deg == Set::<usize>::empty() && os == orbs.take(k as int),
    decreases k,
{
    if k == 0 {
        assert(os == orbs.take(0));
        assert forall|x: usize| !(deg.contains(x) || #[trigger] in_some_orbit(os, x)) && !in_first_orbits(orbs, k as int, x) by {
        }
    } else {
        let prev = classify_orbits(orbs, pa, pb, n_a, n_b, fudged, (k - 1) as nat);
        if prev is Err {
            assert(false);
        }
        let (deg0, os0, gs0) = prev->Ok_0;
        lemma_classify_accounts(orbs, pa, pb, n_a, n_b, fudged, (k - 1) as nat, deg0, os0, gs0);
        assert forall|x: usize| #[trigger] in_first_orbits(orbs, k - 1, x) == (deg0.contains(x) || in_some_orbit(os0, x)) by {
            assert(in_first_orbits(orbs, ((k - 1) as nat) as int, x) == (deg0.contains(x) || in_some_orbit(os0, x)));
        }
        let m = orbs[k - 1];
        assert forall|x: usize| #[trigger] in_first_orbits(orbs, k as int, x) == (in_first_orbits(orbs, k - 1, x) || m.contains(x)) by {
            if in_first_orbits(orbs, k as int, x) && !m.contains(x) {
                let j = choose|j: int| 0 <= j < k && #[trigger] orbs[j].contains(x);
                assert(j < k - 1);
            }
        }
        assert forall|x: usize| m.contains(x) implies !in_first_orbits(orbs, k - 1, x) by {
            if in_first_orbits(orbs, k - 1, x) {
                let j = choose|j: int| 0 <= j < k - 1 && #[trigger] orbs[j].contains(x);
                assert(orbs[k - 1].contains(x));
            }
        }
        if os == os0.push(m) {
            assert(deg == deg0);
            assert forall|x: usize| #[trigger] in_some_orbit(os, x) == (in_some_orbit(os0, x) || m.contains(x)) by {
                if in_some_orbit(os0, x) {
                    let i = choose|i: int| 0 <= i < os0.len() && #[trigger] os0[i].contains(x);
                    assert(os[i] == os0[i]);
                }
                if m.contains(x) {
                    assert(os[os0.len() as int] == m);
                }
                if in_some_orbit(os, x) && !m.contains(x) {
                    let i = choose|i: int| 0 <= i < os.len() && #[trigger] os[i].contains(x);
                    assert(os[i] == os0[i]);
                }
            }
            assert forall|i: int| 0 <= i < os.len() implies #[trigger] among_first_orbits(orbs, k as int, os[i]) by {
                if i < os0.len() {
                    assert(os[i] == os0[i]);
                    assert(among_first_orbits(orbs, k - 1, os0[i]));
                } else {
                    assert(os[i] == orbs[k - 1]);
                }
            }
            assert forall|k1: int, k2: int, x: usize|
                0 <= k1 < os.len() && 0 <= k2 < os.len() && k1 != k2 implies !(#[trigger] os[k1].contains(x)
                    && #[trigger] os[k2].contains(x)) by {
                if os[k1].contains(x) && os[k2].contains(x) {
                    if k1 < os0.len() && k2 < os0.len() {
                        assert(os[k1] == os0[k1] && os[k2] == os0[k2]);
                    } else if k1 < os0.len() {
                        assert(os[k1] == os0[k1]);
                        assert(os[k2] == m);
                        assert(in_some_orbit(os0, x));
                    } else {
                        assert(os[k2] == os0[k2]);
                        assert(os[k1] == m);
                        assert(in_some_orbit(os0, x));
                    }
                }
            }
            assert forall|x: usize| (deg.contains(x) || #[trigger] in_some_orbit(os, x)) == in_first_orbits(orbs, k as int, x) by {
                assert(in_first_orbits(orbs, k as int, x) == (in_first_orbits(orbs, k - 1, x) || m.contains(x)));
                assert((deg0.contains(x) || in_some_orbit(os0, x)) == in_first_orbits(orbs, k - 1, x));
            }
            assert forall|x: usize| !(deg.contains(x) && #[trigger] in_some_orbit(os, x)) by {
                assert((deg0.contains(x) || in_some_orbit(os0, x)) == in_first_orbits(orbs, k - 1, x));
                assert(!(deg0.contains(x) && in_some_orbit(os0, x)));
                if m.contains(x) {
                    assert(!in_first_orbits(orbs, k - 1, x));
                }
            }
            if !fudged {
                assert(os == orbs.take(k as int));
            }
        } else {
            assert(os == os0);
            assert(fudged);
            assert(deg == deg0.union(m.to_set()));
            assert forall|x: usize| #[trigger] deg.contains(x) == (deg0.contains(x) || m.contains(x)) by {
                if m.contains(x) {
                    assert(m.to_set().contains(x));
                }
            }
            assert forall|i: int| 0 <= i < os.len() implies #[trigger] among_first_orbits(orbs, k as int, os[i]) by {
                assert(among_first_orbits(orbs, k - 1, os0[i]));
            }
            assert forall|x: usize| (deg.contains(x) || #[trigger] in_some_orbit(os, x)) == in_first_orbits(orbs, k as int, x) by {
                assert(in_first_orbits(orbs, k as int, x) == (in_first_orbits(orbs, k - 1, x) || m.contains(x)));
                assert((deg0.contains(x) || in_some_orbit(os0, x)) == in_first_orbits(orbs, k - 1, x));
                assert(deg.contains(x) == (deg0.contains(x) || m.contains(x)));
            }
            assert forall|x: usize| !(deg.contains(x) && #[trigger] in_some_orbit(os, x)) by {
                assert((deg0.contains(x) || in_some_orbit(os0, x)) == in_first_orbits(orbs, k - 1, x));
                assert(!(deg0.contains(x) && in_some_orbit(os0, x)));
                assert(deg.contains(x) == (deg0.contains(x) || m.contains(x)));
                if m.contains(x) {
                    assert(!in_first_orbits(orbs, k - 1, x));
                }
            }
        }
    }
}

/// What the orbit analysis keeps accounts for every face exactly once: each
/// face lies either among the faces set aside as degenerate or in one of the
/// orbits kept, never both; each kept orbit is an orbit of the faces, no two
/// share a face, and each has its own list of generators. Outside fudged mode
/// nothing is set aside and every orbit is kept.
pub proof fn law_outcome_accounts_for_faces(
    t: Seq<Seq<Option<usize>>>,
    n: nat,
    n_a: int,
    n_b: int,
    fudged: bool,
    deg: Set<usize>,
    os: Seq<Seq<usize>>,
    gs: Seq<Seq<Seq<Seq<usize>>>>,
)
    requires
        n <= usize::MAX,
        orbit_outcome(t, n, n_a, n_b, fudged) == Ok::<(Set<usize>, Seq<Seq<usize>>, Seq<Seq<Seq<Seq<usize>>>>), nat>((deg, os, gs)),
    ensures
        gs.len() == os.len(),
        forall|i: int| 0 <= i < os.len() ==> all_orbits(t, n).contains(#[trigger] os[i]),
        orbits_disjoint(os),
        forall|x: usize| x < n ==> (deg.contains(x) || #[trigger] in_some_orbit(os, x)),
        forall|x: usize| !(deg.contains(x) && #[trigger] in_some_orbit(os, x)),
        forall|x: usize| #[trigger] deg.contains(x) ==> x < n,
        forall|x: usize| #[trigger] in_some_orbit(os, x) ==> x < n,
        !fudged ==> deg == Set::<usize>::empty() && os == all_orbits(t, n),
{
    let orbs = all_orbits(t, n);
    law_orbits_partition_faces(t, n);
    assert(orbits_disjoint(orbs));
    lemma_classify_accounts(orbs, move_perm(t[0]), move_perm(t[2]), n_a, n_b, fudged, orbs.len(), deg, os, gs);
    assert forall|i: int| 0 <= i < os.len() implies orbs.contains(#[trigger] os[i]) by {
        assert(among_first_orbits(orbs, orbs.len() as int, os[i]));
        let j = choose|j: int| 0 <= j < orbs.len() && os[i] == #[trigger] orbs[j];
    }
    assert forall|x: usize| #[trigger] in_first_orbits(orbs, orbs.len() as int, x) implies x < n by {
        let j = choose|j: int| 0 <= j < orbs.len() && #[trigger] orbs[j].contains(x);
        assert(orbs[j].to_set().contains(x));
    }
    assert forall|x: usize| x < n implies (deg.contains(x) || #[trigger] in_some_orbit(os, x)) by {
        assert(in_some_orbit(orbs, x));
        let j = choose|j: int| 0 <= j < orbs.len() && #[trigger] orbs[j].contains(x);
        assert(in_first_orbits(orbs, orbs.len() as int, x));
    }
    assert forall|x: usize| #[trigger] deg.contains(x) implies x < n by {
        assert(deg.contains(x) || in_some_orbit(os, x));
        assert(in_first_orbits(orbs, orbs.len() as int, x));
    }
    assert forall|x: usize| #[trigger] in_some_orbit(os, x) implies x < n by {
        assert(in_first_orbits(orbs, orbs.len() as int, x));
    }
    if !fudged {
        assert(orbs.take(orbs.len() as int) == orbs);
    }
}

proof fn lemma_trail(perm: Seq<usize>, members: Seq<usize>, seen: Set<usize>, cur: usize, fuel: nat)
    ensures
        ({
            let t = trail(perm, members, seen, cur, fuel);
            &&& t.len() > 0 ==> t[0] == cur
            &&& t.no_duplicates()
            &&& forall|i: int| 0 <= i < t.len() ==> members.contains(#[trigger] t[i]) && !seen.contains(t[i])
            &&& forall|i: int| 0 <= i < t.len() - 1 ==> #[trigger] t[i + 1] == perm[t[i] as int]
        }),
    decreases fuel,
{
    let t = trail(perm, members, seen, cur, fuel);
    if !(fuel == 0 || seen.contains(cur) || !members.contains(cur)) {
        let rest = trail(perm, members, seen.insert(cur), perm[cur as int], (fuel - 1) as nat);
        lemma_trail(perm, members, seen.insert(cur), perm[cur as int], (fuel - 1) as nat);
        assert(t == seq![cur] + rest);
        assert forall|i: int| 0 <= i < t.len() implies members.contains(#[trigger] t[i]) && !seen.contains(t[i]) by {
            if i > 0 {
                assert(t[i] == rest[i - 1]);
            }
        }
        assert forall|i: int| 0 <= i < t.len() - 1 implies #[trigger] t[i + 1] == perm[t[i] as int] by {
            assert(t[i + 1] == rest[i]);
            if i > 0 {
                assert(t[i] == rest[i - 1]);
                assert(rest[(i - 1) + 1] == perm[rest[i - 1] as int]);
            }
        }
        assert forall|i: int, j: int| 0 <= i < j < t.len() implies t[i] != t[j] by {
            assert(t[j] == rest[j - 1]);
            if i > 0 {
                assert(t[i] == rest[i - 1]);
            } else {
                assert(!seen.insert(cur).contains(rest[j - 1]));
            }
        }
    }
}

proof fn lemma_local_index(members: Seq<usize>, v: usize)
    requires
        members.len() <= usize::MAX,
        members.contains(v),
    ensures
        local_index(members, v) < members.len(),
        members[local_index(members, v) as int] == v,
{
    let k = choose|k: int| 0 <= k < members.len() && members[k] == v;
    assert((k as usize) < members.len() && members[(k as usize) as int] == v);
}

/// The cycles found while walking the first `k` members of an orbit.
proof fn lemma_cycle_walk(perm: Seq<usize>, members: Seq<usize>, k: nat)
    requires
        members.len() <= usize::MAX,
    ensures
        ({
            let (seen, cs) = cycle_walk(perm, members, k);
            &&& forall|q: int| 0 <= q < cs.len() ==> #[trigger] cs[q].len() >= 2 && cs[q].no_duplicates()
            &&& forall|q: int, i: int|
                0 <= q < cs.len() && 0 <= i < cs[q].len() ==> #[trigger] cs[q][i] < members.len()
                    && seen.contains(members[cs[q][i] as int])
            &&& forall|q: int, i: int|
                0 <= q < cs.len() && 0 <= i < cs[q].len() - 1 ==> members[#[trigger] cs[q][i + 1] as int]
                    == perm[members[cs[q][i] as int] as int]
            &&& forall|q1: int, q2: int, i: int, j: int|
                0 <= q1 < q2 < cs.len() && 0 <= i < cs[q1].len() && 0 <= j < cs[q2].len() ==> #[trigger] cs[q1][i]
                    != #[trigger] cs[q2][j]
        }),
    decreases k,
{
    if !(k == 0 || k > members.len()) {
        lemma_cycle_walk(perm, members, (k - 1) as nat);
        let (seen0, cs0) = cycle_walk(perm, members, (k - 1) as nat);
        let start = members[k - 1];
        if !seen0.contains(start) {
            let t = trail(perm, members, seen0, start, members.len());
            lemma_trail(perm, members, seen0, start, members.len());
            let seen = seen0.union(t.to_set());
            let c = localize(members, t);
            assert forall|i: int| 0 <= i < c.len() implies #[trigger] c[i] < members.len() && members[c[i] as int] == t[i] by {
                lemma_local_index(members, t[i]);
            }
            assert forall|q: int, i: int| 0 <= q < cs0.len() && 0 <= i < cs0[q].len() implies seen.contains(members[#[trigger] cs0[q][i] as int]) by {
            }
            assert forall|i: int| 0 <= i < c.len() implies seen.contains(members[#[trigger] c[i] as int]) by {
                assert(t.to_set().contains(t[i]));
            }
            if t.len() > 1 {
                let cs = cs0.push(c);
                assert(c.no_duplicates()) by {
                    assert forall|i: int, j: int| 0 <= i < j < c.len() implies c[i] != c[j] by {
                        assert(members[c[i] as int] == t[i] && members[c[j] as int] == t[j]);
                    }
                }
                assert forall|q: int| 0 <= q < cs.len() implies #[trigger] cs[q].len() >= 2 && cs[q].no_duplicates() by {
                    if q < cs0.len() {
                        assert(cs[q] == cs0[q]);
                    }
                }
                assert forall|q: int, i: int|
                    0 <= q < cs.len() && 0 <= i < cs[q].len() implies #[trigger] cs[q][i] < members.len()
                        && seen.contains(members[cs[q][i] as int]) by {
                    if q < cs0.len() {
                        assert(cs[q] == cs0[q]);
                    }
                }
                assert forall|q: int, i: int|
                    0 <= q < cs.len() && 0 <= i < cs[q].len() - 1 implies members[#[trigger] cs[q][i + 1] as int]
                        == perm[members[cs[q][i] as int] as int] by {
                    if q < cs0.len() {
                        assert(cs[q] == cs0[q]);
                    } else {
                        assert(cs[q] == c);
                        assert(members[c[i] as int] == t[i]);
                        assert(members[c[i + 1] as int] == t[i + 1]);
                    }
                }
                assert forall|q1: int, q2: int, i: int, j: int|
                    0 <= q1 < q2 < cs.len() && 0 <= i < cs[q1].len() && 0 <= j < cs[q2].len() implies #[trigger] cs[q1][i]
                        != #[trigger] cs[q2][j] by {
                    assert(cs[q1] == cs0[q1]);
                    if q2 < cs0.len() {
                        assert(cs[q2] == cs0[q2]);
                    } else {
                        assert(cs[q2] == c);
                        assert(seen0.contains(members[cs0[q1][i] as int]));
                        assert(members[c[j] as int] == t[j]);
                        assert(!seen0.contains(t[j]));
                    }
                }
            } else {
                assert forall|q: int, i: int|
                    0 <= q < cs0.len() && 0 <= i < cs0[q].len() implies #[trigger] cs0[q][i] < members.len()
                        && seen.contains(members[cs0[q][i] as int]) by {
                }
            }
        }
    }
}

/// The cycles that a move's permutation is given as on an orbit are cycles
/// of that permutation: each has at least two entries, every entry is a
/// position in the orbit, each entry's face is sent by the move to the next
/// entry's face, and no position occurs twice, within a cycle or across
/// cycles.
pub proof fn law_orbit_cycles_follow_the_move(perm: Seq<usize>, members: Seq<usize>)
    requires
        members.len() <= usize::MAX,
    ensures
        ({
            let cs = orbit_cycles(perm, members);
            &&& forall|q: int| 0 <= q < cs.len() ==> #[trigger] cs[q].len() >= 2 && cs[q].no_duplicates()
            &&& forall|q: int, i: int| 0 <= q < cs.len() && 0 <= i < cs[q].len() ==> #[trigger] cs[q][i] < members.len()
            &&& forall|q: int, i: int|
                0 <= q < cs.len() && 0 <= i < cs[q].len() - 1 ==> members[#[trigger] cs[q][i + 1] as int]
                    == perm[members[cs[q][i] as int] as int]
            &&& forall|q1: int, q2: int, i: int, j: int|
                0 <= q1 < q2 < cs.len() && 0 <= i < cs[q1].len() && 0 <= j < cs[q2].len() ==> #[trigger] cs[q1][i]
                    != #[trigger] cs[q2][j]
        }),
{
    lemma_cycle_walk(perm, members, members.len());
}

/// `perm` permutes the faces of `members`: it sends each of them to one of
/// them, and no two of them to the same face.
pub open spec fn permutes(perm: Seq<usize>, members: Seq<usize>) -> bool {
    &&& forall|a: usize| members.contains(a) ==> members.contains(#[trigger] perm[a as int])
    &&& forall|a: usize, b: usize|
        #![trigger perm[a as int], perm[b as int]]
        members.contains(a) && members.contains(b) && perm[a as int] == perm[b as int] ==> a == b
}

/// `seen` holds a face of `members` exactly when it holds the face that
/// `perm` sends it to: it is made of whole cycles.
pub open spec fn whole_cycles(perm: Seq<usize>, members: Seq<usize>, seen: Set<usize>) -> bool {
    forall|a: usize| members.contains(a) ==> (seen.contains(a) <==> seen.contains(#[trigger] perm[a as int]))
}

/// Position `i` of the orbit occurs in one of the cycles `cs`.
pub open spec fn in_some_cycle(cs: Seq<Seq<usize>>, i: int) -> bool {
    exists|q: int, j: int| 0 <= q < cs.len() && 0 <= j < cs[q].len() && #[trigger] cs[q][j] == i
}

/// Why a trail stops: it ran out of steps, or the next face was seen
/// before, is on the trail already, or is not in the orbit.
proof fn lemma_trail_end(perm: Seq<usize>, members: Seq<usize>, seen: Set<usize>, cur: usize, fuel: nat)
    ensures
        ({
            let t = trail(perm, members, seen, cur, fuel);
            &&& t.len() <= fuel
            &&& t.len() > 0 ==> {
                ||| t.len() == fuel
                ||| seen.contains(perm[t.last() as int])
                ||| t.contains(perm[t.last() as int])
                ||| !members.contains(perm[t.last() as int])
            }
        }),
    decreases fuel,
{
    let t = trail(perm, members, seen, cur, fuel);
    if !(fuel == 0 || seen.contains(cur) || !members.contains(cur)) {
        let nxt = perm[cur as int];
        let rest = trail(perm, members, seen.insert(cur), nxt, (fuel - 1) as nat);
        lemma_trail_end(perm, members, seen.insert(cur), nxt, (fuel - 1) as nat);
        assert(t == seq![cur] + rest);
        if rest.len() == 0 {
            assert(t.last() == cur);
            if seen.insert(cur).contains(nxt) && !seen.contains(nxt) {
                assert(nxt == cur);
                assert(t[0] == cur);
            }
        } else {
            assert(t.last() == rest.last());
            let y = perm[rest.last() as int];
            if rest.contains(y) {
                let j = choose|j: int| 0 <= j < rest.len() && rest[j] == y;
                assert(t[j + 1] == y);
            }
            if seen.insert(cur).contains(y) && !seen.contains(y) {
                assert(t[0] == y);
            }
        }
    }
}

/// A trail started, from a set of whole cycles, at a face outside it, under
/// a permutation of the orbit, runs once round the face's cycle: it closes
/// on its start, has one face only if the start is fixed, and leaves whole
/// cycles seen.
proof fn lemma_trail_is_cycle(perm: Seq<usize>, members: Seq<usize>, seen: Set<usize>, start: usize)
    requires
        members.no_duplicates(),
        permutes(perm, members),
        whole_cycles(perm, members, seen),
        members.contains(start),
        !seen.contains(start),
    ensures
        ({
            let t = trail(perm, members, seen, start, members.len());
            &&& t.len() >= 1
            &&& t[0] == start
            &&& perm[t.last() as int] == start
            &&& (t.len() == 1 <==> perm[start as int] == start)
            &&& whole_cycles(perm, members, seen.union(t.to_set()))
        }),
{
    let t = trail(perm, members, seen, start, members.len());
    crate::orbit_laws::lemma_trail(perm, members, seen, start, members.len());
    lemma_trail_end(perm, members, seen, start, members.len());
    assert(members.len() >= 1);
    let last = t.last();
    let y = perm[last as int];
    assert(members.contains(last));
    assert(members.contains(y));
    assert(!seen.contains(y)) by {
        assert(!seen.contains(last));
    }
    assert(t.contains(y)) by {
        if !t.contains(y) {
            assert(t.len() == members.len());
            let u = t.push(y);
            assert(u.no_duplicates()) by {
                assert forall|i: int, j: int| 0 <= i < j < u.len() implies u[i] != u[j] by {
                    if j == t.len() {
                        assert(u[i] == t[i]);
                    } else {
                        assert(u[i] == t[i] && u[j] == t[j]);
                    }
                }
            }
            assert forall|x: usize| #[trigger] u.contains(x) implies members.contains(x) by {
                let i = choose|i: int| 0 <= i < u.len() && u[i] == x;
                if i < t.len() {
                    assert(u[i] == t[i]);
                }
            }
            lemma_distinct_within(u, members);
        }
    }
    let j = choose|j: int| 0 <= j < t.len() && t[j] == y;
    if j > 0 {
        assert(t[(j - 1) + 1] == perm[t[j - 1] as int]);
        assert(members.contains(t[j - 1]));
        assert(t[j - 1] == last);
        assert(t[t.len() - 1] == last);
        assert(j - 1 == t.len() - 1);
    }
    assert(perm[last as int] == start);
    if t.len() == 1 {
        assert(last == start);
    } else {
        assert(t[0int + 1] == perm[t[0] as int]);
    }
    let s2 = seen.union(t.to_set());
    assert forall|a: usize| members.contains(a) implies (s2.contains(a) <==> s2.contains(#[trigger] perm[a as int])) by {
        let b = perm[a as int];
        if t.to_set().contains(a) {
            let i = choose|i: int| 0 <= i < t.len() && t[i] == a;
            if i < t.len() - 1 {
                assert(t[i + 1] == b);
                assert(t.to_set().contains(t[i + 1]));
            } else {
                assert(b == t[0]);
                assert(t.to_set().contains(t[0]));
            }
        }
        if t.to_set().contains(b) && !seen.contains(a) {
            let i = choose|i: int| 0 <= i < t.len() && t[i] == b;
            if i > 0 {
                assert(t[(i - 1) + 1] == perm[t[i - 1] as int]);
                assert(members.contains(t[i - 1]));
                assert(a == t[i - 1]);
                assert(t.to_set().contains(t[i - 1]));
            } else {
                assert(members.contains(last));
                assert(a == last);
                assert(t.to_set().contains(t[t.len() - 1]));
            }
        }
    }
}

/// The walk over the first `k` faces of an orbit, under a permutation of the
/// orbit, has seen whole cycles, every one of the first `k` faces, and every
/// face it has seen that the move does not fix lies on a cycle found, each
/// cycle closing on its first face.
proof fn lemma_cycle_walk_covers(perm: Seq<usize>, members: Seq<usize>, k: nat)
    requires
        members.len() <= usize::MAX,
        members.no_duplicates(),
        permutes(perm, members),
        k <= members.len(),
    ensures
        ({
            let (seen, cs) = cycle_walk(perm, members, k);
            &&& whole_cycles(perm, members, seen)
            &&& forall|x: usize| #[trigger] seen.contains(x) ==> members.contains(x)
            &&& forall|j: int| 0 <= j < k ==> seen.contains(#[trigger] members[j])
            &&& forall|j: int|
                0 <= j < members.len() && seen.contains(members[j]) && perm[members[j] as int] != members[j]
                    ==> #[trigger] in_some_cycle(cs, j)
            &&& forall|q: int|
                0 <= q < cs.len() ==> cs[q].len() >= 1 && perm[members[(#[trigger] cs[q]).last() as int] as int]
                    == members[cs[q][0] as int]
        }),
    decreases k,
{
    if k > 0 {
        lemma_cycle_walk_covers(perm, members, (k - 1) as nat);
        lemma_cycle_walk(perm, members, (k - 1) as nat);
        let (seen0, cs0) = cycle_walk(perm, members, (k - 1) as nat);
        let (seen, cs) = cycle_walk(perm, members, k);
        let start = members[k - 1];
        if seen0.contains(start) {
            assert(seen == seen0 && cs == cs0);
        } else {
            let t = trail(perm, members, seen0, start, members.len());
            lemma_trail_is_cycle(perm, members, seen0, start);
            lemma_trail(perm, members, seen0, start, members.len());
            let c = localize(members, t);
            assert(seen == seen0.union(t.to_set()));
            assert forall|i: int| 0 <= i < c.len() implies #[trigger] c[i] < members.len() && members[c[i] as int] == t[i] by {
                lemma_local_index(members, t[i]);
            }
            assert forall|x: usize| #[trigger] seen.contains(x) implies members.contains(x) by {
                if t.to_set().contains(x) {
                    let i = choose|i: int| 0 <= i < t.len() && t[i] == x;
                }
            }
            assert(t.to_set().contains(t[0]));
            assert forall|j: int| 0 <= j < k implies seen.contains(#[trigger] members[j]) by {
            }
            if t.len() > 1 {
                assert(cs == cs0.push(c));
                assert forall|j: int|
                    0 <= j < members.len() && seen.contains(members[j]) && perm[members[j] as int] != members[j]
                        implies #[trigger] in_some_cycle(cs, j) by {
                    if seen0.contains(members[j]) {
                        assert(in_some_cycle(cs0, j));
                        let (q, i) = choose|q: int, i: int| 0 <= q < cs0.len() && 0 <= i < cs0[q].len() && #[trigger] cs0[q][i] == j;
                        assert(cs[q] == cs0[q]);
                        assert(cs[q][i] == j);
                    } else {
                        let i = choose|i: int| 0 <= i < t.len() && t[i] == members[j];
                        assert(members[c[i] as int] == members[j]);
                        assert(c[i] == j);
                        assert(cs[cs0.len() as int] == c);
                        assert(cs[cs0.len() as int][i] == j);
                    }
                }
                assert forall|q: int|
                    0 <= q < cs.len() implies cs[q].len() >= 1 && perm[members[(#[trigger] cs[q]).last() as int] as int]
                        == members[cs[q][0] as int] by {
                    if q < cs0.len() {
                        assert(cs[q] == cs0[q]);
                    } else {
                        assert(cs[q] == c);
                        assert(members[c[c.len() - 1] as int] == t[t.len() - 1]);
                        assert(members[c[0] as int] == t[0]);
                    }
                }
            } else {
                assert(cs == cs0);
                assert forall|j: int|
                    0 <= j < members.len() && seen.contains(members[j]) && perm[members[j] as int] != members[j]
                        implies #[trigger] in_some_cycle(cs, j) by {
                    if !seen0.contains(members[j]) {
                        let i = choose|i: int| 0 <= i < t.len() && t[i] == members[j];
                        assert(i == 0);
                    }
                }
            }
        }
    }
}

/// When the move permutes the faces of an orbit, its cycles on the orbit
/// leave nothing out: every position whose face the move does not fix lies
/// on one of the cycles, and each cycle closes, the move sending the face of
/// its last position to the face of its first.
pub proof fn law_orbit_cycles_cover_the_move(perm: Seq<usize>, members: Seq<usize>)
    requires
        members.len() <= usize::MAX,
        members.no_duplicates(),
        permutes(perm, members),
    ensures
        ({
            let cs = orbit_cycles(perm, members);
            &&& forall|i: int|
                0 <= i < members.len() && perm[members[i] as int] != members[i] ==> #[trigger] in_some_cycle(cs, i)
            &&& forall|q: int|
                0 <= q < cs.len() ==> perm[members[(#[trigger] cs[q]).last() as int] as int] == members[cs[q][0] as int]
        }),
{
    lemma_cycle_walk_covers(perm, members, members.len());
}

/// Every cycle of `cs` has `len` faces.
pub open spec fn all_of_length(cs: Seq<Seq<usize>>, len: int) -> bool {
    forall|k: int| 0 <= k < cs.len() ==> #[trigger] cs[k].len() == len
}

/// The orbit `o` agrees with the orders of the moves: it has one face, or
/// every cycle of move A on it has `n_a` faces and every cycle of move B has
/// `n_b`.
pub open spec fn keeps_order(pa: Seq<usize>, pb: Seq<usize>, o: Seq<usize>, n_a: int, n_b: int) -> bool {
    o.len() == 1 || (all_of_length(orbit_cycles(pa, o), n_a) && all_of_length(orbit_cycles(pb, o), n_b))
}

/// [`keeps_order`] as a predicate on orbits.
pub open spec fn keeps_order_pred(pa: Seq<usize>, pb: Seq<usize>, n_a: int, n_b: int) -> spec_fn(Seq<usize>) -> bool {
    |o: Seq<usize>| keeps_order(pa, pb, o, n_a, n_b)
}

/// The generators reported for a kept orbit `o`: none for a single face;
/// in fudged mode the cycles of A and those of B; otherwise those of the two
/// lists that are not empty, A first.
pub open spec fn generators_for(pa: Seq<usize>, pb: Seq<usize>, o: Seq<usize>, fudged: bool) -> Seq<Seq<Seq<usize>>> {
    let ga = orbit_cycles(pa, o);
    let gb = orbit_cycles(pb, o);
    if o.len() == 1 {
        Seq::empty()
    } else if fudged {
        seq![ga, gb]
    } else {
        (if ga.len() > 0 { seq![ga] } else { Seq::empty() }) + (if gb.len() > 0 { seq![gb] } else { Seq::empty() })
    }
}

/// Face `x` lies in one of the first `k` orbits that disagree with the
/// orders of the moves.
pub open spec fn in_failing_orbit(
    orbs: Seq<Seq<usize>>,
    k: int,
    x: usize,
    pa: Seq<usize>,
    pb: Seq<usize>,
    n_a: int,
    n_b: int,
) -> bool {
    exists|j: int| 0 <= j < k && !keeps_order(pa, pb, orbs[j], n_a, n_b) && #[trigger] orbs[j].contains(x)
}

proof fn lemma_other_length(cs: Seq<Seq<usize>>, len: int)
    ensures
        has_other_length(cs, len) == !all_of_length(cs, len),
{
}

proof fn lemma_classify_by_order(
    orbs: Seq<Seq<usize>>,
    pa: Seq<usize>,
    pb: Seq<usize>,
    n_a: int,
    n_b: int,
    fudged: bool,
    k: nat,
)
    requires
        k <= orbs.len(),
    ensures
        (classify_orbits(orbs, pa, pb, n_a, n_b, fudged, k) is Ok) == (fudged || forall|j: int|
            0 <= j < k ==> #[trigger] keeps_order(pa, pb, orbs[j], n_a, n_b)),
        classify_orbits(orbs, pa, pb, n_a, n_b, fudged, k) matches Ok((deg, os, gs)) ==> {
            &&& os == orbs.take(k as int).filter(keeps_order_pred(pa, pb, n_a, n_b))
            &&& gs.len() == os.len()
            &&& forall|i: int| 0 <= i < os.len() ==> #[trigger] gs[i] == generators_for(pa, pb, os[i], fudged)
            &&& forall|x: usize| #[trigger] deg.contains(x) == in_failing_orbit(orbs, k as int, x, pa, pb, n_a, n_b)
        },
        classify_orbits(orbs, pa, pb, n_a, n_b, fudged, k) matches Err(w) ==> {
            &&& !fudged
            &&& w <= 1
            &&& w == 0 ==> exists|j: int|
                0 <= j < k && orbs[j].len() != 1 && !all_of_length(#[trigger] orbit_cycles(pa, orbs[j]), n_a)
            &&& w == 1 ==> exists|j: int|
                0 <= j < k && orbs[j].len() != 1 && !all_of_length(#[trigger] orbit_cycles(pb, orbs[j]), n_b)
        },
    decreases k,
{
    let pred = keeps_order_pred(pa, pb, n_a, n_b);
    if k == 0 {
        reveal(Seq::filter);
        assert(orbs.take(0) == Seq::<Seq<usize>>::empty());
    } else {
        lemma_classify_by_order(orbs, pa, pb, n_a, n_b, fudged, (k - 1) as nat);
        let m = orbs[k - 1];
        let ga = orbit_cycles(pa, m);
        let gb = orbit_cycles(pb, m);
        lemma_other_length(ga, n_a);
        lemma_other_length(gb, n_b);
        assert(orbs.take(k as int).drop_last() == orbs.take(k - 1));
        assert(orbs.take(k as int).last() == m);
        assert(orbs.take(k as int).filter(pred) == if pred(m) {
            orbs.take(k - 1).filter(pred).push(m)
        } else {
            orbs.take(k - 1).filter(pred)
        }) by {
            reveal(Seq::filter);
        }
        assert(pred(m) == keeps_order(pa, pb, m, n_a, n_b));
        let prev = classify_orbits(orbs, pa, pb, n_a, n_b, fudged, (k - 1) as nat);
        let cur = classify_orbits(orbs, pa, pb, n_a, n_b, fudged, k);
        assert forall|x: usize| #[trigger] in_failing_orbit(orbs, k as int, x, pa, pb, n_a, n_b) == (in_failing_orbit(
            orbs,
            k - 1,
            x,
            pa,
            pb,
            n_a,
            n_b,
        ) || (!keeps_order(pa, pb, m, n_a, n_b) && m.contains(x))) by {
            if in_failing_orbit(orbs, k as int, x, pa, pb, n_a, n_b) {
                let j = choose|j: int| 0 <= j < k && !keeps_order(pa, pb, orbs[j], n_a, n_b) && #[trigger] orbs[j].contains(x);
                if j < k - 1 {
                    assert(in_failing_orbit(orbs, k - 1, x, pa, pb, n_a, n_b));
                }
            }
            if in_failing_orbit(orbs, k - 1, x, pa, pb, n_a, n_b) {
                let j = choose|j: int| 0 <= j < k - 1 && !keeps_order(pa, pb, orbs[j], n_a, n_b) && #[trigger] orbs[j].contains(x);
                assert(0 <= j < k);
            }
        }
        assert((fudged || forall|j: int| 0 <= j < k ==> #[trigger] keeps_order(pa, pb, orbs[j], n_a, n_b)) == (
        (fudged || forall|j: int| 0 <= j < k - 1 ==> #[trigger] keeps_order(pa, pb, orbs[j], n_a, n_b)) && (fudged
            || keeps_order(pa, pb, m, n_a, n_b)))) by {
            if forall|j: int| 0 <= j < k - 1 ==> #[trigger] keeps_order(pa, pb, orbs[j], n_a, n_b) {
                if keeps_order(pa, pb, m, n_a, n_b) {
                    assert forall|j: int| 0 <= j < k implies #[trigger] keeps_order(pa, pb, orbs[j], n_a, n_b) by {
                        if j == k - 1 {
                            assert(orbs[j] == m);
                        }
                    }
                }
            }
        }
        match prev {
            Err(w) => {
                if !fudged {
                    assert(!(forall|j: int| 0 <= j < k ==> #[trigger] keeps_order(pa, pb, orbs[j], n_a, n_b))) by {
                        assert(!(forall|j: int| 0 <= j < k - 1 ==> #[trigger] keeps_order(pa, pb, orbs[j], n_a, n_b)));
                        let j = choose|j: int| !(0 <= j < k - 1 ==> #[trigger] keeps_order(pa, pb, orbs[j], n_a, n_b));
                        assert(!keeps_order(pa, pb, orbs[j], n_a, n_b));
                    }
                }
                if w == 0 {
                    let j = choose|j: int|
                        0 <= j < k - 1 && orbs[j].len() != 1 && !all_of_length(#[trigger] orbit_cycles(pa, orbs[j]), n_a);
                    assert(0 <= j < k);
                }
                if w == 1 {
                    let j = choose|j: int|
                        0 <= j < k - 1 && orbs[j].len() != 1 && !all_of_length(#[trigger] orbit_cycles(pb, orbs[j]), n_b);
                    assert(0 <= j < k);
                }
            },
            Ok((deg0, os0, gs0)) => {
                if m.len() == 1 {
                    assert(cur == Ok::<(Set<usize>, Seq<Seq<usize>>, Seq<Seq<Seq<Seq<usize>>>>), nat>((deg0, os0.push(m), gs0.push(Seq::empty()))));
                    assert forall|i: int| 0 <= i < os0.len() + 1 implies #[trigger] gs0.push(Seq::empty())[i] == generators_for(pa, pb, os0.push(m)[i], fudged) by {
                        if i < os0.len() {
                            assert(gs0[i] == generators_for(pa, pb, os0[i], fudged));
                        }
                    }
                } else if has_other_length(ga, n_a) && !fudged {
                    assert(orbs[k - 1] == m);
                } else if has_other_length(gb, n_b) && !fudged {
                    assert(orbs[k - 1] == m);
                } else if fudged {
                    if has_other_length(ga, n_a) || has_other_length(gb, n_b) {
                        let deg = deg0.union(m.to_set());
                        assert forall|x: usize| #[trigger] deg.contains(x) == in_failing_orbit(orbs, k as int, x, pa, pb, n_a, n_b) by {
                            assert(deg0.contains(x) == in_failing_orbit(orbs, k - 1, x, pa, pb, n_a, n_b));
                            assert(m.to_set().contains(x) == m.contains(x));
                        }
                    } else {
                        let os = os0.push(m);
                        let gs = gs0.push(seq![ga, gb]);
                        assert forall|i: int| 0 <= i < os.len() implies #[trigger] gs[i] == generators_for(pa, pb, os[i], fudged) by {
                            if i < os0.len() {
                                assert(gs0[i] == generators_for(pa, pb, os0[i], fudged));
                            }
                        }
                    }
                } else {
                    let os = os0.push(m);
                    let gs = gs0.push(crate::orbit::nonempty_generators(ga, gb));
                    assert forall|i: int| 0 <= i < os.len() implies #[trigger] gs[i] == generators_for(pa, pb, os[i], fudged) by {
                        if i < os0.len() {
                            assert(gs0[i] == generators_for(pa, pb, os0[i], fudged));
                        }
                    }
                }
            },
        }
    }
}

/// Which orbits the analysis keeps, and what it reports for them, in terms
/// of the cycles of the moves. An orbit agrees with the orders of the moves
/// when it is a single face (fixed by both moves), or every cycle of move A
/// on it has `n_a` faces and every cycle of move B has `n_b`. Outside fudged
/// mode the analysis succeeds exactly when every orbit agrees, and otherwise
/// names a move with a cycle of the wrong length on some orbit. When it
/// succeeds, the orbits kept are exactly the agreeing orbits, in order; the
/// faces set aside are exactly those of the disagreeing orbits; a one-face
/// orbit is kept with no generators, and any other kept orbit is given the
/// cycles of both moves (in fudged mode) or those of the moves with cycles.
pub proof fn law_outcome_by_cycle_order(t: Seq<Seq<Option<usize>>>, n: nat, n_a: int, n_b: int, fudged: bool)
    ensures
        ({
            let orbs = all_orbits(t, n);
            let pa = move_perm(t[0]);
            let pb = move_perm(t[2]);
            &&& (orbit_outcome(t, n, n_a, n_b, fudged) is Ok) == (fudged || forall|j: int|
                0 <= j < orbs.len() ==> #[trigger] keeps_order(pa, pb, orbs[j], n_a, n_b))
            &&& orbit_outcome(t, n, n_a, n_b, fudged) matches Ok((deg, os, gs)) ==> {
                &&& os == orbs.filter(keeps_order_pred(pa, pb, n_a, n_b))
                &&& forall|j: int| 0 <= j < orbs.len() && orbs[j].len() == 1 ==> os.contains(#[trigger] orbs[j])
                &&& gs.len() == os.len()
                &&& forall|i: int| 0 <= i < os.len() ==> #[trigger] gs[i] == generators_for(pa, pb, os[i], fudged)
                &&& forall|i: int| 0 <= i < os.len() && os[i].len() != 1 ==> all_of_length(
                    orbit_cycles(pa, #[trigger] os[i]),
                    n_a,
                ) && all_of_length(orbit_cycles(pb, os[i]), n_b)
                &&& forall|x: usize| #[trigger] deg.contains(x) == in_failing_orbit(orbs, orbs.len() as int, x, pa, pb, n_a, n_b)
            }
            &&& orbit_outcome(t, n, n_a, n_b, fudged) matches Err(w) ==> {
                &&& !fudged
                &&& w <= 1
                &&& w == 0 ==> exists|j: int|
                    0 <= j < orbs.len() && orbs[j].len() != 1 && !all_of_length(#[trigger] orbit_cycles(pa, orbs[j]), n_a)
                &&& w == 1 ==> exists|j: int|
                    0 <= j < orbs.len() && orbs[j].len() != 1 && !all_of_length(#[trigger] orbit_cycles(pb, orbs[j]), n_b)
            }
        }),
{
    let orbs = all_orbits(t, n);
    let pa = move_perm(t[0]);
    let pb = move_perm(t[2]);
    let pred = keeps_order_pred(pa, pb, n_a, n_b);
    lemma_classify_by_order(orbs, pa, pb, n_a, n_b, fudged, orbs.len());
    assert(orbs.take(orbs.len() as int) == orbs);
    if let Ok((deg, os, gs)) = orbit_outcome(t, n, n_a, n_b, fudged) {
        assert forall|j: int| 0 <= j < orbs.len() && orbs[j].len() == 1 implies os.contains(#[trigger] orbs[j]) by {
            assert(pred(orbs[j]));
            orbs.lemma_filter_contains(pred, j);
        }
        assert forall|i: int| 0 <= i < os.len() && os[i].len() != 1 implies all_of_length(
            orbit_cycles(pa, #[trigger] os[i]),
            n_a,
        ) && all_of_length(orbit_cycles(pb, os[i]), n_b) by {
            orbs.lemma_filter_pred(pred, i);
        }
    }
}

} // verus!
