//! Renumbering forgets the names of vertices: generators that differ only by
//! a one-to-one renaming of their vertices are renumbered alike, so the
//! orbit graph handed to dreadnaut, and its canonical hash, are the same.

use vstd::prelude::*;
use crate::generator::{
    first_appearances, labels_of, lemma_first_appearances, lemma_vertex_in_vertices, op_vertices,
    relabeled, relabeled_cycle, relabeled_op, vertices,
};

verus! {

/// The cycles of `o` with every vertex `v` renamed `f(v)`.
pub open spec fn rename_op(o: Seq<Seq<usize>>, f: spec_fn(usize) -> usize) -> Seq<Seq<usize>> {
    Seq::new(o.len(), |j: int| o[j].map_values(f))
}

/// The generators `g` with every vertex `v` renamed `f(v)`.
pub open spec fn rename_gens(g: Seq<Seq<Seq<usize>>>, f: spec_fn(usize) -> usize) -> Seq<Seq<Seq<usize>>> {
    Seq::new(g.len(), |i: int| rename_op(g[i], f))
}

/// `f` gives distinct vertices of `g` distinct names.
pub open spec fn one_to_one_on(g: Seq<Seq<Seq<usize>>>, f: spec_fn(usize) -> usize) -> bool {
    forall|x: usize, y: usize|
        #![trigger vertices(g).contains(x), vertices(g).contains(y), f(x), f(y)]
        vertices(g).contains(x) && vertices(g).contains(y) && f(x) == f(y) ==> x == y
}

/// Flattening after renaming is renaming after flattening.
proof fn lemma_flatten_rename(s: Seq<Seq<usize>>, f: spec_fn(usize) -> usize)
    ensures
        rename_op(s, f).flatten() == s.flatten().map_values(f),
    decreases s.len(),
{
    if s.len() > 0 {
        let r = rename_op(s, f);
        lemma_flatten_rename(s.drop_first(), f);
        assert(r.drop_first() == rename_op(s.drop_first(), f));
        assert(r.first() == s.first().map_values(f));
        assert(s.flatten() == s.first() + s.drop_first().flatten());
        assert((s.first() + s.drop_first().flatten()).map_values(f) == s.first().map_values(f)
            + s.drop_first().flatten().map_values(f));
    } else {
        assert(rename_op(s, f).flatten() == Seq::<usize>::empty());
        assert(s.flatten().map_values(f) == Seq::<usize>::empty());
    }
}

/// The vertices of the renamed generators are the renamed vertices.
proof fn lemma_vertices_rename(g: Seq<Seq<Seq<usize>>>, f: spec_fn(usize) -> usize)
    ensures
        vertices(rename_gens(g, f)) == vertices(g).map_values(f),
{
    let ov = |o: Seq<Seq<usize>>| op_vertices(o);
    let a = rename_gens(g, f).map_values(ov);
    let b = g.map_values(ov);
    assert forall|i: int| 0 <= i < g.len() implies #[trigger] a[i] == rename_op(b, f)[i] by {
        lemma_flatten_rename(g[i], f);
    }
    assert(a == rename_op(b, f));
    lemma_flatten_rename(b, f);
}

/// Listing first appearances commutes with a renaming that is one-to-one on
/// the listed elements.
proof fn lemma_first_appearances_rename(s: Seq<usize>, f: spec_fn(usize) -> usize)
    requires
        forall|i: int, j: int| 0 <= i < s.len() && 0 <= j < s.len() && f(s[i]) == f(s[j]) ==> s[i] == s[j],
    ensures
        first_appearances(s.map_values(f)) == first_appearances(s).map_values(f),
    decreases s.len(),
{
    if s.len() > 0 {
        let d = s.drop_last();
        let x = s.last();
        lemma_first_appearances_rename(d, f);
        lemma_first_appearances(d);
        let k = first_appearances(d);
        assert(s.map_values(f).drop_last() == d.map_values(f));
        assert(s.map_values(f).last() == f(x));
        let km = k.map_values(f);
        if k.contains(x) {
            let p = choose|p: int| 0 <= p < k.len() && k[p] == x;
            assert(km[p] == f(x));
        } else {
            assert(!km.contains(f(x))) by {
                if km.contains(f(x)) {
                    let p = choose|p: int| 0 <= p < km.len() && km[p] == f(x);
                    assert(k.to_set().contains(k[p]));
                    assert(d.to_set().contains(k[p]));
                    let a = choose|a: int| 0 <= a < d.len() && d[a] == k[p];
                    assert(s[a] == d[a]);
                    assert(f(s[a]) == f(s[s.len() - 1]));
                }
            }
            assert(k.push(x).map_values(f) == km.push(f(x)));
        }
    } else {
        assert(s.map_values(f) == Seq::<usize>::empty());
    }
}

/// Renaming the vertices of generators one to one does not change how they
/// are renumbered: the renumbering of `g`, and that of `g` renamed by `f`,
/// each relabelling vertices by their position among the labels in order of
/// first appearance, are the same generators. So the canonizer built from
/// either draws the same orbit graph.
pub proof fn law_renaming_keeps_the_renumbering(
    g: Seq<Seq<Seq<usize>>>,
    f: spec_fn(usize) -> usize,
    start: int,
    h1: Seq<Seq<Seq<usize>>>,
    h2: Seq<Seq<Seq<usize>>>,
)
    requires
        one_to_one_on(g, f),
        relabeled(g, h1, labels_of(g), start),
        relabeled(rename_gens(g, f), h2, labels_of(rename_gens(g, f)), start),
    ensures
        h1 == h2,
{
    let gr = rename_gens(g, f);
    let l1 = labels_of(g);
    let s = vertices(g);
    lemma_vertices_rename(g, f);
    assert forall|i: int, j: int| 0 <= i < s.len() && 0 <= j < s.len() && f(s[i]) == f(s[j]) implies s[i] == s[j] by {
        assert(s.contains(s[i]) && s.contains(s[j]));
    }
    lemma_first_appearances_rename(s, f);
    lemma_first_appearances(s);
    let l2 = labels_of(gr);
    assert(l2 == l1.map_values(f));
    assert forall|i: int| 0 <= i < g.len() implies #[trigger] h1[i] == h2[i] by {
        assert(relabeled_op(g[i], h1[i], l1, start));
        assert(relabeled_op(gr[i], h2[i], l2, start));
        assert forall|j: int| 0 <= j < g[i].len() implies #[trigger] h1[i][j] == h2[i][j] by {
            assert(relabeled_cycle(g[i][j], h1[i][j], l1, start));
            assert(relabeled_cycle(gr[i][j], h2[i][j], l2, start));
            assert forall|k: int| 0 <= k < g[i][j].len() implies #[trigger] h1[i][j][k] == h2[i][j][k] by {
                let v = g[i][j][k];
                let p1 = h1[i][j][k] - start;
                let p2 = h2[i][j][k] - start;
                assert(gr[i][j][k] == f(v));
                assert(l1[p1] == v);
                assert(l2[p2] == f(v));
                assert(l2[p2] == f(l1[p2]));
                lemma_vertex_in_vertices(g, i, j, k);
                assert(l1.to_set().contains(l1[p2]));
                assert(s.contains(l1[p2]));
                assert(l1[p2] == v);
                assert(l1.no_duplicates());
            }
            assert(h1[i][j] =~= h2[i][j]);
        }
        assert(h1[i] =~= h2[i]);
    }
    assert(h1 =~= h2);
}

} // verus!
