//! Scripts for dreadnaut that canonise orbit graphs.

use vstd::prelude::*;
use std::collections::BTreeSet;
use vstd::std_specs::cmp::OrdSpec;
use vstd::std_specs::iter::IteratorSpec;
use vstd::string::StringExecFns;
use crate::generator::gens_view;
use crate::sorted::{increasing_members, lemma_sorted_unique, strictly_increasing};
use crate::text::{decimal, push_decimal};

verus! {

broadcast use vstd::std_specs::btree::group_btree_axioms;

proof fn lemma_ordered_members(s: Seq<&usize>)
    requires
        vstd::std_specs::btree::increasing_seq(s),
    ensures
        strictly_increasing(s.unref()),
{
    broadcast use vstd::laws_cmp::group_laws_cmp;

    assert(vstd::laws_cmp::obeys_cmp::<usize>());
    assert(vstd::laws_cmp::obeys_cmp::<&usize>());
    vstd::std_specs::btree::axiom_increasing_seq_meaning::<&usize>(s);
    assert forall|i: int, j: int| 0 <= i < j < s.len() implies *s[i] < *s[j] by {
        assert(OrdSpec::cmp_spec(&s[i], &s[j]) is Less);
    }
}

fn sorted_members(set: &BTreeSet<usize>) -> (v: Vec<usize>)
    ensures
        strictly_increasing(v@),
        v@.to_set() == set@,
{
    let ghost s = vstd::std_specs::btree::spec_btree_keys_iter(set).remaining();
    let mut v: Vec<usize> = Vec::new();
    for x in it: set.iter()
        invariant
            it.seq() == s,
            v@ == s.unref().take(it.index()),
    {
        v.push(*x);
    }
    proof {
        assert(s.unref().take(s.len() as int) == s.unref());
        lemma_ordered_members(s);
    }
    v
}

/// The directed edges a cycle contributes: each vertex to its successor, the
/// last back to the first; a cycle of fewer than two vertices has none.
pub open spec fn cycle_edges(c: Seq<usize>) -> Seq<(usize, usize)> {
    if c.len() < 2 {
        Seq::empty()
    } else {
        Seq::new(c.len(), |i: int| (c[i], c[(i + 1) % (c.len() as int)]))
    }
}

/// The edges of every cycle of an operation, in order.
pub open spec fn op_edges(op: Seq<Seq<usize>>) -> Seq<(usize, usize)> {
    op.map_values(|c: Seq<usize>| cycle_edges(c)).flatten()
}

/// The edges of every operation, in order.
pub open spec fn gens_edges(g: Seq<Seq<Seq<usize>>>) -> Seq<(usize, usize)> {
    g.map_values(|o: Seq<Seq<usize>>| op_edges(o)).flatten()
}

/// An edge with an end below the first vertex index.
pub open spec fn below_start(e: (usize, usize), start: int) -> bool {
    e.0 < start || e.1 < start
}

/// None of the edges `0..=k` has an end below `start`.
pub open spec fn in_bounds_through(es: Seq<(usize, usize)>, start: int, k: int) -> bool {
    forall|k2: int| 0 <= k2 <= k ==> !below_start(#[trigger] es[k2], start)
}

/// Every edge reached before an out-of-bounds one starts at a vertex below
/// `start + n`.
pub open spec fn sources_fit(es: Seq<(usize, usize)>, start: int, n: int) -> bool {
    forall|k: int| 0 <= k < es.len() && #[trigger] in_bounds_through(es, start, k) ==> es[k].0 < start + n
}

/// The vertices `v` with an edge from `u`, both counted from `start`.
pub open spec fn successors(es: Seq<(usize, usize)>, start: int, u: int) -> Set<usize> {
    Set::new(|v: usize| exists|k: int| 0 <= k < es.len() && es[k].0 == u + start && #[trigger] es[k].1 == v + start)
}

/// ` j` for every neighbour `j`.
pub open spec fn neighbour_text(ns: Seq<usize>) -> Seq<char> {
    ns.map_values(|j: usize| seq![' '] + decimal(j as nat)).flatten()
}

/// One vertex of dreadnaut's graph input: `i: j k;`, or `i: j k.` for the last.
pub open spec fn adjacency_line(i: int, ns: Seq<usize>, last: bool) -> Seq<char> {
    decimal(i as nat) + seq![':'] + neighbour_text(ns) + if last {
        seq!['.', '\n']
    } else {
        seq![';', '\n']
    }
}

/// The graph input for adjacency lists `lists`.
pub open spec fn adjacency_text(lists: Seq<Seq<usize>>) -> Seq<char> {
    Seq::new(lists.len(), |i: int| adjacency_line(i, lists[i], i == lists.len() - 1)).flatten()
}

/// The adjacency lists of the graph on `n` vertices that the edges give.
pub open spec fn graph_lists(es: Seq<(usize, usize)>, start: int, n: nat) -> Seq<Seq<usize>> {
    Seq::new(n, |u: int| increasing_members(successors(es, start, u)))
}

/// A dreadnaut script that reads the directed graph and prints the hash of
/// its canonical form.
pub open spec fn hash_script(n: nat, lists: Seq<Seq<usize>>) -> Seq<char> {
    "l=0\n-m\nAd\nd\nn="@ + decimal(n) + " g\n"@ + adjacency_text(lists) + "c -a\nx\nz\n"@
}

/// `s` from position `i` on, flattened, is `s[i]` then the rest.
proof fn lemma_flatten_skip<T>(s: Seq<Seq<T>>, i: int)
    requires
        0 <= i < s.len(),
    ensures
        s.skip(i).flatten() == s[i] + s.skip(i + 1).flatten(),
{
    assert(s.skip(i).drop_first() == s.skip(i + 1));
    assert(s.skip(i).first() == s[i]);
}

proof fn lemma_successors_push(es: Seq<(usize, usize)>, e: (usize, usize), start: int, u: int)
    requires
        start >= 0,
    ensures
        successors(es.push(e), start, u) == if e.0 == u + start && e.1 >= start {
            successors(es, start, u).insert((e.1 - start) as usize)
        } else {
            successors(es, start, u)
        },
{
    let t = es.push(e);
    assert forall|v: usize| successors(es, start, u).contains(v) implies successors(t, start, u).contains(v) by {
        let k = choose|k: int| 0 <= k < es.len() && es[k].0 == u + start && #[trigger] es[k].1 == v + start;
        assert(t[k] == es[k]);
    }
    assert forall|v: usize| successors(t, start, u).contains(v) implies (successors(es, start, u).contains(v) || (e.0 == u + start && e.1 == v + start)) by {
        let k = choose|k: int| 0 <= k < t.len() && t[k].0 == u + start && #[trigger] t[k].1 == v + start;
        if k < es.len() {
            assert(es[k] == t[k]);
        }
    }
    if e.0 == u + start && e.1 >= start {
        let w = (e.1 - start) as usize;
        assert(t[es.len() as int] == e);
        assert(t[es.len() as int].1 == w + start);
        assert(successors(t, start, u).contains(w));
    }
}

/// Construct a Dreadnaut script to get the canon hash for an orbit generator
pub fn orbit_graph_hash_script(
    start_idx: usize,
    combined_gen: &[Vec<Vec<usize>>],
    n_vertices: usize,
) -> (r: Result<String, String>)
    requires
        sources_fit(gens_edges(gens_view(combined_gen@)), start_idx as int, n_vertices as int),
    ensures
        ({
            let es = gens_edges(gens_view(combined_gen@));
            if exists|k: int| 0 <= k < es.len() && #[trigger] below_start(es[k], start_idx as int) {
                r is Err && r->Err_0@ == "Vertex index out of bounds"@
            } else {
                r is Ok && r->Ok_0@ == hash_script(
                    n_vertices as nat,
                    graph_lists(es, start_idx as int, n_vertices as nat),
                )
            }
        }),
{
    let ghost gv = gens_view(combined_gen@);
    let ghost es = gens_edges(gv);
    let ghost start = start_idx as int;
    let ghost m = gv.map_values(|o: Seq<Seq<usize>>| op_edges(o));
    let mut adj: Vec<BTreeSet<usize>> = Vec::new();
    let mut a: usize = 0;
    while a < n_vertices
        invariant
            a <= n_vertices,
            adj.len() == a,
            forall|u: int| 0 <= u < a ==> (#[trigger] adj@[u])@ == Set::<usize>::empty(),
        decreases n_vertices - a,
    {
        adj.push(BTreeSet::new());
        a += 1;
    }
    let ghost mut done: Seq<(usize, usize)> = Seq::empty();
    proof {
        assert(m.skip(0) == m);
        assert(done + m.skip(0).flatten() == es);
        assert forall|u: int| 0 <= u < n_vertices implies (#[trigger] adj@[u])@ == successors(done, start, u) by {
            assert(successors(done, start, u) == Set::<usize>::empty());
        }
    }
    let mut gi: usize = 0;
    while gi < combined_gen.len()
        invariant
            gi <= combined_gen.len(),
            gv == gens_view(combined_gen@),
            es == gens_edges(gv),
            m == gv.map_values(|o: Seq<Seq<usize>>| op_edges(o)),
            start == start_idx as int,
            sources_fit(es, start, n_vertices as int),
            es == done + m.skip(gi as int).flatten(),
            forall|p: int| 0 <= p < done.len() ==> !below_start(#[trigger] done[p], start),
            adj.len() == n_vertices,
            forall|u: int| 0 <= u < n_vertices ==> (#[trigger] adj@[u])@ == successors(done, start, u),
        decreases combined_gen.len() - gi,
    {
        let generator = &combined_gen[gi];
        let ghost opv = gv[gi as int];
        let ghost mi = opv.map_values(|c: Seq<usize>| cycle_edges(c));
        proof {
            lemma_flatten_skip(m, gi as int);
            assert(m[gi as int] == mi.flatten());
            assert(mi.skip(0) == mi);
            assert(opv == crate::generator::op_view(generator@));
        }
        let mut ci: usize = 0;
        while ci < generator.len()
            invariant
                gi < combined_gen.len(),
                ci <= generator.len(),
                gv == gens_view(combined_gen@),
                es == gens_edges(gv),
                opv == crate::generator::op_view(generator@),
                mi == opv.map_values(|c: Seq<usize>| cycle_edges(c)),
                start == start_idx as int,
                sources_fit(es, start, n_vertices as int),
                es == done + mi.skip(ci as int).flatten() + m.skip(gi + 1).flatten(),
                forall|p: int| 0 <= p < done.len() ==> !below_start(#[trigger] done[p], start),
                adj.len() == n_vertices,
                forall|u: int| 0 <= u < n_vertices ==> (#[trigger] adj@[u])@ == successors(done, start, u),
            decreases generator.len() - ci,
        {
            let cycle = &generator[ci];
            let ghost ce = cycle_edges(cycle@);
            proof {
                assert(opv[ci as int] == cycle@);
                lemma_flatten_skip(mi, ci as int);
                assert(mi[ci as int] == ce);
                assert(ce.skip(0) == ce);
                assert(es == done + ce.skip(0) + mi.skip(ci + 1).flatten() + m.skip(gi + 1).flatten());
            }
            let len = cycle.len();
            if len >= 2 {
                let mut k: usize = 0;
                while k < len
                    invariant
                        len == cycle.len(),
                        len >= 2,
                        k <= len,
                        ce == cycle_edges(cycle@),
                        gv == gens_view(combined_gen@),
                        es == gens_edges(gv),
                        start == start_idx as int,
                        sources_fit(es, start, n_vertices as int),
                        es == done + ce.skip(k as int) + mi.skip(ci + 1).flatten() + m.skip(gi + 1).flatten(),
                        forall|p: int| 0 <= p < done.len() ==> !below_start(#[trigger] done[p], start),
                        adj.len() == n_vertices,
                        forall|u: int| 0 <= u < n_vertices ==> (#[trigger] adj@[u])@ == successors(done, start, u),
                    decreases len - k,
                {
                    let x = cycle[k];
                    let y = cycle[(k + 1) % len];
                    let ghost e = (x, y);
                    let ghost p = done.len() as int;
                    proof {
                        assert(ce[k as int] == e);
                        assert(ce.skip(k as int) == seq![e] + ce.skip(k + 1));
                        assert(es[p] == e);
                    }
                    let (u, v) = match (x.checked_sub(start_idx), y.checked_sub(start_idx)) {
                        (Some(u), Some(v)) => (u, v),
                        (_, _) => {
                            let msg = String::from_str("Vertex index out of bounds");
                            proof {
                                assert(x < start_idx || y < start_idx);
                                assert(0 <= p < es.len());
                                assert(below_start(es[p], start_idx as int));
                                assert(msg@ == "Vertex index out of bounds"@);
                            }
                            return Err(msg);
                        },
                    };
                    proof {
                        assert(in_bounds_through(es, start, p)) by {
                            assert forall|k2: int| 0 <= k2 <= p implies !below_start(#[trigger] es[k2], start) by {
                                if k2 < p {
                                    assert(es[k2] == done[k2]);
                                }
                            }
                        }
                        assert(es[p].0 < start + n_vertices);
                    }
                    let ghost old_adj = adj@;
                    adj[u].insert(v);
                    proof {
                        assert forall|w: int| 0 <= w < n_vertices implies (#[trigger] adj@[w])@ == successors(done.push(e), start, w) by {
                            lemma_successors_push(done, e, start, w);
                            if w != u {
                                assert(adj@[w] == old_adj[w]);
                            }
                        }
                        assert(done.push(e) + ce.skip(k + 1) == done + ce.skip(k as int));
                        done = done.push(e);
                    }
                    k += 1;
                }
                proof {
                    assert(ce.skip(len as int) == Seq::<(usize, usize)>::empty());
                }
            } else {
                proof {
                    assert(ce == Seq::<(usize, usize)>::empty());
                }
            }
            proof {
                assert(es == done + mi.skip(ci + 1).flatten() + m.skip(gi + 1).flatten());
            }
            ci += 1;
        }
        proof {
            assert(mi.skip(generator.len() as int) == Seq::<Seq<(usize, usize)>>::empty());
            assert(es == done + m.skip(gi + 1).flatten());
        }
        gi += 1;
    }
    proof {
        assert(m.skip(combined_gen.len() as int) == Seq::<Seq<(usize, usize)>>::empty());
        assert(es == done);
    }
    let mut script = String::new();
    script.append("l=0\n-m\nAd\nd\nn=");
    push_decimal(&mut script, n_vertices);
    script.append(" g\n");
    let ghost lists = graph_lists(es, start, n_vertices as nat);
    let ghost lines = Seq::new(lists.len(), |i: int| adjacency_line(i, lists[i], i == lists.len() - 1));
    let ghost head = script@;
    proof {
        assert(lines.take(0) == Seq::<Seq<char>>::empty());
        assert(head + lines.take(0).flatten() == head);
    }
    let mut i: usize = 0;
    while i < n_vertices
        invariant
            i <= n_vertices,
            adj.len() == n_vertices,
            forall|u: int| 0 <= u < n_vertices ==> (#[trigger] adj@[u])@ == successors(es, start, u),
            lists == graph_lists(es, start, n_vertices as nat),
            lines == Seq::new(lists.len(), |i: int| adjacency_line(i, lists[i], i == lists.len() - 1)),
            script@ == head + lines.take(i as int).flatten(),
        decreases n_vertices - i,
    {
        let ghost before = script@;
        push_decimal(&mut script, i);
        script.append(":");
        let members = sorted_members(&adj[i]);
        proof {
            lemma_sorted_unique(members@, increasing_members(successors(es, start, i as int)));
            assert(lists[i as int] == members@);
        }
        let ghost mid = script@;
        let ghost words = members@.map_values(|j: usize| seq![' '] + decimal(j as nat));
        proof {
            assert(words.take(0) == Seq::<Seq<char>>::empty());
            assert(mid + words.take(0).flatten() == mid);
        }
        let mut q: usize = 0;
        while q < members.len()
            invariant
                q <= members.len(),
                words == members@.map_values(|j: usize| seq![' '] + decimal(j as nat)),
                script@ == mid + words.take(q as int).flatten(),
            decreases members.len() - q,
        {
            script.append(" ");
            push_decimal(&mut script, members[q]);
            proof {
                reveal_strlit(" ");
                assert(words.take(q + 1) == words.take(q as int).push(words[q as int]));
                words.take(q as int).lemma_flatten_push(words[q as int]);
            }
            q += 1;
        }
        proof {
            assert(words.take(members.len() as int) == words);
        }
        if i == n_vertices - 1 {
            script.append(".\n");
            proof {
                reveal_strlit(".\n");
            }
        } else {
            script.append(";\n");
            proof {
                reveal_strlit(";\n");
            }
        }
        proof {
            reveal_strlit(":");
            assert(script@ == before + lines[i as int]);
            assert(lines.take(i + 1) == lines.take(i as int).push(lines[i as int]));
            lines.take(i as int).lemma_flatten_push(lines[i as int]);
        }
        i += 1;
    }
    script.append("c -a\nx\nz\n");
    proof {
        assert(lines.take(n_vertices as int) == lines);
    }
    Ok(script)
}

} // verus!
