//! Permutation generators: a list of operations, each a list of disjoint
//! cycles, each cycle a list of vertex labels.

use vstd::prelude::*;
use vstd::string::StringExecFns;
use crate::text::{
    chars_of, decimal, join, lemma_join_take_step, parse_usize, parsed_usize, push_decimal, seqs_of,
    split, split_vec, strip_parens, strip_whitespace, sub_vec, without_parens, without_whitespace,
};
use std::collections::HashMap;
use std::collections::HashSet;

verus! {

broadcast use vstd::std_specs::hash::group_hash_axioms;

/// The cycles of an operation, as sequences.
pub open spec fn op_view(op: Seq<Vec<usize>>) -> Seq<Seq<usize>> {
    op.map_values(|c: Vec<usize>| c@)
}

/// The operations of a generator list, as nested sequences.
pub open spec fn gens_view(g: Seq<Vec<Vec<usize>>>) -> Seq<Seq<Seq<usize>>> {
    g.map_values(|op: Vec<Vec<usize>>| op_view(op@))
}

/// Every vertex occurrence of an operation, cycle after cycle.
pub open spec fn op_vertices(op: Seq<Seq<usize>>) -> Seq<usize> {
    op.flatten()
}

/// Every vertex occurrence of a generator list, operation after operation.
pub open spec fn vertices(g: Seq<Seq<Seq<usize>>>) -> Seq<usize> {
    g.map_values(|op: Seq<Seq<usize>>| op_vertices(op)).flatten()
}

/// `known` extended by the elements of `s` that it does not hold yet, each
/// at its first occurrence.
pub open spec fn add_new(known: Seq<usize>, s: Seq<usize>) -> Seq<usize>
    decreases s.len(),
{
    if s.len() == 0 {
        known
    } else {
        let k = add_new(known, s.drop_last());
        if k.contains(s.last()) {
            k
        } else {
            k.push(s.last())
        }
    }
}

/// The distinct elements of `s` in order of first appearance.
pub open spec fn first_appearances(s: Seq<usize>) -> Seq<usize> {
    add_new(Seq::empty(), s)
}

/// The distinct vertex labels of a generator list, in order of appearance.
pub open spec fn labels_of(g: Seq<Seq<Seq<usize>>>) -> Seq<usize> {
    first_appearances(vertices(g))
}

pub proof fn lemma_vertices_push(g: Seq<Seq<Seq<usize>>>, op: Seq<Seq<usize>>)
    ensures
        vertices(g.push(op)) == vertices(g) + op.flatten(),
{
    let f = |o: Seq<Seq<usize>>| op_vertices(o);
    assert(g.push(op).map_values(f) == g.map_values(f).push(op.flatten()));
    g.map_values(f).lemma_flatten_push(op.flatten());
}

/// The labels of `s`, in order of first appearance, hold no duplicate and
/// are exactly the elements of `s`.
pub proof fn lemma_first_appearances(s: Seq<usize>)
    ensures
        first_appearances(s).no_duplicates(),
        first_appearances(s).to_set() == s.to_set(),
    decreases s.len(),
{
    if s.len() > 0 {
        lemma_first_appearances(s.drop_last());
        assert(s == s.drop_last().push(s.last()));
        let k = first_appearances(s.drop_last());
        assert(s.to_set() == s.drop_last().to_set().insert(s.last())) by {
            s.drop_last().lemma_push_to_set_commute(s.last());
        }
        if !k.contains(s.last()) {
            k.lemma_push_to_set_commute(s.last());
        } else {
            assert(k.to_set().contains(s.last()));
            assert(k.to_set().insert(s.last()) == k.to_set());
        }
    } else {
        assert(s.to_set() == Set::<usize>::empty());
        assert(Seq::<usize>::empty().to_set() == Set::<usize>::empty());
    }
}

/// Whether `d` is `c` with every vertex `v` replaced by `start` plus the
/// position of `v` in `labels`.
pub open spec fn relabeled_cycle(c: Seq<usize>, d: Seq<usize>, labels: Seq<usize>, start: int) -> bool {
    &&& d.len() == c.len()
    &&& forall|k: int|
        0 <= k < c.len() ==> {
            &&& start <= #[trigger] d[k] < start + labels.len()
            &&& labels[d[k] - start] == c[k]
        }
}

/// [`relabeled_cycle`] for every cycle of an operation.
pub open spec fn relabeled_op(
    o: Seq<Seq<usize>>,
    p: Seq<Seq<usize>>,
    labels: Seq<usize>,
    start: int,
) -> bool {
    &&& p.len() == o.len()
    &&& forall|j: int| 0 <= j < o.len() ==> relabeled_cycle(o[j], #[trigger] p[j], labels, start)
}

/// [`relabeled_op`] for every operation of a generator list.
pub open spec fn relabeled(
    g: Seq<Seq<Seq<usize>>>,
    h: Seq<Seq<Seq<usize>>>,
    labels: Seq<usize>,
    start: int,
) -> bool {
    &&& h.len() == g.len()
    &&& forall|i: int| 0 <= i < g.len() ==> relabeled_op(g[i], #[trigger] h[i], labels, start)
}

/// An element of one of the inner sequences is an element of the flattening.
pub proof fn lemma_flatten_contains(s: Seq<Seq<usize>>, i: int, k: int)
    requires
        0 <= i < s.len(),
        0 <= k < s[i].len(),
    ensures
        s.flatten().contains(s[i][k]),
    decreases s.len(),
{
    if i == 0 {
        assert(s.flatten() == s[0] + s.drop_first().flatten());
        assert(s.flatten()[k] == s[0][k]);
    } else {
        lemma_flatten_contains(s.drop_first(), i - 1, k);
        let t = s.drop_first().flatten();
        let w = choose|w: int| 0 <= w < t.len() && t[w] == s[i][k];
        assert(s.flatten() == s[0] + t);
        assert(s.flatten()[s[0].len() + w] == s[i][k]);
    }
}

/// Every vertex of a generator list occurs in [`vertices`].
pub proof fn lemma_vertex_in_vertices(g: Seq<Seq<Seq<usize>>>, i: int, j: int, k: int)
    requires
        0 <= i < g.len(),
        0 <= j < g[i].len(),
        0 <= k < g[i][j].len(),
    ensures
        vertices(g).contains(g[i][j][k]),
{
    lemma_flatten_contains(g[i], j, k);
    let f = |o: Seq<Seq<usize>>| op_vertices(o);
    let fl = g[i].flatten();
    let w = choose|w: int| 0 <= w < fl.len() && fl[w] == g[i][j][k];
    assert(g.map_values(f)[i] == fl);
    lemma_flatten_contains(g.map_values(f), i, w);
}

/// Every element of a flattening comes from one of the inner sequences.
pub proof fn lemma_flatten_member<T>(s: Seq<Seq<T>>, y: T)
    requires
        s.flatten().contains(y),
    ensures
        exists|i: int, k: int| 0 <= i < s.len() && 0 <= k < s[i].len() && #[trigger] s[i][k] == y,
    decreases s.len(),
{
    if s.len() > 0 {
        let t = s.drop_first().flatten();
        assert(s.flatten() == s[0] + t);
        let w = choose|w: int| 0 <= w < s.flatten().len() && s.flatten()[w] == y;
        if w < s[0].len() {
            assert(s[0][w] == y);
        } else {
            assert(t[w - s[0].len()] == y);
            lemma_flatten_member(s.drop_first(), y);
            let (i, k) = choose|i: int, k: int|
                0 <= i < s.drop_first().len() && 0 <= k < s.drop_first()[i].len() && #[trigger] s.drop_first()[i][k] == y;
            assert(s[i + 1][k] == y);
        }
    }
}

/// Every vertex occurrence comes from some operation and cycle.
pub proof fn lemma_vertices_member(g: Seq<Seq<Seq<usize>>>, y: usize)
    requires
        vertices(g).contains(y),
    ensures
        exists|i: int, j: int, k: int|
            0 <= i < g.len() && 0 <= j < g[i].len() && 0 <= k < g[i][j].len() && #[trigger] g[i][j][k] == y,
{
    let f = |o: Seq<Seq<usize>>| op_vertices(o);
    lemma_flatten_member(g.map_values(f), y);
    let (i, w) = choose|i: int, w: int|
        0 <= i < g.map_values(f).len() && 0 <= w < g.map_values(f)[i].len() && #[trigger] g.map_values(f)[i][w] == y;
    assert(g.map_values(f)[i] == g[i].flatten());
    assert(g[i].flatten().contains(y));
    lemma_flatten_member(g[i], y);
    let (j, k) = choose|j: int, k: int| 0 <= j < g[i].len() && 0 <= k < g[i][j].len() && #[trigger] g[i][j][k] == y;
    assert(g[i][j][k] == y);
}

/// A relabelling by position among the distinct labels uses exactly the
/// numbers `start..start + labels.len()`.
pub proof fn lemma_renumbered_vertices(
    g: Seq<Seq<Seq<usize>>>,
    h: Seq<Seq<Seq<usize>>>,
    labels: Seq<usize>,
    start: int,
)
    requires
        labels == labels_of(g),
        relabeled(g, h, labels, start),
    ensures
        vertices(h).to_set() == Set::new(|x: usize| start <= x < start + labels.len()),
{
    lemma_first_appearances(vertices(g));
    assert forall|x: usize| vertices(h).to_set().contains(x) implies start <= x < start + labels.len() by {
        lemma_vertices_member(h, x);
        let (i, j, k) = choose|i: int, j: int, k: int|
            0 <= i < h.len() && 0 <= j < h[i].len() && 0 <= k < h[i][j].len() && #[trigger] h[i][j][k] == x;
        assert(relabeled_op(g[i], h[i], labels, start));
        assert(relabeled_cycle(g[i][j], h[i][j], labels, start));
    }
    assert forall|x: usize| start <= x < start + labels.len() implies vertices(h).to_set().contains(x) by {
        let y = labels[x - start];
        assert(labels.to_set().contains(y));
        assert(vertices(g).to_set().contains(y));
        lemma_vertices_member(g, y);
        let (i, j, k) = choose|i: int, j: int, k: int|
            0 <= i < g.len() && 0 <= j < g[i].len() && 0 <= k < g[i][j].len() && #[trigger] g[i][j][k] == y;
        assert(relabeled_op(g[i], h[i], labels, start));
        assert(relabeled_cycle(g[i][j], h[i][j], labels, start));
        let z = h[i][j][k];
        assert(labels[z - start] == y);
        assert(z - start == x - start);
        lemma_vertex_in_vertices(h, i, j, k);
    }
    assert(vertices(h).to_set() == Set::new(|x: usize| start <= x < start + labels.len()));
}

/// The distinct vertex labels, in order of appearance.
fn unique_vertices(g: &Vec<Vec<Vec<usize>>>) -> (labels: Vec<usize>)
    ensures
        labels@ == labels_of(gens_view(g@)),
{
    let ghost gv = gens_view(g@);
    let mut seen: HashSet<usize> = HashSet::new();
    let mut labels: Vec<usize> = Vec::new();
    let ghost mut done: Seq<usize> = Seq::empty();
    let mut i: usize = 0;
    while i < g.len()
        invariant
            i <= g.len(),
            gv == gens_view(g@),
            done == vertices(gv.take(i as int)),
            labels@ == first_appearances(done),
            seen@ == labels@.to_set(),
        decreases g.len() - i,
    {
        let op = &g[i];
        let ghost opv = gv[i as int];
        assert(opv == op_view(op@));
        let mut j: usize = 0;
        let ghost base = done;
        assert(opv.take(0).flatten() == Seq::<usize>::empty());
        assert(base + Seq::<usize>::empty() == base);
        while j < op.len()
            invariant
                i < g.len(),
                j <= op.len(),
                opv == op_view(op@),
                done == base + opv.take(j as int).flatten(),
                labels@ == first_appearances(done),
                seen@ == labels@.to_set(),
            decreases op.len() - j,
        {
            let cycle = &op[j];
            let ghost mid = done;
            let mut k: usize = 0;
            assert(mid + cycle@.take(0) == mid);
            while k < cycle.len()
                invariant
                    k <= cycle.len(),
                    done == mid + cycle@.take(k as int),
                    labels@ == first_appearances(done),
                    seen@ == labels@.to_set(),
                decreases cycle.len() - k,
            {
                let v = cycle[k];
                proof {
                    assert(cycle@.take(k + 1) == cycle@.take(k as int).push(v));
                    assert(mid + cycle@.take(k + 1) == done.push(v));
                    labels@.lemma_push_to_set_commute(v);
                    assert(done.push(v).drop_last() == done);
                }
                let ghost before = labels@;
                if seen.insert(v) {
                    labels.push(v);
                } else {
                    assert(before.to_set().contains(v));
                    assert(before.contains(v));
                }
                proof {
                    done = done.push(v);
                }
                k += 1;
            }
            proof {
                assert(cycle@.take(cycle.len() as int) == cycle@);
                assert(opv[j as int] == cycle@);
                assert(opv.take(j + 1) == opv.take(j as int).push(cycle@));
                opv.take(j as int).lemma_flatten_push(cycle@);
            }
            j += 1;
        }
        proof {
            assert(opv.take(op.len() as int) == opv);
            assert(gv.take(i + 1) == gv.take(i as int).push(opv));
            lemma_vertices_push(gv.take(i as int), opv);
        }
        i += 1;
    }
    assert(gv.take(g.len() as int) == gv);
    labels
}

/// `g` with every vertex replaced by `start_idx` plus its position among the
/// distinct labels in order of appearance, and the number of those labels.
fn renumber_gens(g: &Vec<Vec<Vec<usize>>>, start_idx: usize) -> (r: (Vec<Vec<Vec<usize>>>, usize))
    requires
        start_idx + labels_of(gens_view(g@)).len() <= usize::MAX + 1,
    ensures
        r.1 == labels_of(gens_view(g@)).len(),
        relabeled(gens_view(g@), gens_view(r.0@), labels_of(gens_view(g@)), start_idx as int),
{
    let ghost gv = gens_view(g@);
    let labels = unique_vertices(g);
    proof {
        lemma_first_appearances(vertices(gv));
    }
    let mut index: HashMap<usize, usize> = HashMap::new();
    let mut n: usize = 0;
    while n < labels.len()
        invariant
            n <= labels.len(),
            labels@ == labels_of(gv),
            labels@.no_duplicates(),
            start_idx + labels@.len() <= usize::MAX + 1,
            forall|x: usize| #[trigger]
                index@.contains_key(x) <==> labels@.take(n as int).contains(x),
            forall|x: usize| #[trigger]
                index@.contains_key(x) ==> start_idx <= index@[x] < start_idx + n && labels@[index@[x]
                    - start_idx] == x,
        decreases labels.len() - n,
    {
        assert(labels@.take(n + 1) == labels@.take(n as int).push(labels@[n as int]));
        index.insert(labels[n], n + start_idx);
        assert forall|x: usize| #[trigger]
            index@.contains_key(x) <==> labels@.take(n + 1).contains(x) by {
            if x == labels@[n as int] {
                assert(labels@.take(n + 1)[n as int] == x);
            }
            if labels@.take(n + 1).contains(x) && x != labels@[n as int] {
                let w = choose|w: int| 0 <= w < n + 1 && #[trigger] labels@.take(n + 1)[w] == x;
                assert(labels@.take(n as int)[w] == x);
            }
        }
        n += 1;
    }
    assert(labels@.take(labels.len() as int) == labels@);
    let mut h: Vec<Vec<Vec<usize>>> = Vec::new();
    let mut i: usize = 0;
    while i < g.len()
        invariant
            i <= g.len(),
            gv == gens_view(g@),
            labels@ == labels_of(gv),
            labels@.to_set() == vertices(gv).to_set(),
            forall|x: usize| #[trigger] index@.contains_key(x) <==> labels@.contains(x),
            forall|x: usize| #[trigger]
                index@.contains_key(x) ==> start_idx <= index@[x] < start_idx + labels@.len()
                    && labels@[index@[x] - start_idx] == x,
            h.len() == i,
            forall|i2: int| 0 <= i2 < i ==> relabeled_op(gv[i2], #[trigger] gens_view(h@)[i2], labels@, start_idx as int),
        decreases g.len() - i,
    {
        let op = &g[i];
        let mut new_op: Vec<Vec<usize>> = Vec::new();
        let mut j: usize = 0;
        while j < op.len()
            invariant
                i < g.len(),
                j <= op.len(),
                gv == gens_view(g@),
                op_view(op@) == gv[i as int],
                labels@.to_set() == vertices(gv).to_set(),
                forall|x: usize| #[trigger] index@.contains_key(x) <==> labels@.contains(x),
                forall|x: usize| #[trigger]
                    index@.contains_key(x) ==> start_idx <= index@[x] < start_idx + labels@.len()
                        && labels@[index@[x] - start_idx] == x,
                new_op.len() == j,
                forall|j2: int| 0 <= j2 < j ==> relabeled_cycle(gv[i as int][j2], #[trigger] op_view(new_op@)[j2], labels@, start_idx as int),
            decreases op.len() - j,
        {
            let cycle = &op[j];
            assert(cycle@ == gv[i as int][j as int]);
            let mut new_cycle: Vec<usize> = Vec::new();
            let mut k: usize = 0;
            while k < cycle.len()
                invariant
                    i < g.len(),
                    j < op.len(),
                    k <= cycle.len(),
                    gv == gens_view(g@),
                    op_view(op@) == gv[i as int],
                    cycle@ == gv[i as int][j as int],
                    labels@.to_set() == vertices(gv).to_set(),
                    forall|x: usize| #[trigger] index@.contains_key(x) <==> labels@.contains(x),
                    forall|x: usize| #[trigger]
                        index@.contains_key(x) ==> start_idx <= index@[x] < start_idx
                            + labels@.len() && labels@[index@[x] - start_idx] == x,
                    new_cycle.len() == k,
                    forall|k2: int| 0 <= k2 < k ==> {
                        &&& start_idx <= #[trigger] new_cycle@[k2] < start_idx + labels@.len()
                        &&& labels@[new_cycle@[k2] - start_idx] == cycle@[k2]
                    },
                decreases cycle.len() - k,
            {
                let v = cycle[k];
                proof {
                    lemma_vertex_in_vertices(gv, i as int, j as int, k as int);
                    assert(vertices(gv).to_set().contains(v));
                    assert(labels@.to_set().contains(v));
                }
                let w = match index.get(&v) {
                    Some(w) => *w,
                    None => {
                        assert(false);
                        0
                    },
                };
                new_cycle.push(w);
                k += 1;
            }
            let ghost before = new_op@;
            new_op.push(new_cycle);
            proof {
                assert(new_op@ == before.push(new_cycle));
                assert(op_view(new_op@) == op_view(before).push(new_cycle@));
            }
            j += 1;
        }
        let ghost before = h@;
        h.push(new_op);
        proof {
            assert(h@ == before.push(new_op));
            assert(gens_view(h@) == gens_view(before).push(op_view(new_op@)));
        }
        i += 1;
    }
    (h, labels.len())
}

/// Whether every vertex plus `offset` fits in a `usize`.
pub open spec fn fits_offset(g: Seq<Seq<Seq<usize>>>, offset: int) -> bool {
    forall|i: int, j: int, k: int|
        0 <= i < g.len() && 0 <= j < g[i].len() && 0 <= k < g[i][j].len() ==> #[trigger] g[i][j][k]
            + offset <= usize::MAX
}

/// A cycle in GAP notation, without parentheses: `1,2,5`.
pub open spec fn cycle_text(offset: int, c: Seq<usize>) -> Seq<char> {
    join(c.map_values(|v: usize| decimal((v + offset) as nat)), seq![','])
}

/// An operation in GAP notation, without its outer parentheses: `1,2,5)(3,4`.
pub open spec fn op_text(offset: int, op: Seq<Seq<usize>>) -> Seq<char> {
    join(op.map_values(|c: Seq<usize>| cycle_text(offset, c)), seq![')', '('])
}

/// A generator list in GAP notation, every vertex shifted by `offset`:
/// `[]` when empty, else `[(1,2,5)(3,4),(5,6)]`.
pub open spec fn gap_text(offset: int, g: Seq<Seq<Seq<usize>>>) -> Seq<char> {
    if g.len() == 0 {
        seq!['[', ']']
    } else {
        seq!['[', '('] + join(g.map_values(|o: Seq<Seq<usize>>| op_text(offset, o)), seq![')', ',', '('])
            + seq![')', ']']
    }
}

fn push_cycle_text(out: &mut String, offset: usize, c: &Vec<usize>)
    requires
        forall|k: int| 0 <= k < c.len() ==> #[trigger] c@[k] + offset <= usize::MAX,
    ensures
        final(out)@ == old(out)@ + cycle_text(offset as int, c@),
{
    let ghost base = out@;
    let ghost parts = c@.map_values(|v: usize| decimal((v + offset) as nat));
    let sep = ",";
    proof {
        reveal_strlit(",");
        assert(parts.take(0) == Seq::<Seq<char>>::empty());
        assert(base + join(parts.take(0), seq![',']) == base);
    }
    let mut k: usize = 0;
    while k < c.len()
        invariant
            k <= c.len(),
            sep@ == seq![','],
            parts == c@.map_values(|v: usize| decimal((v + offset) as nat)),
            forall|k2: int| 0 <= k2 < c.len() ==> #[trigger] c@[k2] + offset <= usize::MAX,
            out@ == base + join(parts.take(k as int), seq![',']),
        decreases c.len() - k,
    {
        proof {
            lemma_join_take_step(parts, seq![','], k as int);
        }
        if k > 0 {
            out.append(sep);
        }
        push_decimal(out, c[k] + offset);
        assert(parts[k as int] == decimal((c@[k as int] + offset) as nat));
        k += 1;
    }
    assert(parts.take(c.len() as int) == parts);
}

fn push_op_text(out: &mut String, offset: usize, op: &Vec<Vec<usize>>)
    requires
        forall|j: int, k: int|
            0 <= j < op.len() && 0 <= k < op@[j].len() ==> #[trigger] op@[j]@[k] + offset
                <= usize::MAX,
    ensures
        final(out)@ == old(out)@ + op_text(offset as int, op_view(op@)),
{
    let ghost base = out@;
    let ghost ov = op_view(op@);
    let ghost parts = ov.map_values(|c: Seq<usize>| cycle_text(offset as int, c));
    let sep = ")(";
    proof {
        reveal_strlit(")(");
        assert(parts.take(0) == Seq::<Seq<char>>::empty());
        assert(base + join(parts.take(0), seq![')', '(']) == base);
    }
    let mut j: usize = 0;
    while j < op.len()
        invariant
            j <= op.len(),
            sep@ == seq![')', '('],
            ov == op_view(op@),
            parts == ov.map_values(|c: Seq<usize>| cycle_text(offset as int, c)),
            forall|j2: int, k: int|
                0 <= j2 < op.len() && 0 <= k < op@[j2].len() ==> #[trigger] op@[j2]@[k] + offset
                    <= usize::MAX,
            out@ == base + join(parts.take(j as int), seq![')', '(']),
        decreases op.len() - j,
    {
        proof {
            lemma_join_take_step(parts, seq![')', '('], j as int);
        }
        if j > 0 {
            out.append(sep);
        }
        let c = &op[j];
        assert forall|k: int| 0 <= k < c.len() implies #[trigger] c@[k] + offset <= usize::MAX by {
            assert(op@[j as int]@[k] == c@[k]);
        }
        push_cycle_text(out, offset, c);
        assert(parts[j as int] == cycle_text(offset as int, c@));
        j += 1;
    }
    assert(parts.take(op.len() as int) == parts);
}

/// Writes a generator list in GAP notation with every vertex shifted by
/// `offset`: `[]` for no operations, else `[(1,2,5)(3,4),(5,6)]`.
pub fn generator_to_gap_string(offset: usize, generator: &[Vec<Vec<usize>>]) -> (s: String)
    requires
        fits_offset(gens_view(generator@), offset as int),
    ensures
        s@ == gap_text(offset as int, gens_view(generator@)),
{
    let ghost gv = gens_view(generator@);
    let mut out = String::new();
    if generator.len() == 0 {
        out.append("[]");
        proof {
            reveal_strlit("[]");
        }
        return out;
    }
    out.append("[(");
    proof {
        reveal_strlit("[(");
    }
    let ghost base = out@;
    let ghost parts = gv.map_values(|o: Seq<Seq<usize>>| op_text(offset as int, o));
    let sep = "),(";
    proof {
        reveal_strlit("),(");
        assert(parts.take(0) == Seq::<Seq<char>>::empty());
        assert(base + join(parts.take(0), seq![')', ',', '(']) == base);
    }
    let mut i: usize = 0;
    while i < generator.len()
        invariant
            i <= generator.len(),
            sep@ == seq![')', ',', '('],
            gv == gens_view(generator@),
            parts == gv.map_values(|o: Seq<Seq<usize>>| op_text(offset as int, o)),
            fits_offset(gv, offset as int),
            out@ == base + join(parts.take(i as int), seq![')', ',', '(']),
        decreases generator.len() - i,
    {
        proof {
            lemma_join_take_step(parts, seq![')', ',', '('], i as int);
        }
        if i > 0 {
            out.append(sep);
        }
        let op = &generator[i];
        assert forall|j: int, k: int|
            0 <= j < op.len() && 0 <= k < op@[j].len() implies #[trigger] op@[j]@[k] + offset
                <= usize::MAX by {
            assert(gv[i as int][j][k] == op@[j]@[k]);
        }
        push_op_text(&mut out, offset, op);
        assert(parts[i as int] == op_text(offset as int, op_view(op@)));
        i += 1;
    }
    assert(parts.take(generator.len() as int) == parts);
    out.append(")]");
    proof {
        reveal_strlit(")]");
    }
    out
}

/// `Some` of the values when every element of `s` is `Some`, else `None`.
pub open spec fn all_some<T>(s: Seq<Option<T>>) -> Option<Seq<T>>
    decreases s.len(),
{
    if s.len() == 0 {
        Some(Seq::empty())
    } else {
        match (all_some(s.drop_last()), s.last()) {
            (Some(vs), Some(v)) => Some(vs.push(v)),
            _ => None,
        }
    }
}

pub proof fn lemma_all_some_step<T>(s: Seq<Option<T>>, i: int)
    requires
        0 <= i < s.len(),
    ensures
        all_some(s.take(i + 1)) == match (all_some(s.take(i)), s[i]) {
            (Some(vs), Some(v)) => Some(vs.push(v)),
            _ => None,
        },
{
    assert(s.take(i + 1).drop_last() == s.take(i));
}

pub proof fn lemma_all_some_none<T>(s: Seq<Option<T>>, i: int)
    requires
        0 <= i < s.len(),
        s[i] is None,
    ensures
        all_some(s) is None,
    decreases s.len(),
{
    if i < s.len() - 1 {
        lemma_all_some_none(s.drop_last(), i);
    }
}

/// The non-empty pieces, in order.
pub open spec fn nonempty_pieces(p: Seq<Seq<char>>) -> Seq<Seq<char>> {
    p.filter(|x: Seq<char>| x.len() > 0)
}

/// The vertices of one cycle: the text without parentheses, cut at commas,
/// each non-empty piece read as a `usize`.
pub open spec fn parse_cycle_text(t: Seq<char>) -> Option<Seq<usize>> {
    all_some(
        nonempty_pieces(split(strip_parens(t), seq![','])).map_values(|p: Seq<char>| parsed_usize(p)),
    )
}

/// The cycles of one operation: the text cut at `)(`.
pub open spec fn parse_op_text(t: Seq<char>) -> Option<Seq<Seq<usize>>> {
    all_some(split(t, seq![')', '(']).map_values(|c: Seq<char>| parse_cycle_text(c)))
}

/// What GAP notation such as `[(1,2)(3,4),(5,6)]` denotes, whitespace ignored:
/// the text must be enclosed in brackets; `[]` is the empty list; otherwise
/// the operations are cut at `),(`. Any other shape, or a vertex that is not
/// a `usize` numeral, is refused.
pub open spec fn parse_gap(s: Seq<char>) -> Option<Seq<Seq<Seq<usize>>>> {
    let t = strip_whitespace(s);
    if t.len() < 2 || t[0] != '[' || t.last() != ']' {
        None
    } else {
        let inner = t.subrange(1, t.len() - 1);
        if inner.len() == 0 {
            Some(Seq::empty())
        } else {
            all_some(split(inner, seq![')', ',', '(']).map_values(|p: Seq<char>| parse_op_text(p)))
        }
    }
}

fn parse_cycle(text: &Vec<char>) -> (r: Option<Vec<usize>>)
    ensures
        r is Some ==> parse_cycle_text(text@) == Some(r->0@),
        r is None ==> parse_cycle_text(text@) is None,
{
    let cleaned = without_parens(text);
    let comma = vec![','];
    if cleaned.len() == 0 {
        proof {
            assert(cleaned@ == Seq::<char>::empty());
            assert(split(cleaned@, seq![',']) == seq![cleaned@]);
            reveal_with_fuel(Seq::filter, 2);
            assert(nonempty_pieces(seq![cleaned@]) == Seq::<Seq<char>>::empty());
            assert(nonempty_pieces(seq![cleaned@]).map_values(|p: Seq<char>| parsed_usize(p))
                == Seq::<Option<usize>>::empty());
        }
        return Some(Vec::new());
    }
    let pieces = split_vec(&cleaned, &comma);
    let ghost ps = seqs_of(pieces@);
    let ghost whole = nonempty_pieces(ps).map_values(|p: Seq<char>| parsed_usize(p));
    assert(comma@ == seq![',']);
    let mut values: Vec<usize> = Vec::new();
    let mut i: usize = 0;
    while i < pieces.len()
        invariant
            i <= pieces.len(),
            ps == seqs_of(pieces@),
            ps == split(strip_parens(text@), seq![',']),
            whole == nonempty_pieces(ps).map_values(|p: Seq<char>| parsed_usize(p)),
            all_some(nonempty_pieces(ps.take(i as int)).map_values(|p: Seq<char>| parsed_usize(p)))
                == Some(values@),
        decreases pieces.len() - i,
    {
        let piece = &pieces[i];
        let ghost pre = nonempty_pieces(ps.take(i as int));
        proof {
            assert(ps[i as int] == piece@);
            assert(ps.take(i + 1) == ps.take(i as int).push(piece@));
            ps.take(i as int).lemma_filter_push(piece@, |x: Seq<char>| x.len() > 0);
        }
        if piece.len() > 0 {
            let ghost cur = nonempty_pieces(ps.take(i + 1));
            assert(cur == pre.push(piece@));
            let ghost mapped = cur.map_values(|p: Seq<char>| parsed_usize(p));
            assert(mapped.drop_last() == pre.map_values(|p: Seq<char>| parsed_usize(p)));
            match parse_usize(piece) {
                Some(v) => {
                    values.push(v);
                },
                None => {
                    proof {
                        assert(ps == ps.take(i + 1) + ps.skip(i + 1));
                        Seq::filter_distributes_over_add(
                            ps.take(i + 1),
                            ps.skip(i + 1),
                            |x: Seq<char>| x.len() > 0,
                        );
                        assert(nonempty_pieces(ps) == cur + nonempty_pieces(ps.skip(i + 1)));
                        assert(whole[pre.len() as int] == parsed_usize(piece@));
                        lemma_all_some_none(whole, pre.len() as int);
                    }
                    return None;
                },
            }
        } else {
            assert(nonempty_pieces(ps.take(i + 1)) == pre);
        }
        i += 1;
    }
    assert(ps.take(pieces.len() as int) == ps);
    Some(values)
}

fn parse_op(text: &Vec<char>) -> (r: Option<Vec<Vec<usize>>>)
    ensures
        r is Some ==> parse_op_text(text@) == Some(op_view(r->0@)),
        r is None ==> parse_op_text(text@) is None,
{
    let sep = vec![')', '('];
    let pieces = split_vec(text, &sep);
    let ghost ps = seqs_of(pieces@);
    let ghost whole = ps.map_values(|c: Seq<char>| parse_cycle_text(c));
    assert(sep@ == seq![')', '(']);
    let mut cycles: Vec<Vec<usize>> = Vec::new();
    let mut i: usize = 0;
    assert(whole.take(0) == Seq::<Option<Seq<usize>>>::empty());
    while i < pieces.len()
        invariant
            i <= pieces.len(),
            ps == seqs_of(pieces@),
            ps == split(text@, seq![')', '(']),
            whole == ps.map_values(|c: Seq<char>| parse_cycle_text(c)),
            all_some(whole.take(i as int)) == Some(op_view(cycles@)),
        decreases pieces.len() - i,
    {
        proof {
            lemma_all_some_step(whole, i as int);
        }
        assert(whole[i as int] == parse_cycle_text(pieces@[i as int]@));
        match parse_cycle(&pieces[i]) {
            Some(c) => {
                let ghost before = cycles@;
                cycles.push(c);
                assert(cycles@ == before.push(c));
                assert(op_view(cycles@) == op_view(before).push(c@));
            },
            None => {
                proof {
                    lemma_all_some_none(whole, i as int);
                }
                return None;
            },
        }
        i += 1;
    }
    assert(whole.take(pieces.len() as int) == whole);
    Some(cycles)
}

/// Parses GAP generator notation like `[(1,2)(3,4),(5,6)]`
/// Each operation is a list of cycles, each cycle is a list of element indices
pub fn parse_gap_string(generator_string: &str) -> (r: Option<Vec<Vec<Vec<usize>>>>)
    ensures
        r is Some ==> parse_gap(generator_string@) == Some(gens_view(r->0@)),
        r is None ==> parse_gap(generator_string@) is None,
{
    let raw = chars_of(generator_string);
    let s = without_whitespace(&raw);
    let n = s.len();
    if n < 2 || s[0] != '[' || s[n - 1] != ']' {
        return None;
    }
    let inner = sub_vec(&s, 1, n - 1);
    if inner.len() == 0 {
        let empty: Vec<Vec<Vec<usize>>> = Vec::new();
        assert(gens_view(empty@) == Seq::<Seq<Seq<usize>>>::empty());
        return Some(empty);
    }
    let sep = vec![')', ',', '('];
    let parts = split_vec(&inner, &sep);
    let ghost ps = seqs_of(parts@);
    let ghost whole = ps.map_values(|p: Seq<char>| parse_op_text(p));
    assert(sep@ == seq![')', ',', '(']);
    let mut operations: Vec<Vec<Vec<usize>>> = Vec::new();
    let mut i: usize = 0;
    assert(whole.take(0) == Seq::<Option<Seq<Seq<usize>>>>::empty());
    assert(parse_gap(generator_string@) == all_some(whole));
    while i < parts.len()
        invariant
            i <= parts.len(),
            parse_gap(generator_string@) == all_some(whole),
            ps == seqs_of(parts@),
            ps == split(inner@, seq![')', ',', '(']),
            whole == ps.map_values(|p: Seq<char>| parse_op_text(p)),
            all_some(whole.take(i as int)) == Some(gens_view(operations@)),
        decreases parts.len() - i,
    {
        proof {
            lemma_all_some_step(whole, i as int);
        }
        assert(whole[i as int] == parse_op_text(parts@[i as int]@));
        match parse_op(&parts[i]) {
            Some(op) => {
                let ghost before = operations@;
                operations.push(op);
                assert(operations@ == before.push(op));
                assert(gens_view(operations@) == gens_view(before).push(op_view(op@)));
            },
            None => {
                proof {
                    lemma_all_some_none(whole, i as int);
                }
                return None;
            },
        }
        i += 1;
    }
    assert(whole.take(parts.len() as int) == whole);
    Some(operations)
}

/// Operations on a list of permutation generators.
pub trait Generator: Sized {
    /// The distinct vertex labels in order of appearance.
    spec fn vertex_labels(&self) -> Seq<usize>;

    /// The generator list written in GAP notation.
    spec fn gap_notation(&self) -> Seq<char>;

    /// Renumber the generator such that it's n-indexed with no missing labels.
    /// Returns the renumbered generator and the number of vertices
    fn renumber(&self, start_idx: usize) -> (r: (Self, usize))
        requires
            start_idx + self.vertex_labels().len() <= usize::MAX + 1,
        ensures
            r.1 == self.vertex_labels().len(),
    ;

    /// Get generator's unique vertex labels in order of appearance
    fn get_unique_vertices(&self) -> (r: Vec<usize>)
        ensures
            r@ == self.vertex_labels(),
    ;

    fn to_gap_string(&self) -> (r: String)
        ensures
            r@ == self.gap_notation(),
    ;
}

impl Generator for Vec<Vec<Vec<usize>>> {
    open spec fn vertex_labels(&self) -> Seq<usize> {
        labels_of(gens_view(self@))
    }

    open spec fn gap_notation(&self) -> Seq<char> {
        gap_text(0, gens_view(self@))
    }

    fn renumber(&self, start_idx: usize) -> (r: (Vec<Vec<Vec<usize>>>, usize))
        ensures
            relabeled(gens_view(self@), gens_view(r.0@), self.vertex_labels(), start_idx as int),
            vertices(gens_view(r.0@)).to_set() == Set::new(
                |x: usize| start_idx <= x < start_idx + r.1,
            ),
    {
        let r = renumber_gens(self, start_idx);
        proof {
            lemma_renumbered_vertices(gens_view(self@), gens_view(r.0@), self.vertex_labels(), start_idx as int);
        }
        r
    }

    fn get_unique_vertices(&self) -> (r: Vec<usize>)
        ensures
            r@.no_duplicates(),
            r@.to_set() == vertices(gens_view(self@)).to_set(),
    {
        proof {
            lemma_first_appearances(vertices(gens_view(self@)));
        }
        unique_vertices(self)
    }

    fn to_gap_string(&self) -> (r: String) {
        generator_to_gap_string(0, self.as_slice())
    }
}

} // verus!
