//! Jobs for the dreadnaut worker: each job writes a script for dreadnaut and
//! reads back what dreadnaut printed for it.

use vstd::prelude::*;
use vstd::string::StringExecFns;
use crate::canon::{
    below_start, cycle_edges, gens_edges, graph_lists, hash_script, op_edges, orbit_graph_hash_script,
    sources_fit,
};
use crate::generator::{gens_view, labels_of, lemma_first_appearances, lemma_flatten_member, relabeled, Generator};
use crate::sorted::lemma_distinct_below;
use crate::text::{chars_of, push_chars, seqs_of, split, split_vec};

verus! {

/// Every vertex of every cycle of `g` is below `n`.
pub open spec fn labels_below(g: Seq<Seq<Seq<usize>>>, n: nat) -> bool {
    forall|i: int, j: int, k: int|
        0 <= i < g.len() && 0 <= j < g[i].len() && 0 <= k < g[i][j].len() ==> #[trigger] g[i][j][k] < n
}

/// When every vertex of `g` is below `n`, so are both ends of every edge.
proof fn lemma_edge_ends(g: Seq<Seq<Seq<usize>>>, n: nat, e: (usize, usize))
    requires
        labels_below(g, n),
        gens_edges(g).contains(e),
    ensures
        e.0 < n,
        e.1 < n,
{
    let f = |o: Seq<Seq<usize>>| op_edges(o);
    lemma_flatten_member(g.map_values(f), e);
    let (i, w) = choose|i: int, w: int|
        0 <= i < g.map_values(f).len() && 0 <= w < g.map_values(f)[i].len() && #[trigger] g.map_values(f)[i][w] == e;
    let op = g[i];
    let fc = |c: Seq<usize>| cycle_edges(c);
    assert(g.map_values(f)[i] == op.map_values(fc).flatten());
    assert(op.map_values(fc).flatten().contains(e));
    lemma_flatten_member(op.map_values(fc), e);
    let (j, p) = choose|j: int, p: int|
        0 <= j < op.map_values(fc).len() && 0 <= p < op.map_values(fc)[j].len() && #[trigger] op.map_values(fc)[j][p] == e;
    let c = op[j];
    assert(op.map_values(fc)[j] == cycle_edges(c));
    let q = (p + 1) % (c.len() as int);
    assert(cycle_edges(c)[p] == (c[p], c[q]));
    assert(g[i][j][p] < n);
    assert(g[i][j][q] < n);
}

/// Distinct vertex labels are no more than there are `usize` values.
proof fn lemma_label_count(g: Seq<Seq<Seq<usize>>>)
    ensures
        labels_of(g).len() <= usize::MAX + 1,
{
    lemma_first_appearances(crate::generator::vertices(g));
    lemma_distinct_below(labels_of(g), (usize::MAX + 1) as nat);
}

/// A line that dreadnaut's hash command prints: the hash words in brackets.
pub open spec fn is_hash_line(l: Seq<char>) -> bool {
    l.len() >= 2 && l[0] == '[' && l.last() == ']'
}

/// The last hash line among `lines`, if any.
pub open spec fn last_hash_line(lines: Seq<Seq<char>>) -> Option<Seq<char>>
    decreases lines.len(),
{
    if lines.len() == 0 {
        None
    } else if is_hash_line(lines.last()) {
        Some(lines.last())
    } else {
        last_hash_line(lines.drop_last())
    }
}

proof fn lemma_last_hash_line(lines: Seq<Seq<char>>)
    ensures
        last_hash_line(lines) matches Some(l) ==> is_hash_line(l),
    decreases lines.len(),
{
    if lines.len() > 0 && !is_hash_line(lines.last()) {
        lemma_last_hash_line(lines.drop_last());
    }
}

/// The orbit hash made of a hash line: its words after the tag `o1`.
pub open spec fn orbit_hash(l: Seq<char>) -> Seq<char> {
    "[o1 "@ + l.subrange(1, l.len() - 1) + "]"@
}

/// `l` is a bracketed line: at least two characters, `[` first, `]` last.
pub open spec fn bracketed(l: Seq<char>) -> bool {
    l.len() >= 2 && l.first() == '[' && l.last() == ']'
}

/// The hash read from dreadnaut's output is taken from its last bracketed
/// line: when there is one, the line chosen is a line of the output, it is
/// bracketed, no later line is, and the hash is `[o1 ` followed by the line
/// without its brackets and a closing `]`; when there is none, nothing is
/// chosen.
pub proof fn law_hash_from_last_bracketed_line(lines: Seq<Seq<char>>)
    ensures
        match last_hash_line(lines) {
            Some(l) => {
                &&& exists|i: int|
                    0 <= i < lines.len() && #[trigger] lines[i] == l && forall|j: int|
                        i < j < lines.len() ==> !bracketed(#[trigger] lines[j])
                &&& bracketed(l)
                &&& orbit_hash(l) == seq!['[', 'o', '1', ' '] + l.drop_first().drop_last() + seq![']']
            },
            None => forall|i: int| 0 <= i < lines.len() ==> !bracketed(#[trigger] lines[i]),
        },
    decreases lines.len(),
{
    reveal_strlit("[o1 ");
    reveal_strlit("]");
    if lines.len() > 0 {
        let d = lines.drop_last();
        law_hash_from_last_bracketed_line(d);
        if bracketed(lines.last()) {
            let l = lines.last();
            assert(lines[lines.len() - 1] == l);
            assert(l.subrange(1, l.len() - 1) == l.drop_first().drop_last());
        } else {
            match last_hash_line(d) {
                Some(l) => {
                    let i = choose|i: int|
                        0 <= i < d.len() && #[trigger] d[i] == l && forall|j: int|
                            i < j < d.len() ==> !bracketed(#[trigger] d[j]);
                    assert(lines[i] == l);
                    assert forall|j: int| i < j < lines.len() implies !bracketed(#[trigger] lines[j]) by {
                        if j < d.len() {
                            assert(lines[j] == d[j]);
                        }
                    }
                    assert(l.subrange(1, l.len() - 1) == l.drop_first().drop_last());
                },
                None => {
                    assert forall|i: int| 0 <= i < lines.len() implies !bracketed(#[trigger] lines[i]) by {
                        if i < d.len() {
                            assert(lines[i] == d[i]);
                        }
                    }
                },
            }
        }
    }
}

/// The message when dreadnaut's output holds no hash line.
pub open spec fn missing_hash_message() -> Seq<char> {
    "No canonical hash in the dreadnaut output"@
}

fn is_hash_line_exec(l: &Vec<char>) -> (b: bool)
    ensures
        b == is_hash_line(l@),
{
    l.len() >= 2 && l[0] == '[' && l[l.len() - 1] == ']'
}

/// Canonises an orbit graph with dreadnaut: the generators of an orbit,
/// renumbered from 0, and the canonical hash that dreadnaut reported.
pub struct OrbitCanonizer {
    generator: Vec<Vec<Vec<usize>>>,
    n_vertices: usize,
    hash: Option<String>,
}

impl OrbitCanonizer {
    #[verifier::type_invariant]
    spec fn inv(self) -> bool {
        labels_below(gens_view(self.generator@), self.n_vertices as nat)
    }

    /// The generators, renumbered from 0.
    pub closed spec fn generator_view(&self) -> Seq<Seq<Seq<usize>>> {
        gens_view(self.generator@)
    }

    /// The number of vertices of the orbit graph.
    pub closed spec fn vertex_count(&self) -> nat {
        self.n_vertices as nat
    }

    /// The canonical hash, once dreadnaut has reported one.
    pub closed spec fn hash_view(&self) -> Option<Seq<char>> {
        match self.hash {
            Some(h) => Some(h@),
            None => None,
        }
    }

    /// Takes the generators of an orbit and renumbers their vertices from 0
    /// in order of first appearance.
    pub fn new(generator: &Vec<Vec<Vec<usize>>>) -> (c: Self)
        ensures
            relabeled(gens_view(generator@), c.generator_view(), labels_of(gens_view(generator@)), 0),
            c.vertex_count() == labels_of(gens_view(generator@)).len(),
            c.hash_view() is None,
    {
        proof {
            lemma_label_count(gens_view(generator@));
        }
        let (renumbered, n) = generator.renumber(0);
        OrbitCanonizer { generator: renumbered, n_vertices: n, hash: None }
    }

    /// The dreadnaut script that computes the canonical hash of the orbit
    /// graph: one vertex per orbit element, an edge from each element to its
    /// successor in every cycle of every generator.
    pub fn generate_script(&self) -> (r: Result<String, String>)
        ensures
            r is Ok,
            r->Ok_0@ == hash_script(
                self.vertex_count(),
                graph_lists(gens_edges(self.generator_view()), 0, self.vertex_count()),
            ),
    {
        proof {
            use_type_invariant(self);
            let es = gens_edges(self.generator_view());
            assert forall|k: int| 0 <= k < es.len() implies !#[trigger] below_start(es[k], 0) && es[k].0 < self.n_vertices by {
                lemma_edge_ends(self.generator_view(), self.n_vertices as nat, es[k]);
            }
            assert(sources_fit(es, 0, self.n_vertices as int));
        }
        orbit_graph_hash_script(0, self.generator.as_slice(), self.n_vertices)
    }

    /// Reads the canonical hash from what dreadnaut printed for the script:
    /// the last line that is a bracketed hash, tagged `o1`.
    pub fn process_script_result(&mut self, s: &str) -> (r: Result<(), String>)
        ensures
            final(self).generator_view() == old(self).generator_view(),
            final(self).vertex_count() == old(self).vertex_count(),
            match last_hash_line(split(s@, seq!['\n'])) {
                Some(l) => r is Ok && final(self).hash_view() == Some(orbit_hash(l)),
                None => r is Err && r->Err_0@ == missing_hash_message() && final(self).hash_view()
                    == old(self).hash_view(),
            },
    {
        proof {
            use_type_invariant(&*self);
        }
        let chars = chars_of(s);
        let mut nl: Vec<char> = Vec::new();
        nl.push('\n');
        let lines = split_vec(&chars, &nl);
        let ghost ls = split(s@, seq!['\n']);
        proof {
            assert(nl@ == seq!['\n']);
        }
        let mut found: Option<usize> = None;
        let mut i: usize = 0;
        while i < lines.len()
            invariant
                i <= lines.len(),
                seqs_of(lines@) == ls,
                match found {
                    Some(k) => k < i && last_hash_line(ls.take(i as int)) == Some(lines@[k as int]@),
                    None => last_hash_line(ls.take(i as int)) is None,
                },
            decreases lines.len() - i,
        {
            proof {
                assert(ls.take(i + 1).drop_last() == ls.take(i as int));
                assert(ls[i as int] == lines@[i as int]@);
            }
            if is_hash_line_exec(&lines[i]) {
                found = Some(i);
            }
            i += 1;
        }
        proof {
            assert(ls.take(lines.len() as int) == ls);
        }
        match found {
            None => Err(String::from_str("No canonical hash in the dreadnaut output")),
            Some(k) => {
                let line = &lines[k];
                proof {
                    lemma_last_hash_line(ls);
                }
                let mut inner: Vec<char> = Vec::new();
                let mut j: usize = 1;
                while j + 1 < line.len()
                    invariant
                        1 <= j <= line.len() - 1,
                        line.len() >= 2,
                        inner@ == line@.subrange(1, j as int),
                    decreases line.len() - j,
                {
                    inner.push(line[j]);
                    j += 1;
                }
                let mut h = String::from_str("[o1 ");
                push_chars(&mut h, &inner);
                h.append("]");
                self.hash = Some(h);
                Ok(())
            },
        }
    }

    /// The canonical hash, or an empty string before dreadnaut reported one.
    pub fn get_hash(&self) -> (h: String)
        ensures
            h@ == match self.hash_view() {
                Some(x) => x,
                None => Seq::empty(),
            },
    {
        match &self.hash {
            Some(x) => x.clone(),
            None => String::new(),
        }
    }
}

/// A job for the dreadnaut worker: an orbit graph to canonise, or the error
/// that took the place of a job that could not be run.
pub enum DreadnautJob {
    Orbit(OrbitCanonizer),
    Error(String),
}

/// The script of the orbit graph that `c` canonises.
pub open spec fn orbit_script(c: OrbitCanonizer) -> Seq<char> {
    hash_script(c.vertex_count(), graph_lists(gens_edges(c.generator_view()), 0, c.vertex_count()))
}

impl DreadnautJob {
    /// The script for dreadnaut; a job that is an error gives its error.
    pub fn generate_script(&mut self) -> (r: Result<String, String>)
        ensures
            *final(self) == *old(self),
            match *old(self) {
                DreadnautJob::Orbit(c) => r is Ok && r->Ok_0@ == orbit_script(c),
                DreadnautJob::Error(e) => r == Err::<String, String>(e),
            },
    {
        match self {
            DreadnautJob::Orbit(canonizer) => canonizer.generate_script(),
            DreadnautJob::Error(e) => Err(e.clone()),
        }
    }

    /// Hands what dreadnaut printed for the script to the job; a job that is
    /// an error gives its error and stays as it is.
    pub fn process_script_result(&mut self, s: &str) -> (r: Result<(), String>)
        ensures
            match (*old(self), *final(self)) {
                (DreadnautJob::Orbit(c0), DreadnautJob::Orbit(c1)) => {
                    &&& c1.generator_view() == c0.generator_view()
                    &&& c1.vertex_count() == c0.vertex_count()
                    &&& match last_hash_line(split(s@, seq!['\n'])) {
                        Some(l) => r is Ok && c1.hash_view() == Some(orbit_hash(l)),
                        None => r is Err && r->Err_0@ == missing_hash_message() && c1.hash_view()
                            == c0.hash_view(),
                    }
                },
                (DreadnautJob::Error(e0), DreadnautJob::Error(e1)) => e1 == e0 && r == Err::<(), String>(e0),
                _ => false,
            },
    {
        match self {
            DreadnautJob::Orbit(canonizer) => canonizer.process_script_result(s),
            DreadnautJob::Error(e) => Err(e.clone()),
        }
    }

    /// The canoniser of an orbit job.
    pub fn unwrap_orbit(self) -> (c: OrbitCanonizer)
        requires
            self is Orbit,
        ensures
            self == DreadnautJob::Orbit(c),
    {
        match self {
            DreadnautJob::Orbit(canonizer) => canonizer,
            DreadnautJob::Error(_) => {
                proof {
                    assert(false);
                }
                OrbitCanonizer { generator: Vec::new(), n_vertices: 0, hash: None }
            },
        }
    }
}

} // verus!
