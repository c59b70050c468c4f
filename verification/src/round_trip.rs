//! Reading back what was written: GAP notation produced by
//! `generator_to_gap_string` parses to the same generators.

use vstd::prelude::*;
use crate::generator::{
    all_some, cycle_text, fits_offset, gap_text, nonempty_pieces, op_text, parse_cycle_text,
    parse_gap, parse_op_text,
};
use crate::text::{
    decimal, is_ascii_digit, is_unicode_whitespace, join, lemma_decimal, lemma_join_wrap,
    lemma_parse_decimal, lemma_split_join, lemma_split_no_match, no_early_match, no_match,
    parsed_usize, split, strip_parens, strip_whitespace, wrap,
};

verus! {

/// Every vertex of a cycle moved up by `offset`.
pub open spec fn shift_cycle(c: Seq<usize>, offset: int) -> Seq<usize> {
    c.map_values(|v: usize| (v + offset) as usize)
}

/// Every vertex of an operation moved up by `offset`.
pub open spec fn shift_op(o: Seq<Seq<usize>>, offset: int) -> Seq<Seq<usize>> {
    o.map_values(|c: Seq<usize>| shift_cycle(c, offset))
}

/// Every vertex of a generator list moved up by `offset`.
pub open spec fn shift_gens(g: Seq<Seq<Seq<usize>>>, offset: int) -> Seq<Seq<Seq<usize>>> {
    g.map_values(|o: Seq<Seq<usize>>| shift_op(o, offset))
}

/// Every character of `s` satisfies `p`.
pub open spec fn all_chars(s: Seq<char>, p: spec_fn(char) -> bool) -> bool {
    forall|i: int| 0 <= i < s.len() ==> p(#[trigger] s[i])
}

/// A character that can occur inside a cycle's text.
pub open spec fn is_cycle_char(c: char) -> bool {
    is_ascii_digit(c) || c == ','
}

/// A character that can occur in GAP notation as written here.
pub open spec fn is_gap_char(c: char) -> bool {
    is_cycle_char(c) || c == '(' || c == ')' || c == '[' || c == ']'
}

/// Every `)` that is not the last character is followed by `(`.
pub open spec fn closes_then_opens(s: Seq<char>) -> bool {
    forall|j: int| 0 <= j < s.len() - 1 && #[trigger] s[j] == ')' ==> s[j + 1] == '('
}

/// `s` does not end with `)`.
pub open spec fn ends_not_closing(s: Seq<char>) -> bool {
    s.len() == 0 || s.last() != ')'
}

proof fn lemma_join_all_chars(ps: Seq<Seq<char>>, sep: Seq<char>, p: spec_fn(char) -> bool)
    requires
        forall|k: int| 0 <= k < ps.len() ==> all_chars(#[trigger] ps[k], p),
        all_chars(sep, p),
    ensures
        all_chars(join(ps, sep), p),
    decreases ps.len(),
{
    if ps.len() >= 2 {
        let rest = ps.drop_first();
        assert forall|k: int| 0 <= k < rest.len() implies all_chars(#[trigger] rest[k], p) by {
            assert(rest[k] == ps[k + 1]);
        }
        lemma_join_all_chars(rest, sep, p);
        let s = join(ps, sep);
        let r = join(rest, sep);
        assert(s == ps[0] + sep + r);
        assert(all_chars(ps[0], p));
        assert forall|i: int| 0 <= i < s.len() implies p(#[trigger] s[i]) by {
            if i < ps[0].len() {
                assert(s[i] == ps[0][i]);
            } else if i < ps[0].len() + sep.len() {
                assert(s[i] == sep[i - ps[0].len()]);
            } else {
                assert(s[i] == r[i - ps[0].len() - sep.len()]);
            }
        }
    } else if ps.len() == 1 {
        assert(all_chars(ps[0], p));
    }
}

proof fn lemma_filter_keeps_all(s: Seq<char>, p: spec_fn(char) -> bool)
    requires
        all_chars(s, p),
    ensures
        s.filter(p) == s,
    decreases s.len(),
{
    if s.len() > 0 {
        let d = s.drop_last();
        assert(all_chars(d, p)) by {
            assert forall|i: int| 0 <= i < d.len() implies p(#[trigger] d[i]) by {
                assert(d[i] == s[i]);
            }
        }
        lemma_filter_keeps_all(d, p);
        d.lemma_filter_push(s.last(), p);
        assert(d.push(s.last()) == s);
        assert(p(s[s.len() - 1]));
    } else {
        reveal(Seq::filter);
    }
}

proof fn lemma_filter_drops_all(s: Seq<char>, p: spec_fn(char) -> bool)
    requires
        all_chars(s, |c: char| !p(c)),
    ensures
        s.filter(p) == Seq::<char>::empty(),
    decreases s.len(),
{
    if s.len() > 0 {
        let d = s.drop_last();
        assert(all_chars(d, |c: char| !p(c))) by {
            assert forall|i: int| 0 <= i < d.len() implies !p(#[trigger] d[i]) by {
                assert(d[i] == s[i]);
            }
        }
        lemma_filter_drops_all(d, p);
        d.lemma_filter_push(s.last(), p);
        assert(d.push(s.last()) == s);
        assert(!p(s[s.len() - 1]));
    } else {
        reveal(Seq::filter);
    }
}

proof fn lemma_all_some_all<T>(s: Seq<Option<T>>, vals: Seq<T>)
    requires
        s.len() == vals.len(),
        forall|i: int| 0 <= i < s.len() ==> #[trigger] s[i] == Some(vals[i]),
    ensures
        all_some(s) == Some(vals),
    decreases s.len(),
{
    if s.len() > 0 {
        lemma_all_some_all(s.drop_last(), vals.drop_last());
        assert(vals.drop_last().push(vals.last()) == vals);
        assert(s[s.len() - 1] == Some(vals[vals.len() - 1]));
    } else {
        assert(vals == Seq::<T>::empty());
    }
}

proof fn lemma_cycle_text_chars(offset: int, c: Seq<usize>)
    ensures
        all_chars(cycle_text(offset, c), |ch: char| is_cycle_char(ch)),
{
    let ds = c.map_values(|v: usize| decimal((v + offset) as nat));
    assert forall|k: int| 0 <= k < ds.len() implies all_chars(#[trigger] ds[k], |ch: char| is_cycle_char(ch)) by {
        lemma_decimal((c[k] + offset) as nat);
    }
    lemma_join_all_chars(ds, seq![','], |ch: char| is_cycle_char(ch));
}

proof fn lemma_strip_parens_wrapped(a: Seq<char>, ct: Seq<char>, b: Seq<char>)
    requires
        all_chars(ct, |ch: char| is_cycle_char(ch)),
        all_chars(a, |ch: char| ch == '(' || ch == ')'),
        all_chars(b, |ch: char| ch == '(' || ch == ')'),
    ensures
        strip_parens(a + ct + b) == ct,
{
    let keep = |ch: char| ch != '(' && ch != ')';
    assert(all_chars(ct, keep)) by {
        assert forall|i: int| 0 <= i < ct.len() implies keep(#[trigger] ct[i]) by {
            assert(is_cycle_char(ct[i]));
        }
    }
    assert(all_chars(a, |ch: char| !keep(ch))) by {
        assert forall|i: int| 0 <= i < a.len() implies !keep(#[trigger] a[i]) by {
            assert(a[i] == '(' || a[i] == ')');
        }
    }
    assert(all_chars(b, |ch: char| !keep(ch))) by {
        assert forall|i: int| 0 <= i < b.len() implies !keep(#[trigger] b[i]) by {
            assert(b[i] == '(' || b[i] == ')');
        }
    }
    lemma_filter_drops_all(a, keep);
    lemma_filter_drops_all(b, keep);
    lemma_filter_keeps_all(ct, keep);
    Seq::filter_distributes_over_add(a, ct, keep);
    Seq::filter_distributes_over_add(a + ct, b, keep);
}

proof fn lemma_numeral_has_no_comma(n: nat)
    ensures
        no_early_match(decimal(n), seq![',']),
        no_match(decimal(n), seq![',']),
{
    let d = decimal(n);
    let comma = seq![','];
    lemma_decimal(n);
    assert forall|j: int| 0 <= j < d.len() implies #[trigger] (d + comma).subrange(j, j + comma.len())
        != comma by {
        assert((d + comma).subrange(j, j + 1)[0] == d[j]);
    }
    assert forall|j: int| 0 <= j && j + comma.len() <= d.len() implies #[trigger] d.subrange(
        j,
        j + comma.len(),
    ) != comma by {
        assert(d.subrange(j, j + 1)[0] == d[j]);
    }
}

proof fn lemma_read_cycle_text(c: Seq<usize>, offset: int)
    requires
        0 <= offset,
        forall|k: int| 0 <= k < c.len() ==> #[trigger] c[k] + offset <= usize::MAX,
    ensures
        all_some(
            nonempty_pieces(split(cycle_text(offset, c), seq![','])).map_values(
                |p: Seq<char>| parsed_usize(p),
            ),
        ) == Some(shift_cycle(c, offset)),
{
    let ct = cycle_text(offset, c);
    let sc = shift_cycle(c, offset);
    let ds = c.map_values(|v: usize| decimal((v + offset) as nat));
    let comma = seq![','];
    let mapped = nonempty_pieces(split(ct, comma)).map_values(|p: Seq<char>| parsed_usize(p));
    if c.len() == 0 {
        assert(ds == Seq::<Seq<char>>::empty());
        assert(ct == Seq::<char>::empty());
        assert(no_match(ct, comma));
        lemma_split_no_match(ct, comma);
        reveal_with_fuel(Seq::filter, 2);
        assert(nonempty_pieces(seq![ct]) == Seq::<Seq<char>>::empty());
        assert(mapped == Seq::<Option<usize>>::empty());
        assert(sc == Seq::<usize>::empty());
    } else {
        assert forall|k: int| 0 <= k < ds.len() - 1 implies no_early_match(#[trigger] ds[k], comma) by {
            lemma_numeral_has_no_comma((c[k] + offset) as nat);
        }
        lemma_numeral_has_no_comma((c[c.len() - 1] + offset) as nat);
        lemma_split_join(ds, comma);
        assert forall|k: int| 0 <= k < ds.len() implies (#[trigger] ds[k]).len() > 0 by {
            lemma_decimal((c[k] + offset) as nat);
        }
        lemma_filter_keeps_all_seqs(ds);
        assert forall|k: int| 0 <= k < mapped.len() implies #[trigger] mapped[k] == Some(sc[k]) by {
            lemma_parse_decimal((c[k] + offset) as usize);
        }
        lemma_all_some_all(mapped, sc);
    }
}

/// The text of one cycle, with parentheses around it, reads back as the
/// shifted cycle.
proof fn lemma_parse_cycle(c: Seq<usize>, offset: int, a: Seq<char>, b: Seq<char>)
    requires
        0 <= offset,
        forall|k: int| 0 <= k < c.len() ==> #[trigger] c[k] + offset <= usize::MAX,
        all_chars(a, |ch: char| ch == '(' || ch == ')'),
        all_chars(b, |ch: char| ch == '(' || ch == ')'),
    ensures
        parse_cycle_text(a + cycle_text(offset, c) + b) == Some(shift_cycle(c, offset)),
{
    lemma_cycle_text_chars(offset, c);
    lemma_strip_parens_wrapped(a, cycle_text(offset, c), b);
    lemma_read_cycle_text(c, offset);
}

/// A string without `)` holds no separator that starts with `)`.
proof fn lemma_no_close_no_match(w: Seq<char>, sep: Seq<char>)
    requires
        sep.len() >= 1,
        sep[0] == ')',
        forall|i: int| 0 <= i < w.len() ==> #[trigger] w[i] != ')',
    ensures
        no_early_match(w, sep),
        no_match(w, sep),
{
    assert forall|j: int| 0 <= j < w.len() implies #[trigger] (w + sep).subrange(j, j + sep.len())
        != sep by {
        assert((w + sep).subrange(j, j + sep.len())[0] == w[j]);
    }
    assert forall|j: int| 0 <= j && j + sep.len() <= w.len() implies #[trigger] w.subrange(
        j,
        j + sep.len(),
    ) != sep by {
        assert(w.subrange(j, j + sep.len())[0] == w[j]);
    }
}

/// The text of one operation, possibly opened by `(` and closed by `)`,
/// reads back as the shifted operation.
proof fn lemma_parse_op(o: Seq<Seq<usize>>, offset: int, a: Seq<char>, b: Seq<char>)
    requires
        0 <= offset,
        o.len() >= 1,
        forall|j: int, k: int|
            0 <= j < o.len() && 0 <= k < o[j].len() ==> #[trigger] o[j][k] + offset <= usize::MAX,
        a == Seq::<char>::empty() || a == seq!['('],
        b == Seq::<char>::empty() || b == seq![')'],
    ensures
        parse_op_text(a + op_text(offset, o) + b) == Some(shift_op(o, offset)),
{
    let sep = seq![')', '('];
    let cts = o.map_values(|c: Seq<usize>| cycle_text(offset, c));
    let w = wrap(cts, a, b);
    let e = Seq::<char>::empty();
    lemma_join_wrap(cts, sep, a, b);
    assert forall|k: int| 0 <= k < w.len() - 1 implies no_early_match(#[trigger] w[k], sep) by {
        lemma_cycle_text_chars(offset, o[k]);
        let wk = w[k];
        assert(wk == (if k == 0 { a } else { e }) + cts[k] + e);
        assert forall|i: int| 0 <= i < wk.len() implies #[trigger] wk[i] != ')' by {
            if k == 0 && i < a.len() {
                assert(wk[i] == a[i]);
            } else {
                let off = if k == 0 { a.len() as int } else { 0 };
                assert(wk[i] == cts[k][i - off]);
                assert(is_cycle_char(cts[k][i - off]));
            }
        }
        lemma_no_close_no_match(wk, sep);
    }
    let n = w.len();
    let wl = w[n - 1];
    let al = if n == 1 { a } else { e };
    assert(wl == al + cts[n - 1] + b);
    lemma_cycle_text_chars(offset, o[n - 1]);
    assert(no_match(wl, sep)) by {
        assert forall|j: int| 0 <= j && j + sep.len() <= wl.len() implies #[trigger] wl.subrange(
            j,
            j + sep.len(),
        ) != sep by {
            assert(wl.subrange(j, j + sep.len())[0] == wl[j]);
            if j < al.len() {
                assert(wl[j] == al[j]);
            } else if j < al.len() + cts[n - 1].len() {
                assert(wl[j] == cts[n - 1][j - al.len()]);
                assert(is_cycle_char(cts[n - 1][j - al.len()]));
            }
        }
    }
    assert(w.last() == wl);
    lemma_split_join(w, sep);
    let mapped = w.map_values(|c: Seq<char>| parse_cycle_text(c));
    let so = shift_op(o, offset);
    assert forall|k: int| 0 <= k < mapped.len() implies #[trigger] mapped[k] == Some(so[k]) by {
        let ak = if k == 0 { a } else { e };
        let bk = if k == n - 1 { b } else { e };
        assert(w[k] == ak + cts[k] + bk);
        assert forall|j: int| 0 <= j < o[k].len() implies #[trigger] o[k][j] + offset <= usize::MAX by {
            assert(o[k][j] + offset <= usize::MAX);
        }
        lemma_parse_cycle(o[k], offset, ak, bk);
    }
    lemma_all_some_all(mapped, so);
}

/// Parts without parentheses joined with `)(`: every `)` is followed by `(`
/// and the text does not end with `)`.
proof fn lemma_join_paren_shape(ps: Seq<Seq<char>>)
    requires
        forall|k: int| 0 <= k < ps.len() ==> all_chars(#[trigger] ps[k], |ch: char| is_cycle_char(ch)),
    ensures
        closes_then_opens(join(ps, seq![')', '('])),
        ends_not_closing(join(ps, seq![')', '('])),
    decreases ps.len(),
{
    let sep = seq![')', '('];
    if ps.len() == 1 {
        assert(all_chars(ps[0], |ch: char| is_cycle_char(ch)));
        assert(join(ps, sep) == ps[0]);
        if ps[0].len() > 0 {
            assert(is_cycle_char(ps[0][ps[0].len() - 1]));
        }
        assert forall|j: int| 0 <= j < ps[0].len() - 1 && #[trigger] ps[0][j] == ')' implies ps[0][j + 1]
            == '(' by {
            assert(is_cycle_char(ps[0][j]));
        }
    } else if ps.len() >= 2 {
        let rest = ps.drop_first();
        assert forall|k: int| 0 <= k < rest.len() implies all_chars(#[trigger] rest[k], |ch: char| is_cycle_char(ch)) by {
            assert(rest[k] == ps[k + 1]);
        }
        lemma_join_paren_shape(rest);
        let p = ps[0];
        let r = join(rest, sep);
        let t = join(ps, sep);
        assert(t == p + sep + r);
        assert(all_chars(p, |ch: char| is_cycle_char(ch)));
        assert forall|j: int| 0 <= j < t.len() - 1 && #[trigger] t[j] == ')' implies t[j + 1] == '(' by {
            if j < p.len() {
                assert(t[j] == p[j]);
                assert(is_cycle_char(p[j]));
            } else if j == p.len() {
                assert(t[j + 1] == sep[1]);
            } else if j == p.len() + 1 {
                assert(t[j] == sep[1]);
            } else {
                assert(t[j] == r[j - p.len() - 2]);
                assert(t[j + 1] == r[j - p.len() - 1]);
            }
        }
        if r.len() > 0 {
            assert(t.last() == r.last());
        } else {
            assert(t.last() == '(');
        }
    }
}

/// The text of one operation: `(`, `)` and cycle characters, every `)`
/// followed by `(`, never ending with `)`.
proof fn lemma_op_text_shape(offset: int, o: Seq<Seq<usize>>)
    ensures
        all_chars(op_text(offset, o), |ch: char| is_cycle_char(ch) || ch == '(' || ch == ')'),
        closes_then_opens(op_text(offset, o)),
        ends_not_closing(op_text(offset, o)),
{
    let cts = o.map_values(|c: Seq<usize>| cycle_text(offset, c));
    assert forall|k: int| 0 <= k < cts.len() implies all_chars(#[trigger] cts[k], |ch: char| is_cycle_char(ch)) by {
        lemma_cycle_text_chars(offset, o[k]);
    }
    lemma_join_paren_shape(cts);
    let p = |ch: char| is_cycle_char(ch) || ch == '(' || ch == ')';
    assert forall|k: int| 0 <= k < cts.len() implies all_chars(#[trigger] cts[k], p) by {
        lemma_cycle_text_chars(offset, o[k]);
        assert forall|i: int| 0 <= i < cts[k].len() implies p(#[trigger] cts[k][i]) by {
            assert(is_cycle_char(cts[k][i]));
        }
    }
    lemma_join_all_chars(cts, seq![')', '('], p);
}

proof fn lemma_filter_keeps_all_seqs(ps: Seq<Seq<char>>)
    requires
        forall|k: int| 0 <= k < ps.len() ==> (#[trigger] ps[k]).len() > 0,
    ensures
        ps.filter(|x: Seq<char>| x.len() > 0) == ps,
    decreases ps.len(),
{
    if ps.len() > 0 {
        let d = ps.drop_last();
        assert forall|k: int| 0 <= k < d.len() implies (#[trigger] d[k]).len() > 0 by {
            assert(d[k] == ps[k]);
        }
        lemma_filter_keeps_all_seqs(d);
        d.lemma_filter_push(ps.last(), |x: Seq<char>| x.len() > 0);
        assert(d.push(ps.last()) == ps);
        assert(ps[ps.len() - 1].len() > 0);
    } else {
        reveal(Seq::filter);
    }
}

/// An operation's text, opened by `(` or not, holds no `),(` that starts
/// inside it, and none at all once closed by `)`.
proof fn lemma_no_op_separator(u: Seq<char>)
    requires
        closes_then_opens(u),
        ends_not_closing(u),
    ensures
        no_early_match(u, seq![')', ',', '(']),
        no_match(u + seq![')'], seq![')', ',', '(']),
{
    let sep = seq![')', ',', '('];
    assert forall|j: int| 0 <= j < u.len() implies #[trigger] (u + sep).subrange(j, j + sep.len())
        != sep by {
        let x = u + sep;
        if x.subrange(j, j + 3) == sep {
            assert(x[j] == ')' && x[j + 1] == ',');
            if j < u.len() - 1 {
                assert(u[j] == ')');
                assert(u[j + 1] == ',');
            } else {
                assert(u.last() == ')');
            }
        }
    }
    let v = u + seq![')'];
    assert forall|j: int| 0 <= j && j + sep.len() <= v.len() implies #[trigger] v.subrange(
        j,
        j + sep.len(),
    ) != sep by {
        if v.subrange(j, j + 3) == sep {
            assert(v[j] == ')' && v[j + 1] == ',');
            assert(u[j] == ')' && u[j + 1] == ',');
        }
    }
}

proof fn lemma_open_keeps_shape(u: Seq<char>)
    requires
        closes_then_opens(u),
        ends_not_closing(u),
    ensures
        closes_then_opens(seq!['('] + u),
        ends_not_closing(seq!['('] + u),
{
    let v = seq!['('] + u;
    assert forall|j: int| 0 <= j < v.len() - 1 && #[trigger] v[j] == ')' implies v[j + 1] == '(' by {
        assert(v[j] == u[j - 1]);
        assert(v[j + 1] == u[j]);
    }
    if u.len() > 0 {
        assert(v.last() == u.last());
    }
}

/// Whitespace is ignored, so text without whitespace is read as it is.
proof fn lemma_strip_gap_text(t: Seq<char>)
    requires
        forall|i: int| 0 <= i < t.len() ==> is_gap_char(#[trigger] t[i]),
    ensures
        strip_whitespace(t) == t,
{
    let keep = |c: char| !is_unicode_whitespace(c);
    assert forall|i: int| 0 <= i < t.len() implies keep(#[trigger] t[i]) by {
        assert(is_gap_char(t[i]));
    }
    lemma_filter_keeps_all(t, keep);
}

proof fn lemma_gap_text_chars(off: int, g: Seq<Seq<Seq<usize>>>)
    ensures
        forall|i: int| 0 <= i < gap_text(off, g).len() ==> is_gap_char(#[trigger] gap_text(off, g)[i]),
{
    let t = gap_text(off, g);
    if g.len() > 0 {
        let sep = seq![')', ',', '('];
        let ots = g.map_values(|o: Seq<Seq<usize>>| op_text(off, o));
        let j = join(ots, sep);
        assert(t == seq!['[', '('] + j + seq![')', ']']);
        let gp = |ch: char| is_gap_char(ch);
        assert forall|k: int| 0 <= k < ots.len() implies all_chars(#[trigger] ots[k], gp) by {
            lemma_op_text_shape(off, g[k]);
            assert forall|i: int| 0 <= i < ots[k].len() implies gp(#[trigger] ots[k][i]) by {
                let q = |ch: char| is_cycle_char(ch) || ch == '(' || ch == ')';
                assert(q(ots[k][i]));
            }
        }
        lemma_join_all_chars(ots, sep, gp);
        assert forall|i: int| 0 <= i < t.len() implies is_gap_char(#[trigger] t[i]) by {
            if 2 <= i < 2 + j.len() {
                assert(t[i] == j[i - 2]);
                assert(gp(j[i - 2]));
            }
        }
    }
}

/// The bracketed operations cut at `),(` give each operation's text, the
/// first opened by `(` and the last closed by `)`.
proof fn lemma_split_ops(off: int, g: Seq<Seq<Seq<usize>>>)
    requires
        g.len() > 0,
    ensures
        ({
            let ots = g.map_values(|o: Seq<Seq<usize>>| op_text(off, o));
            let sep = seq![')', ',', '('];
            split(seq!['('] + join(ots, sep) + seq![')'], sep) == wrap(ots, seq!['('], seq![')'])
        }),
{
    let sep = seq![')', ',', '('];
    let ots = g.map_values(|o: Seq<Seq<usize>>| op_text(off, o));
    let w = wrap(ots, seq!['('], seq![')']);
    lemma_join_wrap(ots, sep, seq!['('], seq![')']);
    let n = ots.len();
    assert forall|k: int| 0 <= k < w.len() - 1 implies no_early_match(#[trigger] w[k], sep) by {
        lemma_op_text_shape(off, g[k]);
        if k == 0 {
            lemma_open_keeps_shape(ots[k]);
            assert(w[k] == seq!['('] + ots[k]);
            lemma_no_op_separator(seq!['('] + ots[k]);
        } else {
            assert(w[k] == ots[k]);
            lemma_no_op_separator(ots[k]);
        }
    }
    lemma_op_text_shape(off, g[n - 1]);
    if n == 1 {
        lemma_open_keeps_shape(ots[0]);
        assert(w[0] == seq!['('] + ots[0] + seq![')']);
        lemma_no_op_separator(seq!['('] + ots[0]);
    } else {
        assert(w[n - 1] == ots[n - 1] + seq![')']);
        lemma_no_op_separator(ots[n - 1]);
    }
    lemma_split_join(w, sep);
}

proof fn lemma_read_ops(off: int, g: Seq<Seq<Seq<usize>>>)
    requires
        0 <= off,
        g.len() > 0,
        fits_offset(g, off),
        forall|i: int| 0 <= i < g.len() ==> (#[trigger] g[i]).len() > 0,
    ensures
        all_some(
            wrap(
                g.map_values(|o: Seq<Seq<usize>>| op_text(off, o)),
                seq!['('],
                seq![')'],
            ).map_values(|p: Seq<char>| parse_op_text(p)),
        ) == Some(shift_gens(g, off)),
{
    let ots = g.map_values(|o: Seq<Seq<usize>>| op_text(off, o));
    let w = wrap(ots, seq!['('], seq![')']);
    let n = ots.len();
    let e = Seq::<char>::empty();
    let mapped = w.map_values(|p: Seq<char>| parse_op_text(p));
    let sg = shift_gens(g, off);
    assert forall|k: int| 0 <= k < mapped.len() implies #[trigger] mapped[k] == Some(sg[k]) by {
        let ak = if k == 0 { seq!['('] } else { e };
        let bk = if k == n - 1 { seq![')'] } else { e };
        assert(w[k] == ak + ots[k] + bk);
        assert forall|j2: int, k2: int|
            0 <= j2 < g[k].len() && 0 <= k2 < g[k][j2].len() implies #[trigger] g[k][j2][k2] + off
            <= usize::MAX by {
            assert(g[k][j2][k2] + off <= usize::MAX);
        }
        lemma_parse_op(g[k], off, ak, bk);
    }
    lemma_all_some_all(mapped, sg);
}

/// The bracketed text of a non-empty generator list reads as the shifted list.
proof fn lemma_read_bracketed(g: Seq<Seq<Seq<usize>>>, off: int)
    requires
        0 <= off,
        g.len() > 0,
        fits_offset(g, off),
        forall|i: int| 0 <= i < g.len() ==> (#[trigger] g[i]).len() > 0,
    ensures
        gap_text(off, g).len() >= 2,
        gap_text(off, g)[0] == '[',
        gap_text(off, g).last() == ']',
        gap_text(off, g).subrange(1, gap_text(off, g).len() - 1).len() > 0,
        all_some(
            split(gap_text(off, g).subrange(1, gap_text(off, g).len() - 1), seq![')', ',', '(']).map_values(
                |p: Seq<char>| parse_op_text(p),
            ),
        ) == Some(shift_gens(g, off)),
{
    let t = gap_text(off, g);
    let sep = seq![')', ',', '('];
    let ots = g.map_values(|o: Seq<Seq<usize>>| op_text(off, o));
    let w = wrap(ots, seq!['('], seq![')']);
    let j = join(ots, sep);
    assert(t == seq!['[', '('] + j + seq![')', ']']);
    let inner = t.subrange(1, t.len() - 1);
    assert(inner == seq!['('] + j + seq![')']);
    lemma_split_ops(off, g);
    lemma_read_ops(off, g);
}

/// Writing a generator list in GAP notation and reading the text back gives
/// the same operations, every vertex shifted by the offset written with.
/// An operation with no cycle is written `()`, which reads back as one empty
/// cycle, so such operations are left out.
pub proof fn law_gap_notation_round_trip(g: Seq<Seq<Seq<usize>>>, offset: usize)
    requires
        fits_offset(g, offset as int),
        forall|i: int| 0 <= i < g.len() ==> (#[trigger] g[i]).len() > 0,
    ensures
        parse_gap(gap_text(offset as int, g)) == Some(shift_gens(g, offset as int)),
{
    let off = offset as int;
    let t = gap_text(off, g);
    lemma_gap_text_chars(off, g);
    lemma_strip_gap_text(t);
    if g.len() == 0 {
        assert(t.subrange(1, t.len() - 1) == Seq::<char>::empty());
        assert(shift_gens(g, off) == Seq::<Seq<Seq<usize>>>::empty());
    } else {
        lemma_read_bracketed(g, off);
    }
}

} // verus!
