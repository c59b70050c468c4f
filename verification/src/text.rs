//! Character-level helpers: decimal numerals, whitespace, splitting and joining.

use vstd::prelude::*;
use vstd::string::StringExecFns;

verus! {

/// The ASCII digit for `d < 10`.
pub open spec fn digit_char(d: nat) -> char {
    (d + 48) as char
}

/// The decimal numeral of `n`, without sign or leading zeros.
pub open spec fn decimal(n: nat) -> Seq<char>
    decreases n,
{
    if n < 10 {
        seq![digit_char(n)]
    } else {
        decimal(n / 10).push(digit_char(n % 10))
    }
}

/// A numeral is a non-empty string of digits whose value is the number.
pub proof fn lemma_decimal(n: nat)
    ensures
        decimal(n).len() >= 1,
        all_ascii_digits(decimal(n)),
        digits_value(decimal(n)) == n,
    decreases n,
{
    if n >= 10 {
        lemma_decimal(n / 10);
        let d = decimal(n);
        assert(d.drop_last() == decimal(n / 10));
        assert(d.last() == digit_char(n % 10));
        assert(digit_value(digit_char(n % 10)) == n % 10);
        assert(digits_value(d) == digits_value(decimal(n / 10)) * 10 + n % 10);
        assert(n == (n / 10) * 10 + n % 10);
        assert forall|i: int| 0 <= i < d.len() implies is_ascii_digit(#[trigger] d[i]) by {
            if i < d.len() - 1 {
                assert(d[i] == decimal(n / 10)[i]);
            }
        }
    } else {
        let d = decimal(n);
        assert(d.drop_last() == Seq::<char>::empty());
        assert(digits_value(Seq::<char>::empty()) == 0);
        assert(digit_value(digit_char(n)) == n);
        assert(digits_value(d) == digits_value(d.drop_last()) * 10 + digit_value(d.last()));
    }
}

/// Reading a numeral gives back the number.
pub proof fn lemma_parse_decimal(n: usize)
    ensures
        parsed_usize(decimal(n as nat)) == Some(n),
{
    lemma_decimal(n as nat);
    assert(decimal(n as nat)[0] != '+');
}

fn digit_str(d: usize) -> (s: &'static str)
    requires
        d < 10,
    ensures
        s@ == seq![digit_char(d as nat)],
{
    if d == 0 { proof { reveal_strlit("0"); } "0" }
    else if d == 1 { proof { reveal_strlit("1"); } "1" }
    else if d == 2 { proof { reveal_strlit("2"); } "2" }
    else if d == 3 { proof { reveal_strlit("3"); } "3" }
    else if d == 4 { proof { reveal_strlit("4"); } "4" }
    else if d == 5 { proof { reveal_strlit("5"); } "5" }
    else if d == 6 { proof { reveal_strlit("6"); } "6" }
    else if d == 7 { proof { reveal_strlit("7"); } "7" }
    else if d == 8 { proof { reveal_strlit("8"); } "8" }
    else { proof { reveal_strlit("9"); } "9" }
}

/// Appends the decimal numeral of `n` to `out`.
pub fn push_decimal(out: &mut String, n: usize)
    ensures
        final(out)@ == old(out)@ + decimal(n as nat),
    decreases n,
{
    if n >= 10 {
        push_decimal(out, n / 10);
    }
    out.append(digit_str(n % 10));
}

/// Appends `c` to `s` (`String::push`).
#[verifier::external_body]
fn push_char(s: &mut String, c: char)
    ensures
        final(s)@ == old(s)@.push(c),
{
    s.push(c);
}

/// Appends the characters of `chars` to `out`.
pub fn push_chars(out: &mut String, chars: &Vec<char>)
    ensures
        final(out)@ == old(out)@ + chars@,
{
    let ghost start = out@;
    let mut i: usize = 0;
    while i < chars.len()
        invariant
            i <= chars.len(),
            out@ == start + chars@.take(i as int),
        decreases chars.len() - i,
    {
        push_char(out, chars[i]);
        assert(chars@.take(i + 1) == chars@.take(i as int).push(chars@[i as int]));
        i += 1;
    }
    assert(chars@.take(chars.len() as int) == chars@);
}

/// The characters of `s`, in order.
pub fn chars_of(s: &str) -> (v: Vec<char>)
    ensures
        v@ == s@,
{
    broadcast use vstd::string::group_string_axioms;
    let mut v: Vec<char> = Vec::new();
    for c in it: s.chars()
        invariant
            v@ == it.seq().take(it.index() as int),
            it.seq() == s@,
    {
        v.push(c);
    }
    v
}

/// Whether `c` has the Unicode `White_Space` property, which is what
/// `char::is_whitespace` tests.
pub open spec fn is_unicode_whitespace(c: char) -> bool {
    ||| ('\u{9}' <= c && c <= '\u{d}')
    ||| c == ' '
    ||| c == '\u{85}'
    ||| c == '\u{a0}'
    ||| c == '\u{1680}'
    ||| ('\u{2000}' <= c && c <= '\u{200a}')
    ||| c == '\u{2028}'
    ||| c == '\u{2029}'
    ||| c == '\u{202f}'
    ||| c == '\u{205f}'
    ||| c == '\u{3000}'
}

/// `s` with every whitespace character removed.
pub open spec fn strip_whitespace(s: Seq<char>) -> Seq<char> {
    s.filter(|c: char| !is_unicode_whitespace(c))
}

/// `s` with every parenthesis removed.
pub open spec fn strip_parens(s: Seq<char>) -> Seq<char> {
    s.filter(|c: char| c != '(' && c != ')')
}

pub fn is_whitespace_char(c: char) -> (b: bool)
    ensures
        b == is_unicode_whitespace(c),
{
    ('\u{9}' <= c && c <= '\u{d}') || c == ' ' || c == '\u{85}' || c == '\u{a0}' || c
        == '\u{1680}' || ('\u{2000}' <= c && c <= '\u{200a}') || c == '\u{2028}' || c
        == '\u{2029}' || c == '\u{202f}' || c == '\u{205f}' || c == '\u{3000}'
}

/// The characters of `s` that are not whitespace.
pub fn without_whitespace(s: &Vec<char>) -> (v: Vec<char>)
    ensures
        v@ == strip_whitespace(s@),
{
    let mut v: Vec<char> = Vec::new();
    let mut i: usize = 0;
    while i < s.len()
        invariant
            i <= s.len(),
            v@ == strip_whitespace(s@.take(i as int)),
        decreases s.len() - i,
    {
        proof {
            s@.take(i as int).lemma_filter_push(s@[i as int], |c: char| !is_unicode_whitespace(c));
            assert(s@.take(i + 1) == s@.take(i as int).push(s@[i as int]));
        }
        if !is_whitespace_char(s[i]) {
            v.push(s[i]);
        }
        i += 1;
    }
    assert(s@.take(s.len() as int) == s@);
    v
}

/// The characters of `s` that are not parentheses.
pub fn without_parens(s: &Vec<char>) -> (v: Vec<char>)
    ensures
        v@ == strip_parens(s@),
{
    let mut v: Vec<char> = Vec::new();
    let mut i: usize = 0;
    while i < s.len()
        invariant
            i <= s.len(),
            v@ == strip_parens(s@.take(i as int)),
        decreases s.len() - i,
    {
        proof {
            s@.take(i as int).lemma_filter_push(s@[i as int], |c: char| c != '(' && c != ')');
            assert(s@.take(i + 1) == s@.take(i as int).push(s@[i as int]));
        }
        if s[i] != '(' && s[i] != ')' {
            v.push(s[i]);
        }
        i += 1;
    }
    assert(s@.take(s.len() as int) == s@);
    v
}

/// Whether `c` is one of the ASCII digits `0`..`9`.
pub open spec fn is_ascii_digit(c: char) -> bool {
    '0' <= c && c <= '9'
}

pub open spec fn digit_value(c: char) -> nat {
    (c as int - 48) as nat
}

pub open spec fn all_ascii_digits(s: Seq<char>) -> bool {
    forall|i: int| 0 <= i < s.len() ==> is_ascii_digit(#[trigger] s[i])
}

/// The value of a string of decimal digits, most significant first.
pub open spec fn digits_value(s: Seq<char>) -> nat
    decreases s.len(),
{
    if s.len() == 0 {
        0
    } else {
        digits_value(s.drop_last()) * 10 + digit_value(s.last())
    }
}

/// The part of a numeral after an optional leading `+`.
pub open spec fn unsigned_body(s: Seq<char>) -> Seq<char> {
    if s.len() > 0 && s[0] == '+' {
        s.drop_first()
    } else {
        s
    }
}

/// What `str::parse::<usize>` gives for `s`: an optional `+` followed by one
/// or more ASCII digits whose value fits in a `usize`; anything else is refused.
pub open spec fn parsed_usize(s: Seq<char>) -> Option<usize> {
    let d = unsigned_body(s);
    if d.len() > 0 && all_ascii_digits(d) && digits_value(d) <= usize::MAX {
        Some(digits_value(d) as usize)
    } else {
        None
    }
}

/// A prefix never has a larger value than the whole string.
pub proof fn lemma_digits_value_prefix(s: Seq<char>, k: int)
    requires
        0 <= k <= s.len(),
    ensures
        digits_value(s.take(k)) <= digits_value(s),
    decreases s.len(),
{
    if k < s.len() {
        lemma_digits_value_prefix(s.drop_last(), k);
        assert(s.drop_last().take(k) == s.take(k));
    } else {
        assert(s.take(k) == s);
    }
}

/// Parses a decimal numeral as `str::parse::<usize>` does.
pub fn parse_usize(s: &Vec<char>) -> (r: Option<usize>)
    ensures
        r == parsed_usize(s@),
{
    let mut start: usize = 0;
    if s.len() > 0 && s[0] == '+' {
        start = 1;
    }
    let ghost d = unsigned_body(s@);
    assert(d == s@.subrange(start as int, s@.len() as int));
    if start >= s.len() {
        return None;
    }
    let mut value: usize = 0;
    let mut i: usize = start;
    while i < s.len()
        invariant
            start <= i <= s.len(),
            start < s.len(),
            d == unsigned_body(s@),
            d == s@.subrange(start as int, s@.len() as int),
            all_ascii_digits(s@.subrange(start as int, i as int)),
            value == digits_value(s@.subrange(start as int, i as int)),
        decreases s.len() - i,
    {
        let c = s[i];
        if !('0' <= c && c <= '9') {
            assert(d[i - start] == c);
            assert(!all_ascii_digits(d));
            return None;
        }
        let ghost next = s@.subrange(start as int, i + 1);
        assert(next.drop_last() == s@.subrange(start as int, i as int));
        assert(next == d.take(i + 1 - start));
        let dv = (c as u32 - 48) as usize;
        assert(digits_value(next) == value * 10 + dv);
        match value.checked_mul(10) {
            None => {
                proof {
                    lemma_digits_value_prefix(d, i + 1 - start);
                }
                return None;
            },
            Some(v10) => {
                match v10.checked_add(dv) {
                    None => {
                        proof {
                            lemma_digits_value_prefix(d, i + 1 - start);
                        }
                        return None;
                    },
                    Some(nv) => {
                        value = nv;
                    },
                }
            },
        }
        i += 1;
    }
    Some(value)
}

/// The index of the first occurrence of `sep` in `s` at or after `i`, or
/// `s.len()` when there is none (or `sep` is empty).
pub open spec fn first_match(s: Seq<char>, sep: Seq<char>, i: nat) -> nat
    decreases s.len() - i,
{
    if sep.len() == 0 || i + sep.len() > s.len() {
        s.len()
    } else if s.subrange(i as int, (i + sep.len()) as int) == sep {
        i
    } else {
        first_match(s, sep, i + 1)
    }
}

/// `s` cut at every occurrence of the non-empty `sep`, scanning from the left,
/// as `str::split` does with a string pattern.
pub open spec fn split(s: Seq<char>, sep: Seq<char>) -> Seq<Seq<char>>
    decreases s.len(),
{
    let m = first_match(s, sep, 0);
    if sep.len() == 0 || m + sep.len() > s.len() {
        seq![s]
    } else {
        seq![s.take(m as int)] + split(s.skip((m + sep.len()) as int), sep)
    }
}

/// The elements of `parts` joined with `sep` between each two of them.
pub open spec fn join(parts: Seq<Seq<char>>, sep: Seq<char>) -> Seq<char>
    decreases parts.len(),
{
    if parts.len() == 0 {
        Seq::empty()
    } else if parts.len() == 1 {
        parts[0]
    } else {
        parts[0] + sep + join(parts.drop_first(), sep)
    }
}

pub proof fn lemma_join_push(parts: Seq<Seq<char>>, sep: Seq<char>, x: Seq<char>)
    requires
        parts.len() >= 1,
    ensures
        join(parts.push(x), sep) == join(parts, sep) + sep + x,
    decreases parts.len(),
{
    if parts.len() == 1 {
        assert(parts.push(x).drop_first() == seq![x]);
        assert(join(seq![x], sep) == x);
    } else {
        let rest = parts.drop_first();
        lemma_join_push(rest, sep, x);
        assert(parts.push(x).drop_first() == rest.push(x));
        assert(parts.push(x)[0] == parts[0]);
        assert(join(parts.push(x), sep) == parts[0] + sep + join(rest.push(x), sep));
        assert(join(rest.push(x), sep) == join(rest, sep) + sep + x);
        assert(join(parts, sep) == parts[0] + sep + join(rest, sep));
        assert(parts[0] + sep + (join(rest, sep) + sep + x) == (parts[0] + sep + join(rest, sep))
            + sep + x);
    }
}

/// The character sequences held by a vector of character vectors.
pub open spec fn seqs_of(v: Seq<Vec<char>>) -> Seq<Seq<char>> {
    v.map_values(|x: Vec<char>| x@)
}

/// Joining one more element of `parts`.
pub proof fn lemma_join_take_step(parts: Seq<Seq<char>>, sep: Seq<char>, k: int)
    requires
        0 <= k < parts.len(),
    ensures
        join(parts.take(k + 1), sep) == if k == 0 {
            parts[0]
        } else {
            join(parts.take(k), sep) + sep + parts[k]
        },
{
    assert(parts.take(k + 1) == parts.take(k).push(parts[k]));
    if k == 0 {
        assert(parts.take(1).len() == 1);
    } else {
        lemma_join_push(parts.take(k), sep, parts[k]);
    }
}

/// No occurrence of `sep` starts inside `p` when `sep` follows it.
pub open spec fn no_early_match(p: Seq<char>, sep: Seq<char>) -> bool {
    forall|j: int|
        0 <= j < p.len() ==> #[trigger] (p + sep).subrange(j, j + sep.len()) != sep
}

/// No occurrence of `sep` lies within `p`.
pub open spec fn no_match(p: Seq<char>, sep: Seq<char>) -> bool {
    forall|j: int|
        0 <= j && j + sep.len() <= p.len() ==> #[trigger] p.subrange(j, j + sep.len()) != sep
}

proof fn lemma_first_match_none(s: Seq<char>, sep: Seq<char>, i: nat)
    requires
        sep.len() > 0,
        i <= s.len(),
        no_match(s, sep),
    ensures
        first_match(s, sep, i) == s.len(),
    decreases s.len() - i,
{
    if i + sep.len() <= s.len() {
        assert(s.subrange(i as int, (i + sep.len()) as int) != sep);
        lemma_first_match_none(s, sep, i + 1);
    }
}

proof fn lemma_first_match_at(s: Seq<char>, sep: Seq<char>, i: nat, m: nat)
    requires
        sep.len() > 0,
        i <= m,
        m + sep.len() <= s.len(),
        s.subrange(m as int, (m + sep.len()) as int) == sep,
        forall|j: int| i <= j < m ==> #[trigger] s.subrange(j, j + sep.len()) != sep,
    ensures
        first_match(s, sep, i) == m,
    decreases m - i,
{
    if i < m {
        assert(s.subrange(i as int, (i + sep.len()) as int) != sep);
        lemma_first_match_at(s, sep, i + 1, m);
    }
}

proof fn lemma_first_match_before_break(a: Seq<char>, b: Seq<char>, c: char, i: nat)
    requires
        i <= a.len(),
    ensures
        first_match(a + seq![c] + b, seq![c], i) == first_match(a, seq![c], i),
    decreases a.len() - i,
{
    let s = a + seq![c] + b;
    if i == a.len() {
        assert(s.subrange(i as int, i + 1int) == seq![c]);
    } else {
        assert(s.subrange(i as int, i + 1int) == a.subrange(i as int, i + 1int));
        lemma_first_match_before_break(a, b, c, i + 1);
    }
}

/// Splitting at a one-character separator: text made of two pieces joined
/// by the separator splits into the parts of the first piece, then those of
/// the second.
pub proof fn lemma_split_at_break(a: Seq<char>, b: Seq<char>, c: char)
    ensures
        split(a + seq![c] + b, seq![c]) == split(a, seq![c]) + split(b, seq![c]),
    decreases a.len(),
{
    let sep = seq![c];
    let s = a + sep + b;
    lemma_first_match_before_break(a, b, c, 0);
    let m = first_match(a, sep, 0);
    if m + 1 > a.len() {
        assert(m == a.len()) by {
            lemma_first_match_bound(a, sep, 0);
        }
        assert(s.take(m as int) == a);
        assert(s.skip(m + 1int) == b);
    } else {
        lemma_first_match_bound(a, sep, 0);
        let rest = a.skip(m + 1int);
        lemma_split_at_break(rest, b, c);
        assert(s.take(m as int) == a.take(m as int));
        assert(s.skip(m + 1int) == rest + sep + b);
    }
}

proof fn lemma_first_match_bound(s: Seq<char>, sep: Seq<char>, i: nat)
    requires
        i <= s.len(),
    ensures
        i <= first_match(s, sep, i) <= s.len(),
    decreases s.len() - i,
{
    if !(sep.len() == 0 || i + sep.len() > s.len()) && s.subrange(i as int, (i + sep.len()) as int) != sep {
        lemma_first_match_bound(s, sep, i + 1);
    }
}

/// A string without any occurrence of `sep` is split into itself alone.
pub proof fn lemma_split_no_match(p: Seq<char>, sep: Seq<char>)
    requires
        sep.len() > 0,
        no_match(p, sep),
    ensures
        split(p, sep) == seq![p],
{
    lemma_first_match_none(p, sep, 0);
}

/// Splitting undoes joining when no occurrence of `sep` starts inside a part.
pub proof fn lemma_split_join(ps: Seq<Seq<char>>, sep: Seq<char>)
    requires
        ps.len() >= 1,
        sep.len() > 0,
        forall|k: int| 0 <= k < ps.len() - 1 ==> no_early_match(#[trigger] ps[k], sep),
        no_match(ps.last(), sep),
    ensures
        split(join(ps, sep), sep) == ps,
    decreases ps.len(),
{
    if ps.len() == 1 {
        lemma_split_no_match(ps[0], sep);
        assert(seq![ps[0]] == ps);
    } else {
        let p = ps[0];
        let rest = ps.drop_first();
        assert forall|k: int| 0 <= k < rest.len() - 1 implies no_early_match(#[trigger] rest[k], sep) by {
            assert(rest[k] == ps[k + 1]);
        }
        assert(rest.last() == ps.last());
        lemma_split_join(rest, sep);
        let t = join(ps, sep);
        let r = join(rest, sep);
        assert(t == p + sep + r);
        assert(no_early_match(ps[0], sep));
        assert forall|j: int| 0 <= j < p.len() implies #[trigger] t.subrange(j, j + sep.len()) != sep by {
            assert(t.subrange(j, j + sep.len()) == (p + sep).subrange(j, j + sep.len()));
        }
        assert(t.subrange(p.len() as int, (p.len() + sep.len()) as int) == sep);
        lemma_first_match_at(t, sep, 0, p.len());
        assert(t.take(p.len() as int) == p);
        assert(t.skip((p.len() + sep.len()) as int) == r);
        assert(seq![p] + rest == ps);
    }
}

/// `parts` with `a` in front of the first element and `b` after the last.
pub open spec fn wrap(parts: Seq<Seq<char>>, a: Seq<char>, b: Seq<char>) -> Seq<Seq<char>> {
    Seq::new(
        parts.len(),
        |k: int|
            (if k == 0 {
                a
            } else {
                Seq::empty()
            }) + parts[k] + (if k == parts.len() - 1 {
                b
            } else {
                Seq::empty()
            }),
    )
}

/// Text around a join can be moved into its first and last parts.
pub proof fn lemma_join_wrap(parts: Seq<Seq<char>>, sep: Seq<char>, a: Seq<char>, b: Seq<char>)
    requires
        parts.len() >= 1,
    ensures
        a + join(parts, sep) + b == join(wrap(parts, a, b), sep),
    decreases parts.len(),
{
    let w = wrap(parts, a, b);
    if parts.len() == 1 {
        assert(w[0] == a + parts[0] + b);
    } else {
        let rest = parts.drop_first();
        lemma_join_wrap(rest, sep, Seq::empty(), b);
        let wr = wrap(rest, Seq::empty(), b);
        assert(w.drop_first() == wr) by {
            assert forall|k: int| 0 <= k < wr.len() implies w.drop_first()[k] == wr[k] by {
                assert(Seq::<char>::empty() + rest[k] == rest[k]);
            }
        }
        assert(w[0] == a + parts[0]);
        assert(Seq::<char>::empty() + join(rest, sep) + b == join(wr, sep));
        assert(Seq::<char>::empty() + join(rest, sep) == join(rest, sep));
        assert(a + join(parts, sep) + b == (a + parts[0]) + sep + (join(rest, sep) + b));
    }
}

/// The elements `lo..hi` of `s` as a new vector.
pub fn sub_vec(s: &Vec<char>, lo: usize, hi: usize) -> (r: Vec<char>)
    requires
        lo <= hi <= s.len(),
    ensures
        r@ == s@.subrange(lo as int, hi as int),
{
    let mut r: Vec<char> = Vec::new();
    let mut i = lo;
    while i < hi
        invariant
            lo <= i <= hi <= s.len(),
            r@ == s@.subrange(lo as int, i as int),
        decreases hi - i,
    {
        r.push(s[i]);
        i += 1;
    }
    r
}

pub fn matches_at(s: &Vec<char>, sep: &Vec<char>, i: usize) -> (b: bool)
    requires
        i + sep.len() <= s.len(),
    ensures
        b == (s@.subrange(i as int, i + sep.len()) == sep@),
{
    let mut j: usize = 0;
    while j < sep.len()
        invariant
            j <= sep.len(),
            i + sep.len() <= s.len(),
            s@.subrange(i as int, i + j) == sep@.take(j as int),
        decreases sep.len() - j,
    {
        if s[i + j] != sep[j] {
            assert(s@.subrange(i as int, i + sep.len())[j as int] != sep@[j as int]);
            return false;
        }
        assert(s@.subrange(i as int, i + j + 1) == s@.subrange(i as int, i + j).push(s@[i + j]));
        assert(sep@.take(j + 1) == sep@.take(j as int).push(sep@[j as int]));
        j += 1;
    }
    assert(sep@.take(sep.len() as int) == sep@);
    true
}

/// Splits `s` at every occurrence of `sep`, scanning from the left.
pub fn split_vec(s: &Vec<char>, sep: &Vec<char>) -> (parts: Vec<Vec<char>>)
    requires
        sep.len() > 0,
    ensures
        seqs_of(parts@) == split(s@, sep@),
{
    let mut parts: Vec<Vec<char>> = Vec::new();
    let mut start: usize = 0;
    let mut i: usize = 0;
    let n = s.len();
    let m = sep.len();
    assert(s@.skip(0) == s@);
    assert(seqs_of(parts@) + split(s@, sep@) == split(s@, sep@));
    while i <= n && m <= n - i
        invariant
            start <= i <= n,
            n == s.len(),
            m == sep.len(),
            m > 0,
            first_match(s@.skip(start as int), sep@, 0) == first_match(
                s@.skip(start as int),
                sep@,
                (i - start) as nat,
            ),
            seqs_of(parts@) + split(s@.skip(start as int), sep@) == split(s@, sep@),
        decreases n - i,
    {
        let ghost rest = s@.skip(start as int);
        let ghost k = (i - start) as nat;
        assert(rest.subrange(k as int, k + m) == s@.subrange(i as int, i + m));
        if matches_at(s, sep, i) {
            let piece = sub_vec(s, start, i);
            proof {
                assert(rest.take(k as int) == piece@);
                assert(rest.skip(k + m) == s@.skip(i + m));
                assert(split(rest, sep@) == seq![piece@] + split(s@.skip(i + m), sep@));
                assert(seqs_of(parts@).push(piece@) + split(s@.skip(i + m), sep@)
                    == seqs_of(parts@) + split(rest, sep@));
            }
            let ghost old_parts = parts@;
            parts.push(piece);
            assert(parts@ == old_parts.push(piece));
            assert(seqs_of(parts@) == seqs_of(old_parts).push(piece@));
            i = i + m;
            start = i;
        } else {
            assert(first_match(rest, sep@, k) == first_match(rest, sep@, k + 1));
            i = i + 1;
        }
    }
    let last = sub_vec(s, start, n);
    proof {
        let rest = s@.skip(start as int);
        assert(rest == last@);
        assert(split(rest, sep@) == seq![last@]);
        assert(seqs_of(parts@).push(last@) == seqs_of(parts@) + split(rest, sep@));
    }
    let ghost old_parts = parts@;
    parts.push(last);
    assert(parts@ == old_parts.push(last));
    assert(seqs_of(parts@) == seqs_of(old_parts).push(last@));
    parts
}

} // verus!
