use vstd::prelude::*;
use vstd::string::StringExecFns;

verus! {

/// Strict lexicographic order on character sequences, comparing characters by
/// their code points; on strings it agrees with the byte order of their UTF-8
/// encodings, which is how `String` is ordered.
pub open spec fn lex_lt(a: Seq<char>, b: Seq<char>) -> bool
    decreases a.len(),
{
    if a.len() == 0 {
        b.len() > 0
    } else if b.len() == 0 {
        false
    } else if a[0] != b[0] {
        (a[0] as u32) < (b[0] as u32)
    } else {
        lex_lt(a.drop_first(), b.drop_first())
    }
}

/// `lex_lt` is irreflexive and transitive, and relates any two distinct sequences
/// one way or the other.
pub proof fn lemma_lex_lt_order(a: Seq<char>, b: Seq<char>, c: Seq<char>)
    ensures
        !lex_lt(a, a),
        lex_lt(a, b) && lex_lt(b, c) ==> lex_lt(a, c),
        a != b ==> lex_lt(a, b) || lex_lt(b, a),
        !(lex_lt(a, b) && lex_lt(b, a)),
    decreases a.len(),
{
    if a.len() > 0 && b.len() > 0 && c.len() > 0 {
        lemma_lex_lt_order(a.drop_first(), b.drop_first(), c.drop_first());
    }
    if a.len() > 0 && b.len() > 0 {
        if a[0] != b[0] {
            vstd::utf8::char_u32_cast(a[0], a[0] as u32);
            vstd::utf8::char_u32_cast(b[0], b[0] as u32);
        }
        lemma_lex_lt_order(a.drop_first(), b.drop_first(), b.drop_first());
        if a != b && a[0] == b[0] {
            assert(a.drop_first() != b.drop_first()) by {
                if a.drop_first() == b.drop_first() {
                    assert(a =~= seq![a[0]] + a.drop_first());
                    assert(b =~= seq![b[0]] + b.drop_first());
                }
            }
        }
    }
    if a.len() > 0 {
        lemma_lex_lt_order(a.drop_first(), a.drop_first(), a.drop_first());
    }
    if a.len() == 0 && b.len() == 0 {
        assert(a =~= b);
    }
}

/// The characters of `s`, one by one.
pub fn chars_of(s: &str) -> (r: Vec<char>)
    ensures
        r@ == s@,
{
    let mut r: Vec<char> = Vec::new();
    for c in it: s.chars()
        invariant
            r@ == it.seq().take(it.index() as int),
            it.seq() == s@,
    {
        r.push(c);
    }
    r
}

/// Appends `c` to `s` with `String::push`.
#[verifier::external_body]
pub(crate) fn push_char(s: &mut String, c: char)
    ensures
        final(s)@ == old(s)@.push(c),
{
    s.push(c);
}

/// A string holding the characters of `cs`.
pub fn string_of(cs: &Vec<char>) -> (r: String)
    ensures
        r@ == cs@,
{
    let mut r = String::new();
    let mut i: usize = 0;
    while i < cs.len()
        invariant
            i <= cs@.len(),
            r@ == cs@.take(i as int),
        decreases cs@.len() - i,
    {
        push_char(&mut r, cs[i]);
        proof {
            assert(cs@.take(i + 1) =~= cs@.take(i as int).push(cs@[i as int]));
        }
        i = i + 1;
    }
    proof {
        assert(cs@.take(cs@.len() as int) =~= cs@);
    }
    r
}

/// `a` comes before `b` in the lexicographic order of strings.
pub fn lex_less(a: &Vec<char>, b: &Vec<char>) -> (r: bool)
    ensures
        r == lex_lt(a@, b@),
{
    let mut i: usize = 0;
    proof {
        assert(a@.skip(0) =~= a@);
        assert(b@.skip(0) =~= b@);
    }
    while i < a.len() && i < b.len() && a[i] == b[i]
        invariant
            i <= a@.len(),
            i <= b@.len(),
            lex_lt(a@.skip(i as int), b@.skip(i as int)) == lex_lt(a@, b@),
        decreases a@.len() - i,
    {
        proof {
            assert(a@.skip(i as int).drop_first() =~= a@.skip(i + 1));
            assert(b@.skip(i as int).drop_first() =~= b@.skip(i + 1));
        }
        i = i + 1;
    }
    if i == a.len() {
        i < b.len()
    } else if i == b.len() {
        false
    } else {
        (a[i] as u32) < (b[i] as u32)
    }
}

/// The decimal digit for `d`.
pub open spec fn digit_char(d: nat) -> char {
    if d == 0 {
        '0'
    } else if d == 1 {
        '1'
    } else if d == 2 {
        '2'
    } else if d == 3 {
        '3'
    } else if d == 4 {
        '4'
    } else if d == 5 {
        '5'
    } else if d == 6 {
        '6'
    } else if d == 7 {
        '7'
    } else if d == 8 {
        '8'
    } else {
        '9'
    }
}

/// The decimal representation of `n`, without leading zeros.
pub open spec fn decimal(n: nat) -> Seq<char>
    decreases n,
{
    if n < 10 {
        seq![digit_char(n)]
    } else {
        decimal(n / 10).push(digit_char(n % 10))
    }
}

fn digit(d: usize) -> (c: char)
    requires
        d < 10,
    ensures
        c == digit_char(d as nat),
{
    if d == 0 {
        '0'
    } else if d == 1 {
        '1'
    } else if d == 2 {
        '2'
    } else if d == 3 {
        '3'
    } else if d == 4 {
        '4'
    } else if d == 5 {
        '5'
    } else if d == 6 {
        '6'
    } else if d == 7 {
        '7'
    } else if d == 8 {
        '8'
    } else {
        '9'
    }
}

/// Appends the decimal representation of `n` to `s`.
pub fn append_decimal(s: &mut String, n: usize)
    ensures
        final(s)@ == old(s)@ + decimal(n as nat),
    decreases n,
{
    if n < 10 {
        push_char(s, digit(n));
        proof {
            assert(old(s)@.push(digit_char(n as nat)) =~= old(s)@ + decimal(n as nat));
        }
    } else {
        append_decimal(s, n / 10);
        push_char(s, digit(n % 10));
        proof {
            assert(decimal(n as nat) == decimal((n / 10) as nat).push(digit_char((n % 10) as nat)));
            assert(old(s)@ + decimal((n / 10) as nat) + seq![digit_char((n % 10) as nat)] =~= old(s)@ + decimal(n as nat));
        }
    }
}

/// `s` is strictly increasing in the lexicographic order.
pub open spec fn strictly_sorted(s: Seq<Seq<char>>) -> bool {
    forall|i: int, j: int| 0 <= i < j < s.len() ==> lex_lt(#[trigger] s[i], #[trigger] s[j])
}

/// `r` lists, in increasing order and once each, the sequences that occur in `items`.
pub open spec fn is_sorted_set_of(r: Seq<Seq<char>>, items: Seq<Seq<char>>) -> bool {
    &&& strictly_sorted(r)
    &&& forall|x: Seq<char>| r.contains(x) <==> items.contains(x)
}

/// The sequences that occur in `items`, in increasing order and once each.
pub open spec fn sorted_set(items: Seq<Seq<char>>) -> Seq<Seq<char>> {
    choose|r: Seq<Seq<char>>| is_sorted_set_of(r, items)
}

/// Two strictly increasing sequences with the same elements are equal.
pub proof fn lemma_sorted_set_unique(r1: Seq<Seq<char>>, r2: Seq<Seq<char>>)
    requires
        strictly_sorted(r1),
        strictly_sorted(r2),
        forall|x: Seq<char>| r1.contains(x) <==> r2.contains(x),
    ensures
        r1 == r2,
{
    assert forall|a: Seq<char>, b: Seq<char>, c: Seq<char>|
        #![trigger lex_lt(a, b), lex_lt(b, c)] lex_lt(a, b) && lex_lt(b, c) implies lex_lt(a, c) by {
        lemma_lex_lt_order(a, b, c);
    }
    let n1 = r1.len();
    let n2 = r2.len();
    let m: int = if n1 <= n2 { n1 as int } else { n2 as int };
    lemma_sorted_agree(r1, r2, m);
    if n1 > n2 {
        let x = r1[n2 as int];
        assert(r1.contains(x));
        let j = choose|j: int| 0 <= j < r2.len() && r2[j] == x;
        assert(r1[j] == x);
        lemma_lex_lt_order(x, x, x);
    }
    if n2 > n1 {
        let x = r2[n1 as int];
        assert(r2.contains(x));
        let j = choose|j: int| 0 <= j < r1.len() && r1[j] == x;
        assert(r2[j] == x);
        lemma_lex_lt_order(x, x, x);
    }
    assert(r1 =~= r2);
}

proof fn lemma_sorted_agree(r1: Seq<Seq<char>>, r2: Seq<Seq<char>>, n: int)
    requires
        strictly_sorted(r1),
        strictly_sorted(r2),
        forall|x: Seq<char>| r1.contains(x) <==> r2.contains(x),
        0 <= n <= r1.len(),
        n <= r2.len(),
    ensures
        forall|k: int| 0 <= k < n ==> r1[k] == r2[k],
    decreases n,
{
    if n > 0 {
        lemma_sorted_agree(r1, r2, n - 1);
        let p = n - 1;
        let x = r1[p];
        assert(r1.contains(x));
        let j = choose|j: int| 0 <= j < r2.len() && r2[j] == x;
        let y = r2[p];
        assert(r2.contains(y));
        let k = choose|k: int| 0 <= k < r1.len() && r1[k] == y;
        lemma_lex_lt_order(x, x, x);
        lemma_lex_lt_order(y, y, y);
        lemma_lex_lt_order(y, x, y);
        lemma_lex_lt_order(x, y, x);
        if j < p {
            assert(r1[j] == x);
        }
        if k < p {
            assert(r2[k] == y);
        }
        if j > p {
            assert(lex_lt(r2[p], r2[j]));
            if k > p {
                assert(lex_lt(r1[p], r1[k]));
            }
        }
        assert(j == p);
    }
}

/// `sorted_set(items)` is the one sequence that lists the elements of `items`
/// in increasing order, once each.
pub proof fn lemma_sorted_set(r: Seq<Seq<char>>, items: Seq<Seq<char>>)
    requires
        is_sorted_set_of(r, items),
    ensures
        sorted_set(items) == r,
{
    let c = sorted_set(items);
    assert(is_sorted_set_of(c, items));
    lemma_sorted_set_unique(c, r);
}

/// `a` and `b` hold the same characters.
pub fn chars_equal(a: &Vec<char>, b: &Vec<char>) -> (r: bool)
    ensures
        r == (a@ == b@),
{
    proof {
        lemma_lex_lt_order(a@, b@, b@);
        lemma_lex_lt_order(b@, a@, a@);
    }
    !lex_less(a, b) && !lex_less(b, a)
}

/// Indices into `items` of its distinct sequences in increasing order, the
/// first occurrence of each.
pub fn sorted_distinct_indices(items: &Vec<Vec<char>>) -> (r: Vec<usize>)
    ensures
        forall|k: int| 0 <= k < r@.len() ==> #[trigger] r@[k] < items@.len(),
        is_sorted_set_of(
            r@.map_values(|k: usize| items@[k as int]@),
            items@.map_values(|v: Vec<char>| v@),
        ),
{
    let ghost all = items@.map_values(|v: Vec<char>| v@);
    let mut r: Vec<usize> = Vec::new();
    let mut i: usize = 0;
    while i < items.len()
        invariant
            i <= items@.len(),
            all == items@.map_values(|v: Vec<char>| v@),
            forall|k: int| 0 <= k < r@.len() ==> #[trigger] r@[k] < items@.len(),
            strictly_sorted(r@.map_values(|k: usize| items@[k as int]@)),
            forall|x: Seq<char>|
                r@.map_values(|k: usize| items@[k as int]@).contains(x) <==> all.take(i as int).contains(x),
        decreases items@.len() - i,
    {
        let ghost view = r@.map_values(|k: usize| items@[k as int]@);
        let ghost x = items@[i as int]@;
        let mut pos: usize = 0;
        while pos < r.len() && lex_less(&items[r[pos]], &items[i])
            invariant
                pos <= r@.len(),
                forall|k: int| 0 <= k < r@.len() ==> #[trigger] r@[k] < items@.len(),
                view == r@.map_values(|k: usize| items@[k as int]@),
                x == items@[i as int]@,
                i < items@.len(),
                forall|k: int| 0 <= k < pos ==> lex_lt(#[trigger] view[k], x),
            decreases r@.len() - pos,
        {
            pos = pos + 1;
        }
        let present = pos < r.len() && chars_equal(&items[r[pos]], &items[i]);
        let ghost t0 = all.take(i as int);
        let ghost t1 = all.take(i + 1);
        proof {
            assert(t1 =~= t0.push(x));
            assert forall|a: Seq<char>, b: Seq<char>, c: Seq<char>|
                #![trigger lex_lt(a, b), lex_lt(b, c)] lex_lt(a, b) && lex_lt(b, c) implies lex_lt(a, c) by {
                lemma_lex_lt_order(a, b, c);
            }
            // the elements from pos on come after x
            assert forall|k: int| pos <= k < view.len() && view[k] != x implies lex_lt(x, #[trigger] view[k]) by {
                lemma_lex_lt_order(view[pos as int], x, x);
                lemma_lex_lt_order(x, view[pos as int], view[k]);
                if k > pos {
                    assert(lex_lt(view[pos as int], view[k]));
                }
                lemma_lex_lt_order(x, view[k], view[k]);
                lemma_lex_lt_order(view[k], x, x);
            }
        }
        if !present {
            r.insert(pos, i);
            proof {
                let nv = r@.map_values(|k: usize| items@[k as int]@);
                assert(nv =~= view.insert(pos as int, x));
                assert forall|a: int, b: int| 0 <= a < b < nv.len() implies lex_lt(#[trigger] nv[a], #[trigger] nv[b]) by {
                    if b < pos {
                    } else if a < pos && b == pos {
                    } else if a < pos {
                        assert(lex_lt(nv[a], x));
                        assert(nv[b] == view[b - 1]);
                        if view[b - 1] == x {
                            lemma_lex_lt_order(x, x, x);
                            assert(view.contains(x));
                            let q = choose|q: int| 0 <= q < view.len() && view[q] == x;
                            if q < pos {
                                lemma_lex_lt_order(x, x, x);
                            } else if q > pos {
                                assert(lex_lt(view[pos as int], view[q]));
                                assert(lex_lt(x, view[pos as int]));
                                lemma_lex_lt_order(x, view[pos as int], x);
                                lemma_lex_lt_order(x, x, x);
                            }
                        }
                    } else if a == pos {
                        if view[b - 1] == x {
                            let q = b - 1;
                            if q > pos {
                                assert(lex_lt(view[pos as int], view[q]));
                                assert(lex_lt(x, view[pos as int]));
                                lemma_lex_lt_order(x, view[pos as int], x);
                                lemma_lex_lt_order(x, x, x);
                            }
                        }
                    } else {
                        assert(nv[a] == view[a - 1]);
                        assert(nv[b] == view[b - 1]);
                    }
                }
                assert forall|y: Seq<char>| nv.contains(y) <==> t1.contains(y) by {
                    if nv.contains(y) {
                        let q = choose|q: int| 0 <= q < nv.len() && nv[q] == y;
                        if q < pos {
                            assert(view[q] == y);
                        } else if q > pos {
                            assert(view[q - 1] == y);
                        } else {
                            assert(t1[i as int] == y);
                        }
                        if y != x {
                            assert(view.contains(y));
                            assert(t0.contains(y));
                            let w = choose|w: int| 0 <= w < i && t0[w] == y;
                            assert(t1[w] == y);
                        } else {
                            assert(t1[i as int] == y);
                        }
                    }
                    if t1.contains(y) {
                        let w = choose|w: int| 0 <= w < i + 1 && t1[w] == y;
                        if w < i {
                            assert(t0[w] == y);
                            assert(t0.contains(y));
                            assert(view.contains(y));
                            let q = choose|q: int| 0 <= q < view.len() && view[q] == y;
                            if q < pos {
                                assert(nv[q] == y);
                            } else {
                                assert(nv[q + 1] == y);
                            }
                        } else {
                            assert(nv[pos as int] == y);
                        }
                    }
                }
            }
        } else {
            proof {
                assert(view[pos as int] == x);
                assert forall|y: Seq<char>| view.contains(y) <==> t1.contains(y) by {
                    if t1.contains(y) {
                        let w = choose|w: int| 0 <= w < i + 1 && t1[w] == y;
                        if w < i {
                            assert(t0[w] == y);
                            assert(t0.contains(y));
                        } else {
                            assert(view.contains(y));
                        }
                    }
                    if view.contains(y) {
                        assert(t0.contains(y));
                        let w = choose|w: int| 0 <= w < i && t0[w] == y;
                        assert(t1[w] == y);
                    }
                }
            }
        }
        i = i + 1;
    }
    proof {
        assert(all.take(items@.len() as int) =~= all);
    }
    r
}

/// The texts `f(x)` for the elements `x` of `s`, laid end to end.
pub open spec fn concat_map<A>(s: Seq<A>, f: spec_fn(A) -> Seq<char>) -> Seq<char>
    decreases s.len(),
{
    if s.len() == 0 {
        Seq::empty()
    } else {
        concat_map(s.drop_last(), f) + f(s.last())
    }
}

/// Extending the mapped prefix by one element appends that element's text.
pub proof fn lemma_concat_map_step<A>(s: Seq<A>, f: spec_fn(A) -> Seq<char>, i: int)
    requires
        0 <= i < s.len(),
    ensures
        concat_map(s.take(i + 1), f) == concat_map(s.take(i), f) + f(s[i]),
{
    assert(s.take(i + 1).drop_last() =~= s.take(i));
}

/// The texts of two sequences laid end to end are those of their concatenation.
pub proof fn lemma_concat_map_add<A>(x: Seq<A>, y: Seq<A>, f: spec_fn(A) -> Seq<char>)
    ensures
        concat_map(x + y, f) == concat_map(x, f) + concat_map(y, f),
    decreases y.len(),
{
    if y.len() == 0 {
        assert(x + y =~= x);
        assert(concat_map(x, f) + concat_map(y, f) =~= concat_map(x, f));
    } else {
        lemma_concat_map_add(x, y.drop_last(), f);
        assert((x + y).drop_last() =~= x + y.drop_last());
        assert((x + y).last() == y.last());
        assert(concat_map(x, f) + concat_map(y, f) =~= concat_map(x, f) + concat_map(y.drop_last(), f)
            + f(y.last()));
    }
}

/// The text of element `j` stands in the texts laid end to end, between those
/// of the elements before it and those after it.
pub proof fn lemma_concat_map_split<A>(s: Seq<A>, f: spec_fn(A) -> Seq<char>, j: int)
    requires
        0 <= j < s.len(),
    ensures
        concat_map(s, f) == concat_map(s.take(j), f) + f(s[j]) + concat_map(s.skip(j + 1), f),
{
    assert(s =~= s.take(j) + seq![s[j]] + s.skip(j + 1));
    lemma_concat_map_add(s.take(j) + seq![s[j]], s.skip(j + 1), f);
    lemma_concat_map_add(s.take(j), seq![s[j]], f);
    let one = seq![s[j]];
    assert(one.drop_last() =~= Seq::<A>::empty());
    assert(concat_map(one.drop_last(), f) =~= Seq::<char>::empty());
    assert(one.last() == s[j]);
    assert(concat_map(one, f) =~= f(s[j]));
}

/// The whole sequence is its longest prefix.
pub proof fn lemma_take_all<A>(s: Seq<A>)
    ensures
        s.take(s.len() as int) == s,
{
    assert(s.take(s.len() as int) =~= s);
}

/// The index of the first occurrence of `c` in `s`.
pub open spec fn index_of(s: Seq<char>, c: char) -> Option<int>
    decreases s.len(),
{
    if s.len() == 0 {
        None
    } else if s.last() == c && index_of(s.drop_last(), c) is None {
        Some(s.len() - 1)
    } else {
        index_of(s.drop_last(), c)
    }
}

/// `s` split around its first `c`, as `str::split_once` does.
pub open spec fn split_once_spec(s: Seq<char>, c: char) -> Option<(Seq<char>, Seq<char>)> {
    match index_of(s, c) {
        None => None,
        Some(i) => Some((s.take(i), s.skip(i + 1))),
    }
}

proof fn lemma_index_of_step(s: Seq<char>, c: char, i: int)
    requires
        0 <= i < s.len(),
        index_of(s.take(i), c) is None,
    ensures
        index_of(s.take(i + 1), c) == (if s[i] == c { Some(i) } else { None::<int> }),
{
    assert(s.take(i + 1).drop_last() =~= s.take(i));
}

proof fn lemma_index_of_found(s: Seq<char>, c: char, i: int)
    requires
        0 <= i < s.len(),
        index_of(s.take(i + 1), c) == Some(i),
    ensures
        index_of(s, c) == Some(i),
    decreases s.len(),
{
    if s.len() > i + 1 {
        assert(s.drop_last().take(i + 1) =~= s.take(i + 1));
        lemma_index_of_found(s.drop_last(), c, i);
    } else {
        assert(s.take(i + 1) =~= s);
    }
}

proof fn lemma_index_of_none(s: Seq<char>, c: char, k: int)
    requires
        0 <= k <= s.len(),
        index_of(s.take(k), c) is None,
        forall|j: int| k <= j < s.len() ==> s[j] != c,
    ensures
        index_of(s, c) is None,
    decreases s.len() - k,
{
    if k < s.len() {
        lemma_index_of_step(s, c, k);
        lemma_index_of_none(s, c, k + 1);
    } else {
        assert(s.take(k) =~= s);
    }
}

/// Splits `s` around its first `c`, as `str::split_once` does.
pub fn split_once(s: &Vec<char>, c: char) -> (r: Option<(Vec<char>, Vec<char>)>)
    ensures
        match split_once_spec(s@, c) {
            None => r is None,
            Some((a, b)) => r matches Some((x, y)) && x@ == a && y@ == b,
        },
{
    let mut i: usize = 0;
    proof {
        assert(s@.take(0) =~= Seq::<char>::empty());
    }
    while i < s.len() && s[i] != c
        invariant
            i <= s@.len(),
            index_of(s@.take(i as int), c) is None,
        decreases s@.len() - i,
    {
        proof {
            lemma_index_of_step(s@, c, i as int);
        }
        i = i + 1;
    }
    if i == s.len() {
        proof {
            lemma_index_of_none(s@, c, i as int);
        }
        return None;
    }
    proof {
        lemma_index_of_step(s@, c, i as int);
        lemma_index_of_found(s@, c, i as int);
    }
    let mut a: Vec<char> = Vec::new();
    let mut k: usize = 0;
    while k < i
        invariant
            k <= i < s@.len(),
            a@ == s@.take(k as int),
        decreases i - k,
    {
        a.push(s[k]);
        proof {
            assert(s@.take(k + 1) =~= s@.take(k as int).push(s@[k as int]));
        }
        k = k + 1;
    }
    let mut b: Vec<char> = Vec::new();
    let mut m: usize = i + 1;
    while m < s.len()
        invariant
            i < m <= s@.len(),
            b@ == s@.subrange(i + 1, m as int),
        decreases s@.len() - m,
    {
        b.push(s[m]);
        proof {
            assert(s@.subrange(i + 1, m + 1) =~= s@.subrange(i + 1, m as int).push(s@[m as int]));
        }
        m = m + 1;
    }
    proof {
        assert(b@ =~= s@.skip(i + 1));
    }
    Some((a, b))
}

/// The value of the decimal digit `c`, if it is one.
pub open spec fn digit_value(c: char) -> Option<nat> {
    if '0' <= c && c <= '9' {
        Some((c as u32 - '0' as u32) as nat)
    } else {
        None
    }
}

/// `s` consists of decimal digits only.
pub open spec fn all_digits(s: Seq<char>) -> bool {
    forall|i: int| 0 <= i < s.len() ==> #[trigger] digit_value(s[i]) is Some
}

/// The number that the decimal digits `s` write.
pub open spec fn decimal_value(s: Seq<char>) -> nat
    decreases s.len(),
{
    if s.len() == 0 {
        0
    } else {
        decimal_value(s.drop_last()) * 10 + match digit_value(s.last()) {
            Some(d) => d,
            None => 0,
        }
    }
}

/// What `usize::from_str` gives: the number that `s` writes in decimal, after
/// an optional `+`, if there is at least one digit, only digits, and the
/// number fits in `usize`.
pub open spec fn parse_usize_spec(s: Seq<char>) -> Option<usize> {
    let d = if s.len() > 0 && s[0] == '+' { s.drop_first() } else { s };
    if d.len() == 0 || !all_digits(d) || decimal_value(d) > usize::MAX {
        None
    } else {
        Some(decimal_value(d) as usize)
    }
}

proof fn lemma_decimal_value_grows(s: Seq<char>, k: int)
    requires
        0 <= k <= s.len(),
        all_digits(s),
    ensures
        decimal_value(s.take(k)) <= decimal_value(s),
    decreases s.len() - k,
{
    if k < s.len() {
        lemma_decimal_value_grows(s, k + 1);
        assert(s.take(k + 1).drop_last() =~= s.take(k));
        assert(decimal_value(s.take(k)) <= decimal_value(s.take(k + 1))) by (nonlinear_arith)
            requires
                decimal_value(s.take(k + 1)) >= decimal_value(s.take(k)) * 10,
        {}
    } else {
        assert(s.take(k) =~= s);
    }
}

/// Parses a decimal number as `usize::from_str` does.
pub fn parse_usize(s: &Vec<char>) -> (r: Option<usize>)
    ensures
        r == parse_usize_spec(s@),
{
    let start: usize = if s.len() > 0 && s[0] == '+' { 1 } else { 0 };
    let ghost d = if s@.len() > 0 && s@[0] == '+' { s@.drop_first() } else { s@ };
    proof {
        assert(d =~= s@.skip(start as int));
    }
    if start == s.len() {
        return None;
    }
    let mut value: usize = 0;
    let mut i: usize = start;
    proof {
        assert(d.take(0) =~= Seq::<char>::empty());
    }
    while i < s.len()
        invariant
            start <= i <= s@.len(),
            start < s@.len(),
            d == s@.skip(start as int),
            d == (if s@.len() > 0 && s@[0] == '+' { s@.drop_first() } else { s@ }),
            all_digits(d.take(i - start)),
            value == decimal_value(d.take(i - start)),
        decreases s@.len() - i,
    {
        let c = s[i];
        proof {
            assert(d[i - start] == c);
            assert(d.take(i - start + 1).drop_last() =~= d.take(i - start));
            assert(d.take(i - start + 1).last() == c);
        }
        if !('0' <= c && c <= '9') {
            proof {
                assert(digit_value(d[i - start]) is None);
                assert(!all_digits(d));
            }
            return None;
        }
        let digit = (c as u32 - '0' as u32) as usize;
        if value > (usize::MAX - digit) / 10 {
            proof {
                assert(decimal_value(d.take(i - start + 1)) == value * 10 + digit);
                assert(value * 10 + digit > usize::MAX) by (nonlinear_arith)
                    requires
                        value > (usize::MAX - digit) / 10,
                        digit <= 9,
                {}
                assert forall|j: int| 0 <= j < i - start + 1 implies #[trigger] digit_value(d.take(i - start + 1)[j]) is Some by {
                    if j < i - start {
                        assert(d.take(i - start + 1)[j] == d.take(i - start)[j]);
                    }
                }
                if all_digits(d) {
                    lemma_decimal_value_grows(d, i - start + 1);
                    assert(decimal_value(d) > usize::MAX);
                }
                assert(d.len() > 0);
            }
            return None;
        }
        proof {
            assert(value * 10 + digit <= usize::MAX) by (nonlinear_arith)
                requires
                    value <= (usize::MAX - digit) / 10,
                    digit <= 9,
            {}
            assert forall|j: int| 0 <= j < i - start + 1 implies #[trigger] digit_value(d.take(i - start + 1)[j]) is Some by {
                if j < i - start {
                    assert(d.take(i - start + 1)[j] == d.take(i - start)[j]);
                }
            }
        }
        value = value * 10 + digit;
        i = i + 1;
    }
    proof {
        assert(d.take(i - start) =~= d);
    }
    Some(value)
}

} // verus!
