use crate::cst::{
    child_nodes, close_of, first_token, is_node_at, lemma_child_node, lemma_first_token,
    lemma_nth_child, nth_child, KindSet, NixSyntax, NixSyntaxView, EventView, NODE_APPLY, NODE_ATTR_SET,
    NODE_INHERIT, NODE_LAMBDA, NODE_LET_IN, TOKEN_LET,
};
use crate::deps::DepsGraph;
use crate::locator::PackageLocations;
use crate::error::{DepNamesError, DepNamesFailure, ResolveError};
use crate::graph::{edge_span, graph_add_node, graph_edges, graph_from_edges, graph_node_count, node_count};
use crate::package::{Package, SourcePos};
use crate::cst::{nix_syntax, parse_nix, NODE_IDENT, NODE_PATTERN, NODE_PAT_ENTRY, NODE_ROOT, TOKEN_IDENT};
use vstd::string::StringSliceAdditionalSpecFns;
use crate::text::{chars_of, lemma_lex_lt_order, lex_less, lex_lt};
use vstd::prelude::*;

verus! {

/// A package together with the names of the packages it depends on.
pub type DepEntry = (Package, Vec<String>);

/// A partially built dependency graph, which may contain dangling references.
#[derive(Debug, Clone)]
pub struct PartialDepsGraph(pub(crate) Vec<DepEntry>);

/// The name of an entry's package.
pub open spec fn entry_name(e: DepEntry) -> Seq<char> {
    e.0.name@
}

/// The entries of `s` whose package is named `k`, in their order in `s`.
pub open spec fn entries_named(s: Seq<DepEntry>, k: Seq<char>) -> Seq<DepEntry>
    decreases s.len(),
{
    if s.len() == 0 {
        Seq::empty()
    } else {
        let r = entries_named(s.drop_last(), k);
        if entry_name(s.last()) == k {
            r.push(s.last())
        } else {
            r
        }
    }
}

/// No entry of `s` has a name that comes before the name of an earlier entry.
pub open spec fn sorted_by_name(s: Seq<DepEntry>) -> bool {
    forall|i: int, j: int|
        0 <= i < j < s.len() ==> !lex_lt(entry_name(#[trigger] s[j]), entry_name(#[trigger] s[i]))
}

/// `r` is `s` sorted by package name, stably: entries of equal names keep their
/// relative order.
pub open spec fn is_stable_sort_by_name(r: Seq<DepEntry>, s: Seq<DepEntry>) -> bool {
    &&& r.len() == s.len()
    &&& sorted_by_name(r)
    &&& forall|k: Seq<char>| #[trigger] entries_named(r, k) == entries_named(s, k)
}

proof fn lemma_entries_named_add(a: Seq<DepEntry>, b: Seq<DepEntry>, k: Seq<char>)
    ensures
        entries_named(a + b, k) == entries_named(a, k) + entries_named(b, k),
    decreases b.len(),
{
    if b.len() == 0 {
        assert(a + b =~= a);
        assert(entries_named(a, k) + entries_named(b, k) =~= entries_named(a, k));
    } else {
        lemma_entries_named_add(a, b.drop_last(), k);
        assert((a + b).drop_last() =~= a + b.drop_last());
        assert((a + b).last() == b.last());
        if entry_name(b.last()) == k {
            assert(entries_named(a, k) + entries_named(b, k) =~= (entries_named(a, k)
                + entries_named(b.drop_last(), k)).push(b.last()));
        }
    }
}

proof fn lemma_entries_named_single(x: DepEntry, k: Seq<char>)
    ensures
        entries_named(seq![x], k) == (if entry_name(x) == k { seq![x] } else { Seq::empty() }),
{
    assert(seq![x].drop_last() =~= Seq::<DepEntry>::empty());
    assert(entries_named(Seq::<DepEntry>::empty(), k) == Seq::<DepEntry>::empty());
    assert(seq![x].last() == x);
    if entry_name(x) == k {
        assert(Seq::<DepEntry>::empty().push(x) =~= seq![x]);
    }
}

proof fn lemma_entries_named_none(s: Seq<DepEntry>, k: Seq<char>)
    requires
        forall|i: int| 0 <= i < s.len() ==> entry_name(#[trigger] s[i]) != k,
    ensures
        entries_named(s, k) == Seq::<DepEntry>::empty(),
    decreases s.len(),
{
    if s.len() > 0 {
        lemma_entries_named_none(s.drop_last(), k);
    }
}

/// Inserts `x` into the name-sorted `res` after every entry whose name does
/// not come after its own.
fn insert_by_name(res: &mut Vec<DepEntry>, x: DepEntry)
    requires
        sorted_by_name(old(res)@),
    ensures
        sorted_by_name(final(res)@),
        final(res)@.len() == old(res)@.len() + 1,
        forall|k: Seq<char>| #[trigger] entries_named(final(res)@, k) == entries_named(old(res)@, k)
            + entries_named(seq![x], k),
{
    let xc = chars_of(x.0.name.as_str());
    let mut pos: usize = 0;
    while pos < res.len() && !lex_less(&xc, &chars_of(res[pos].0.name.as_str()))
        invariant
            pos <= res@.len(),
            res@ == old(res)@,
            xc@ == entry_name(x),
            forall|m: int| 0 <= m < pos ==> !lex_lt(xc@, entry_name(#[trigger] res@[m])),
        decreases res@.len() - pos,
    {
        pos = pos + 1;
    }
    let ghost s = res@;
    proof {
        assert forall|a: Seq<char>, b: Seq<char>, c: Seq<char>|
            #![trigger lex_lt(a, b), lex_lt(b, c)] lex_lt(a, b) && lex_lt(b, c) implies lex_lt(a, c) by {
            lemma_lex_lt_order(a, b, c);
        }
        // every entry from pos on has a name after x's
        assert forall|m: int| pos <= m < s.len() implies lex_lt(entry_name(x), entry_name(#[trigger] s[m])) by {
            if m > pos {
                let a = entry_name(s[pos as int]);
                let b = entry_name(s[m]);
                assert(!lex_lt(b, a));
                lemma_lex_lt_order(a, b, b);
                if a != b {
                    assert(lex_lt(a, b));
                }
            }
        }
    }
    res.insert(pos, x);
    proof {
        let r = res@;
        assert(r =~= s.take(pos as int) + seq![x] + s.skip(pos as int));
        assert(s =~= s.take(pos as int) + s.skip(pos as int));
        assert forall|i: int, j: int| 0 <= i < j < r.len() implies !lex_lt(
            entry_name(#[trigger] r[j]),
            entry_name(#[trigger] r[i]),
        ) by {
            lemma_lex_lt_order(entry_name(r[i]), entry_name(r[j]), entry_name(r[j]));
            if j < pos {
                assert(r[i] == s[i] && r[j] == s[j]);
            } else if j == pos {
                assert(r[i] == s[i]);
            } else if i == pos {
                assert(r[j] == s[j - 1]);
            } else if i < pos {
                assert(r[i] == s[i] && r[j] == s[j - 1]);
                assert(!lex_lt(entry_name(x), entry_name(s[i])));
                assert(lex_lt(entry_name(x), entry_name(s[j - 1])));
                lemma_lex_lt_order(entry_name(s[j - 1]), entry_name(s[i]), entry_name(x));
                lemma_lex_lt_order(entry_name(x), entry_name(s[j - 1]), entry_name(s[i]));
            } else {
                assert(r[i] == s[i - 1] && r[j] == s[j - 1]);
            }
        }
        assert forall|k: Seq<char>| #[trigger] entries_named(r, k) == entries_named(s, k) + entries_named(seq![x], k) by {
            let pre = s.take(pos as int);
            let post = s.skip(pos as int);
            lemma_entries_named_add(pre + seq![x], post, k);
            lemma_entries_named_add(pre, seq![x], k);
            lemma_entries_named_add(pre, post, k);
            lemma_entries_named_single(x, k);
            if entry_name(x) == k {
                assert forall|i: int| 0 <= i < post.len() implies entry_name(#[trigger] post[i]) != k by {
                    assert(post[i] == s[pos + i]);
                    lemma_lex_lt_order(k, k, k);
                }
                lemma_entries_named_none(post, k);
                assert(entries_named(r, k) =~= entries_named(pre, k) + entries_named(seq![x], k));
                assert(entries_named(s, k) =~= entries_named(pre, k));
            } else {
                assert(entries_named(r, k) =~= entries_named(s, k));
                assert(entries_named(s, k) + entries_named(seq![x], k) =~= entries_named(s, k));
            }
        }
    }
}

/// Sorts the entries by package name, keeping entries of equal names in order.
fn sort_by_name(v: Vec<DepEntry>) -> (r: Vec<DepEntry>)
    ensures
        is_stable_sort_by_name(r@, v@),
{
    let ghost orig = v@;
    let mut v = v;
    let mut res: Vec<DepEntry> = Vec::new();
    let mut i: usize = 0;
    let n = v.len();
    while v.len() > 0
        invariant
            n == orig.len(),
            i + v@.len() == n,
            v@ == orig.skip(i as int),
            sorted_by_name(res@),
            res@.len() == i,
            forall|k: Seq<char>| #[trigger] entries_named(res@, k) == entries_named(orig.take(i as int), k),
        decreases v@.len(),
    {
        let x = v.remove(0);
        proof {
            assert(x == orig[i as int]);
            assert(orig.take(i + 1) =~= orig.take(i as int) + seq![x]);
            assert(v@ =~= orig.skip(i + 1));
        }
        let ghost before = res@;
        insert_by_name(&mut res, x);
        proof {
            assert forall|k: Seq<char>| #[trigger] entries_named(res@, k) == entries_named(orig.take(i + 1), k) by {
                lemma_entries_named_add(orig.take(i as int), seq![x], k);
            }
        }
        i = i + 1;
    }
    proof {
        assert(orig.take(i as int) =~= orig);
    }
    res
}

proof fn lemma_entries_named_nonempty(s: Seq<DepEntry>, k: Seq<char>)
    requires
        entries_named(s, k).len() > 0,
    ensures
        exists|i: int| 0 <= i < s.len() && entry_name(#[trigger] s[i]) == k,
    decreases s.len(),
{
    if entry_name(s.last()) != k {
        lemma_entries_named_nonempty(s.drop_last(), k);
        let i = choose|i: int| 0 <= i < s.len() - 1 && entry_name(#[trigger] s.drop_last()[i]) == k;
        assert(s[i] == s.drop_last()[i]);
    } else {
        assert(entry_name(s[s.len() - 1]) == k);
    }
}

/// Two stable name sorts of the same entries are equal.
pub proof fn lemma_stable_sort_unique(r1: Seq<DepEntry>, r2: Seq<DepEntry>)
    requires
        r1.len() == r2.len(),
        sorted_by_name(r1),
        sorted_by_name(r2),
        forall|k: Seq<char>| #[trigger] entries_named(r1, k) == entries_named(r2, k),
    ensures
        r1 == r2,
    decreases r1.len(),
{
    if r1.len() > 0 {
        let n = r1.len() - 1;
        let m1 = entry_name(r1.last());
        let m2 = entry_name(r2.last());
        assert(entries_named(r1, m1).len() > 0);
        assert(entries_named(r2, m1) == entries_named(r1, m1));
        lemma_entries_named_nonempty(r2, m1);
        let i2 = choose|i: int| 0 <= i < r2.len() && entry_name(#[trigger] r2[i]) == m1;
        assert(entries_named(r2, m2).len() > 0);
        assert(entries_named(r1, m2) == entries_named(r2, m2));
        lemma_entries_named_nonempty(r1, m2);
        let i1 = choose|i: int| 0 <= i < r1.len() && entry_name(#[trigger] r1[i]) == m2;
        lemma_lex_lt_order(m1, m2, m1);
        if i2 < n {
            assert(!lex_lt(entry_name(r2[n]), entry_name(r2[i2])));
        }
        if i1 < n {
            assert(!lex_lt(entry_name(r1[n]), entry_name(r1[i1])));
        }
        assert(m1 == m2);
        let m = m1;
        assert(entries_named(r1, m) == entries_named(r1.drop_last(), m).push(r1.last()));
        assert(entries_named(r2, m) == entries_named(r2.drop_last(), m).push(r2.last()));
        assert(r1.last() == entries_named(r1, m).last());
        assert(r1.last() == r2.last());
        assert forall|k: Seq<char>| #[trigger] entries_named(r1.drop_last(), k) == entries_named(r2.drop_last(), k) by {
            if k == m {
                assert(entries_named(r1.drop_last(), m) =~= entries_named(r1, m).drop_last());
                assert(entries_named(r2.drop_last(), m) =~= entries_named(r2, m).drop_last());
            } else {
                assert(entries_named(r1, k) == entries_named(r1.drop_last(), k));
                assert(entries_named(r2, k) == entries_named(r2.drop_last(), k));
            }
        }
        assert forall|i: int, j: int| 0 <= i < j < r1.drop_last().len() implies !lex_lt(
            entry_name(#[trigger] r1.drop_last()[j]),
            entry_name(#[trigger] r1.drop_last()[i]),
        ) by {
            assert(r1.drop_last()[j] == r1[j] && r1.drop_last()[i] == r1[i]);
        }
        assert forall|i: int, j: int| 0 <= i < j < r2.drop_last().len() implies !lex_lt(
            entry_name(#[trigger] r2.drop_last()[j]),
            entry_name(#[trigger] r2.drop_last()[i]),
        ) by {
            assert(r2.drop_last()[j] == r2[j] && r2.drop_last()[i] == r2[i]);
        }
        lemma_stable_sort_unique(r1.drop_last(), r2.drop_last());
        assert(r1 =~= r1.drop_last().push(r1.last()));
        assert(r2 =~= r2.drop_last().push(r2.last()));
    }
}

/// The packages are sorted alphabetically by name.
pub open spec fn packages_sorted(ps: Seq<Package>) -> bool {
    forall|i: int, j: int| 0 <= i < j < ps.len() ==> !lex_lt(#[trigger] ps[j].name@, #[trigger] ps[i].name@)
}

/// The entries of `s` sorted by package name, entries of equal names in their
/// order in `s`.
pub open spec fn stable_sorted(s: Seq<DepEntry>) -> Seq<DepEntry> {
    choose|r: Seq<DepEntry>| is_stable_sort_by_name(r, s)
}

proof fn lemma_stable_sorted(r: Seq<DepEntry>, s: Seq<DepEntry>)
    requires
        is_stable_sort_by_name(r, s),
    ensures
        stable_sorted(s) == r,
{
    let c = stable_sorted(s);
    assert(is_stable_sort_by_name(c, s));
    assert forall|k: Seq<char>| #[trigger] entries_named(c, k) == entries_named(r, k) by {
        assert(entries_named(c, k) == entries_named(s, k));
        assert(entries_named(r, k) == entries_named(s, k));
    }
    lemma_stable_sort_unique(c, r);
}

/// The index of the first entry of `s`, at or after `from`, whose package is named `k`.
pub open spec fn find_named(s: Seq<DepEntry>, k: Seq<char>, from: int) -> Option<int>
    decreases s.len() - from,
{
    if from < 0 || from >= s.len() {
        None
    } else if entry_name(s[from]) == k {
        Some(from)
    } else {
        find_named(s, k, from + 1)
    }
}

/// The dependency names of entry `i` of `s`, each paired with `i`.
pub open spec fn entry_requests(s: Seq<DepEntry>, i: int) -> Seq<(int, Seq<char>)> {
    s[i].1@.map_values(|d: String| (i, d@))
}

/// All dependency lookups, entry by entry and, within an entry, name by name.
pub open spec fn requests(s: Seq<DepEntry>) -> Seq<(int, Seq<char>)>
    decreases s.len(),
{
    if s.len() == 0 {
        Seq::empty()
    } else {
        requests(s.drop_last()) + entry_requests(s, s.len() - 1)
    }
}

/// Resolves the lookups `r` against the packages of `s`: each lookup `(i, d)`
/// becomes the edge from the first package named `d` to package `i`, which
/// depends on it; the first lookup whose name no package has is the error.
pub open spec fn resolve(s: Seq<DepEntry>, r: Seq<(int, Seq<char>)>) -> Result<
    Seq<(usize, usize)>,
    (int, Seq<char>),
>
    decreases r.len(),
{
    if r.len() == 0 {
        Ok(Seq::empty())
    } else {
        match resolve(s, r.drop_last()) {
            Err(e) => Err(e),
            Ok(es) => match find_named(s, r.last().1, 0) {
                None => Err(r.last()),
                Some(j) => Ok(es.push((j as usize, r.last().0 as usize))),
            },
        }
    }
}

/// `find_named` finds nothing exactly when no entry from `from` on has the name.
pub proof fn lemma_find_named_none(s: Seq<DepEntry>, k: Seq<char>, from: int)
    requires
        0 <= from,
    ensures
        find_named(s, k, from) is None <==> forall|i: int| from <= i < s.len() ==> entry_name(#[trigger] s[i]) != k,
    decreases s.len() - from,
{
    if from < s.len() {
        lemma_find_named_none(s, k, from + 1);
    }
}

/// No dangling references: when resolution succeeds, every lookup `(i, d)` has
/// become the edge from the first package named `d` to package `i`, one edge
/// per lookup in order; when it fails, the failing lookup names a package that
/// does not exist.
pub proof fn lemma_resolve_complete(s: Seq<DepEntry>, r: Seq<(int, Seq<char>)>)
    requires
        s.len() <= usize::MAX,
        forall|q: int| 0 <= q < r.len() ==> 0 <= #[trigger] r[q].0 < s.len(),
    ensures
        resolve(s, r) matches Ok(es) ==> es.len() == r.len() && forall|q: int|
            0 <= q < r.len() ==> find_named(s, r[q].1, 0) == Some(#[trigger] es[q].0 as int)
                && es[q].1 as int == r[q].0,
        resolve(s, r) matches Err(e) ==> r.contains(e) && forall|i: int|
            0 <= i < s.len() ==> entry_name(#[trigger] s[i]) != e.1,
    decreases r.len(),
{
    if r.len() > 0 {
        assert forall|q: int| 0 <= q < r.drop_last().len() implies 0 <= #[trigger] r.drop_last()[q].0 < s.len() by {
            assert(r.drop_last()[q] == r[q]);
        }
        assert(0 <= r[r.len() - 1].0 < s.len());
        lemma_resolve_complete(s, r.drop_last());
        lemma_find_named_range(s, r.last().1, 0);
        lemma_find_named_none(s, r.last().1, 0);
        match resolve(s, r.drop_last()) {
            Err(e) => {
                let q = choose|q: int| 0 <= q < r.drop_last().len() && r.drop_last()[q] == e;
                assert(r[q] == e);
            },
            Ok(es) => {
                match find_named(s, r.last().1, 0) {
                    None => {
                        assert(r[r.len() - 1] == r.last());
                    },
                    Some(j) => {
                        let es2 = es.push((j as usize, r.last().0 as usize));
                        assert forall|q: int| 0 <= q < r.len() implies find_named(s, r[q].1, 0) == Some(
                            #[trigger] es2[q].0 as int,
                        ) && es2[q].1 as int == r[q].0 by {
                            if q < r.len() - 1 {
                                assert(es2[q] == es[q]);
                                assert(r[q] == r.drop_last()[q]);
                                assert(find_named(s, r.drop_last()[q].1, 0) == Some(es[q].0 as int));
                            } else {
                                assert(es2[q] == (j as usize, r.last().0 as usize));
                            }
                        }
                    },
                }
            },
        }
    }
}

/// The order of the packages after sorting does not depend on the order in
/// which they were added: stable name sorts of inputs that hold, for every
/// name, the same entries in the same relative order are equal.
pub proof fn lemma_sort_ignores_input_order(
    s1: Seq<DepEntry>,
    s2: Seq<DepEntry>,
    r1: Seq<DepEntry>,
    r2: Seq<DepEntry>,
)
    requires
        forall|k: Seq<char>| #[trigger] entries_named(s1, k) == entries_named(s2, k),
        s1.len() == s2.len(),
        is_stable_sort_by_name(r1, s1),
        is_stable_sort_by_name(r2, s2),
    ensures
        r1 == r2,
{
    assert forall|k: Seq<char>| #[trigger] entries_named(r1, k) == entries_named(r2, k) by {
        assert(entries_named(r1, k) == entries_named(s1, k));
        assert(entries_named(r2, k) == entries_named(s2, k));
    }
    lemma_stable_sort_unique(r1, r2);
}

/// No two entries of `s` have packages of the same name.
pub open spec fn names_distinct(s: Seq<DepEntry>) -> bool {
    forall|i: int, j: int| 0 <= i < j < s.len() ==> entry_name(#[trigger] s[i]) != entry_name(#[trigger] s[j])
}

/// `s2` holds the entries of `s1` in another order: `s2[i]` is `s1[perm[i]]`,
/// and `perm` lists each index of `s1` once.
pub open spec fn is_permutation(s1: Seq<DepEntry>, s2: Seq<DepEntry>, perm: Seq<usize>) -> bool {
    &&& s2.len() == s1.len()
    &&& perm.len() == s1.len()
    &&& forall|i: int| 0 <= i < perm.len() ==> #[trigger] perm[i] < s1.len()
    &&& forall|i: int, j: int| 0 <= i < j < perm.len() ==> perm[i] != perm[j]
    &&& forall|i: int| 0 <= i < s2.len() ==> #[trigger] s2[i] == s1[perm[i] as int]
}

proof fn lemma_entries_named_unique(s: Seq<DepEntry>, k: Seq<char>, i: int)
    requires
        names_distinct(s),
        0 <= i < s.len(),
        entry_name(s[i]) == k,
    ensures
        entries_named(s, k) == seq![s[i]],
    decreases s.len(),
{
    let d = s.drop_last();
    assert(names_distinct(d)) by {
        assert forall|a: int, b: int| 0 <= a < b < d.len() implies entry_name(#[trigger] d[a]) != entry_name(#[trigger] d[b]) by {
            assert(d[a] == s[a] && d[b] == s[b]);
        }
    }
    if i == s.len() - 1 {
        assert forall|m: int| 0 <= m < d.len() implies entry_name(#[trigger] d[m]) != k by {
            assert(d[m] == s[m]);
        }
        lemma_entries_named_none(d, k);
        assert(Seq::<DepEntry>::empty().push(s.last()) =~= seq![s[i]]);
    } else {
        assert(entry_name(s[s.len() - 1]) != entry_name(s[i]));
        assert(d[i] == s[i]);
        lemma_entries_named_unique(d, k, i);
    }
}

/// Consistent ordering between runs: where the packages have distinct names,
/// the stable name sorts of the same entries added in any two orders are equal,
/// so [`PartialDepsGraph::finalize`] gives the same graph for both.
pub proof fn lemma_sort_ignores_permutation(
    s1: Seq<DepEntry>,
    s2: Seq<DepEntry>,
    perm: Seq<usize>,
    r1: Seq<DepEntry>,
    r2: Seq<DepEntry>,
)
    requires
        names_distinct(s1),
        is_permutation(s1, s2, perm),
        s1.len() <= usize::MAX,
        is_stable_sort_by_name(r1, s1),
        is_stable_sort_by_name(r2, s2),
    ensures
        r1 == r2,
{
    assert(names_distinct(s2)) by {
        assert forall|a: int, b: int| 0 <= a < b < s2.len() implies entry_name(#[trigger] s2[a]) != entry_name(#[trigger] s2[b]) by {
            assert(s2[a] == s1[perm[a] as int] && s2[b] == s1[perm[b] as int]);
            if perm[a] < perm[b] {
            } else {
                assert(perm[a] != perm[b]);
            }
        }
    }
    crate::deps::lemma_order_covers(perm, s1.len());
    assert forall|k: Seq<char>| #[trigger] entries_named(s1, k) == entries_named(s2, k) by {
        if exists|j: int| 0 <= j < s2.len() && entry_name(#[trigger] s2[j]) == k {
            let j = choose|j: int| 0 <= j < s2.len() && entry_name(#[trigger] s2[j]) == k;
            lemma_entries_named_unique(s2, k, j);
            lemma_entries_named_unique(s1, k, perm[j] as int);
        } else {
            lemma_entries_named_none(s2, k);
            assert forall|i: int| 0 <= i < s1.len() implies entry_name(#[trigger] s1[i]) != k by {
                assert(i as usize as int == i);
                assert(perm.contains(i as usize));
                let j = choose|j: int| 0 <= j < perm.len() && perm[j] == i as usize;
                assert(s2[j] == s1[perm[j] as int]);
                assert(s2[j] == s1[i]);
            }
            lemma_entries_named_none(s1, k);
        }
    }
    lemma_sort_ignores_input_order(s1, s2, r1, r2);
}

proof fn lemma_resolve_err_prefix(s: Seq<DepEntry>, r1: Seq<(int, Seq<char>)>, r2: Seq<(int, Seq<char>)>)
    requires
        resolve(s, r1) is Err,
    ensures
        resolve(s, r1 + r2) == resolve(s, r1),
    decreases r2.len(),
{
    if r2.len() == 0 {
        assert(r1 + r2 =~= r1);
    } else {
        lemma_resolve_err_prefix(s, r1, r2.drop_last());
        assert((r1 + r2).drop_last() =~= r1 + r2.drop_last());
    }
}

proof fn lemma_edge_span_bound(edges: Seq<(usize, usize)>, n: nat)
    requires
        forall|k: int| 0 <= k < edges.len() ==> #[trigger] edges[k].0 < n && edges[k].1 < n,
    ensures
        edge_span(edges) <= n,
        forall|k: int|
            0 <= k < edges.len() ==> #[trigger] edges[k].0 < edge_span(edges) && edges[k].1
                < edge_span(edges),
    decreases edges.len(),
{
    if edges.len() > 0 {
        let d = edges.drop_last();
        assert forall|k: int| 0 <= k < d.len() implies #[trigger] d[k].0 < n && d[k].1 < n by {
            assert(d[k] == edges[k]);
        }
        lemma_edge_span_bound(d, n);
        assert forall|k: int| 0 <= k < edges.len() implies #[trigger] edges[k].0 < edge_span(edges)
            && edges[k].1 < edge_span(edges) by {
            if k < edges.len() - 1 {
                assert(d[k] == edges[k]);
            }
        }
    }
}

proof fn lemma_find_named_range(s: Seq<DepEntry>, k: Seq<char>, from: int)
    ensures
        find_named(s, k, from) matches Some(j) ==> from <= j < s.len() && entry_name(s[j]) == k,
    decreases s.len() - from,
{
    if 0 <= from < s.len() && entry_name(s[from]) != k {
        lemma_find_named_range(s, k, from + 1);
    }
}

/// The index of the first entry whose package is named `name`.
fn position_named(s: &Vec<DepEntry>, name: &String) -> (r: Option<usize>)
    ensures
        r matches Some(j) ==> find_named(s@, name@, 0) == Some(j as int),
        r is None ==> find_named(s@, name@, 0) is None,
{
    let mut k: usize = 0;
    while k < s.len()
        invariant
            k <= s@.len(),
            find_named(s@, name@, k as int) == find_named(s@, name@, 0),
        decreases s@.len() - k,
    {
        if s[k].0.name == *name {
            return Some(k);
        }
        k = k + 1;
    }
    None
}

impl Default for PartialDepsGraph {
    /// An empty partial graph.
    fn default() -> (r: Self)
        ensures
            r.entries().len() == 0,
    {
        PartialDepsGraph(Vec::new())
    }
}

impl PartialDepsGraph {
    /// The entries, in the order they were added.
    pub closed spec fn entries(&self) -> Seq<DepEntry> {
        self.0@
    }

    /// Finalize the dependency graph, checking that there are no dangling
    /// references. The packages are sorted by name (stably), and each
    /// dependency name is resolved to the first package of that name; the first
    /// name, in that order, that no package has is the error.
    #[verifier::spinoff_prover]
    pub fn finalize(self) -> (r: Result<DepsGraph, ResolveError>)
        ensures
            is_stable_sort_by_name(stable_sorted(self.entries()), self.entries()),
            ({
                let s = stable_sorted(self.entries());
                match resolve(s, requests(s)) {
                    Ok(edges) => r matches Ok(g) && g.packages() == s.map_values(
                        |e: DepEntry| e.0,
                    ) && g.edges() == edges && g.node_count() == s.len() && packages_sorted(
                        g.packages(),
                    ),
                    Err(e) => r matches Err(ResolveError::MissingDependency { package, dependency })
                        && package@ == s[e.0].0.name@ && dependency@ == e.1,
                }
            }),
    {
        let ghost orig = self.0@;
        let sorted = sort_by_name(self.0);
        let ghost s = sorted@;
        proof {
            lemma_stable_sorted(s, orig);
        }
        let mut edges: Vec<(usize, usize)> = Vec::new();
        let mut i: usize = 0;
        while i < sorted.len()
            invariant
                i <= s.len(),
                sorted@ == s,
                stable_sorted(self.entries()) == s,
                is_stable_sort_by_name(s, self.entries()),
                resolve(s, requests(s.take(i as int))) == Ok::<Seq<(usize, usize)>, (int, Seq<char>)>(edges@),
                forall|k: int| 0 <= k < edges@.len() ==> #[trigger] edges@[k].0 < s.len() && edges@[k].1 < s.len(),
            decreases s.len() - i,
        {
            let deps = &sorted[i].1;
            let ghost base = requests(s.take(i as int));
            let mut j: usize = 0;
            while j < deps.len()
                invariant
                    i < s.len(),
                    sorted@ == s,
                    stable_sorted(self.entries()) == s,
                    is_stable_sort_by_name(s, self.entries()),
                    deps@ == s[i as int].1@,
                    j <= deps@.len(),
                    base == requests(s.take(i as int)),
                    resolve(s, base + entry_requests(s, i as int).take(j as int)) == Ok::<Seq<(usize, usize)>, (int, Seq<char>)>(edges@),
                    forall|k: int| 0 <= k < edges@.len() ==> #[trigger] edges@[k].0 < s.len() && edges@[k].1 < s.len(),
                decreases deps@.len() - j,
            {
                let ghost cur = base + entry_requests(s, i as int).take(j as int);
                let ghost next = base + entry_requests(s, i as int).take(j + 1);
                proof {
                    assert(next =~= cur.push((i as int, deps@[j as int]@)));
                    assert(next.drop_last() =~= cur);
                }
                match position_named(&sorted, &deps[j]) {
                    None => {
                        proof {
                            assert(resolve(s, next) == Err::<Seq<(usize, usize)>, (int, Seq<char>)>((i as int, deps@[j as int]@)));
                            let rest = entry_requests(s, i as int).skip(j + 1) + requests_from(s, i + 1);
                            lemma_requests_split(s, i as int + 1);
                            assert(s.take(i + 1).drop_last() =~= s.take(i as int));
                            assert(requests(s.take(i + 1)) =~= base + entry_requests(s.take(i + 1), i as int));
                            assert(entry_requests(s.take(i + 1), i as int) =~= entry_requests(s, i as int));
                            assert(entry_requests(s, i as int) =~= entry_requests(s, i as int).take(j + 1) + entry_requests(s, i as int).skip(j + 1));
                            assert(requests(s) =~= next + rest);
                            lemma_resolve_err_prefix(s, next, rest);
                            assert(resolve(s, requests(s)) == Err::<Seq<(usize, usize)>, (int, Seq<char>)>((i as int, deps@[j as int]@)));
                            assert(stable_sorted(self.entries()) == s);
                        }
                        return Err(
                            ResolveError::MissingDependency {
                                package: sorted[i].0.name.clone(),
                                dependency: deps[j].clone(),
                            },
                        );
                    },
                    Some(p) => {
                        proof {
                            lemma_find_named_range(s, deps@[j as int]@, 0);
                        }
                        edges.push((p, i));
                    },
                }
                j = j + 1;
            }
            proof {
                assert(entry_requests(s, i as int).take(deps@.len() as int) =~= entry_requests(s, i as int));
                assert(s.take(i + 1).drop_last() =~= s.take(i as int));
                assert(entry_requests(s.take(i + 1), i as int) =~= entry_requests(s, i as int));
            }
            i = i + 1;
        }
        proof {
            assert(s.take(s.len() as int) =~= s);
            lemma_edge_span_bound(edges@, s.len());
        }
        let n = sorted.len();
        let ghost ge = edges@;
        let mut g = graph_from_edges(edges);
        while node_count(&g) < n
            invariant
                n == s.len(),
                graph_edges(g) == ge,
                graph_node_count(g) <= n,
            decreases n - graph_node_count(g),
        {
            graph_add_node(&mut g);
        }
        let mut rest = sorted;
        let mut pkgs: Vec<Package> = Vec::new();
        while rest.len() > 0
            invariant
                pkgs@.len() + rest@.len() == s.len(),
                rest@ == s.skip(pkgs@.len() as int),
                pkgs@ == s.take(pkgs@.len() as int).map_values(|e: DepEntry| e.0),
            decreases rest@.len(),
        {
            let ghost k: int = pkgs@.len() as int;
            let (p, _) = rest.remove(0);
            pkgs.push(p);
            proof {
                assert(s.take(k + 1).map_values(|e: DepEntry| e.0) =~= s.take(k).map_values(
                    |e: DepEntry| e.0,
                ).push(s[k].0));
                assert(rest@ =~= s.skip(k + 1));
            }
        }
        proof {
            assert(s.take(s.len() as int) =~= s);
            assert forall|i: int, j: int| 0 <= i < j < pkgs@.len() implies !lex_lt(
                #[trigger] pkgs@[j].name@,
                #[trigger] pkgs@[i].name@,
            ) by {
                assert(pkgs@[j] == s[j].0 && pkgs@[i] == s[i].0);
                assert(!lex_lt(entry_name(s[j]), entry_name(s[i])));
            }
        }
        Ok(DepsGraph::from_parts(pkgs, g))
    }
}

/// The lookups of a sequence of entries are those of a prefix followed by those
/// of the rest.
proof fn lemma_requests_split(s: Seq<DepEntry>, i: int)
    requires
        0 <= i <= s.len(),
    ensures
        requests(s) == requests(s.take(i)) + requests_from(s, i),
    decreases s.len() - i,
{
    if i < s.len() {
        lemma_requests_split(s, i + 1);
        assert(s.take(i + 1).drop_last() =~= s.take(i));
        assert(entry_requests(s.take(i + 1), i) =~= entry_requests(s, i));
        assert(requests(s.take(i + 1)) == requests(s.take(i)) + entry_requests(s, i));
        assert(requests_from(s, i) == entry_requests(s, i) + requests_from(s, i + 1));
        assert(requests(s) =~= requests(s.take(i)) + requests_from(s, i));
    } else {
        assert(s.take(i) =~= s);
        assert(requests(s.take(i)) + requests_from(s, i) =~= requests(s));
    }
}

/// The lookups of the entries from index `i` on.
pub open spec fn requests_from(s: Seq<DepEntry>, i: int) -> Seq<(int, Seq<char>)>
    decreases s.len() - i,
{
    if i < 0 || i >= s.len() {
        Seq::empty()
    } else {
        entry_requests(s, i) + requests_from(s, i + 1)
    }
}

/// The text range of the element entered at `i` contains `offset`.
pub open spec fn range_contains(ev: Seq<EventView>, i: int, offset: u32) -> bool {
    ev[i]->start <= offset < ev[i]->end
}

/// The first of the nodes `ents` whose range contains `offset`.
pub open spec fn first_containing(ev: Seq<EventView>, ents: Seq<int>, offset: u32) -> Option<int>
    decreases ents.len(),
{
    if ents.len() == 0 {
        None
    } else if range_contains(ev, ents[0], offset) {
        Some(ents[0])
    } else {
        first_containing(ev, ents.drop_first(), offset)
    }
}

pub proof fn lemma_first_containing(ev: Seq<EventView>, ents: Seq<int>, offset: u32)
    requires
        first_containing(ev, ents, offset) is Some,
    ensures
        exists|q: int| 0 <= q < ents.len() && ents[q] == first_containing(ev, ents, offset)->0,
    decreases ents.len(),
{
    if !range_contains(ev, ents[0], offset) {
        lemma_first_containing(ev, ents.drop_first(), offset);
        let q = choose|q: int| 0 <= q < ents.drop_first().len() && ents.drop_first()[q] == first_containing(ev, ents, offset)->0;
        assert(ents[q + 1] == ents.drop_first()[q]);
    } else {
        assert(ents[0] == first_containing(ev, ents, offset)->0);
    }
}

/// Descends from the expression node `e` to the node at `offset`: through the
/// body of a lambda whose parameter does not contain it, into the function or
/// argument of an application, into the body of a `let ... in`, and into the
/// value of the binding of an attribute set that contains it. A lambda whose
/// parameter contains the offset, or a `let ... in` whose `let` does, is the
/// result. `None` is where the descent gives up unfinished (an `inherit`
/// clause, or a `let` body, that contains the offset, or an expression of
/// any other kind); `Some(None)` is where a part is missing or no binding
/// contains the offset.
pub open spec fn skip_to_offset_spec(ev: Seq<EventView>, offset: u32, e: int) -> Option<Option<int>>
    decreases close_of(ev, e) - e,
{
    if e < 0 || !is_node_at(ev, e) {
        Some(None)
    } else {
        let k = ev[e]->kind;
        if k == NODE_LAMBDA {
            match nth_child(ev, e, KindSet::Param, 0) {
                None => Some(None),
                Some(p) => if range_contains(ev, p, offset) {
                    Some(Some(e))
                } else {
                    match nth_child(ev, e, KindSet::Expr, 0) {
                        None => Some(None),
                        Some(b) => {
                            proof {
                                lemma_nth_child(ev, e, KindSet::Expr, 0);
                            }
                            skip_to_offset_spec(ev, offset, b)
                        },
                    }
                },
            }
        } else if k == NODE_APPLY {
            match nth_child(ev, e, KindSet::Expr, 0) {
                None => Some(None),
                Some(l) => if range_contains(ev, l, offset) {
                    proof {
                        lemma_nth_child(ev, e, KindSet::Expr, 0);
                    }
                    skip_to_offset_spec(ev, offset, l)
                } else {
                    match nth_child(ev, e, KindSet::Expr, 1) {
                        None => Some(None),
                        Some(a) => {
                            proof {
                                lemma_nth_child(ev, e, KindSet::Expr, 1);
                            }
                            skip_to_offset_spec(ev, offset, a)
                        },
                    }
                },
            }
        } else if k == NODE_LET_IN {
            match first_token(ev, e, TOKEN_LET) {
                None => Some(None),
                Some(t) => if range_contains(ev, t, offset) {
                    Some(Some(e))
                } else {
                    match nth_child(ev, e, KindSet::Expr, 0) {
                        None => Some(None),
                        Some(b) => if range_contains(ev, b, offset) {
                            proof {
                                lemma_nth_child(ev, e, KindSet::Expr, 0);
                            }
                            skip_to_offset_spec(ev, offset, b)
                        } else {
                            None
                        },
                    }
                },
            }
        } else if k == NODE_ATTR_SET {
            match first_containing(ev, child_nodes(ev, e, KindSet::Entry), offset) {
                None => Some(None),
                Some(ent) => if ev[ent]->kind == NODE_INHERIT {
                    None
                } else {
                    match nth_child(ev, ent, KindSet::Expr, 0) {
                        None => Some(None),
                        Some(v) => {
                            proof {
                                lemma_first_containing(ev, child_nodes(ev, e, KindSet::Entry), offset);
                                let q = choose|q: int|
                                    0 <= q < child_nodes(ev, e, KindSet::Entry).len()
                                        && child_nodes(ev, e, KindSet::Entry)[q] == ent;
                                lemma_child_node(ev, e, KindSet::Entry, q);
                                lemma_nth_child(ev, ent, KindSet::Expr, 0);
                            }
                            skip_to_offset_spec(ev, offset, v)
                        },
                    }
                },
            }
        } else {
            None
        }
    }
}

/// The range of the element entered at `i` contains `offset`.
fn contains_offset(syn: &NixSyntax, i: usize, offset: u32) -> (r: bool)
    requires
        crate::cst::is_open_at(syn.ev(), i as int),
    ensures
        r == range_contains(syn.ev(), i as int, offset),
{
    let (start, end) = syn.range(i);
    start <= offset && offset < end
}

/// Skip to the given offset within an expression tree, as
/// [`skip_to_offset_spec`] describes. The outer `None` marks the inputs the
/// descent does not handle (an `inherit` clause or `let` entries that contain
/// the offset, or an expression of a kind it does not descend into, such as a
/// bare identifier): it is no result, and the caller gives up there, as
/// [`dep_names_from`] does.
fn skip_to_offset(syn: &NixSyntax, offset: u32, e: usize) -> (r: Option<Option<usize>>)
    requires
        e < syn.events@.len(),
    ensures
        r == (match skip_to_offset_spec(syn.ev(), offset, e as int) {
            None => None::<Option<usize>>,
            Some(None) => Some(None),
            Some(Some(n)) => Some(Some(n as usize)),
        }),
        r matches Some(Some(n)) ==> n < syn.events@.len() && skip_to_offset_spec(syn.ev(), offset, e as int) == Some(Some(n as int)),
    decreases close_of(syn.ev(), e as int) - e,
{
    let ghost ev = syn.ev();
    if !syn.is_node(e) {
        return Some(None);
    }
    let k = syn.kind(e);
    if k == NODE_LAMBDA {
        match syn.nth_child(e, &KindSet::Param, 0) {
            None => Some(None),
            Some(p) => {
                proof {
                    lemma_nth_child(ev, e as int, KindSet::Param, 0);
                }
                if contains_offset(syn, p, offset) {
                    Some(Some(e))
                } else {
                    match syn.nth_child(e, &KindSet::Expr, 0) {
                        None => Some(None),
                        Some(b) => {
                            proof {
                                lemma_nth_child(ev, e as int, KindSet::Expr, 0);
                            }
                            skip_to_offset(syn, offset, b)
                        },
                    }
                }
            },
        }
    } else if k == NODE_APPLY {
        match syn.nth_child(e, &KindSet::Expr, 0) {
            None => Some(None),
            Some(l) => {
                proof {
                    lemma_nth_child(ev, e as int, KindSet::Expr, 0);
                }
                if contains_offset(syn, l, offset) {
                    skip_to_offset(syn, offset, l)
                } else {
                    match syn.nth_child(e, &KindSet::Expr, 1) {
                        None => Some(None),
                        Some(a) => {
                            proof {
                                lemma_nth_child(ev, e as int, KindSet::Expr, 1);
                            }
                            skip_to_offset(syn, offset, a)
                        },
                    }
                }
            },
        }
    } else if k == NODE_LET_IN {
        match syn.first_token(e, TOKEN_LET) {
            None => Some(None),
            Some(t) => {
                proof {
                    lemma_first_token(ev, e as int, TOKEN_LET);
                }
                if contains_offset(syn, t, offset) {
                    Some(Some(e))
                } else {
                    match syn.nth_child(e, &KindSet::Expr, 0) {
                        None => Some(None),
                        Some(b) => {
                            proof {
                                lemma_nth_child(ev, e as int, KindSet::Expr, 0);
                            }
                            if contains_offset(syn, b, offset) {
                                skip_to_offset(syn, offset, b)
                            } else {
                                None
                            }
                        },
                    }
                }
            },
        }
    } else if k == NODE_ATTR_SET {
        let ents = syn.child_nodes(e, &KindSet::Entry);
        let ghost ev_ents = child_nodes(ev, e as int, KindSet::Entry);
        let mut q: usize = 0;
        proof {
            assert(ev_ents.skip(0) =~= ev_ents);
        }
        while q < ents.len()
            invariant
                ev == syn.ev(),
                e < syn.events@.len(),
                is_node_at(ev, e as int),
                ev[e as int]->kind == NODE_ATTR_SET,
                q <= ents@.len(),
                ents@.map_values(|c: usize| c as int) == ev_ents,
                ev_ents == child_nodes(ev, e as int, KindSet::Entry),
                forall|m: int| 0 <= m < ents@.len() ==> #[trigger] ents@[m] < syn.events@.len(),
                first_containing(ev, ev_ents.skip(q as int), offset) == first_containing(ev, ev_ents, offset),
            decreases ents@.len() - q,
        {
            let ent = ents[q];
            proof {
                assert(ev_ents[q as int] == ent as int);
                assert(ev_ents.skip(q as int).drop_first() =~= ev_ents.skip(q + 1));
                assert(ev_ents.skip(q as int)[0] == ent as int);
                lemma_child_node(ev, e as int, KindSet::Entry, q as int);
            }
            if contains_offset(syn, ent, offset) {
                if syn.kind(ent) == NODE_INHERIT {
                    return None;
                }
                match syn.nth_child(ent, &KindSet::Expr, 0) {
                    None => {
                        return Some(None);
                    },
                    Some(v) => {
                        proof {
                            lemma_nth_child(ev, ent as int, KindSet::Expr, 0);
                        }
                        return skip_to_offset(syn, offset, v);
                    },
                }
            }
            q = q + 1;
        }
        proof {
            assert(ev_ents.skip(ents@.len() as int) =~= Seq::<int>::empty());
        }
        Some(None)
    } else {
        None
    }
}

/// The names bound by the entries `ents` of a lambda's pattern, each the text of
/// the identifier token of the entry's identifier; `None` where an entry lacks
/// either.
pub open spec fn entry_names(ev: Seq<EventView>, ents: Seq<int>) -> Option<Seq<Seq<char>>>
    decreases ents.len(),
{
    if ents.len() == 0 {
        Some(Seq::empty())
    } else {
        match entry_names(ev, ents.drop_last()) {
            None => None,
            Some(ns) => match nth_child(ev, ents.last(), KindSet::Only(NODE_IDENT), 0) {
                None => None,
                Some(id) => match first_token(ev, id, TOKEN_IDENT) {
                    None => None,
                    Some(t) => Some(ns.push(ev[t]->text->0)),
                },
            },
        }
    }
}

/// What reading the dependency names of a package at `pos` from a file holding
/// `content`, which parses as `syn`, gives: the names that the lambda at `pos`
/// destructures from its argument (none for a lambda with a plain identifier
/// parameter), or the error. `None` where the reading gives up: the descent to
/// the lambda gives up, the lambda has no parameter, or a pattern entry has no
/// identifier.
#[verifier::opaque]
pub open spec fn dep_names_from(syn: NixSyntaxView, pos: SourcePos, content: Seq<char>) -> Option<
    Result<Seq<Seq<char>>, DepNamesFailure>,
> {
    let ev = syn.events;
    let bytes = vstd::utf8::encode_utf8(content);
    if syn.first_error is Some {
        Some(Err(DepNamesFailure::Parse(syn.first_error->0)))
    } else if !is_node_at(ev, 0) || ev[0]->kind != NODE_ROOT {
        None
    } else {
        match pos.offset_in(bytes) {
            None => Some(Err(DepNamesFailure::PositionInvalid)),
            Some(o) => match nth_child(ev, 0, KindSet::Expr, 0) {
                None => Some(Err(DepNamesFailure::FileEmpty)),
                Some(x) => match skip_to_offset_spec(ev, o as u32, x) {
                    None => None,
                    Some(None) => Some(Err(DepNamesFailure::NotALambda)),
                    Some(Some(l)) => if ev[l]->kind != NODE_LAMBDA {
                        Some(Err(DepNamesFailure::NotALambda))
                    } else {
                        match nth_child(ev, l, KindSet::Param, 0) {
                            None => None,
                            Some(p) => if ev[p]->kind == NODE_PATTERN {
                                match entry_names(
                                    ev,
                                    child_nodes(ev, p, KindSet::Only(NODE_PAT_ENTRY)),
                                ) {
                                    None => None,
                                    Some(ns) => Some(Ok(ns)),
                                }
                            } else {
                                Some(Ok(Seq::empty()))
                            },
                        }
                    },
                },
            },
        }
    }
}

/// What reading the dependency names of a package at `pos` from a file holding
/// `content` gives, with the file parsed by rnix (see [`dep_names_from`]).
pub open spec fn dep_names_spec(pos: SourcePos, content: Seq<char>) -> Option<
    Result<Seq<Seq<char>>, DepNamesFailure>,
> {
    dep_names_from(nix_syntax(content), pos, content)
}

proof fn lemma_entry_names_prefix(ev: Seq<EventView>, s: Seq<int>, k: int)
    requires
        0 <= k <= s.len(),
        entry_names(ev, s.take(k)) is None,
    ensures
        entry_names(ev, s) is None,
    decreases s.len() - k,
{
    if k < s.len() {
        assert(s.take(k + 1).drop_last() =~= s.take(k));
        lemma_entry_names_prefix(ev, s, k + 1);
    } else {
        assert(s.take(k) =~= s);
    }
}

proof fn lemma_skip_result_node(ev: Seq<EventView>, offset: u32, e: int)
    requires
        skip_to_offset_spec(ev, offset, e) matches Some(Some(_)),
    ensures
        is_node_at(ev, skip_to_offset_spec(ev, offset, e)->0->0),
    decreases close_of(ev, e) - e,
{
    let k = ev[e]->kind;
    if k == NODE_LAMBDA {
        if let Some(p) = nth_child(ev, e, KindSet::Param, 0) {
            if !range_contains(ev, p, offset) {
                if let Some(b) = nth_child(ev, e, KindSet::Expr, 0) {
                    lemma_nth_child(ev, e, KindSet::Expr, 0);
                    lemma_skip_result_node(ev, offset, b);
                }
            }
        }
    } else if k == NODE_APPLY {
        if let Some(l) = nth_child(ev, e, KindSet::Expr, 0) {
            lemma_nth_child(ev, e, KindSet::Expr, 0);
            if range_contains(ev, l, offset) {
                lemma_skip_result_node(ev, offset, l);
            } else if let Some(a) = nth_child(ev, e, KindSet::Expr, 1) {
                lemma_nth_child(ev, e, KindSet::Expr, 1);
                lemma_skip_result_node(ev, offset, a);
            }
        }
    } else if k == NODE_LET_IN {
        if let Some(b) = nth_child(ev, e, KindSet::Expr, 0) {
            lemma_nth_child(ev, e, KindSet::Expr, 0);
            if first_token(ev, e, TOKEN_LET) is Some && !range_contains(ev, first_token(ev, e, TOKEN_LET)->0, offset) {
                lemma_skip_result_node(ev, offset, b);
            }
        }
    } else if k == NODE_ATTR_SET {
        let ents = child_nodes(ev, e, KindSet::Entry);
        if let Some(ent) = first_containing(ev, ents, offset) {
            if let Some(v) = nth_child(ev, ent, KindSet::Expr, 0) {
                lemma_first_containing(ev, ents, offset);
                let q = choose|q: int| 0 <= q < ents.len() && ents[q] == ent;
                lemma_child_node(ev, e, KindSet::Entry, q);
                lemma_nth_child(ev, ent, KindSet::Expr, 0);
                lemma_skip_result_node(ev, offset, v);
            }
        }
    }
}

/// The descent stops only where the offset is: at a lambda whose parameter
/// contains it, or at a `let ... in` whose `let` keyword contains it. A lambda
/// whose parameter does not contain the offset is descended into, never
/// returned.
pub proof fn lemma_skip_stops_at_offset(ev: Seq<EventView>, offset: u32, e: int)
    requires
        skip_to_offset_spec(ev, offset, e) matches Some(Some(_)),
    ensures
        ({
            let l = skip_to_offset_spec(ev, offset, e)->0->0;
            ||| ev[l]->kind == NODE_LAMBDA && nth_child(ev, l, KindSet::Param, 0) is Some
                && range_contains(ev, nth_child(ev, l, KindSet::Param, 0)->0, offset)
            ||| ev[l]->kind == NODE_LET_IN && first_token(ev, l, TOKEN_LET) is Some
                && range_contains(ev, first_token(ev, l, TOKEN_LET)->0, offset)
        }),
    decreases close_of(ev, e) - e,
{
    let k = ev[e]->kind;
    if k == NODE_LAMBDA {
        if let Some(p) = nth_child(ev, e, KindSet::Param, 0) {
            if !range_contains(ev, p, offset) {
                if let Some(b) = nth_child(ev, e, KindSet::Expr, 0) {
                    lemma_nth_child(ev, e, KindSet::Expr, 0);
                    lemma_skip_stops_at_offset(ev, offset, b);
                }
            }
        }
    } else if k == NODE_APPLY {
        if let Some(l) = nth_child(ev, e, KindSet::Expr, 0) {
            lemma_nth_child(ev, e, KindSet::Expr, 0);
            if range_contains(ev, l, offset) {
                lemma_skip_stops_at_offset(ev, offset, l);
            } else if let Some(a) = nth_child(ev, e, KindSet::Expr, 1) {
                lemma_nth_child(ev, e, KindSet::Expr, 1);
                lemma_skip_stops_at_offset(ev, offset, a);
            }
        }
    } else if k == NODE_LET_IN {
        if let Some(b) = nth_child(ev, e, KindSet::Expr, 0) {
            lemma_nth_child(ev, e, KindSet::Expr, 0);
            if first_token(ev, e, TOKEN_LET) is Some && !range_contains(ev, first_token(ev, e, TOKEN_LET)->0, offset) {
                lemma_skip_stops_at_offset(ev, offset, b);
            }
        }
    } else if k == NODE_ATTR_SET {
        let ents = child_nodes(ev, e, KindSet::Entry);
        if let Some(ent) = first_containing(ev, ents, offset) {
            if let Some(v) = nth_child(ev, ent, KindSet::Expr, 0) {
                lemma_first_containing(ev, ents, offset);
                let q = choose|q: int| 0 <= q < ents.len() && ents[q] == ent;
                lemma_child_node(ev, e, KindSet::Entry, q);
                lemma_nth_child(ev, ent, KindSet::Expr, 0);
                lemma_skip_stops_at_offset(ev, offset, v);
            }
        }
    }
}

/// The text of the identifier token of the identifier of the pattern entry
/// `ent`, if it has both.
pub open spec fn entry_ident_text(ev: Seq<EventView>, ent: int) -> Option<Seq<char>> {
    match nth_child(ev, ent, KindSet::Only(NODE_IDENT), 0) {
        None => None,
        Some(id) => match first_token(ev, id, TOKEN_IDENT) {
            None => None,
            Some(t) => Some(ev[t]->text->0),
        },
    }
}

/// The dependency names read from a pattern are one per pattern entry, in
/// order, whether or not the entry has a default: name `i` is the text of the
/// identifier token of entry `i`'s identifier.
pub proof fn lemma_entry_names_one_per_entry(ev: Seq<EventView>, ents: Seq<int>)
    requires
        entry_names(ev, ents) is Some,
    ensures
        entry_names(ev, ents)->0.len() == ents.len(),
        forall|i: int|
            0 <= i < ents.len() ==> #[trigger] entry_ident_text(ev, ents[i]) == Some(
                entry_names(ev, ents)->0[i],
            ),
    decreases ents.len(),
{
    if ents.len() > 0 {
        let d = ents.drop_last();
        lemma_entry_names_one_per_entry(ev, d);
        let ns = entry_names(ev, ents)->0;
        let nd = entry_names(ev, d)->0;
        assert forall|i: int| 0 <= i < ents.len() implies #[trigger] entry_ident_text(ev, ents[i]) == Some(
            ns[i],
        ) by {
            if i < d.len() {
                assert(ents[i] == d[i]);
                assert(entry_ident_text(ev, d[i]) == Some(nd[i]));
                assert(ns[i] == nd[i]);
            } else {
                assert(ents.last() == ents[i]);
            }
        }
    }
}

/// The dependency names read for a package are those of a lambda whose
/// parameter contains the package's offset: one name per entry of its pattern,
/// in order, or none for a plain identifier parameter.
pub proof fn lemma_dep_names_of_lambda_at(syn: NixSyntaxView, pos: SourcePos, content: Seq<char>)
    requires
        dep_names_from(syn, pos, content) matches Some(Ok(_)),
    ensures
        ({
            let ns = dep_names_from(syn, pos, content)->0->Ok_0;
            let ev = syn.events;
            let o = pos.offset_in(vstd::utf8::encode_utf8(content));
            o is Some && exists|l: int|
                #![trigger ev[l]]
                is_node_at(ev, l) && ev[l]->kind == NODE_LAMBDA && nth_child(ev, l, KindSet::Param, 0) is Some
                    && range_contains(ev, nth_child(ev, l, KindSet::Param, 0)->0, o->0 as u32) && (if ev[nth_child(
                    ev,
                    l,
                    KindSet::Param,
                    0,
                )->0]->kind == NODE_PATTERN {
                    let ents = child_nodes(ev, nth_child(ev, l, KindSet::Param, 0)->0, KindSet::Only(NODE_PAT_ENTRY));
                    ns.len() == ents.len() && forall|i: int|
                        0 <= i < ents.len() ==> #[trigger] entry_ident_text(ev, ents[i]) == Some(ns[i])
                } else {
                    ns.len() == 0
                })
        }),
{
    reveal(dep_names_from);
    let ev = syn.events;
    let bytes = vstd::utf8::encode_utf8(content);
    let o = pos.offset_in(bytes)->0;
    let x = nth_child(ev, 0, KindSet::Expr, 0)->0;
    let l = skip_to_offset_spec(ev, o as u32, x)->0->0;
    lemma_skip_stops_at_offset(ev, o as u32, x);
    lemma_skip_result_node(ev, o as u32, x);
    let p = nth_child(ev, l, KindSet::Param, 0)->0;
    if ev[p]->kind == NODE_PATTERN {
        lemma_entry_names_one_per_entry(ev, child_nodes(ev, p, KindSet::Only(NODE_PAT_ENTRY)));
    }
    assert(is_node_at(ev, l));
    assert(ev[l] == ev[l]);
}

/// The strings, as character sequences.
pub open spec fn strings_view(v: Seq<String>) -> Seq<Seq<char>> {
    v.map_values(|s: String| s@)
}

/// Get the names of all dependencies of the package at `pos`, by statically
/// analysing the Nix code `content` of its file, as [`dep_names_spec`] describes.
fn get_dep_names(pos: &SourcePos, content: &str) -> (r: Option<Result<Vec<String>, DepNamesError>>)
    ensures
        match dep_names_spec(*pos, content@) {
            None => r is None,
            Some(Ok(ns)) => r matches Some(Ok(v)) && strings_view(v@) == ns,
            Some(Err(e)) => r matches Some(Err(err)) && err@ == e,
        },
{
    let syn = parse_nix(content);
    dep_names_of(&syn, pos, content)
}

/// Get the names of all dependencies of the package at `pos` from the parse
/// `syn` of the Nix code `content` of its file, as [`dep_names_from`]
/// describes.
pub fn dep_names_of(syn: &NixSyntax, pos: &SourcePos, content: &str) -> (r: Option<
    Result<Vec<String>, DepNamesError>,
>)
    ensures
        match dep_names_from(syn@, *pos, content@) {
            None => r is None,
            Some(Ok(ns)) => r matches Some(Ok(v)) && strings_view(v@) == ns,
            Some(Err(e)) => r matches Some(Err(err)) && err@ == e,
        },
{
    reveal(dep_names_from);
    let ghost ev = syn.ev();
    match &syn.first_error {
        Some(m) => {
            return Some(Err(DepNamesError::Parse(m.clone())));
        },
        None => {},
    }
    if !syn.is_node(0) || syn.kind(0) != NODE_ROOT {
        return None;
    }
    let offset = match pos.to_offset(content) {
        None => {
            return Some(Err(DepNamesError::PositionInvalid));
        },
        Some(o) => o,
    };
    let x = match syn.nth_child(0, &KindSet::Expr, 0) {
        None => {
            return Some(Err(DepNamesError::FileEmpty));
        },
        Some(x) => x,
    };
    let l = match skip_to_offset(&syn, offset as u32, x) {
        None => {
            return None;
        },
        Some(None) => {
            return Some(Err(DepNamesError::NotALambda));
        },
        Some(Some(l)) => l,
    };
    proof {
        assert(skip_to_offset_spec(ev, offset as u32, x as int) == Some(Some(l as int)));
        lemma_skip_result_node(ev, offset as u32, x as int);
    }
    if syn.kind(l) != NODE_LAMBDA {
        return Some(Err(DepNamesError::NotALambda));
    }
    let p = match syn.nth_child(l, &KindSet::Param, 0) {
        None => {
            return None;
        },
        Some(p) => p,
    };
    proof {
        lemma_nth_child(ev, l as int, KindSet::Param, 0);
    }
    if syn.kind(p) != NODE_PATTERN {
        return Some(Ok(Vec::new()));
    }
    let ents = syn.child_nodes(p, &KindSet::Only(NODE_PAT_ENTRY));
    let ghost ev_ents = child_nodes(ev, p as int, KindSet::Only(NODE_PAT_ENTRY));
    let mut names: Vec<String> = Vec::new();
    let mut q: usize = 0;
    proof {
        assert(ev_ents.take(0) =~= Seq::<int>::empty());
        assert(strings_view(names@) =~= Seq::<Seq<char>>::empty());
    }
    while q < ents.len()
        invariant
            ev == syn.ev(),
            dep_names_from(syn@, *pos, content@) == (match entry_names(ev, ev_ents) {
                None => None,
                Some(ns) => Some(Ok::<Seq<Seq<char>>, DepNamesFailure>(ns)),
            }),
            q <= ents@.len(),
            ents@.map_values(|c: usize| c as int) == ev_ents,
            forall|m: int| 0 <= m < ents@.len() ==> #[trigger] ents@[m] < syn.events@.len(),
            entry_names(ev, ev_ents.take(q as int)) == Some(strings_view(names@)),
        decreases ents@.len() - q,
    {
        let ent = ents[q];
        proof {
            assert(ev_ents[q as int] == ent as int);
            assert(ev_ents.take(q + 1).drop_last() =~= ev_ents.take(q as int));
        }
        let id = match syn.nth_child(ent, &KindSet::Only(NODE_IDENT), 0) {
            None => {
                proof {
                    lemma_entry_names_prefix(ev, ev_ents, q + 1);
                }
                return None;
            },
            Some(id) => id,
        };
        let t = match syn.first_token(id, TOKEN_IDENT) {
            None => {
                proof {
                    lemma_entry_names_prefix(ev, ev_ents, q + 1);
                }
                return None;
            },
            Some(t) => t,
        };
        proof {
            lemma_first_token(ev, id as int, TOKEN_IDENT);
        }
        let ghost old_names = names@;
        names.push(syn.token_text(t).clone());
        proof {
            assert(strings_view(names@) =~= strings_view(old_names).push(ev[t as int]->text->0));
        }
        q = q + 1;
    }
    proof {
        assert(ev_ents.take(ents@.len() as int) =~= ev_ents);
    }
    Some(Ok(names))
}

/// The file contents, as character sequences; `None` for a file that could
/// not be read.
pub open spec fn sources_view(v: Seq<Option<String>>) -> Seq<Option<Seq<char>>> {
    v.map_values(|s: Option<String>| match s {
        Some(c) => Some(c@),
        None => None,
    })
}

/// The dependency names of the package at `pos`, read from its file `src`:
/// [`DepNamesFailure::Unreadable`] where the file could not be read, else as
/// [`dep_names_spec`] gives them.
pub open spec fn read_dep_names_spec(pos: SourcePos, src: Option<Seq<char>>) -> Option<
    Result<Seq<Seq<char>>, DepNamesFailure>,
> {
    match src {
        None => Some(Err(DepNamesFailure::Unreadable)),
        Some(content) => dep_names_spec(pos, content),
    }
}

/// Get the names of all dependencies of the package at `pos` from its file
/// `src`, as [`read_dep_names_spec`] describes.
fn read_dep_names(pos: &SourcePos, src: &Option<String>) -> (r: Option<Result<Vec<String>, DepNamesError>>)
    ensures
        match read_dep_names_spec(*pos, match src {
            Some(c) => Some(c@),
            None => None,
        }) {
            None => r is None,
            Some(Ok(ns)) => r matches Some(Ok(v)) && strings_view(v@) == ns,
            Some(Err(f)) => r matches Some(Err(e)) && e@ == f,
        },
{
    match src {
        None => Some(Err(DepNamesError::Unreadable)),
        Some(content) => get_dep_names(pos, content.as_str()),
    }
}

/// What processing the packages `ps` in order gives, file contents `srcs[i]`
/// for package `i`: the dependency names of each package processed, and the
/// index and error of the package at which processing stopped, if any; `None`
/// where reading the names of a package processed gives up.
pub open spec fn add_spec(ps: Seq<Package>, srcs: Seq<Option<Seq<char>>>, n: int) -> Option<
    (Seq<Seq<Seq<char>>>, Option<(int, DepNamesFailure)>),
>
    decreases n,
{
    if n <= 0 {
        Some((Seq::empty(), None))
    } else {
        match add_spec(ps, srcs, n - 1) {
            None => None,
            Some((ns, Some(e))) => Some((ns, Some(e))),
            Some((ns, None)) => match read_dep_names_spec(ps[n - 1].pos, srcs[n - 1]) {
                None => None,
                Some(Err(f)) => Some((ns, Some((n - 1, f)))),
                Some(Ok(d)) => Some((ns.push(d), None)),
            },
        }
    }
}

/// The dependency names of the packages that processing added.
pub open spec fn added_names(ps: Seq<Package>, srcs: Seq<Option<Seq<char>>>, n: int) -> Seq<Seq<Seq<char>>> {
    match add_spec(ps, srcs, n) {
        Some((ns, _)) => ns,
        None => Seq::empty(),
    }
}

/// Where and why processing stopped, if it did.
pub open spec fn add_stop(ps: Seq<Package>, srcs: Seq<Option<Seq<char>>>, n: int) -> Option<(int, DepNamesFailure)> {
    match add_spec(ps, srcs, n) {
        Some((_, stop)) => stop,
        None => None,
    }
}

/// `after` is `before` followed by the packages `pkgs`, in order, each with
/// the dependency names that `ns` gives it.
pub open spec fn appended(
    before: Seq<DepEntry>,
    after: Seq<DepEntry>,
    pkgs: Seq<Package>,
    ns: Seq<Seq<Seq<char>>>,
) -> bool {
    &&& after.len() == before.len() + ns.len()
    &&& after.take(before.len() as int) == before
    &&& forall|j: int|
        0 <= j < ns.len() ==> #[trigger] after[before.len() + j].0 == pkgs[j] && strings_view(
            after[before.len() + j].1@,
        ) == ns[j]
}

/// `r` is the result of adding the packages `pkgs` that stopped as `stop`
/// says: `Ok` without a stop, else the error of the package at which it stopped.
pub open spec fn add_result(
    r: Result<(), ResolveError>,
    pkgs: Seq<Package>,
    stop: Option<(int, DepNamesFailure)>,
) -> bool {
    match stop {
        None => r == Ok::<(), ResolveError>(()),
        Some((i, f)) => r matches Err(ResolveError::Package { package, error }) && package@
            == pkgs[i].name@ && error@ == f,
    }
}

/// The entries `pending` are the packages `pkgs` in order, each with the
/// dependency names `ns` gives it.
pub open spec fn pending_matches(pending: Seq<DepEntry>, pkgs: Seq<Package>, ns: Seq<Seq<Seq<char>>>) -> bool {
    &&& pending.len() == ns.len()
    &&& forall|j: int|
        0 <= j < pending.len() ==> #[trigger] pending[j].0 == pkgs[j] && strings_view(pending[j].1@)
            == ns[j]
}

proof fn lemma_pending_push(pending: Seq<DepEntry>, pkgs: Seq<Package>, ns: Seq<Seq<Seq<char>>>, e: DepEntry)
    requires
        pending_matches(pending, pkgs, ns),
        e.0 == pkgs[pending.len() as int],
    ensures
        pending_matches(pending.push(e), pkgs, ns.push(strings_view(e.1@))),
{
    let p2 = pending.push(e);
    let n2 = ns.push(strings_view(e.1@));
    assert forall|j: int| 0 <= j < p2.len() implies #[trigger] p2[j].0 == pkgs[j] && strings_view(p2[j].1@)
        == n2[j] by {
        if j < pending.len() {
            assert(p2[j] == pending[j]);
            assert(n2[j] == ns[j]);
            assert(pending[j].0 == pkgs[j] && strings_view(pending[j].1@) == ns[j]);
        } else {
            assert(j == pending.len());
            assert(p2[j] == e);
            assert(n2[j] == strings_view(e.1@));
        }
    }
}

#[verifier::spinoff_prover]
proof fn lemma_appended(before: Seq<DepEntry>, pending: Seq<DepEntry>, pkgs: Seq<Package>, ns: Seq<Seq<Seq<char>>>)
    requires
        pending_matches(pending, pkgs, ns),
    ensures
        appended(before, before + pending, pkgs, ns),
{
    let after = before + pending;
    assert(after.take(before.len() as int) =~= before);
    assert forall|j: int| 0 <= j < ns.len() implies #[trigger] after[before.len() + j].0 == pkgs[j]
        && strings_view(after[before.len() + j].1@) == ns[j] by {
        assert(after[before.len() + j] == pending[j]);
        assert(pending[j].0 == pkgs[j] && strings_view(pending[j].1@) == ns[j]);
    }
}

proof fn lemma_add_spec_stopped(ps: Seq<Package>, srcs: Seq<Option<Seq<char>>>, k: int, n: int)
    requires
        0 <= k <= n,
        add_spec(ps, srcs, k) matches Some((_, Some(_))),
    ensures
        add_spec(ps, srcs, n) == add_spec(ps, srcs, k),
    decreases n - k,
{
    if k < n {
        lemma_add_spec_stopped(ps, srcs, k, n - 1);
    }
}

proof fn lemma_add_spec_aborted(ps: Seq<Package>, srcs: Seq<Option<Seq<char>>>, k: int, n: int)
    requires
        0 <= k <= n,
        add_spec(ps, srcs, k) is None,
    ensures
        add_spec(ps, srcs, n) is None,
    decreases n - k,
{
    if k < n {
        lemma_add_spec_aborted(ps, srcs, k, n - 1);
    }
}

proof fn lemma_add_prefix_succeeds(
    ps: Seq<Package>,
    srcs: Seq<Option<Seq<char>>>,
    ds: Seq<Seq<Seq<char>>>,
    n: int,
)
    requires
        0 <= n <= ds.len(),
        forall|k: int| 0 <= k < n ==> #[trigger] read_dep_names_spec(ps[k].pos, srcs[k]) == Some(
            Ok::<Seq<Seq<char>>, DepNamesFailure>(ds[k]),
        ),
    ensures
        add_spec(ps, srcs, n) == Some((ds.take(n), None::<(int, DepNamesFailure)>)),
    decreases n,
{
    if n == 0 {
        assert(ds.take(0) =~= Seq::<Seq<Seq<char>>>::empty());
    } else {
        lemma_add_prefix_succeeds(ps, srcs, ds, n - 1);
        assert(read_dep_names_spec(ps[n - 1].pos, srcs[n - 1]) == Some(
            Ok::<Seq<Seq<char>>, DepNamesFailure>(ds[n - 1]),
        ));
        assert(ds.take(n - 1).push(ds[n - 1]) =~= ds.take(n));
    }
}

/// Where the dependency names of every package can be read, `ds[k]` those of
/// package `k`, adding the packages appends every one of them in order with
/// its names, and succeeds (see [`PartialDepsGraph::add_from_locs`]).
pub proof fn lemma_add_all_succeed(ps: Seq<Package>, srcs: Seq<Option<Seq<char>>>, ds: Seq<Seq<Seq<char>>>)
    requires
        ds.len() == ps.len(),
        forall|k: int| 0 <= k < ps.len() ==> #[trigger] read_dep_names_spec(ps[k].pos, srcs[k]) == Some(
            Ok::<Seq<Seq<char>>, DepNamesFailure>(ds[k]),
        ),
    ensures
        add_spec(ps, srcs, ps.len() as int) == Some((ds, None::<(int, DepNamesFailure)>)),
{
    lemma_add_prefix_succeeds(ps, srcs, ds, ps.len() as int);
    assert(ds.take(ps.len() as int) =~= ds);
}

/// Where reading the names of packages `0..k` succeeds, `ds[i]` those of
/// package `i`, and that of package `k` fails with `e`, adding the packages
/// appends the first `k` of them with their names, stops with the error `e` of
/// package `k`, and processes no later package (see
/// [`PartialDepsGraph::add_from_locs`]).
pub proof fn lemma_add_stops_at_first_error(
    ps: Seq<Package>,
    srcs: Seq<Option<Seq<char>>>,
    ds: Seq<Seq<Seq<char>>>,
    k: int,
    e: DepNamesFailure,
)
    requires
        0 <= k < ps.len(),
        ds.len() == k,
        forall|i: int| 0 <= i < k ==> #[trigger] read_dep_names_spec(ps[i].pos, srcs[i]) == Some(
            Ok::<Seq<Seq<char>>, DepNamesFailure>(ds[i]),
        ),
        read_dep_names_spec(ps[k].pos, srcs[k]) == Some(Err::<Seq<Seq<char>>, DepNamesFailure>(e)),
    ensures
        add_spec(ps, srcs, ps.len() as int) == Some((ds, Some((k, e)))),
{
    lemma_add_prefix_succeeds(ps, srcs, ds, k);
    assert(ds.take(k) =~= ds);
    assert(add_spec(ps, srcs, k + 1) == Some((ds, Some((k, e)))));
    lemma_add_spec_stopped(ps, srcs, k + 1, ps.len() as int);
}

impl PartialDepsGraph {
    /// Adds the packages as [`PartialDepsGraph::add_from_locs`] does, where
    /// `sources[i]` holds the file of package `i`; `None` where reading the
    /// dependency names gives up (see [`dep_names_spec`]).
    #[verifier::spinoff_prover]
    #[verifier::rlimit(40)]
    fn add_checked(&mut self, ps: PackageLocations, sources: &Vec<Option<String>>) -> (r: Option<
        Result<(), ResolveError>,
    >)
        requires
            sources@.len() == ps.packages().len(),
        ensures
            match add_spec(ps.packages(), sources_view(sources@), ps.packages().len() as int) {
                None => r is None && final(self).entries() == old(self).entries(),
                Some((ns, stop)) => {
                    &&& appended(old(self).entries(), final(self).entries(), ps.packages(), ns)
                    &&& r matches Some(res) && add_result(res, ps.packages(), stop)
                },
            },
    {
        let ghost pkgs = ps.packages();
        let ghost srcs = sources_view(sources@);
        let mut rest = ps.into_vec();
        let mut pending: Vec<DepEntry> = Vec::new();
        let mut i: usize = 0;
        let n = sources.len();
        while rest.len() > 0
            invariant
                n == sources@.len(),
                n == pkgs.len(),
                pkgs == ps.packages(),
                self.entries() == old(self).entries(),
                srcs == sources_view(sources@),
                i + rest@.len() == n,
                rest@ == pkgs.skip(i as int),
                add_spec(pkgs, srcs, i as int) is Some,
                add_stop(pkgs, srcs, i as int) is None,
                added_names(pkgs, srcs, i as int).len() == i,
                pending@.len() == i,
                pending_matches(pending@, pkgs, added_names(pkgs, srcs, i as int)),
            decreases rest@.len(),
        {
            let p = rest.remove(0);
            proof {
                assert(p == pkgs[i as int]);
                assert(rest@ =~= pkgs.skip(i + 1));
                assert(srcs[i as int] == match sources@[i as int] {
                    Some(c) => Some(c@),
                    None => None::<Seq<char>>,
                });
            }
            match read_dep_names(&p.pos, &sources[i]) {
                None => {
                    proof {
                        lemma_add_spec_aborted(pkgs, srcs, i + 1, n as int);
                    }
                    return None;
                },
                Some(Err(error)) => {
                    proof {
                        assert(read_dep_names_spec(pkgs[i as int].pos, srcs[i as int]) == Some(Err::<Seq<Seq<char>>, DepNamesFailure>(error@)));
                        assert(add_spec(pkgs, srcs, i + 1) == Some((added_names(pkgs, srcs, i as int), Some((i as int, error@)))));
                        lemma_add_spec_stopped(pkgs, srcs, i + 1, n as int);
                    }
                    let ghost old_pending = pending@;
                    self.0.append(&mut pending);
                    proof {
                        assert(self.entries() =~= old(self).entries() + old_pending);
                        lemma_appended(old(self).entries(), old_pending, pkgs, added_names(pkgs, srcs, i as int));
                    }
                    let r = Err(ResolveError::Package { package: p.name, error });
                    assert(add_result(r, pkgs, add_stop(pkgs, srcs, n as int)));
                    return Some(r);
                },
                Some(Ok(deps)) => {
                    let ghost old_pending = pending@;
                    pending.push((p, deps));
                    proof {
                        let ns = added_names(pkgs, srcs, i as int);
                        let ns2 = added_names(pkgs, srcs, i + 1);
                        assert(read_dep_names_spec(pkgs[i as int].pos, srcs[i as int]) == Some(Ok::<Seq<Seq<char>>, DepNamesFailure>(strings_view(deps@))));
                        assert(add_spec(pkgs, srcs, i + 1) == Some((ns.push(strings_view(deps@)), None::<(int, DepNamesFailure)>)));
                        assert(ns2 == ns.push(strings_view(deps@)));
                        assert(pending@ == old_pending.push(pending@[i as int]));
                        lemma_pending_push(old_pending, pkgs, ns, pending@[i as int]);
                    }
                },
            }
            i = i + 1;
        }
        let ghost old_pending = pending@;
        self.0.append(&mut pending);
        proof {
            assert(self.entries() =~= old(self).entries() + old_pending);
            lemma_appended(old(self).entries(), old_pending, pkgs, added_names(pkgs, srcs, i as int));
        }
        Some(Ok(()))
    }

    /// Add one package, reading the names of its dependencies from its file
    /// `src` (`None` where the file could not be read), as
    /// [`PartialDepsGraph::add_from_locs`] does for each package: `Ok` with the
    /// package appended with its names, or the error with the graph unchanged;
    /// `None`, with the graph unchanged, where reading the names gives up (see
    /// [`dep_names_spec`]).
    pub fn add_package(&mut self, p: Package, src: &Option<String>) -> (r: Option<Result<(), ResolveError>>)
        ensures
            match read_dep_names_spec(p.pos, match src {
                Some(c) => Some(c@),
                None => None,
            }) {
                None => r is None && final(self).entries() == old(self).entries(),
                Some(Ok(ns)) => r == Some(Ok::<(), ResolveError>(())) && final(self).entries().len()
                    == old(self).entries().len() + 1 && final(self).entries().drop_last() == old(
                    self,
                ).entries() && final(self).entries().last().0 == p && strings_view(
                    final(self).entries().last().1@,
                ) == ns,
                Some(Err(f)) => {
                    &&& final(self).entries() == old(self).entries()
                    &&& r matches Some(Err(ResolveError::Package { package, error })) && package@
                        == p.name@ && error@ == f
                },
            },
    {
        match read_dep_names(&p.pos, src) {
            None => None,
            Some(Err(error)) => Some(Err(ResolveError::Package { package: p.name, error })),
            Some(Ok(deps)) => {
                self.0.push((p, deps));
                proof {
                    assert(self.entries().drop_last() =~= old(self).entries());
                }
                Some(Ok(()))
            },
        }
    }

    /// Build a dependency graph from the given package locations: for each
    /// package in order, read the names of its dependencies from the Nix code
    /// of its file, held in `sources[i]` for package `i` (`None` where the file
    /// could not be read), and add the package with them; the first package whose names cannot be read stops the
    /// processing with its error. The lambda at each position must be one whose
    /// dependency names can be read (see [`dep_names_spec`]).
    #[verifier::spinoff_prover]
    pub fn add_from_locs(&mut self, ps: PackageLocations, sources: &Vec<Option<String>>) -> (r: Result<
        (),
        ResolveError,
    >)
        requires
            sources@.len() == ps.packages().len(),
            add_spec(ps.packages(), sources_view(sources@), ps.packages().len() as int) is Some,
        ensures
            match add_spec(ps.packages(), sources_view(sources@), ps.packages().len() as int) {
                None => true,
                Some((ns, stop)) => appended(old(self).entries(), final(self).entries(), ps.packages(), ns)
                    && add_result(r, ps.packages(), stop),
            },
    {
        match self.add_checked(ps, sources) {
            Some(r) => r,
            None => vstd::pervasive::unreached(),
        }
    }

    /// Build a dependency graph from the given package locations, as
    /// [`PartialDepsGraph::add_from_locs`] does, where `sources[i]` holds the
    /// file of package `i`; `None`, with the graph unchanged, where reading the
    /// dependency names of a package gives up (see [`dep_names_spec`]), on which
    /// `add_from_locs` cannot be called.
    pub fn try_add_from_locs(&mut self, ps: PackageLocations, sources: &Vec<Option<String>>) -> (r: Option<
        Result<(), ResolveError>,
    >)
        requires
            sources@.len() == ps.packages().len(),
        ensures
            match add_spec(ps.packages(), sources_view(sources@), ps.packages().len() as int) {
                None => r is None && final(self).entries() == old(self).entries(),
                Some((ns, stop)) => {
                    &&& appended(old(self).entries(), final(self).entries(), ps.packages(), ns)
                    &&& r matches Some(res) && add_result(res, ps.packages(), stop)
                },
            },
    {
        if completes(ps.as_slice(), sources) {
            Some(self.add_from_locs(ps, sources))
        } else {
            None
        }
    }
}

/// Reading the dependency names of the packages `ps` in order, from the files
/// `sources`, does not give up before it ends or stops at an error.
fn completes(ps: &[Package], sources: &Vec<Option<String>>) -> (r: bool)
    requires
        sources@.len() == ps@.len(),
    ensures
        r == add_spec(ps@, sources_view(sources@), ps@.len() as int) is Some,
{
    let ghost srcs = sources_view(sources@);
    let mut i: usize = 0;
    while i < ps.len()
        invariant
            sources@.len() == ps@.len(),
            srcs == sources_view(sources@),
            i <= ps@.len(),
            add_spec(ps@, srcs, i as int) is Some,
            add_stop(ps@, srcs, i as int) is None,
        decreases ps@.len() - i,
    {
        proof {
            assert(srcs[i as int] == match sources@[i as int] {
                    Some(c) => Some(c@),
                    None => None::<Seq<char>>,
                });
        }
        match read_dep_names(&ps[i].pos, &sources[i]) {
            None => {
                proof {
                    lemma_add_spec_aborted(ps@, srcs, i + 1, ps@.len() as int);
                }
                return false;
            },
            Some(Err(_)) => {
                proof {
                    lemma_add_spec_stopped(ps@, srcs, i + 1, ps@.len() as int);
                }
                return true;
            },
            Some(Ok(_)) => {},
        }
        i = i + 1;
    }
    true
}

} // verus!
