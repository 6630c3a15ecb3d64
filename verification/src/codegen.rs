use crate::deps::{lemma_incoming_sources, DepsGraph, PkgRef};
use crate::graph::{incoming_sources, incoming_sources_spec};
use crate::package::Package;
use crate::text::{
    append_decimal, chars_of, concat_map, decimal, is_sorted_set_of, lemma_concat_map_split, lemma_concat_map_step,
    lemma_sorted_set, lemma_take_all, sorted_distinct_indices, sorted_set,
};
use vstd::prelude::*;
use vstd::string::StringExecFns;

verus! {

/// `to = value;` followed by a newline.
pub open spec fn bind_text(to: Seq<char>, value: Seq<char>) -> Seq<char> {
    to + " = "@ + value + ";\n"@
}

/// The binding of a pair.
pub open spec fn pair_bind(p: (Seq<char>, Seq<char>)) -> Seq<char> {
    bind_text(p.0, p.1)
}

/// The binding of a pair, followed by an empty line.
pub open spec fn pair_let_bind(p: (Seq<char>, Seq<char>)) -> Seq<char> {
    bind_text(p.0, p.1) + "\n"@
}

/// A `let` expression binding each pair of `vals`, in order, around `body`.
pub open spec fn let_text(vals: Seq<(Seq<char>, Seq<char>)>, body: Seq<char>) -> Seq<char> {
    "let "@ + concat_map(vals, |p: (Seq<char>, Seq<char>)| pair_let_bind(p)) + "\n in "@ + body
}

/// An attribute set binding each pair of `vals`, in order.
pub open spec fn attrset_text(vals: Seq<(Seq<char>, Seq<char>)>) -> Seq<char> {
    "{\n"@ + concat_map(vals, |p: (Seq<char>, Seq<char>)| pair_bind(p)) + "\n}"@
}

/// The name of the variable that holds level `i`.
pub open spec fn lvl_name(i: nat) -> Seq<char> {
    "lvl"@ + decimal(i)
}

/// The pairs of strings, as character sequences.
pub open spec fn pairs_view(vals: Seq<(String, String)>) -> Seq<(Seq<char>, Seq<char>)> {
    vals.map_values(|p: (String, String)| (p.0@, p.1@))
}

/// Appends the bindings of `vals` to `out`, each followed by `sep`.
fn append_binds(out: &mut String, vals: &Vec<(String, String)>, sep: &str)
    ensures
        final(out)@ == old(out)@ + concat_map(
            pairs_view(vals@),
            |p: (Seq<char>, Seq<char>)| bind_text(p.0, p.1) + sep@,
        ),
{
    let ghost f = |p: (Seq<char>, Seq<char>)| bind_text(p.0, p.1) + sep@;
    let ghost pv = pairs_view(vals@);
    let mut i: usize = 0;
    while i < vals.len()
        invariant
            i <= vals@.len(),
            pv == pairs_view(vals@),
            f == (|p: (Seq<char>, Seq<char>)| bind_text(p.0, p.1) + sep@),
            out@ == old(out)@ + concat_map(pv.take(i as int), f),
        decreases vals@.len() - i,
    {
        let ghost before = out@;
        let b = nix_bind(vals[i].0.as_str(), vals[i].1.as_str());
        out.append(b.as_str());
        out.append(sep);
        proof {
            lemma_concat_map_step(pv, f, i as int);
            assert(pv[i as int] == (vals@[i as int].0@, vals@[i as int].1@));
            assert(b@ == bind_text(pv[i as int].0, pv[i as int].1));
            assert(f(pv[i as int]) == bind_text(pv[i as int].0, pv[i as int].1) + sep@);
            assert(out@ =~= before + f(pv[i as int]));
        }
        i = i + 1;
    }
    proof {
        lemma_take_all(pv);
    }
}

/// The text `to = value;` and a newline.
pub fn nix_bind(to: &str, value: &str) -> (r: String)
    ensures
        r@ == bind_text(to@, value@),
{
    let mut s = String::new();
    s.append(to);
    s.append(" = ");
    s.append(value);
    s.append(";\n");
    s
}

/// A `let` expression that binds `vals` in order, with `body` after `in`.
pub fn nix_let(vals: &Vec<(String, String)>, body: &str) -> (r: String)
    ensures
        r@ == let_text(pairs_view(vals@), body@),
{
    let mut out = String::new();
    out.append("let ");
    append_binds(&mut out, vals, "\n");
    out.append("\n in ");
    out.append(body);
    proof {
        let f1 = |p: (Seq<char>, Seq<char>)| bind_text(p.0, p.1) + "\n"@;
        let f2 = |p: (Seq<char>, Seq<char>)| pair_let_bind(p);
        assert(f1 =~= f2);
    }
    out
}

/// An attribute set that binds `vals` in order.
pub fn nix_attrset(vals: &Vec<(String, String)>) -> (r: String)
    ensures
        r@ == attrset_text(pairs_view(vals@)),
{
    let mut out = String::new();
    out.append("{\n");
    append_binds(&mut out, vals, "");
    out.append("\n}");
    proof {
        let f1 = |p: (Seq<char>, Seq<char>)| bind_text(p.0, p.1) + ""@;
        let f2 = |p: (Seq<char>, Seq<char>)| pair_bind(p);
        reveal_strlit("");
        assert forall|p: (Seq<char>, Seq<char>)| #[trigger] f1(p) == f2(p) by {
            assert(bind_text(p.0, p.1) + ""@ =~= bind_text(p.0, p.1));
        }
        assert(f1 =~= f2);
    }
    out
}

/// The flake slugs of the packages.
pub open spec fn slugs(pkgs: Seq<Package>) -> Seq<Seq<char>> {
    pkgs.map_values(|p: Package| p.flake_slug@)
}

/// The head of the generated function: its distinct flake slugs in increasing
/// order, each followed by a comma, as the function's destructured arguments.
pub open spec fn flakes_header(pkgs: Seq<Package>) -> Seq<char> {
    "{ "@ + concat_map(sorted_set(slugs(pkgs)), |f: Seq<char>| f + ", "@) + " ... }: "@
}

/// The binding that hands the package `d` of the final level to a dependent.
pub open spec fn dep_text(pkgs: Seq<Package>, fin: Seq<char>, d: usize) -> Seq<char> {
    " "@ + pkgs[d as int].name@ + " = "@ + fin + "."@ + pkgs[d as int].name@ + ";"@
}

/// The call of package `k`'s function from its flake, with its dependencies
/// taken from the final level.
pub open spec fn package_value(
    pkgs: Seq<Package>,
    edges: Seq<(usize, usize)>,
    fin: Seq<char>,
    k: usize,
) -> Seq<char> {
    pkgs[k as int].flake_slug@ + "."@ + pkgs[k as int].name@ + " { "@ + concat_map(
        incoming_sources_spec(edges, k),
        |d: usize| dep_text(pkgs, fin, d),
    ) + " }"@
}

/// The attribute set entries of one level: each package's name bound to its call.
pub open spec fn level_entries(
    pkgs: Seq<Package>,
    edges: Seq<(usize, usize)>,
    fin: Seq<char>,
    level: Seq<usize>,
) -> Seq<(Seq<char>, Seq<char>)> {
    level.map_values(|k: usize| (pkgs[k as int].name@, package_value(pkgs, edges, fin, k)))
}

/// The binding of level `i`: the previous level (or an empty set) updated with
/// the packages of level `i`.
pub open spec fn level_binding(
    pkgs: Seq<Package>,
    edges: Seq<(usize, usize)>,
    levels: Seq<Seq<usize>>,
    i: int,
) -> (Seq<char>, Seq<char>) {
    let fin = lvl_name((levels.len() - 1) as nat);
    (
        lvl_name(i as nat),
        (if i > 0 { lvl_name((i - 1) as nat) } else { "{}"@ }) + " // "@ + attrset_text(
            level_entries(pkgs, edges, fin, levels[i]),
        ),
    )
}

/// The Nix code for the levels: a function of all flakes that binds one
/// variable per level and evaluates to the final level.
pub open spec fn levels_nix_text(
    pkgs: Seq<Package>,
    edges: Seq<(usize, usize)>,
    levels: Seq<Seq<usize>>,
) -> Seq<char> {
    flakes_header(pkgs) + let_text(
        Seq::new(levels.len(), |i: int| level_binding(pkgs, edges, levels, i)),
        lvl_name((levels.len() - 1) as nat),
    )
}

/// The text `d = <fin>.d;`, with a leading space, that hands package `d` to a
/// dependent.
pub open spec fn hand_over(pkgs: Seq<Package>, fin: Seq<char>) -> spec_fn(usize) -> Seq<char> {
    |d: usize| " "@ + pkgs[d as int].name@ + " = "@ + fin + "."@ + pkgs[d as int].name@ + ";"@
}

proof fn lemma_entry_binding(
    pkgs: Seq<Package>,
    edges: Seq<(usize, usize)>,
    fin: Seq<char>,
    level: Seq<usize>,
    j: int,
)
    requires
        0 <= j < level.len(),
    ensures
        ({
            let k = level[j];
            pair_bind(level_entries(pkgs, edges, fin, level)[j]) == pkgs[k as int].name@ + " = "@
                + pkgs[k as int].flake_slug@ + "."@ + pkgs[k as int].name@ + " { "@ + concat_map(
                incoming_sources_spec(edges, k),
                hand_over(pkgs, fin),
            ) + " }"@ + ";\n"@
        }),
{
    let k = level[j];
    let fd2 = |d: usize| dep_text(pkgs, fin, d);
    assert(hand_over(pkgs, fin) =~= fd2);
    assert(concat_map(incoming_sources_spec(edges, k), hand_over(pkgs, fin)) == concat_map(
        incoming_sources_spec(edges, k),
        fd2,
    ));
    let e = level_entries(pkgs, edges, fin, level)[j];
    assert(e == (pkgs[k as int].name@, package_value(pkgs, edges, fin, k)));
    assert(pair_bind(e) =~= pkgs[k as int].name@ + " = "@ + pkgs[k as int].flake_slug@ + "."@
        + pkgs[k as int].name@ + " { "@ + concat_map(incoming_sources_spec(edges, k), hand_over(pkgs, fin))
        + " }"@ + ";\n"@);
}

proof fn lemma_in_attrset(es: Seq<(Seq<char>, Seq<char>)>, j: int) -> (r: (Seq<char>, Seq<char>))
    requires
        0 <= j < es.len(),
    ensures
        attrset_text(es) == r.0 + pair_bind(es[j]) + r.1,
{
    let fe = |p: (Seq<char>, Seq<char>)| pair_bind(p);
    lemma_concat_map_split(es, fe, j);
    let c1 = concat_map(es.take(j), fe);
    let c2 = concat_map(es.skip(j + 1), fe);
    assert(fe(es[j]) == pair_bind(es[j]));
    assert(attrset_text(es) =~= ("{\n"@ + c1) + pair_bind(es[j]) + (c2 + "\n}"@));
    ("{\n"@ + c1, c2 + "\n}"@)
}

proof fn lemma_in_let(
    bs: Seq<(Seq<char>, Seq<char>)>,
    i: int,
    body: Seq<char>,
    u: Seq<char>,
    x: Seq<char>,
    v: Seq<char>,
) -> (r: (Seq<char>, Seq<char>))
    requires
        0 <= i < bs.len(),
        bs[i].1 == u + x + v,
    ensures
        let_text(bs, body) == r.0 + x + r.1,
{
    let fb = |p: (Seq<char>, Seq<char>)| pair_let_bind(p);
    lemma_concat_map_split(bs, fb, i);
    let a1 = concat_map(bs.take(i), fb);
    let a2 = concat_map(bs.skip(i + 1), fb);
    assert(fb(bs[i]) =~= bs[i].0 + " = "@ + u + x + v + ";\n"@ + "\n"@);
    let l = "let "@ + a1 + bs[i].0 + " = "@ + u;
    let rr = v + ";\n"@ + "\n"@ + a2 + "\n in "@ + body;
    assert(let_text(bs, body) =~= l + x + rr);
    (l, rr)
}

/// In the code for the levels, each package `k` of level `i` is bound to the
/// call of its own function from its own flake, passing it its own
/// dependencies: `d = lvl<last>.d;` (see [`hand_over`]) for the source `d` of
/// each edge into `k`, the edge added last first.
pub proof fn lemma_code_binds_each_package(
    pkgs: Seq<Package>,
    edges: Seq<(usize, usize)>,
    levels: Seq<Seq<usize>>,
    i: int,
    j: int,
)
    requires
        0 <= i < levels.len(),
        0 <= j < levels[i].len(),
    ensures
        ({
            let k = levels[i][j];
            let fin = lvl_name((levels.len() - 1) as nat);
            let binding = pkgs[k as int].name@ + " = "@ + pkgs[k as int].flake_slug@ + "."@
                + pkgs[k as int].name@ + " { "@ + concat_map(
                incoming_sources_spec(edges, k),
                hand_over(pkgs, fin),
            ) + " }"@ + ";\n"@;
            exists|a: Seq<char>, b: Seq<char>| levels_nix_text(pkgs, edges, levels) == a + binding + b
        }),
{
    let k = levels[i][j];
    let n = levels.len();
    let fin = lvl_name((n - 1) as nat);
    let binding = pkgs[k as int].name@ + " = "@ + pkgs[k as int].flake_slug@ + "."@ + pkgs[k as int].name@
        + " { "@ + concat_map(incoming_sources_spec(edges, k), hand_over(pkgs, fin)) + " }"@ + ";\n"@;
    let bs = Seq::new(n, |m: int| level_binding(pkgs, edges, levels, m));
    let es = level_entries(pkgs, edges, fin, levels[i]);
    lemma_entry_binding(pkgs, edges, fin, levels[i], j);
    let (c1, c2) = lemma_in_attrset(es, j);
    let prev = if i > 0 { lvl_name((i - 1) as nat) } else { "{}"@ };
    assert(bs[i] == level_binding(pkgs, edges, levels, i));
    assert(bs[i].1 =~= (prev + " // "@ + c1) + binding + c2);
    let (l, r) = lemma_in_let(bs, i, fin, prev + " // "@ + c1, binding, c2);
    assert(levels_nix_text(pkgs, edges, levels) =~= (flakes_header(pkgs) + l) + binding + r);
}

impl DepsGraph {
    /// The name of the variable that holds level `i`.
    fn lvl_idx(i: usize) -> (r: String)
        ensures
            r@ == lvl_name(i as nat),
    {
        let mut s = String::new();
        s.append("lvl");
        append_decimal(&mut s, i);
        s
    }

    /// The head of the generated function, listing the flakes.
    fn flakes_header(&self) -> (r: String)
        ensures
            r@ == flakes_header(self.packages()),
    {
        proof {
            self.lemma_fields();
        }
        let mut items: Vec<Vec<char>> = Vec::new();
        let mut i: usize = 0;
        while i < self.pkgs.len()
            invariant
                i <= self.pkgs@.len(),
                self.pkgs@ == self.packages(),
                items@.len() == i,
                forall|j: int| 0 <= j < i ==> #[trigger] items@[j]@ == self.pkgs@[j].flake_slug@,
            decreases self.pkgs@.len() - i,
        {
            items.push(chars_of(self.pkgs[i].flake_slug.as_str()));
            i = i + 1;
        }
        proof {
            assert(items@.map_values(|v: Vec<char>| v@) =~= slugs(self.packages()));
        }
        let idx = sorted_distinct_indices(&items);
        let ghost fl = idx@.map_values(|k: usize| items@[k as int]@);
        proof {
            lemma_sorted_set(fl, slugs(self.packages()));
        }
        let ghost f = |x: Seq<char>| x + ", "@;
        let mut out = String::new();
        out.append("{ ");
        let mut k: usize = 0;
        while k < idx.len()
            invariant
                k <= idx@.len(),
                self.pkgs@ == self.packages(),
                items@.len() == self.pkgs@.len(),
                forall|j: int| 0 <= j < items@.len() ==> #[trigger] items@[j]@ == self.pkgs@[j].flake_slug@,
                forall|j: int| 0 <= j < idx@.len() ==> #[trigger] idx@[j] < items@.len(),
                fl == idx@.map_values(|k: usize| items@[k as int]@),
                f == (|x: Seq<char>| x + ", "@),
                out@ == "{ "@ + concat_map(fl.take(k as int), f),
            decreases idx@.len() - k,
        {
            let ghost before = out@;
            out.append(self.pkgs[idx[k]].flake_slug.as_str());
            out.append(", ");
            proof {
                lemma_concat_map_step(fl, f, k as int);
                assert(out@ =~= before + f(fl[k as int]));
            }
            k = k + 1;
        }
        proof {
            lemma_take_all(fl);
        }
        out.append(" ... }: ");
        out
    }

    /// The bindings that pass the packages `deps` from the final level `fin`.
    fn dependency_text(&self, deps: &Vec<usize>, fin: &str) -> (r: String)
        requires
            forall|j: int| 0 <= j < deps@.len() ==> #[trigger] deps@[j] < self.packages().len(),
        ensures
            r@ == concat_map(deps@, |d: usize| dep_text(self.packages(), fin@, d)),
    {
        let ghost f = |d: usize| dep_text(self.packages(), fin@, d);
        let mut out = String::new();
        let mut i: usize = 0;
        while i < deps.len()
            invariant
                i <= deps@.len(),
                forall|j: int| 0 <= j < deps@.len() ==> #[trigger] deps@[j] < self.packages().len(),
                f == (|d: usize| dep_text(self.packages(), fin@, d)),
                out@ == concat_map(deps@.take(i as int), f),
            decreases deps@.len() - i,
        {
            let ghost before = out@;
            let p = self.get(deps[i]);
            out.append(" ");
            out.append(p.name.as_str());
            out.append(" = ");
            out.append(fin);
            out.append(".");
            out.append(p.name.as_str());
            out.append(";");
            proof {
                lemma_concat_map_step(deps@, f, i as int);
                assert(out@ =~= before + f(deps@[i as int]));
            }
            i = i + 1;
        }
        proof {
            lemma_take_all(deps@);
        }
        out
    }

    /// The call of package `k` with its dependencies from the final level `fin`.
    fn package_call(&self, k: usize, fin: &str) -> (r: String)
        requires
            k < self.packages().len(),
        ensures
            r@ == package_value(self.packages(), self.edges(), fin@, k),
    {
        proof {
            use_type_invariant(self);
            self.lemma_fields();
        }
        let deps = incoming_sources(&self.g, k);
        proof {
            if k >= self.node_count() {
                if incoming_sources_spec(self.edges(), k).len() > 0 {
                    let y = incoming_sources_spec(self.edges(), k)[0];
                    assert(incoming_sources_spec(self.edges(), k).contains(y));
                    lemma_incoming_sources(self.edges(), k, y);
                }
                assert(deps@ =~= incoming_sources_spec(self.edges(), k));
            }
            assert forall|j: int| 0 <= j < deps@.len() implies #[trigger] deps@[j] < self.packages().len() by {
                assert(deps@.contains(deps@[j]));
                lemma_incoming_sources(self.edges(), k, deps@[j]);
            }
        }
        let p = self.get(k);
        let d = self.dependency_text(&deps, fin);
        let mut out = String::new();
        out.append(p.flake_slug.as_str());
        out.append(".");
        out.append(p.name.as_str());
        out.append(" { ");
        out.append(d.as_str());
        out.append(" }");
        out
    }

    /// Generates Nix code that builds the packages level by level: each level
    /// is bound to a variable that extends the previous level's attribute set
    /// with the level's packages, whose dependencies are taken from the final
    /// level.
    pub fn levels_to_nix(&self, levels: &Vec<Vec<PkgRef>>) -> (r: String)
        requires
            levels@.len() >= 1,
            forall|i: int, j: int|
                0 <= i < levels@.len() && 0 <= j < levels@[i]@.len() ==> #[trigger] levels@[i]@[j]
                    < self.packages().len(),
        ensures
            r@ == levels_nix_text(
                self.packages(),
                self.edges(),
                levels@.map_values(|l: Vec<usize>| l@),
            ),
    {
        let ghost lv = levels@.map_values(|l: Vec<usize>| l@);
        let fin = Self::lvl_idx(levels.len() - 1);
        let header = self.flakes_header();
        let mut bindings: Vec<(String, String)> = Vec::new();
        let mut i: usize = 0;
        while i < levels.len()
            invariant
                i <= levels@.len(),
                lv == levels@.map_values(|l: Vec<usize>| l@),
                fin@ == lvl_name((levels@.len() - 1) as nat),
                forall|a: int, b: int|
                    0 <= a < levels@.len() && 0 <= b < levels@[a]@.len() ==> #[trigger] levels@[a]@[b]
                        < self.packages().len(),
                bindings@.len() == i,
                forall|j: int|
                    0 <= j < i ==> #[trigger] pairs_view(bindings@)[j] == level_binding(
                        self.packages(),
                        self.edges(),
                        lv,
                        j,
                    ),
            decreases levels@.len() - i,
        {
            let mut prev = if i > 0 {
                Self::lvl_idx(i - 1)
            } else {
                let mut e = String::new();
                e.append("{}");
                e
            };
            let level = &levels[i];
            let mut entries: Vec<(String, String)> = Vec::new();
            let mut j: usize = 0;
            while j < level.len()
                invariant
                    j <= level@.len(),
                    level@ == lv[i as int],
                    fin@ == lvl_name((levels@.len() - 1) as nat),
                    forall|b: int| 0 <= b < level@.len() ==> #[trigger] level@[b] < self.packages().len(),
                    entries@.len() == j,
                    forall|b: int|
                        0 <= b < j ==> #[trigger] pairs_view(entries@)[b] == (
                            self.packages()[level@[b] as int].name@,
                            package_value(self.packages(), self.edges(), fin@, level@[b]),
                        ),
                decreases level@.len() - j,
            {
                let k = level[j];
                let p = self.get(k);
                let call = self.package_call(k, fin.as_str());
                let ghost old_e = entries@;
                entries.push((p.name.clone(), call));
                proof {
                    assert forall|b: int| 0 <= b < j + 1 implies #[trigger] pairs_view(entries@)[b] == (
                            self.packages()[level@[b] as int].name@,
                            package_value(self.packages(), self.edges(), fin@, level@[b]),
                        ) by {
                        assert(pairs_view(entries@)[b] == (entries@[b].0@, entries@[b].1@));
                        if b < j {
                            assert(entries@[b] == old_e[b]);
                            assert(pairs_view(old_e)[b] == (old_e[b].0@, old_e[b].1@));
                        }
                    }
                }
                j = j + 1;
            }
            proof {
                assert(pairs_view(entries@) =~= level_entries(self.packages(), self.edges(), fin@, lv[i as int]));
            }
            let attrs = nix_attrset(&entries);
            prev.append(" // ");
            prev.append(attrs.as_str());
            let name = Self::lvl_idx(i);
            let ghost old_b = bindings@;
            bindings.push((name, prev));
            proof {
                assert(pairs_view(bindings@)[i as int] == (bindings@[i as int].0@, bindings@[i as int].1@));
                assert(pairs_view(bindings@)[i as int] == level_binding(self.packages(), self.edges(), lv, i as int));
                assert forall|j: int| 0 <= j < i implies #[trigger] pairs_view(bindings@)[j] == level_binding(
                        self.packages(), self.edges(), lv, j) by {
                    assert(bindings@[j] == old_b[j]);
                    assert(pairs_view(bindings@)[j] == (bindings@[j].0@, bindings@[j].1@));
                    assert(pairs_view(old_b)[j] == (old_b[j].0@, old_b[j].1@));
                }
            }
            i = i + 1;
        }
        let body = nix_let(&bindings, fin.as_str());
        let mut out = header;
        out.append(body.as_str());
        proof {
            assert(pairs_view(bindings@) =~= Seq::new(
                lv.len(),
                |i: int| level_binding(self.packages(), self.edges(), lv, i),
            ));
        }
        out
    }
}

} // verus!
