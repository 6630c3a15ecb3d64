use crate::graph::{graph_edges, graph_node_count, incoming_sources, incoming_sources_spec, topo_order, topo_visit_order, is_topological_prefix, graph_dot, dot_text, is_acyclic};
use crate::package::Package;
use petgraph::graph::Graph;
use petgraph::Directed;
use vstd::prelude::*;
use vstd::string::StringExecFns;

verus! {

/// The index of a package in a [`DepsGraph`].
pub type PkgRef = usize;

/// A built dependency graph, with no dangling references.
pub struct DepsGraph {
    /// A flat list of packages, sorted alphabetically.
    pub(crate) pkgs: Vec<Package>,
    /// The dependency graph. Each node corresponds to the package with the same
    /// index, and an edge from `a` to `b` implies that `b` depends on `a`.
    pub(crate) g: Graph<usize, usize, Directed, usize>,
}

/// `last` holds a source of an edge that ends in `node`.
pub open spec fn depends_on_any(edges: Seq<(usize, usize)>, node: usize, last: Seq<usize>) -> bool {
    exists|k: int| 0 <= k < edges.len() && #[trigger] edges[k].1 == node && last.contains(edges[k].0)
}

/// Puts `node` into the last level, or into a new last level when it depends on
/// a node of the current last level.
pub open spec fn place_node(
    levels: Seq<Seq<usize>>,
    edges: Seq<(usize, usize)>,
    node: usize,
) -> Seq<Seq<usize>> {
    if depends_on_any(edges, node, levels.last()) {
        levels.push(seq![node])
    } else {
        levels.update(levels.len() - 1, levels.last().push(node))
    }
}

/// The levels that placing the nodes of `order` one after the other gives,
/// starting from one empty level.
pub open spec fn levels_of(order: Seq<usize>, edges: Seq<(usize, usize)>) -> Seq<Seq<usize>>
    decreases order.len(),
{
    if order.len() == 0 {
        seq![Seq::empty()]
    } else {
        place_node(levels_of(order.drop_last(), edges), edges, order.last())
    }
}

/// The levels laid end to end.
pub open spec fn concat_levels(levels: Seq<Seq<usize>>) -> Seq<usize>
    decreases levels.len(),
{
    if levels.len() == 0 {
        Seq::empty()
    } else {
        concat_levels(levels.drop_last()) + levels.last()
    }
}

/// Every edge leads from a node of an earlier level to a node of a later one.
pub open spec fn edges_go_forward(levels: Seq<Seq<usize>>, edges: Seq<(usize, usize)>) -> bool {
    forall|k: int, i: int, j: int|
        0 <= k < edges.len() && 0 <= i < levels.len() && 0 <= j < levels.len()
            && #[trigger] levels[i].contains(edges[k].0) && #[trigger] levels[j].contains(
            edges[k].1,
        ) ==> i < j
}

/// No node repeats in `s`, and each node of `s` comes after all the sources of
/// the edges that end in it.
pub open spec fn is_dependency_order(s: Seq<usize>, edges: Seq<(usize, usize)>) -> bool {
    &&& forall|i: int, j: int| 0 <= i < j < s.len() ==> s[i] != s[j]
    &&& forall|q: int, k: int|
        0 <= q < s.len() && 0 <= k < edges.len() && #[trigger] edges[k].1 == #[trigger] s[q]
            ==> exists|j: int| 0 <= j < q && s[j] == edges[k].0
}

/// Laying the levels of a dependency order end to end gives the order back, and
/// every dependency sits in a level before the level of its dependent.
pub proof fn lemma_levels_of_order(s: Seq<usize>, edges: Seq<(usize, usize)>)
    requires
        is_dependency_order(s, edges),
    ensures
        levels_of(s, edges).len() >= 1,
        concat_levels(levels_of(s, edges)) == s,
        edges_go_forward(levels_of(s, edges), edges),
    decreases s.len(),
{
    let l = levels_of(s, edges);
    if s.len() == 0 {
        assert(concat_levels(l) =~= concat_levels(l.drop_last()) + l.last());
        assert(l.drop_last() =~= Seq::<Seq<usize>>::empty());
        assert(concat_levels(l) =~= s);
    } else {
        let p = s.drop_last();
        let x = s.last();
        assert forall|q: int, k: int|
            0 <= q < p.len() && 0 <= k < edges.len() && #[trigger] edges[k].1 == #[trigger] p[q]
                implies exists|j: int| 0 <= j < q && p[j] == edges[k].0 by {
            assert(edges[k].1 == s[q]);
            let j = choose|j: int| 0 <= j < q && s[j] == edges[k].0;
            assert(p[j] == edges[k].0);
        }
        lemma_levels_of_order(p, edges);
        let lp = levels_of(p, edges);
        lemma_level_members(p, lp);
        // x is not yet placed
        assert(!p.contains(x)) by {
            if p.contains(x) {
                let i = choose|i: int| 0 <= i < p.len() && p[i] == x;
                assert(s[i] == s[s.len() - 1]);
            }
        }
        assert forall|i: int| 0 <= i < lp.len() implies !(#[trigger] lp[i]).contains(x) by {
            if lp[i].contains(x) {
                lemma_level_members_contains(p, lp, i, x);
            }
        }
        if depends_on_any(edges, x, lp.last()) {
            assert(l == lp.push(seq![x]));
            assert(l.drop_last() =~= lp);
            assert(concat_levels(l) =~= concat_levels(lp) + seq![x]);
        } else {
            let nl = lp.last().push(x);
            assert(l == lp.update(lp.len() - 1, nl));
            assert(l.drop_last() =~= lp.drop_last());
            assert(lp =~= lp.drop_last().push(lp.last()));
            assert(concat_levels(lp) == concat_levels(lp.drop_last()) + lp.last());
            assert(concat_levels(l) == concat_levels(lp.drop_last()) + nl);
            assert(concat_levels(l) =~= concat_levels(lp) + seq![x]);
        }
        assert(s =~= p + seq![x]);
        lemma_level_members(s, l);
        assert forall|k: int, i: int, j: int|
            0 <= k < edges.len() && 0 <= i < l.len() && 0 <= j < l.len()
                && #[trigger] l[i].contains(edges[k].0) && #[trigger] l[j].contains(edges[k].1)
                implies i < j by {
            let a = edges[k].0;
            let b = edges[k].1;
            if b == x {
                // every source of an edge into x was placed before x
                let q = s.len() - 1;
                assert(s[q] == x);
                let jj = choose|jj: int| 0 <= jj < q && s[jj] == a;
                assert(p[jj] == a);
                assert(a != x);
                lemma_level_of_old(p, lp, edges, x, i, a);
                assert(lp[i].contains(a));
                if depends_on_any(edges, x, lp.last()) {
                    assert(l[lp.len() as int].contains(x));
                    lemma_level_unique_new(lp, l, x, j);
                    assert(j == lp.len());
                } else {
                    lemma_level_unique_appended(lp, l, x, j);
                    assert(j == lp.len() - 1);
                    if i == lp.len() - 1 {
                        assert(depends_on_any(edges, x, lp.last()));
                    }
                }
            } else if a == x {
                // x is the source of an edge into an earlier node b: impossible
                lemma_level_of_old(p, lp, edges, x, j, b);
                assert(lp[j].contains(b));
                lemma_level_members_contains(p, lp, j, b);
                let q = choose|q: int| 0 <= q < p.len() && p[q] == b;
                assert(s[q] == b);
                let jj = choose|jj: int| 0 <= jj < q && s[jj] == edges[k].0;
                assert(s[jj] == s[s.len() - 1]);
            } else {
                lemma_level_of_old(p, lp, edges, x, i, a);
                lemma_level_of_old(p, lp, edges, x, j, b);
            }
        }
    }
}

/// Each level holds only nodes of `s`.
proof fn lemma_level_members(s: Seq<usize>, l: Seq<Seq<usize>>)
    requires
        concat_levels(l) == s,
    ensures
        forall|i: int, y: usize| 0 <= i < l.len() && #[trigger] l[i].contains(y) ==> s.contains(y),
    decreases l.len(),
{
    if l.len() > 0 {
        let c = concat_levels(l.drop_last());
        lemma_level_members(c, l.drop_last());
        assert forall|i: int, y: usize| 0 <= i < l.len() && #[trigger] l[i].contains(y) implies s.contains(y) by {
            if i == l.len() - 1 {
                let m = choose|m: int| 0 <= m < l.last().len() && l.last()[m] == y;
                assert(s[c.len() + m] == y);
            } else {
                assert(l.drop_last()[i] == l[i]);
                assert(c.contains(y));
                let m = choose|m: int| 0 <= m < c.len() && c[m] == y;
                assert(s[m] == y);
            }
        }
    }
}

proof fn lemma_level_members_contains(s: Seq<usize>, l: Seq<Seq<usize>>, i: int, y: usize)
    requires
        concat_levels(l) == s,
        0 <= i < l.len(),
        l[i].contains(y),
    ensures
        s.contains(y),
{
    lemma_level_members(s, l);
}

/// Placing `x` leaves the membership of every other node unchanged.
proof fn lemma_level_of_old(
    p: Seq<usize>,
    lp: Seq<Seq<usize>>,
    edges: Seq<(usize, usize)>,
    x: usize,
    i: int,
    y: usize,
)
    requires
        lp.len() >= 1,
        y != x,
        0 <= i < place_node(lp, edges, x).len(),
        place_node(lp, edges, x)[i].contains(y),
    ensures
        0 <= i < lp.len(),
        lp[i].contains(y),
{
    let l = place_node(lp, edges, x);
    if depends_on_any(edges, x, lp.last()) {
        if i == lp.len() {
            assert(l[i] == seq![x]);
        }
    } else {
        if i == lp.len() - 1 {
            let m = choose|m: int| 0 <= m < l[i].len() && l[i][m] == y;
            assert(l[i] == lp.last().push(x));
            assert(lp.last()[m] == y);
        }
    }
}

proof fn lemma_level_unique_new(lp: Seq<Seq<usize>>, l: Seq<Seq<usize>>, x: usize, j: int)
    requires
        l == lp.push(seq![x]),
        forall|i: int| 0 <= i < lp.len() ==> !(#[trigger] lp[i]).contains(x),
        0 <= j < l.len(),
        l[j].contains(x),
    ensures
        j == lp.len(),
{
    if j < lp.len() {
        assert(l[j] == lp[j]);
    }
}

proof fn lemma_level_unique_appended(lp: Seq<Seq<usize>>, l: Seq<Seq<usize>>, x: usize, j: int)
    requires
        lp.len() >= 1,
        l == lp.update(lp.len() - 1, lp.last().push(x)),
        forall|i: int| 0 <= i < lp.len() ==> !(#[trigger] lp[i]).contains(x),
        0 <= j < l.len(),
        l[j].contains(x),
    ensures
        j == lp.len() - 1,
{
    if j < lp.len() - 1 {
        assert(l[j] == lp[j]);
    }
}

/// Some level holds `p`.
pub open spec fn in_some_level(levels: Seq<Seq<usize>>, p: usize) -> bool {
    exists|i: int| 0 <= i < levels.len() && #[trigger] levels[i].contains(p)
}

/// Distinct nodes below `n`, `n` of them, are all the nodes below `n`.
pub proof fn lemma_order_covers(s: Seq<usize>, n: nat)
    requires
        s.len() == n,
        forall|i: int, j: int| 0 <= i < j < s.len() ==> s[i] != s[j],
        forall|i: int| 0 <= i < s.len() ==> #[trigger] s[i] < n,
    ensures
        forall|p: usize| p < n ==> s.contains(p),
{
    let t = s.map_values(|x: usize| x as int);
    assert(t.no_duplicates()) by {
        assert forall|i: int, j: int| 0 <= i < t.len() && 0 <= j < t.len() && i != j implies t[i] != t[j] by {
            if i < j {
                assert(s[i] != s[j]);
            } else {
                assert(s[j] != s[i]);
            }
        }
    }
    t.unique_seq_to_set();
    vstd::set_lib::lemma_int_range(0, n as int);
    let r = vstd::set_lib::set_int_range(0, n as int);
    assert(t.to_set().subset_of(r)) by {
        assert forall|x: int| t.to_set().contains(x) implies r.contains(x) by {
            assert(t.contains(x));
            let i = choose|i: int| 0 <= i < t.len() && t[i] == x;
            assert(s[i] < n);
        }
    }
    vstd::seq_lib::seq_to_set_is_finite(t);
    vstd::set_lib::lemma_subset_equality(t.to_set(), r);
    assert forall|p: usize| p < n implies s.contains(p) by {
        assert(r.contains(p as int));
        assert(t.to_set().contains(p as int));
        assert(t.contains(p as int));
        let i = choose|i: int| 0 <= i < t.len() && t[i] == p as int;
        assert(s[i] == p);
    }
}

/// Every node of a dependency order lies in exactly one of its levels.
pub proof fn lemma_levels_place_once(s: Seq<usize>, l: Seq<Seq<usize>>, p: usize)
    requires
        concat_levels(l) == s,
        forall|i: int, j: int| 0 <= i < j < s.len() ==> s[i] != s[j],
        s.contains(p),
    ensures
        exists|i: int| 0 <= i < l.len() && #[trigger] l[i].contains(p),
        forall|i: int, j: int|
            0 <= i < l.len() && 0 <= j < l.len() && #[trigger] l[i].contains(p) && #[trigger] l[j].contains(p)
                ==> i == j,
    decreases l.len(),
{
    if l.len() == 0 {
        assert(s.len() == 0);
    } else {
        let c = concat_levels(l.drop_last());
        let last = l.last();
        assert(s == c + last);
        assert forall|i: int, j: int| 0 <= i < j < c.len() implies c[i] != c[j] by {
            assert(c[i] == s[i] && c[j] == s[j]);
        }
        if c.contains(p) {
            lemma_levels_place_once(c, l.drop_last(), p);
            let i0 = choose|i: int| 0 <= i < l.drop_last().len() && #[trigger] l.drop_last()[i].contains(p);
            assert(l[i0] == l.drop_last()[i0]);
            // p is not in the last level
            assert(!last.contains(p)) by {
                if last.contains(p) {
                    let m = choose|m: int| 0 <= m < last.len() && last[m] == p;
                    let q = choose|q: int| 0 <= q < c.len() && c[q] == p;
                    assert(s[c.len() + m] == p);
                    assert(s[q] == p);
                }
            }
            assert forall|i: int, j: int|
                0 <= i < l.len() && 0 <= j < l.len() && #[trigger] l[i].contains(p) && #[trigger] l[j].contains(p)
                    implies i == j by {
                if i < l.len() - 1 {
                    assert(l.drop_last()[i] == l[i]);
                }
                if j < l.len() - 1 {
                    assert(l.drop_last()[j] == l[j]);
                }
            }
        } else {
            assert(last.contains(p)) by {
                let q = choose|q: int| 0 <= q < s.len() && s[q] == p;
                if q < c.len() {
                    assert(c[q] == p);
                } else {
                    assert(last[q - c.len()] == p);
                }
            }
            assert(l[l.len() - 1].contains(p));
            lemma_level_members(c, l.drop_last());
            assert forall|i: int, j: int|
                0 <= i < l.len() && 0 <= j < l.len() && #[trigger] l[i].contains(p) && #[trigger] l[j].contains(p)
                    implies i == j by {
                if i < l.len() - 1 {
                    assert(l.drop_last()[i] == l[i]);
                }
                if j < l.len() - 1 {
                    assert(l.drop_last()[j] == l[j]);
                }
            }
        }
    }
}

/// The sources that `incoming_sources_spec` lists are those of the edges into `n`.
pub proof fn lemma_incoming_sources(edges: Seq<(usize, usize)>, n: usize, y: usize)
    ensures
        incoming_sources_spec(edges, n).contains(y) <==> exists|k: int|
            0 <= k < edges.len() && #[trigger] edges[k].1 == n && edges[k].0 == y,
    decreases edges.len(),
{
    if edges.len() > 0 {
        let d = edges.drop_last();
        lemma_incoming_sources(d, n, y);
        let rest = incoming_sources_spec(d, n);
        let e = edges.last();
        if e.1 == n {
            assert(incoming_sources_spec(edges, n) =~= seq![e.0] + rest);
            if rest.contains(y) {
                let k = choose|k: int| 0 <= k < d.len() && #[trigger] d[k].1 == n && d[k].0 == y;
                assert(edges[k] == d[k]);
                let m = choose|m: int| 0 <= m < rest.len() && rest[m] == y;
                assert((seq![e.0] + rest)[m + 1] == y);
            }
            if exists|k: int| 0 <= k < edges.len() && #[trigger] edges[k].1 == n && edges[k].0 == y {
                let k = choose|k: int| 0 <= k < edges.len() && #[trigger] edges[k].1 == n && edges[k].0 == y;
                if k < edges.len() - 1 {
                    assert(d[k] == edges[k]);
                    let m = choose|m: int| 0 <= m < rest.len() && rest[m] == y;
                    assert((seq![e.0] + rest)[m + 1] == y);
                } else {
                    assert((seq![e.0] + rest)[0] == y);
                }
            }
        } else {
            if exists|k: int| 0 <= k < edges.len() && #[trigger] edges[k].1 == n && edges[k].0 == y {
                let k = choose|k: int| 0 <= k < edges.len() && #[trigger] edges[k].1 == n && edges[k].0 == y;
                assert(k < edges.len() - 1);
                assert(d[k] == edges[k]);
            }
            if rest.contains(y) {
                let k = choose|k: int| 0 <= k < d.len() && #[trigger] d[k].1 == n && d[k].0 == y;
                assert(edges[k] == d[k]);
            }
        }
    }
}

/// The levels of a list of lists, as sequences.
pub open spec fn view_levels(v: &Vec<Vec<usize>>) -> Seq<Seq<usize>> {
    v@.map_values(|l: Vec<usize>| l@)
}

/// `v` holds `x`.
fn vec_contains(v: &Vec<usize>, x: usize) -> (r: bool)
    ensures
        r == v@.contains(x),
{
    let mut i: usize = 0;
    while i < v.len()
        invariant
            i <= v@.len(),
            forall|j: int| 0 <= j < i ==> v@[j] != x,
        decreases v@.len() - i,
    {
        if v[i] == x {
            assert(v@[i as int] == x);
            return true;
        }
        i = i + 1;
    }
    false
}

/// The attribute text that the graphviz rendering gives the node of `p`:
/// `label="<flake slug>.<name>"`.
pub open spec fn graphviz_label(p: Package) -> Seq<char> {
    "label=\""@ + p.flake_slug@ + "."@ + p.name@ + "\""@
}

/// Builds the graphviz attribute text of `p`.
fn node_label(p: &Package) -> (r: String)
    ensures
        r@ == graphviz_label(*p),
{
    let mut s = String::new();
    s.append("label=\"");
    s.append(p.flake_slug.as_str());
    s.append(".");
    s.append(p.name.as_str());
    s.append("\"");
    s
}

impl DepsGraph {
    /// The packages, in the order of their indices.
    pub closed spec fn packages(&self) -> Seq<Package> {
        self.pkgs@
    }

    /// The dependency edges: `(a, b)` means that package `b` depends on package `a`.
    pub closed spec fn edges(&self) -> Seq<(usize, usize)> {
        graph_edges(self.g)
    }

    /// The number of nodes of the graph; at most the number of packages.
    pub closed spec fn node_count(&self) -> nat {
        graph_node_count(self.g)
    }

    /// The order in which the topological traversal visits the packages.
    pub closed spec fn visit_order(&self) -> Seq<usize> {
        topo_visit_order(self.node_count(), self.edges())
    }

    /// The graph holds one node per package, and its edges join nodes of the
    /// graph.
    #[verifier::type_invariant]
    pub open spec fn well_formed(self) -> bool {
        &&& self.node_count() == self.packages().len()
        &&& forall|k: int|
            0 <= k < self.edges().len() ==> #[trigger] self.edges()[k].0 < self.node_count()
                && self.edges()[k].1 < self.node_count()
    }

    /// The abstract views are those of the fields.
    pub(crate) proof fn lemma_fields(&self)
        ensures
            self.packages() == self.pkgs@,
            self.edges() == graph_edges(self.g),
            self.node_count() == graph_node_count(self.g),
            self.visit_order() == topo_visit_order(graph_node_count(self.g), graph_edges(self.g)),
    {
    }

    /// A graph of the packages `pkgs` whose edges are those of `g`.
    pub(crate) fn from_parts(pkgs: Vec<Package>, g: Graph<usize, usize, Directed, usize>) -> (r: Self)
        requires
            graph_node_count(g) == pkgs@.len(),
            forall|k: int|
                0 <= k < graph_edges(g).len() ==> #[trigger] graph_edges(g)[k].0 < graph_node_count(g)
                    && graph_edges(g)[k].1 < graph_node_count(g),
        ensures
            r.packages() == pkgs@,
            r.edges() == graph_edges(g),
            r.node_count() == graph_node_count(g),
    {
        DepsGraph { pkgs, g }
    }

    /// Get a reference to the package with the given reference.
    pub fn get(&self, pkg: PkgRef) -> (r: &Package)
        requires
            pkg < self.packages().len(),
        ensures
            *r == self.packages()[pkg as int],
    {
        &self.pkgs[pkg]
    }

    /// Return a graphviz representation of the graph: node `i` is labelled
    /// with the flake slug and name of package `i`.
    pub fn to_graphviz(&self) -> (r: String)
        ensures
            r@ == dot_text(
                self.node_count(),
                self.edges(),
                self.packages().map_values(|p: Package| graphviz_label(p)),
            ),
    {
        proof {
            use_type_invariant(self);
        }
        let mut labels: Vec<String> = Vec::new();
        let mut i: usize = 0;
        while i < self.pkgs.len()
            invariant
                i <= self.pkgs@.len(),
                labels@.len() == i,
                forall|j: int| 0 <= j < i ==> #[trigger] labels@[j]@ == graphviz_label(self.pkgs@[j]),
            decreases self.pkgs@.len() - i,
        {
            labels.push(node_label(&self.pkgs[i]));
            i = i + 1;
        }
        let r = graph_dot(&self.g, &labels);
        proof {
            assert(labels@.map_values(|l: String| l@) =~= self.packages().map_values(
                |p: Package| graphviz_label(p),
            ));
        }
        r
    }

    /// Convert the levels as [`DepsGraph::to_levels`] does, or `None` where the
    /// topological traversal misses some package, which only a dependency cycle
    /// causes, and on which `to_levels` cannot be called.
    pub fn try_to_levels(&self) -> (r: Option<Vec<Vec<PkgRef>>>)
        ensures
            r is None <==> self.visit_order().len() != self.packages().len(),
            r is None ==> !is_acyclic(self.edges()),
            r matches Some(l) ==> view_levels(&l) == levels_of(self.visit_order(), self.edges()),
    {
        proof {
            use_type_invariant(self);
        }
        let order = topo_order(&self.g);
        if order.len() != self.pkgs.len() {
            None
        } else {
            Some(self.to_levels())
        }
    }

    /// Convert the dependency tree to a list of lists, where each item's
    /// dependencies are all in an earlier list. The packages come in the order of
    /// the topological traversal; a package opens a new list when it depends on a
    /// package of the current last list. The traversal must reach every
    /// package, which it does wherever the dependencies form no cycle.
    pub fn to_levels(&self) -> (r: Vec<Vec<PkgRef>>)
        requires
            self.visit_order().len() == self.packages().len(),
        ensures
            view_levels(&r) == levels_of(self.visit_order(), self.edges()),
            r@.len() >= 1,
            concat_levels(view_levels(&r)) == self.visit_order(),
            edges_go_forward(view_levels(&r), self.edges()),
            forall|p: usize| p < self.packages().len() ==> #[trigger] in_some_level(view_levels(&r), p),
            forall|p: usize, i: int, j: int|
                0 <= i < r@.len() && 0 <= j < r@.len() && #[trigger] view_levels(&r)[i].contains(p)
                    && #[trigger] view_levels(&r)[j].contains(p) ==> i == j,
    {
        proof {
            use_type_invariant(self);
        }
        let order = topo_order(&self.g);
        let ghost edges = graph_edges(self.g);
        let mut levels: Vec<Vec<PkgRef>> = Vec::new();
        levels.push(Vec::new());
        proof {
            assert(order@.take(0) =~= Seq::<usize>::empty());
            assert(view_levels(&levels) =~= levels_of(order@.take(0), edges));
        }
        let mut idx: usize = 0;
        while idx < order.len()
            invariant
                idx <= order@.len(),
                order@ == self.visit_order(),
                edges == self.edges(),
                is_topological_prefix(order@, self.node_count(), edges),
                view_levels(&levels) == levels_of(order@.take(idx as int), edges),
                levels@.len() >= 1,
            decreases order@.len() - idx,
        {
            let node = order[idx];
            let preds = incoming_sources(&self.g, node);
            let last = levels.len() - 1;
            let mut found = false;
            let mut j: usize = 0;
            while j < preds.len() && !found
                invariant
                    j <= preds@.len(),
                    last == levels@.len() - 1,
                    !found ==> forall|m: int| 0 <= m < j ==> !levels@[last as int]@.contains(preds@[m]),
                    found ==> exists|m: int| 0 <= m < preds@.len() && levels@[last as int]@.contains(preds@[m]),
                decreases preds@.len() - j + (if found { 0int } else { 1int }),
            {
                if vec_contains(&levels[last], preds[j]) {
                    found = true;
                } else {
                    j = j + 1;
                }
            }
            proof {
                let lv = view_levels(&levels);
                assert(lv.last() == levels@[last as int]@);
                if !found {
                    assert(j == preds@.len());
                }
                assert(preds@ == incoming_sources_spec(edges, node));
                if found {
                    let m = choose|m: int| 0 <= m < preds@.len() && levels@[last as int]@.contains(preds@[m]);
                    assert(preds@.contains(preds@[m]));
                    lemma_incoming_sources(edges, node, preds@[m]);
                    assert(depends_on_any(edges, node, lv.last()));
                } else {
                    if depends_on_any(edges, node, lv.last()) {
                        let k = choose|k: int| 0 <= k < edges.len() && #[trigger] edges[k].1 == node && lv.last().contains(edges[k].0);
                        lemma_incoming_sources(edges, node, edges[k].0);
                        let m = choose|m: int| 0 <= m < preds@.len() && preds@[m] == edges[k].0;
                        assert(false);
                    }
                }
                assert(order@.take(idx + 1).drop_last() =~= order@.take(idx as int));
            }
            if found {
                levels.push(Vec::new());
            }
            let mut cur = levels.pop().unwrap();
            cur.push(node);
            levels.push(cur);
            proof {
                let lv = levels_of(order@.take(idx as int), edges);
                assert(view_levels(&levels) =~= place_node(lv, edges, node));
            }
            idx = idx + 1;
        }
        proof {
            assert(order@.take(order@.len() as int) =~= order@);
            lemma_levels_of_order(order@, edges);
            let lv = view_levels(&levels);
            lemma_order_covers(order@, self.packages().len());
            assert forall|p: usize| p < self.packages().len() implies #[trigger] in_some_level(lv, p) by {
                lemma_levels_place_once(order@, lv, p);
            }
            assert forall|p: usize, i: int, j: int|
                0 <= i < levels@.len() && 0 <= j < levels@.len() && #[trigger] lv[i].contains(p)
                    && #[trigger] lv[j].contains(p) implies i == j by {
                lemma_level_members_contains(order@, lv, i, p);
                lemma_levels_place_once(order@, lv, p);
            }
        }
        levels
    }
}

} // verus!
