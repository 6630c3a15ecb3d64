use crate::cst::{
    child_nodes, close_of, first_token, is_node_at, lemma_child_node, lemma_first_token,
    lemma_nth_child, nix_syntax, node_text, normalized_string_parts, nth_child, opt_string_view,
    parse_nix, string_node_ok, string_parts, EventView, KindSet, NixSyntax, NixSyntaxView,
    NODE_ATTRPATH, NODE_ATTRPATH_VALUE, NODE_ATTR_SET, NODE_IDENT, NODE_ROOT, NODE_STRING,
    TOKEN_IDENT,
};
use crate::error::ResolveError;
use crate::package::{Package, PackageView, SourcePos};
use crate::text::{chars_of, parse_usize, parse_usize_spec, split_once, split_once_spec, string_of};
use vstd::prelude::*;
use vstd::string::StringExecFns;

verus! {

/// A list of packages, with location information.
#[derive(Debug, Clone)]
pub struct PackageLocations(pub(crate) Vec<Package>);

/// Why reading the lambda locations failed.
pub enum WalkFailure {
    NotAnAttrSet,
    ComplexIdent,
    LambdaPosition,
    /// The kind and text range of the value, if there is one.
    UnrecognisedValue(Option<(u16, u32, u32)>),
}

/// `e` is the error that `f` describes.
pub open spec fn is_walk_error(e: ResolveError, f: WalkFailure) -> bool {
    match f {
        WalkFailure::NotAnAttrSet => e is NotAnAttrSet,
        WalkFailure::ComplexIdent => e is ComplexIdent,
        WalkFailure::LambdaPosition => e is LambdaPosition,
        WalkFailure::UnrecognisedValue(v) => e == ResolveError::UnrecognisedValue(v),
    }
}

/// The first index at or after `from` at which `s` holds `c`, if any.
pub open spec fn find_char(s: Seq<char>, c: char, from: int) -> Option<int>
    decreases s.len() - from,
{
    if from < 0 || from >= s.len() {
        None
    } else if s[from] == c {
        Some(from)
    } else {
        find_char(s, c, from + 1)
    }
}

/// The opening of a printed lambda: `«lambda `.
pub open spec fn lambda_open() -> Seq<char> {
    seq!['\u{ab}', 'l', 'a', 'm', 'b', 'd', 'a', ' ']
}

/// Where the regular expression `«lambda [^@]*@ ([^»]*)»` matches `s` at its
/// start: `s` opens with `«lambda `, the first `@` after that is followed by a
/// space, and a `»` follows; the indices of that `@` and of the first such `»`.
pub open spec fn lambda_mark(s: Seq<char>) -> Option<(int, int)> {
    if s.len() < 8 || s.take(8) != lambda_open() {
        None
    } else {
        match find_char(s, '@', 8) {
            None => None,
            Some(at) => if at + 1 >= s.len() || s[at + 1] != ' ' {
                None
            } else {
                match find_char(s, '\u{bb}', at + 2) {
                    None => None,
                    Some(close) => Some((at, close)),
                }
            },
        }
    }
}

/// `find_char` finds an occurrence of `c` at or after `from`.
pub proof fn lemma_find_char(s: Seq<char>, c: char, from: int)
    ensures
        find_char(s, c, from) matches Some(i) ==> from <= i < s.len() && s[i] == c,
    decreases s.len() - from,
{
    if 0 <= from < s.len() && s[from] != c {
        lemma_find_char(s, c, from + 1);
    }
}

/// A mark found in `s` lies inside it, its `@` before its `»`.
pub proof fn lemma_lambda_mark(s: Seq<char>)
    ensures
        lambda_mark(s) matches Some((at, close)) ==> 8 <= at && at + 2 <= close < s.len(),
{
    lemma_find_char(s, '@', 8);
    if let Some(at) = find_char(s, '@', 8) {
        lemma_find_char(s, '\u{bb}', at + 2);
    }
}

/// The text that `nix eval` prints for the lambda locations, with every
/// `«lambda <name> @ <location>»` replaced by `"<location>"`: what
/// `Regex::replace_all` makes of it with the expression
/// `«lambda [^@]*@ ([^»]*)»` and the replacement `"$1"`, replacing the
/// leftmost match, then searching on after it.
pub open spec fn lambda_marks_quoted(s: Seq<char>) -> Seq<char>
    decreases s.len(),
{
    if s.len() == 0 {
        s
    } else {
        match lambda_mark(s) {
            Some((at, close)) => {
                proof {
                    lemma_lambda_mark(s);
                }
                seq!['"'] + s.subrange(at + 2, close) + seq!['"'] + lambda_marks_quoted(
                    s.skip(close + 1),
                )
            },
            None => seq![s[0]] + lambda_marks_quoted(s.skip(1)),
        }
    }
}

/// Replaces each printed lambda `«lambda ... @ <location>»` by the string
/// `"<location>"`, with `regex::Regex::new` and `Regex::replace_all`. The
/// contract claims that the regex crate's leftmost-first, non-overlapping
/// matches of this expression, and its expansion of `$1`, give the text that
/// [`lambda_marks_quoted`] describes.
#[verifier::external_body]
fn quote_lambda_marks(out: &str) -> (r: String)
    ensures
        r@ == lambda_marks_quoted(out@),
{
    let re = regex::Regex::new(r"«lambda [^@]*@ ([^»]*)»").unwrap();
    re.replace_all(out, r#""$1""#).into_owned()
}

/// The location that the normalized parts `parts` of a string give: its first
/// part must be literal text `<file>:<row>:<col>`, split at its first two
/// colons, with row and column decimal numbers.
pub open spec fn lambda_position_spec(ps: Seq<Option<Seq<char>>>) -> Option<(Seq<char>, usize, usize)> {
    if ps.len() == 0 {
        None
    } else {
        match ps[0] {
            None => None,
            Some(text) => match split_once_spec(text, ':') {
                None => None,
                Some((file, rest)) => match split_once_spec(rest, ':') {
                    None => None,
                    Some((row, col)) => match (parse_usize_spec(row), parse_usize_spec(col)) {
                        (Some(r), Some(c)) => Some((file, r, c)),
                        _ => None,
                    },
                },
            },
        }
    }
}

/// The normalized parts of a string: the text of each literal part, `None`
/// for each interpolation.
pub open spec fn parts_view(ps: Vec<Option<String>>) -> Seq<Option<Seq<char>>> {
    ps@.map_values(|p: Option<String>| opt_string_view(p))
}

/// The normalized string parts by event index, as plain values.
pub open spec fn parts_table_view(t: Seq<Option<Vec<Option<String>>>>) -> Seq<Option<Seq<Option<Seq<char>>>>> {
    t.map_values(|o: Option<Vec<Option<String>>>| match o {
        Some(ps) => Some(parts_view(ps)),
        None => None,
    })
}

/// The normalized parts of every string node of the parse `ev` of `text` that
/// rnix can normalize (see [`string_node_ok`]), by event index; `None` at every
/// other event.
pub open spec fn string_parts_table(ev: Seq<EventView>, text: Seq<char>) -> Seq<Option<Seq<Option<Seq<char>>>>> {
    Seq::new(ev.len(), |i: int| if string_node_ok(ev, i) { Some(string_parts(text, i)) } else { None })
}

/// The entry of `parts` at event `i`, `None` past its end.
pub open spec fn parts_at(parts: Seq<Option<Seq<Option<Seq<char>>>>>, i: int) -> Option<Seq<Option<Seq<char>>>> {
    if 0 <= i < parts.len() {
        parts[i]
    } else {
        None
    }
}

/// What a walk gives, where it does not give up: the packages it found, in
/// order, and the failure at which it stopped, if any.
pub type WalkOutcome = Option<(Seq<PackageView>, Option<WalkFailure>)>;

/// Adds the packages found in the first `k` entries of the attribute set `a`
/// in front of the outcome `o` of walking the rest.
pub open spec fn prepend(acc: Seq<PackageView>, o: WalkOutcome) -> WalkOutcome {
    match o {
        Some((r, stop)) => Some((acc + r, stop)),
        None => None,
    }
}

/// What walking the entries of the attribute set `a` from entry `k` on gives,
/// with attribute paths prefixed by `prefix`: each `name = "<location>";`
/// binding is a package whose path `prefix + name` splits at its first dot into
/// flake slug and name; each `name = { ... };` binding is walked with the
/// prefix `prefix + name + "."`; `inherit` clauses are skipped. The walk stops
/// at the first entry that fails, keeping the packages found before it (in
/// nested sets too). `None` where the walk gives up: a binding without
/// attribute path, an identifier without identifier token, a string without
/// normalized parts in `parts`, or a package path without a dot.
pub open spec fn walk_spec(
    ev: Seq<EventView>,
    parts: Seq<Option<Seq<Option<Seq<char>>>>>,
    a: int,
    k: int,
    prefix: Seq<char>,
) -> WalkOutcome
    decreases close_of(ev, a) - a, child_nodes(ev, a, KindSet::Entry).len() - k,
{
    let ents = child_nodes(ev, a, KindSet::Entry);
    if a < 0 || k < 0 || k >= ents.len() {
        Some((Seq::empty(), None))
    } else {
        let ent = ents[k];
        let first: WalkOutcome = if ev[ent]->kind != NODE_ATTRPATH_VALUE {
            Some((Seq::empty(), None))
        } else {
            match nth_child(ev, ent, KindSet::Only(NODE_ATTRPATH), 0) {
                None => None,
                Some(ap) => {
                    let attrs = child_nodes(ev, ap, KindSet::Attr);
                    if attrs.len() == 0 || ev[attrs.last()]->kind != NODE_IDENT {
                        Some((Seq::empty(), Some(WalkFailure::ComplexIdent)))
                    } else {
                        let id = attrs.last();
                        match first_token(ev, id, TOKEN_IDENT) {
                            None => None,
                            Some(t) => {
                                let name = ev[t]->text->0;
                                match nth_child(ev, ent, KindSet::Expr, 0) {
                                    Some(v) => if ev[v]->kind == NODE_STRING {
                                        match parts_at(parts, v) {
                                            None => None,
                                            Some(ps) => match lambda_position_spec(ps) {
                                                None => Some(
                                                    (Seq::empty(), Some(WalkFailure::LambdaPosition)),
                                                ),
                                                Some((file, row, col)) => match split_once_spec(
                                                    prefix + name,
                                                    '.',
                                                ) {
                                                    None => None,
                                                    Some((slug, n)) => Some(
                                                        (
                                                            seq![PackageView { name: n, file, row, col, flake_slug: slug }],
                                                            None,
                                                        ),
                                                    ),
                                                },
                                            },
                                        }
                                    } else if ev[v]->kind == NODE_ATTR_SET {
                                        proof {
                                            lemma_child_node(ev, a, KindSet::Entry, k);
                                            lemma_nth_child(ev, ent, KindSet::Expr, 0);
                                        }
                                        walk_spec(ev, parts, v, 0, prefix + node_text(ev, id) + "."@)
                                    } else {
                                        Some(
                                            (
                                                Seq::empty(),
                                                Some(
                                                    WalkFailure::UnrecognisedValue(
                                                        Some((ev[v]->kind, ev[v]->start, ev[v]->end)),
                                                    ),
                                                ),
                                            ),
                                        )
                                    },
                                    None => Some((Seq::empty(), Some(WalkFailure::UnrecognisedValue(None)))),
                                }
                            },
                        }
                    }
                },
            }
        };
        match first {
            None => None,
            Some((ps, Some(e))) => Some((ps, Some(e))),
            Some((ps, None)) => prepend(ps, walk_spec(ev, parts, a, k + 1, prefix)),
        }
    }
}

/// What reading the lambda locations from `syn`, the parse of the output of
/// `nix eval` with its lambdas quoted, gives, with `parts` the normalized
/// string parts by event index: the packages that walking the attribute set it
/// holds finds, or the failure at which the walk stopped.
pub open spec fn eval_syntax_spec(syn: NixSyntaxView, parts: Seq<Option<Seq<Option<Seq<char>>>>>) -> Option<
    Result<Seq<PackageView>, WalkFailure>,
> {
    let ev = syn.events;
    if !is_node_at(ev, 0) || ev[0]->kind != NODE_ROOT {
        None
    } else {
        match nth_child(ev, 0, KindSet::Expr, 0) {
            Some(x) => if ev[x]->kind == NODE_ATTR_SET {
                match walk_spec(ev, parts, x, 0, Seq::empty()) {
                    None => None,
                    Some((ps, None)) => Some(Ok(ps)),
                    Some((_, Some(f))) => Some(Err(f)),
                }
            } else {
                Some(Err(WalkFailure::NotAnAttrSet))
            },
            None => Some(Err(WalkFailure::NotAnAttrSet)),
        }
    }
}

/// What reading the lambda locations from the output `out` of `nix eval` gives:
/// the packages that walking the attribute set it prints finds, once its
/// lambdas are quoted, it is parsed by rnix and its strings are normalized.
pub open spec fn eval_output_spec(out: Seq<char>) -> Option<Result<Seq<PackageView>, WalkFailure>> {
    let text = lambda_marks_quoted(out);
    let syn = nix_syntax(text);
    eval_syntax_spec(syn, string_parts_table(syn.events, text))
}

proof fn lemma_prepend_assoc(a1: Seq<PackageView>, a2: Seq<PackageView>, o: WalkOutcome)
    ensures
        prepend(a1, prepend(a2, o)) == prepend(a1 + a2, o),
{
    if let Some((r, _)) = o {
        assert(a1 + (a2 + r) =~= (a1 + a2) + r);
    }
}

/// The packages, as plain values.
pub open spec fn packages_view(v: Seq<Package>) -> Seq<PackageView> {
    v.map_values(|p: Package| p@)
}

/// The normalized parts of every string node of `syn`, the parse of `text`,
/// that rnix can normalize, by event index (see [`string_parts_table`]).
fn all_string_parts(text: &str, syn: &NixSyntax) -> (r: Vec<Option<Vec<Option<String>>>>)
    requires
        syn@.events == nix_syntax(text@).events,
    ensures
        parts_table_view(r@) == string_parts_table(syn.ev(), text@),
{
    let ghost ev = syn.ev();
    let mut r: Vec<Option<Vec<Option<String>>>> = Vec::new();
    let mut i: usize = 0;
    while i < syn.events.len()
        invariant
            ev == syn.ev(),
            ev == nix_syntax(text@).events,
            i <= syn.events@.len(),
            r@.len() == i,
            forall|j: int| 0 <= j < i ==> #[trigger] parts_table_view(r@)[j] == string_parts_table(ev, text@)[j],
        decreases syn.events@.len() - i,
    {
        let ghost old_r = r@;
        if syn.string_node_ok(i) {
            r.push(Some(normalized_string_parts(text, i)));
        } else {
            r.push(None);
        }
        proof {
            assert forall|j: int| 0 <= j < i + 1 implies #[trigger] parts_table_view(r@)[j]
                == string_parts_table(ev, text@)[j] by {
                if j < i {
                    assert(r@[j] == old_r[j]);
                    assert(parts_table_view(old_r)[j] == string_parts_table(ev, text@)[j]);
                }
            }
        }
        i = i + 1;
    }
    proof {
        assert(parts_table_view(r@) =~= string_parts_table(ev, text@));
    }
    r
}

impl PackageLocations {
    /// The packages, in the order they were found.
    pub closed spec fn packages(&self) -> Seq<Package> {
        self.0@
    }

    /// The number of packages.
    pub fn len(&self) -> (r: usize)
        ensures
            r == self.packages().len(),
    {
        self.0.len()
    }

    /// The packages, in the order they were found.
    pub fn as_slice(&self) -> (r: &[Package])
        ensures
            r@ == self.packages(),
    {
        self.0.as_slice()
    }

    /// The packages, taken out of the list.
    pub fn into_vec(self) -> (r: Vec<Package>)
        ensures
            r@ == self.packages(),
    {
        self.0
    }

    /// Reads the package locations as [`PackageLocations::from_eval_output`]
    /// does; `None` where that would give up (see [`eval_output_spec`]).
    fn eval_checked(out: &str) -> (r: Option<Result<Self, ResolveError>>)
        ensures
            match eval_output_spec(out@) {
                None => r is None,
                Some(Ok(ps)) => r matches Some(Ok(l)) && packages_view(l.packages()) == ps,
                Some(Err(f)) => r matches Some(Err(e)) && is_walk_error(e, f),
            },
    {
        let quoted = quote_lambda_marks(out);
        let syn = parse_nix(quoted.as_str());
        let parts = all_string_parts(quoted.as_str(), &syn);
        Self::walk_eval_syntax(&syn, &parts)
    }

    /// Reads the package locations from `syn`, the parse of the output of
    /// `nix eval` with its lambdas quoted, as [`eval_syntax_spec`] describes,
    /// with `parts[i]` the normalized parts of the string node entered at event
    /// `i`; `None` where the walk gives up.
    pub fn walk_eval_syntax(syn: &NixSyntax, parts: &Vec<Option<Vec<Option<String>>>>) -> (r: Option<
        Result<Self, ResolveError>,
    >)
        ensures
            match eval_syntax_spec(syn@, parts_table_view(parts@)) {
                None => r is None,
                Some(Ok(ps)) => r matches Some(Ok(l)) && packages_view(l.packages()) == ps,
                Some(Err(f)) => r matches Some(Err(e)) && is_walk_error(e, f),
            },
    {
        let ghost ev = syn.ev();
        let ghost pv = parts_table_view(parts@);
        if !syn.is_node(0) || syn.kind(0) != NODE_ROOT {
            return None;
        }
        let x = match syn.nth_child(0, &KindSet::Expr, 0) {
            None => {
                return Some(Err(ResolveError::NotAnAttrSet));
            },
            Some(x) => x,
        };
        proof {
            lemma_nth_child(ev, 0, KindSet::Expr, 0);
        }
        if syn.kind(x) != NODE_ATTR_SET {
            return Some(Err(ResolveError::NotAnAttrSet));
        }
        let mut pkgs: Vec<Package> = Vec::new();
        let prefix = String::new();
        proof {
            assert(prefix@ =~= Seq::<char>::empty());
        }
        match Self::walk_attrset(syn, parts, &mut pkgs, &prefix, x) {
            None => None,
            Some(Err(e)) => Some(Err(e)),
            Some(Ok(())) => {
                proof {
                    assert(packages_view(Seq::<Package>::empty()) + (walk_spec(ev, pv, x as int, 0, prefix@)->0).0 =~= packages_view(pkgs@));
                }
                Some(Ok(PackageLocations(pkgs)))
            },
        }
    }

    /// Extract locations of lambdas from the output of
    /// `nix eval registry#lambdas`: every printed lambda `«lambda ... @ <location>»`
    /// is replaced by the string `"<location>"`, the result is parsed as Nix, and
    /// its attribute set is walked: each attribute path `<flake>.<path>` bound to
    /// a location is a package named `<path>` of the flake `<flake>`.
    pub fn from_eval_output(out: &str) -> (r: Result<Self, ResolveError>)
        requires
            eval_output_spec(out@) is Some,
        ensures
            match eval_output_spec(out@) {
                None => true,
                Some(Ok(ps)) => r matches Ok(l) && packages_view(l.packages()) == ps,
                Some(Err(f)) => r matches Err(e) && is_walk_error(e, f),
            },
    {
        match Self::eval_checked(out) {
            Some(r) => r,
            None => vstd::pervasive::unreached(),
        }
    }

    /// Extract package locations from the output of `nix eval registry#lambdas`,
    /// as [`PackageLocations::from_eval_output`] does; `None` where that would
    /// give up (see [`eval_output_spec`]), on which `from_eval_output` cannot be
    /// called.
    pub fn try_from_eval_output(out: &str) -> (r: Option<Result<Self, ResolveError>>)
        ensures
            match eval_output_spec(out@) {
                None => r is None,
                Some(Ok(ps)) => r matches Some(Ok(l)) && packages_view(l.packages()) == ps,
                Some(Err(f)) => r matches Some(Err(e)) && is_walk_error(e, f),
            },
    {
        match Self::eval_checked(out) {
            None => None,
            Some(_) => Some(Self::from_eval_output(out)),
        }
    }

    /// Walk the attribute set entered at `a`, adding the packages it binds to
    /// `out`, with attribute paths prefixed by `prefix`, as [`walk_spec`]
    /// describes: on a failure, `out` keeps the packages found before it.
    /// `None` where the walk gives up.
    fn walk_attrset(
        syn: &NixSyntax,
        parts: &Vec<Option<Vec<Option<String>>>>,
        out: &mut Vec<Package>,
        prefix: &String,
        a: usize,
    ) -> (r: Option<Result<(), ResolveError>>)
        requires
            a < syn.events@.len(),
        ensures
            match walk_spec(syn.ev(), parts_table_view(parts@), a as int, 0, prefix@) {
                None => r is None,
                Some((ps, stop)) => {
                    &&& packages_view(final(out)@) == packages_view(old(out)@) + ps
                    &&& match stop {
                        None => r == Some(Ok::<(), ResolveError>(())),
                        Some(f) => r matches Some(Err(e)) && is_walk_error(e, f),
                    }
                },
            },
        decreases close_of(syn.ev(), a as int) - a,
    {
        let ghost ev = syn.ev();
        let ghost pv = parts_table_view(parts@);
        let ents = syn.child_nodes(a, &KindSet::Entry);
        let ghost ev_ents = child_nodes(ev, a as int, KindSet::Entry);
        let ghost mut acc: Seq<PackageView> = Seq::empty();
        let mut k: usize = 0;
        proof {
            assert(packages_view(out@) =~= packages_view(old(out)@) + acc);
            assert(prepend(acc, walk_spec(ev, pv, a as int, 0, prefix@)) =~= walk_spec(ev, pv, a as int, 0, prefix@)) by {
                if let Some((r, _)) = walk_spec(ev, pv, a as int, 0, prefix@) {
                    assert(acc + r =~= r);
                }
            }
        }
        while k < ents.len()
            invariant
                ev == syn.ev(),
                pv == parts_table_view(parts@),
                a < syn.events@.len(),
                k <= ents@.len(),
                ents@.map_values(|c: usize| c as int) == ev_ents,
                ev_ents == child_nodes(ev, a as int, KindSet::Entry),
                forall|m: int| 0 <= m < ents@.len() ==> #[trigger] ents@[m] < syn.events@.len(),
                walk_spec(ev, pv, a as int, 0, prefix@) == prepend(acc, walk_spec(ev, pv, a as int, k as int, prefix@)),
                packages_view(out@) == packages_view(old(out)@) + acc,
                close_of(ev, a as int) - a == close_of(syn.ev(), a as int) - a,
            decreases ents@.len() - k,
        {
            let ent = ents[k];
            proof {
                assert(ev_ents[k as int] == ent as int);
                lemma_child_node(ev, a as int, KindSet::Entry, k as int);
            }
            let ghost rest = walk_spec(ev, pv, a as int, k + 1, prefix@);
            let ghost acc0 = acc;
            let ghost mut delta: Seq<PackageView> = Seq::empty();
            if syn.kind(ent) == NODE_ATTRPATH_VALUE {
                let ap = match syn.nth_child(ent, &KindSet::Only(NODE_ATTRPATH), 0) {
                    None => {
                        return None;
                    },
                    Some(ap) => ap,
                };
                let attrs = syn.child_nodes(ap, &KindSet::Attr);
                let ghost ev_attrs = child_nodes(ev, ap as int, KindSet::Attr);
                if attrs.len() == 0 {
                    return Some(Err(ResolveError::ComplexIdent));
                }
                let id = attrs[attrs.len() - 1];
                proof {
                    assert(ev_attrs.last() == id as int);
                    lemma_child_node(ev, ap as int, KindSet::Attr, ev_attrs.len() - 1);
                }
                if syn.kind(id) != NODE_IDENT {
                    return Some(Err(ResolveError::ComplexIdent));
                }
                let t = match syn.first_token(id, TOKEN_IDENT) {
                    None => {
                        return None;
                    },
                    Some(t) => t,
                };
                proof {
                    lemma_first_token(ev, id as int, TOKEN_IDENT);
                }
                let name = syn.token_text(t);
                match syn.nth_child(ent, &KindSet::Expr, 0) {
                    None => {
                        return Some(Err(ResolveError::UnrecognisedValue(None)));
                    },
                    Some(v) => {
                        proof {
                            lemma_nth_child(ev, ent as int, KindSet::Expr, 0);
                        }
                        let vk = syn.kind(v);
                        if vk == NODE_STRING {
                            if v >= parts.len() {
                                return None;
                            }
                            let pos = match &parts[v] {
                                None => {
                                    return None;
                                },
                                Some(ps) => match Self::get_lambda_position(ps) {
                                    None => {
                                        return Some(Err(ResolveError::LambdaPosition));
                                    },
                                    Some(pos) => pos,
                                },
                            };
                            let mut full = prefix.clone();
                            full.append(name.as_str());
                            let fc = chars_of(full.as_str());
                            match split_once(&fc, '.') {
                                None => {
                                    return None;
                                },
                                Some((slug, n)) => {
                                    let p = Package {
                                        name: string_of(&n),
                                        pos,
                                        flake_slug: string_of(&slug),
                                    };
                                    let ghost pv = p@;
                                    out.push(p);
                                    proof {
                                        assert(packages_view(out@) =~= packages_view(old(out)@) + acc + seq![pv]);
                                        delta = seq![pv];
                                        acc = acc + delta;
                                    }
                                },
                            }
                        } else if vk == NODE_ATTR_SET {
                            let mut np = prefix.clone();
                            np.append(syn.node_text(id).as_str());
                            np.append(".");
                            let ghost before = packages_view(out@);
                            match Self::walk_attrset(syn, parts, out, &np, v) {
                                None => {
                                    return None;
                                },
                                Some(Err(e)) => {
                                    return Some(Err(e));
                                },
                                Some(Ok(())) => {
                                    proof {
                                        let ps = (walk_spec(ev, pv, v as int, 0, np@)->0).0;
                                        assert(packages_view(out@) =~= packages_view(old(out)@) + (acc + ps));
                                        delta = ps;
                                        acc = acc + delta;
                                    }
                                },
                            }
                        } else {
                            let (start, end) = syn.range(v);
                            return Some(Err(ResolveError::UnrecognisedValue(Some((vk, start, end)))));
                        }
                    },
                }
            }
            proof {
                assert(walk_spec(ev, pv, a as int, k as int, prefix@) == prepend(delta, rest));
                lemma_prepend_assoc(acc0, delta, rest);
            }
            k = k + 1;
        }
        proof {
            assert(walk_spec(ev, pv, a as int, k as int, prefix@) == Some((Seq::<PackageView>::empty(), None::<WalkFailure>)));
            assert(acc + Seq::<PackageView>::empty() =~= acc);
        }
        Some(Ok(()))
    }

    /// Extract the position of the lambda from the normalized parts `parts`
    /// of a string of the evaluation output: the first part must be literal
    /// text `<file>:<row>:<col>`.
    pub fn get_lambda_position(parts: &Vec<Option<String>>) -> (r: Option<SourcePos>)
        ensures
            match lambda_position_spec(parts_view(*parts)) {
                None => r is None,
                Some((file, row, col)) => r matches Some(p) && p.file@ == file && p.row == row
                    && p.col == col,
            },
    {
        proof {
            if parts@.len() > 0 {
                assert(parts@.map_values(|p: Option<String>| opt_string_view(p))[0] == opt_string_view(parts@[0]));
            }
        }
        if parts.len() == 0 {
            return None;
        }
        let text = match &parts[0] {
            None => {
                return None;
            },
            Some(t) => t,
        };
        let tc = chars_of(text.as_str());
        let (file, rest) = match split_once(&tc, ':') {
            None => {
                return None;
            },
            Some(p) => p,
        };
        let (row, col) = match split_once(&rest, ':') {
            None => {
                return None;
            },
            Some(p) => p,
        };
        let row = match parse_usize(&row) {
            None => {
                return None;
            },
            Some(r) => r,
        };
        let col = match parse_usize(&col) {
            None => {
                return None;
            },
            Some(c) => c,
        };
        Some(SourcePos { file: string_of(&file), row, col })
    }
}

} // verus!
