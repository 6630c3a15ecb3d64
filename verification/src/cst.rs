//! The concrete syntax tree of Nix code as rnix parses it, flattened into the
//! sequence of its enter and leave events, and the typed accessors of rnix's
//! syntax tree (`Lambda::body`, `AttrSet::entries`, ...) stated over it.

use rnix::ast::InterpolPart::{Interpolation, Literal};
use rnix::ast::Str;
use rowan::ast::AstNode;
use rowan::WalkEvent::{Enter, Leave};
use vstd::prelude::*;
use vstd::string::StringExecFns;
use CstEvent::{Close, Open};

verus! {

/// One event of a preorder walk over a syntax tree: entering an element (a node,
/// or a token, which has text) or leaving the element entered last.
pub enum CstEvent {
    Open {
        kind: u16,
        start: u32,
        end: u32,
        /// The text of a token; `None` for a node.
        text: Option<String>,
    },
    Close,
}

/// The parse of a Nix file: the events of its syntax tree, starting with the
/// root, and the message of the first parse error, if any.
pub struct NixSyntax {
    pub events: Vec<CstEvent>,
    pub first_error: Option<String>,
}

/// A [`CstEvent`] as plain values.
pub enum EventView {
    Open {
        kind: u16,
        start: u32,
        end: u32,
        text: Option<Seq<char>>,
    },
    Close,
}

/// A [`NixSyntax`] as plain values.
pub struct NixSyntaxView {
    pub events: Seq<EventView>,
    pub first_error: Option<Seq<char>>,
}

pub open spec fn opt_string_view(o: Option<String>) -> Option<Seq<char>> {
    match o {
        Some(s) => Some(s@),
        None => None,
    }
}

impl View for CstEvent {
    type V = EventView;

    open spec fn view(&self) -> EventView {
        match self {
            CstEvent::Open { kind, start, end, text } => EventView::Open {
                kind: *kind,
                start: *start,
                end: *end,
                text: opt_string_view(*text),
            },
            CstEvent::Close => EventView::Close,
        }
    }
}

/// The events as plain values.
pub open spec fn events_view(v: Seq<CstEvent>) -> Seq<EventView> {
    v.map_values(|e: CstEvent| e@)
}

impl View for NixSyntax {
    type V = NixSyntaxView;

    open spec fn view(&self) -> NixSyntaxView {
        NixSyntaxView { events: events_view(self.events@), first_error: opt_string_view(self.first_error) }
    }
}

/// What rnix makes of the Nix code `text`: the preorder enter and leave events of
/// the syntax tree that `Root::parse` builds, with each element's kind, text
/// range and, for tokens, text; and
/// the message of the parse's first error.
pub uninterp spec fn nix_syntax(text: Seq<char>) -> NixSyntaxView;

/// Parses Nix code with `rnix::Root::parse` and walks the syntax tree with
/// rowan's `preorder_with_tokens`, converting each event to plain values.
#[verifier::external_body]
pub(crate) fn parse_nix(text: &str) -> (r: NixSyntax)
    ensures
        r@ == nix_syntax(text@),
{
    let parse = rnix::Root::parse(text);
    let events = parse.syntax().preorder_with_tokens().map(|ev| match ev {
        Enter(el) => Open {
            kind: el.kind() as u16,
            start: el.text_range().start().into(),
            end: el.text_range().end().into(),
            text: el.as_token().map(ToString::to_string),
        },
        Leave(_) => Close,
    }).collect();
    NixSyntax { events, first_error: parse.errors().first().map(ToString::to_string) }
}

// The numbers of the syntax kinds of rnix that the accessors distinguish.
pub const TOKEN_LET: u16 = 8u16;
pub const TOKEN_IDENT: u16 = 44u16;
pub const TOKEN_STRING_CONTENT: u16 = 50u16;
pub const TOKEN_STRING_END: u16 = 51u16;
pub const TOKEN_STRING_START: u16 = 52u16;
pub const NODE_INTERPOL: u16 = 64u16;
pub const NODE_APPLY: u16 = 53u16;
pub const NODE_ASSERT: u16 = 54u16;
pub const NODE_ATTRPATH: u16 = 55u16;
pub const NODE_DYNAMIC: u16 = 56u16;
pub const NODE_ERROR: u16 = 57u16;
pub const NODE_IDENT: u16 = 58u16;
pub const NODE_IF_ELSE: u16 = 59u16;
pub const NODE_SELECT: u16 = 60u16;
pub const NODE_INHERIT: u16 = 61u16;
pub const NODE_STRING: u16 = 63u16;
pub const NODE_LAMBDA: u16 = 65u16;
pub const NODE_IDENT_PARAM: u16 = 66u16;
pub const NODE_LEGACY_LET: u16 = 67u16;
pub const NODE_LET_IN: u16 = 68u16;
pub const NODE_LIST: u16 = 69u16;
pub const NODE_BIN_OP: u16 = 70u16;
pub const NODE_PAREN: u16 = 71u16;
pub const NODE_PATTERN: u16 = 72u16;
pub const NODE_PAT_ENTRY: u16 = 74u16;
pub const NODE_ROOT: u16 = 75u16;
pub const NODE_ATTR_SET: u16 = 76u16;
pub const NODE_ATTRPATH_VALUE: u16 = 77u16;
pub const NODE_UNARY_OP: u16 = 78u16;
pub const NODE_LITERAL: u16 = 79u16;
pub const NODE_WITH: u16 = 80u16;
pub const NODE_PATH: u16 = 81u16;
pub const NODE_HAS_ATTR: u16 = 82u16;

/// The groups of node kinds that rnix's typed nodes accept.
pub enum KindSet {
    /// `ast::Expr`.
    Expr,
    /// `ast::Param`: patterns and single identifiers.
    Param,
    /// `ast::Entry`: `inherit` clauses and `path = value;` bindings.
    Entry,
    /// `ast::Attr`: identifiers, `${..}` and strings.
    Attr,
    /// A single kind.
    Only(u16),
}

/// `k` belongs to the group `ks`.
pub open spec fn kind_in(ks: KindSet, k: u16) -> bool {
    match ks {
        KindSet::Expr => k == NODE_APPLY || k == NODE_ASSERT || k == NODE_ERROR || k == NODE_IF_ELSE
            || k == NODE_SELECT || k == NODE_STRING || k == NODE_PATH || k == NODE_LITERAL || k
            == NODE_LAMBDA || k == NODE_LEGACY_LET || k == NODE_LET_IN || k == NODE_LIST || k
            == NODE_BIN_OP || k == NODE_PAREN || k == NODE_ROOT || k == NODE_ATTR_SET || k
            == NODE_UNARY_OP || k == NODE_IDENT || k == NODE_WITH || k == NODE_HAS_ATTR,
        KindSet::Param => k == NODE_PATTERN || k == NODE_IDENT_PARAM,
        KindSet::Entry => k == NODE_INHERIT || k == NODE_ATTRPATH_VALUE,
        KindSet::Attr => k == NODE_IDENT || k == NODE_DYNAMIC || k == NODE_STRING,
        KindSet::Only(o) => k == o,
    }
}

fn in_kind_set(ks: &KindSet, k: u16) -> (r: bool)
    ensures
        r == kind_in(*ks, k),
{
    match ks {
        KindSet::Expr => k == NODE_APPLY || k == NODE_ASSERT || k == NODE_ERROR || k == NODE_IF_ELSE
            || k == NODE_SELECT || k == NODE_STRING || k == NODE_PATH || k == NODE_LITERAL || k
            == NODE_LAMBDA || k == NODE_LEGACY_LET || k == NODE_LET_IN || k == NODE_LIST || k
            == NODE_BIN_OP || k == NODE_PAREN || k == NODE_ROOT || k == NODE_ATTR_SET || k
            == NODE_UNARY_OP || k == NODE_IDENT || k == NODE_WITH || k == NODE_HAS_ATTR,
        KindSet::Param => k == NODE_PATTERN || k == NODE_IDENT_PARAM,
        KindSet::Entry => k == NODE_INHERIT || k == NODE_ATTRPATH_VALUE,
        KindSet::Attr => k == NODE_IDENT || k == NODE_DYNAMIC || k == NODE_STRING,
        KindSet::Only(o) => k == *o,
    }
}

/// Event `i` enters an element.
pub open spec fn is_open_at(ev: Seq<EventView>, i: int) -> bool {
    0 <= i < ev.len() && ev[i] is Open
}

/// Event `i` enters a node.
pub open spec fn is_node_at(ev: Seq<EventView>, i: int) -> bool {
    is_open_at(ev, i) && ev[i]->text is None
}

/// Event `i` enters a token.
pub open spec fn is_token_at(ev: Seq<EventView>, i: int) -> bool {
    is_open_at(ev, i) && ev[i]->text is Some
}

/// The index of the event that leaves the element entered just before `j`,
/// counting `depth` further elements still open; `ev.len()` when there is none.
pub open spec fn close_from(ev: Seq<EventView>, j: int, depth: nat) -> int
    decreases ev.len() - j,
{
    if j < 0 || j >= ev.len() {
        ev.len() as int
    } else if ev[j] is Close {
        if depth == 0 {
            j
        } else {
            close_from(ev, j + 1, (depth - 1) as nat)
        }
    } else {
        close_from(ev, j + 1, depth + 1)
    }
}

/// The index of the event that leaves the element entered at `i`.
pub open spec fn close_of(ev: Seq<EventView>, i: int) -> int {
    close_from(ev, i + 1, 0)
}

pub proof fn lemma_close_from_bounds(ev: Seq<EventView>, j: int, depth: nat)
    requires
        0 <= j,
    ensures
        j <= close_from(ev, j, depth) <= ev.len() || (j > ev.len() && close_from(ev, j, depth) == ev.len()),
    decreases ev.len() - j,
{
    if j < ev.len() {
        if ev[j] is Close {
            if depth > 0 {
                lemma_close_from_bounds(ev, j + 1, (depth - 1) as nat);
            }
        } else {
            lemma_close_from_bounds(ev, j + 1, depth + 1);
        }
    }
}

/// The elements entered directly inside the span from `c` to `end`, one after
/// the other; the walk stops at the first event that leaves rather than enters,
/// or at an element that does not end before `end`.
pub open spec fn children_from(ev: Seq<EventView>, c: int, end: int) -> Seq<int>
    decreases end - c,
{
    if c < 0 || c >= end || !is_open_at(ev, c) {
        Seq::empty()
    } else {
        let cc = close_of(ev, c);
        if cc >= end {
            Seq::empty()
        } else {
            proof {
                lemma_close_from_bounds(ev, c + 1, 0);
            }
            seq![c] + children_from(ev, cc + 1, end)
        }
    }
}

/// The children of the element entered at `i`: the nodes and tokens directly
/// inside it, in order.
pub open spec fn children(ev: Seq<EventView>, i: int) -> Seq<int> {
    children_from(ev, i + 1, close_of(ev, i))
}

/// The nodes among `cs` whose kind is in `ks`.
pub open spec fn select_nodes(ev: Seq<EventView>, cs: Seq<int>, ks: KindSet) -> Seq<int>
    decreases cs.len(),
{
    if cs.len() == 0 {
        Seq::empty()
    } else {
        let rest = select_nodes(ev, cs.drop_last(), ks);
        let c = cs.last();
        if is_node_at(ev, c) && kind_in(ks, ev[c]->kind) {
            rest.push(c)
        } else {
            rest
        }
    }
}

/// The child nodes of `i` whose kind is in `ks`, as rnix's typed children.
pub open spec fn child_nodes(ev: Seq<EventView>, i: int, ks: KindSet) -> Seq<int> {
    select_nodes(ev, children(ev, i), ks)
}

/// The `n`-th child node of `i` whose kind is in `ks`: rnix's `nth` accessor.
pub open spec fn nth_child(ev: Seq<EventView>, i: int, ks: KindSet, n: int) -> Option<int> {
    let s = child_nodes(ev, i, ks);
    if 0 <= n < s.len() {
        Some(s[n])
    } else {
        None
    }
}

/// The first child token of `i` of kind `k` among `cs`.
pub open spec fn first_token_in(ev: Seq<EventView>, cs: Seq<int>, k: u16) -> Option<int>
    decreases cs.len(),
{
    if cs.len() == 0 {
        None
    } else if is_token_at(ev, cs[0]) && ev[cs[0]]->kind == k {
        Some(cs[0])
    } else {
        first_token_in(ev, cs.drop_first(), k)
    }
}

/// The first child token of `i` of kind `k`: rnix's token accessors.
pub open spec fn first_token(ev: Seq<EventView>, i: int, k: u16) -> Option<int> {
    first_token_in(ev, children(ev, i), k)
}

/// The element entered at `c` may stand inside a string node, as rnix's
/// `Str::parts` accepts it: a string-content, start or end token, or an
/// interpolation node.
pub open spec fn string_child_ok(ev: Seq<EventView>, c: int) -> bool {
    ||| is_token_at(ev, c) && (ev[c]->kind == TOKEN_STRING_CONTENT || ev[c]->kind == TOKEN_STRING_START
        || ev[c]->kind == TOKEN_STRING_END)
    ||| is_node_at(ev, c) && ev[c]->kind == NODE_INTERPOL
}

/// Event `i` enters a string node whose children `Str::parts` accepts, so that
/// rnix can normalize its parts.
pub open spec fn string_node_ok(ev: Seq<EventView>, i: int) -> bool {
    &&& is_node_at(ev, i)
    &&& ev[i]->kind == NODE_STRING
    &&& forall|k: int| 0 <= k < children(ev, i).len() ==> #[trigger] string_child_ok(ev, children(ev, i)[k])
}

/// The normalized parts of the string node entered at event `i` of the parse
/// of `text`, as `Str::normalized_parts` gives them: the text of each literal
/// part, `None` for each interpolation.
pub uninterp spec fn string_parts(text: Seq<char>, i: int) -> Seq<Option<Seq<char>>>;

/// Parses `text` again with `rnix::Root::parse`, takes the string node entered
/// at event `i` of rowan's `preorder_with_tokens`, and gives its
/// `Str::normalized_parts`, literal parts as their text and interpolations as
/// `None`. The requirement keeps out the string nodes on which `Str::parts`
/// asserts.
#[verifier::external_body]
pub(crate) fn normalized_string_parts(text: &str, i: usize) -> (r: Vec<Option<String>>)
    requires
        string_node_ok(nix_syntax(text@).events, i as int),
    ensures
        r@.map_values(|p: Option<String>| opt_string_view(p)) == string_parts(text@, i as int),
{
    let node = rnix::Root::parse(text).syntax().preorder_with_tokens().nth(i).and_then(|ev| match ev {
        Enter(el) => el.into_node(),
        Leave(_) => None,
    }).unwrap();
    Str::cast(node).unwrap().normalized_parts().into_iter().map(|p| match p {
        Literal(l) => Some(l),
        Interpolation(_) => None,
    }).collect()
}

impl NixSyntax {
    /// The events as plain values.
    pub open spec fn ev(&self) -> Seq<EventView> {
        events_view(self.events@)
    }

    /// Event `j` exists and enters an element.
    pub fn opens_at(&self, j: usize) -> (r: bool)
        ensures
            r == is_open_at(self.ev(), j as int),
    {
        if j < self.events.len() {
            match &self.events[j] {
                CstEvent::Open { .. } => true,
                CstEvent::Close => false,
            }
        } else {
            false
        }
    }

    /// Index of the event that leaves the element entered at `i`.
    pub fn close_of(&self, i: usize) -> (r: usize)
        requires
            i < self.events@.len(),
        ensures
            r as int == close_of(self.ev(), i as int),
            i < r <= self.events@.len(),
    {
        let ghost ev = self.ev();
        let n = self.events.len();
        assert(i < n);
        let mut j: usize = i + 1;
        let mut depth: usize = 0;
        proof {
            lemma_close_from_bounds(ev, i + 1, 0);
        }
        while j < self.events.len()
            invariant
                ev == self.ev(),
                i < j <= self.events@.len(),
                depth <= j - i,
                close_from(ev, j as int, depth as nat) == close_of(ev, i as int),
            decreases self.events@.len() - j,
        {
            match &self.events[j] {
                CstEvent::Close => {
                    proof {
                        assert(ev[j as int] is Close);
                    }
                    if depth == 0 {
                        return j;
                    }
                    depth = depth - 1;
                },
                CstEvent::Open { .. } => {
                    proof {
                        assert(ev[j as int] is Open);
                    }
                    depth = depth + 1;
                },
            }
            j = j + 1;
        }
        j
    }

    /// The children of the element entered at `i`.
    pub fn children(&self, i: usize) -> (r: Vec<usize>)
        requires
            i < self.events@.len(),
        ensures
            r@.map_values(|c: usize| c as int) == children(self.ev(), i as int),
            forall|k: int| 0 <= k < r@.len() ==> #[trigger] r@[k] < self.events@.len(),
    {
        let ghost ev = self.ev();
        let end = self.close_of(i);
        let mut r: Vec<usize> = Vec::new();
        let mut c: usize = i + 1;
        while c < end && self.opens_at(c)
            invariant
                ev == self.ev(),
                end as int == close_of(ev, i as int),
                end <= self.events@.len(),
                i < c,
                forall|k: int| 0 <= k < r@.len() ==> #[trigger] r@[k] < self.events@.len(),
                children(ev, i as int) == r@.map_values(|c: usize| c as int) + children_from(ev, c as int, end as int),
            decreases end - c,
        {
            let cc = self.close_of(c);
            proof {
                assert(is_open_at(ev, c as int));
            }
            if cc >= end {
                proof {
                    assert(children_from(ev, c as int, end as int) =~= Seq::<int>::empty());
                    assert(r@.map_values(|c: usize| c as int) + Seq::<int>::empty() =~= r@.map_values(|c: usize| c as int));
                }
                return r;
            }
            let ghost old_r = r@;
            r.push(c);
            proof {
                assert(r@.map_values(|c: usize| c as int) =~= old_r.map_values(|c: usize| c as int) + seq![c as int]);
            }
            c = cc + 1;
        }
        proof {
            assert(children_from(ev, c as int, end as int) =~= Seq::<int>::empty());
            assert(r@.map_values(|c: usize| c as int) + Seq::<int>::empty() =~= r@.map_values(|c: usize| c as int));
        }
        r
    }
}

proof fn lemma_select_nodes_step(ev: Seq<EventView>, cs: Seq<int>, ks: KindSet, k: int)
    requires
        0 <= k < cs.len(),
    ensures
        select_nodes(ev, cs.take(k + 1), ks) == (if is_node_at(ev, cs[k]) && kind_in(ks, ev[cs[k]]->kind) {
            select_nodes(ev, cs.take(k), ks).push(cs[k])
        } else {
            select_nodes(ev, cs.take(k), ks)
        }),
{
    assert(cs.take(k + 1).drop_last() =~= cs.take(k));
}

proof fn lemma_first_token_step(ev: Seq<EventView>, cs: Seq<int>, k: int, t: u16)
    requires
        0 <= k < cs.len(),
    ensures
        first_token_in(ev, cs.skip(k), t) == (if is_token_at(ev, cs[k]) && ev[cs[k]]->kind == t {
            Some(cs[k])
        } else {
            first_token_in(ev, cs.skip(k + 1), t)
        }),
{
    assert(cs.skip(k).drop_first() =~= cs.skip(k + 1));
}

/// The texts of the tokens entered from event `from` up to event `to`, in order.
pub open spec fn tokens_text(ev: Seq<EventView>, from: int, to: int) -> Seq<char>
    decreases to - from,
{
    if from < 0 || from >= to || from >= ev.len() {
        Seq::empty()
    } else {
        (if is_token_at(ev, from) { ev[from]->text->0 } else { Seq::empty() }) + tokens_text(ev, from + 1, to)
    }
}

/// The text of the element entered at `i`: the texts of the tokens inside it.
pub open spec fn node_text(ev: Seq<EventView>, i: int) -> Seq<char> {
    tokens_text(ev, i + 1, close_of(ev, i))
}

proof fn lemma_children_from_bounds(ev: Seq<EventView>, c: int, end: int, m: int)
    requires
        0 <= m < children_from(ev, c, end).len(),
    ensures
        c <= children_from(ev, c, end)[m],
        children_from(ev, c, end)[m] < close_of(ev, children_from(ev, c, end)[m]) < end,
        is_open_at(ev, children_from(ev, c, end)[m]),
    decreases end - c,
{
    let cc = close_of(ev, c);
    lemma_close_from_bounds(ev, c + 1, 0);
    if m > 0 {
        lemma_children_from_bounds(ev, cc + 1, end, m - 1);
        assert(children_from(ev, c, end)[m] == children_from(ev, cc + 1, end)[m - 1]);
    }
}

proof fn lemma_select_nodes_member(ev: Seq<EventView>, cs: Seq<int>, ks: KindSet, m: int)
    requires
        0 <= m < select_nodes(ev, cs, ks).len(),
    ensures
        exists|q: int| 0 <= q < cs.len() && cs[q] == select_nodes(ev, cs, ks)[m],
        is_node_at(ev, select_nodes(ev, cs, ks)[m]),
        kind_in(ks, ev[select_nodes(ev, cs, ks)[m]]->kind),
    decreases cs.len(),
{
    let rest = select_nodes(ev, cs.drop_last(), ks);
    if m < rest.len() {
        lemma_select_nodes_member(ev, cs.drop_last(), ks, m);
        let q = choose|q: int| 0 <= q < cs.drop_last().len() && cs.drop_last()[q] == rest[m];
        assert(cs[q] == rest[m]);
    } else {
        assert(cs[cs.len() - 1] == select_nodes(ev, cs, ks)[m]);
    }
}

/// A child node lies inside its parent, and so does the span it covers.
pub proof fn lemma_child_node(ev: Seq<EventView>, i: int, ks: KindSet, m: int)
    requires
        0 <= i,
        0 <= m < child_nodes(ev, i, ks).len(),
    ensures
        i < child_nodes(ev, i, ks)[m],
        child_nodes(ev, i, ks)[m] < close_of(ev, child_nodes(ev, i, ks)[m]) < close_of(ev, i),
        is_node_at(ev, child_nodes(ev, i, ks)[m]),
        kind_in(ks, ev[child_nodes(ev, i, ks)[m]]->kind),
{
    lemma_select_nodes_member(ev, children(ev, i), ks, m);
    let q = choose|q: int| 0 <= q < children(ev, i).len() && children(ev, i)[q] == child_nodes(ev, i, ks)[m];
    lemma_children_from_bounds(ev, i + 1, close_of(ev, i), q);
}

/// The node that `nth_child` gives lies inside its parent.
pub proof fn lemma_nth_child(ev: Seq<EventView>, i: int, ks: KindSet, n: int)
    requires
        0 <= i,
        nth_child(ev, i, ks, n) is Some,
    ensures
        i < nth_child(ev, i, ks, n)->0,
        nth_child(ev, i, ks, n)->0 < close_of(ev, nth_child(ev, i, ks, n)->0) < close_of(ev, i),
        is_node_at(ev, nth_child(ev, i, ks, n)->0),
        kind_in(ks, ev[nth_child(ev, i, ks, n)->0]->kind),
{
    lemma_child_node(ev, i, ks, n);
}

proof fn lemma_first_token_in(ev: Seq<EventView>, cs: Seq<int>, k: u16)
    requires
        first_token_in(ev, cs, k) is Some,
    ensures
        is_token_at(ev, first_token_in(ev, cs, k)->0),
        ev[first_token_in(ev, cs, k)->0]->kind == k,
    decreases cs.len(),
{
    if !(is_token_at(ev, cs[0]) && ev[cs[0]]->kind == k) {
        lemma_first_token_in(ev, cs.drop_first(), k);
    }
}

/// The token that `first_token` gives is a token of that kind.
pub proof fn lemma_first_token(ev: Seq<EventView>, i: int, k: u16)
    requires
        first_token(ev, i, k) is Some,
    ensures
        is_token_at(ev, first_token(ev, i, k)->0),
        ev[first_token(ev, i, k)->0]->kind == k,
{
    lemma_first_token_in(ev, children(ev, i), k);
}

impl NixSyntax {
    /// Event `j` enters a node (an element without text).
    pub fn is_node(&self, j: usize) -> (r: bool)
        ensures
            r == is_node_at(self.ev(), j as int),
    {
        if j < self.events.len() {
            match &self.events[j] {
                CstEvent::Open { text, .. } => text.is_none(),
                CstEvent::Close => false,
            }
        } else {
            false
        }
    }

    /// Event `i` enters a string node whose children `Str::parts` accepts.
    pub fn string_node_ok(&self, i: usize) -> (r: bool)
        ensures
            r == string_node_ok(self.ev(), i as int),
    {
        let ghost ev = self.ev();
        if !self.is_node(i) || self.kind(i) != NODE_STRING {
            return false;
        }
        let cs = self.children(i);
        let ghost ecs = children(ev, i as int);
        let mut k: usize = 0;
        while k < cs.len()
            invariant
                ev == self.ev(),
                k <= cs@.len(),
                cs@.map_values(|c: usize| c as int) == ecs,
                ecs == children(ev, i as int),
                forall|m: int| 0 <= m < cs@.len() ==> #[trigger] cs@[m] < self.events@.len(),
                forall|m: int| 0 <= m < k ==> #[trigger] string_child_ok(ev, ecs[m]),
            decreases cs@.len() - k,
        {
            let c = cs[k];
            proof {
                assert(ecs[k as int] == c as int);
            }
            let ok = if self.is_node(c) {
                self.kind(c) == NODE_INTERPOL
            } else if self.opens_at(c) {
                let ck = self.kind(c);
                ck == TOKEN_STRING_CONTENT || ck == TOKEN_STRING_START || ck == TOKEN_STRING_END
            } else {
                false
            };
            if !ok {
                proof {
                    assert(!string_child_ok(ev, ecs[k as int]));
                    assert(!string_child_ok(ev, children(ev, i as int)[k as int]));
                }
                return false;
            }
            k = k + 1;
        }
        true
    }

    /// The kind of the element entered at `j`.
    pub fn kind(&self, j: usize) -> (r: u16)
        requires
            is_open_at(self.ev(), j as int),
        ensures
            r == self.ev()[j as int]->kind,
    {
        match &self.events[j] {
            CstEvent::Open { kind, .. } => *kind,
            CstEvent::Close => 0,
        }
    }

    /// The text range of the element entered at `j`.
    pub fn range(&self, j: usize) -> (r: (u32, u32))
        requires
            is_open_at(self.ev(), j as int),
        ensures
            r == (self.ev()[j as int]->start, self.ev()[j as int]->end),
    {
        match &self.events[j] {
            CstEvent::Open { start, end, .. } => (*start, *end),
            CstEvent::Close => (0, 0),
        }
    }

    /// The text of the token entered at `j`.
    pub fn token_text(&self, j: usize) -> (r: &String)
        requires
            is_token_at(self.ev(), j as int),
        ensures
            self.ev()[j as int]->text == Some(r@),
    {
        match &self.events[j] {
            CstEvent::Open { text: Some(t), .. } => t,
            _ => vstd::pervasive::unreached(),
        }
    }

    /// The text of the node entered at `i`: the texts of its tokens.
    pub fn node_text(&self, i: usize) -> (r: String)
        requires
            i < self.events@.len(),
        ensures
            r@ == node_text(self.ev(), i as int),
    {
        let ghost ev = self.ev();
        let end = self.close_of(i);
        let mut out = String::new();
        let mut j: usize = i + 1;
        while j < end
            invariant
                ev == self.ev(),
                i < j,
                end as int == close_of(ev, i as int),
                end <= self.events@.len(),
                out@ + tokens_text(ev, j as int, end as int) == node_text(ev, i as int),
            decreases end - j,
        {
            let ghost before = out@;
            if !self.is_node(j) && self.opens_at(j) {
                out.append(self.token_text(j).as_str());
            }
            proof {
                assert(before + tokens_text(ev, j as int, end as int) =~= out@ + tokens_text(ev, j + 1, end as int));
            }
            j = j + 1;
        }
        proof {
            assert(out@ + Seq::<char>::empty() =~= out@);
        }
        out
    }

    /// The child nodes of `i` whose kind is in `ks`.
    pub fn child_nodes(&self, i: usize, ks: &KindSet) -> (r: Vec<usize>)
        requires
            i < self.events@.len(),
        ensures
            r@.map_values(|c: usize| c as int) == child_nodes(self.ev(), i as int, *ks),
            forall|k: int| 0 <= k < r@.len() ==> #[trigger] r@[k] < self.events@.len(),
    {
        let ghost ev = self.ev();
        let cs = self.children(i);
        let ghost csv = cs@.map_values(|c: usize| c as int);
        let mut r: Vec<usize> = Vec::new();
        let mut k: usize = 0;
        while k < cs.len()
            invariant
                ev == self.ev(),
                k <= cs@.len(),
                csv == cs@.map_values(|c: usize| c as int),
                forall|m: int| 0 <= m < cs@.len() ==> #[trigger] cs@[m] < self.events@.len(),
                forall|m: int| 0 <= m < r@.len() ==> #[trigger] r@[m] < self.events@.len(),
                r@.map_values(|c: usize| c as int) == select_nodes(ev, csv.take(k as int), *ks),
            decreases cs@.len() - k,
        {
            let c = cs[k];
            proof {
                lemma_select_nodes_step(ev, csv, *ks, k as int);
                assert(csv[k as int] == c as int);
            }
            if self.is_node(c) && in_kind_set(ks, self.kind(c)) {
                let ghost old_r = r@;
                r.push(c);
                proof {
                    assert(r@.map_values(|c: usize| c as int) =~= old_r.map_values(|c: usize| c as int).push(c as int));
                }
            }
            k = k + 1;
        }
        proof {
            assert(csv.take(cs@.len() as int) =~= csv);
        }
        r
    }

    /// The `n`-th child node of `i` whose kind is in `ks`.
    pub fn nth_child(&self, i: usize, ks: &KindSet, n: usize) -> (r: Option<usize>)
        requires
            i < self.events@.len(),
        ensures
            r matches Some(c) ==> nth_child(self.ev(), i as int, *ks, n as int) == Some(c as int)
                && c < self.events@.len(),
            r is None ==> nth_child(self.ev(), i as int, *ks, n as int) is None,
    {
        let cs = self.child_nodes(i, ks);
        if n < cs.len() {
            proof {
                assert(cs@.map_values(|c: usize| c as int)[n as int] == cs@[n as int] as int);
            }
            Some(cs[n])
        } else {
            None
        }
    }

    /// The first child token of `i` of kind `t`.
    pub fn first_token(&self, i: usize, t: u16) -> (r: Option<usize>)
        requires
            i < self.events@.len(),
        ensures
            r matches Some(c) ==> first_token(self.ev(), i as int, t) == Some(c as int) && c
                < self.events@.len(),
            r is None ==> first_token(self.ev(), i as int, t) is None,
    {
        let ghost ev = self.ev();
        let cs = self.children(i);
        let ghost csv = cs@.map_values(|c: usize| c as int);
        let mut k: usize = 0;
        proof {
            assert(csv.skip(0) =~= csv);
        }
        while k < cs.len()
            invariant
                ev == self.ev(),
                k <= cs@.len(),
                csv == cs@.map_values(|c: usize| c as int),
                csv == children(ev, i as int),
                forall|m: int| 0 <= m < cs@.len() ==> #[trigger] cs@[m] < self.events@.len(),
                first_token_in(ev, csv.skip(k as int), t) == first_token(ev, i as int, t),
            decreases cs@.len() - k,
        {
            let c = cs[k];
            proof {
                lemma_first_token_step(ev, csv, k as int, t);
                assert(csv[k as int] == c as int);
            }
            if !self.is_node(c) && self.opens_at(c) && self.kind(c) == t {
                return Some(c);
            }
            k = k + 1;
        }
        proof {
            assert(csv.skip(cs@.len() as int) =~= Seq::<int>::empty());
        }
        None
    }
}

} // verus!
