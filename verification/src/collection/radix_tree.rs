use crate::collection::text::{
    bytes_eq, common_prefix_len, empty_str, is_common_prefix_len, spec_is_str_range,
    first_byte_idx, first_occurrence, lemma_first_occurrence_bounds, spec_split_at, spec_split_once1, spec_split_once_str, spec_str_get,
    str_contains_byte,
    str_from_utf8, str_get, str_split_at, str_split_once1, str_split_once_str,
};
use crate::collection::misc::spec_is_char_boundary;
use crate::collection::{Vector, VectorError};
use crate::error::Error;
use core::ops::Range;
use vstd::prelude::*;
use vstd::string::StringSliceAdditionalSpecFns;
use vstd::utf8::valid_utf8;

verus! {

/// Radix Tree Error
#[derive(Clone, Copy, Debug, PartialEq, Eq, Structural)]
pub enum RadixTreeError {
    /// Conflicting route definitions
    ConflictingRoute,
    /// Duplicate route already exists
    DuplicateRoute,
    /// Invalid parameter syntax
    InvalidParameterSyntax,
    /// Invalid Route Definition
    InvalidRouteDefinition,
    /// Multiple wildcards in the same path
    MultipleWildcardsInPath,
    /// Nested parameters. For example, `{id{nested}}`.
    NestedParameters,
    /// Create a sub node to add more parameters in a path
    NodesCanHaveAtMostOneParameter,
    /// Route does not exist
    UnknownMatchingRoute,
    /// Unclosed parameter bracket
    UnclosedParameterBracket,
    /// Wildcard must be at the end of a path segment
    WildcardNotAtEnd,
}

/// How many parameters a search records at most.
pub const NODES_PARAMS_CAP: usize = 8;

/// The longest identifier, in bytes, that a node or a search accepts.
pub const IDENTIFIER_CAP: usize = 255;

/// What a node matches: a literal piece of text, one parameter or a trailing wildcard.
///
/// Parameters and wildcards are always suffixes.
#[derive(Clone, Copy, Debug, PartialEq)]
pub enum NodeTy {
    /// The whole identifier of the node is literal text.
    Literal,
    /// The identifier holds `{name}` at `begin_idx..end_idx`. Without a suffix after it, `after`
    /// is the byte that ends the parameter in a searched path.
    Param { after: Option<u8>, begin_idx: u8, end_idx: u8, name: &'static str },
    /// The identifier ends with `{name*}`, which takes the rest of a searched path.
    Wildcard { begin_idx: u8, name: &'static str },
}

/// An edge is also a piece of data in CSR terms.
#[derive(Clone, Copy, Debug, PartialEq, Eq)]
pub struct Edge {
    node_target_idx: u8,
}

impl Edge {
    /// An edge that leads to the node at `node_target_idx`.
    pub fn new(node_target_idx: u8) -> (r: Self)
        ensures
            r.target() == node_target_idx,
    {
        Edge { node_target_idx }
    }

    /// The node that this edge leads to.
    pub closed spec fn target(self) -> u8 {
        self.node_target_idx
    }

    /// The edge that leads to the node at `node_target_idx`.
    pub closed spec fn new_spec(node_target_idx: u8) -> Self {
        Edge { node_target_idx }
    }
}

/// Intermediate nodes refer common prefixes shared by other routes while final nodes are unique.
///
/// A node can have at-most one parameter and a node is also a row in CSR terms.
#[derive(Clone, Debug, PartialEq)]
pub struct Node<T> {
    edges_offset: u8,
    identifier: &'static str,
    ty: NodeTy,
    value: Option<T>,
}

impl<T> Node<T> {
    /// A node made of its parts.
    pub fn new(edges_offset: u8, identifier: &'static str, ty: NodeTy, value: Option<T>) -> (r: Self)
        ensures
            r.spec_edges_offset() == edges_offset,
            r.spec_identifier() == identifier,
            r.spec_ty() == ty,
            r.spec_value() == value,
    {
        Node { edges_offset, identifier, ty, value }
    }

    fn from_identifier(identifier: &'static str) -> (r: Self)
        ensures
            r == (Node::<T> { edges_offset: 0, identifier, ty: NodeTy::Literal, value: None }),
    {
        Node { edges_offset: 0, identifier, ty: NodeTy::Literal, value: None }
    }

    /// Where the edges of the next node begin.
    pub closed spec fn spec_edges_offset(self) -> u8 {
        self.edges_offset
    }

    /// The piece of route that this node holds.
    pub closed spec fn spec_identifier(self) -> &'static str {
        self.identifier
    }

    /// What the identifier matches.
    pub closed spec fn spec_ty(self) -> NodeTy {
        self.ty
    }

    /// The value of the route that ends at this node.
    pub closed spec fn spec_value(self) -> Option<T> {
        self.value
    }
}

/// The part of the identifier of a node that is compared as literal text: all of it for a
/// literal node, what precedes the parameter otherwise.
pub open spec fn spec_comparing_name(identifier: Seq<u8>, ty: NodeTy) -> Seq<u8> {
    match ty {
        NodeTy::Literal => identifier,
        NodeTy::Param { begin_idx, .. } => match spec_str_get(identifier, 0, begin_idx as int) {
            Some(elem) => elem,
            None => Seq::empty(),
        },
        NodeTy::Wildcard { begin_idx, .. } => match spec_str_get(identifier, 0, begin_idx as int) {
            Some(elem) => elem,
            None => Seq::empty(),
        },
    }
}

/// See [`spec_comparing_name`].
fn comparing_name(node_identifier: &'static str, ty: NodeTy) -> (r: &'static str)
    ensures
        ty is Literal ==> r == node_identifier,
        r.spec_bytes() == spec_comparing_name(node_identifier.spec_bytes(), ty),
        r.spec_bytes().len() <= node_identifier.spec_bytes().len(),
{
    match ty {
        NodeTy::Literal => node_identifier,
        NodeTy::Param { begin_idx, .. } | NodeTy::Wildcard { begin_idx, .. } => {
            match str_get(node_identifier, 0, begin_idx as usize) {
                Some(elem) => elem,
                None => empty_str(),
            }
        },
    }
}

/// A parameter found by a search: the node that holds it and where its value is in the path.
#[derive(Debug, PartialEq)]
pub struct NodeParam {
    node_idx: u8,
    param_range: Range<u8>,
}

impl NodeParam {
    /// The node that holds the parameter.
    pub closed spec fn spec_node_idx(self) -> u8 {
        self.node_idx
    }

    /// Where the value of the parameter is in the searched path.
    pub closed spec fn spec_param_range(self) -> Range<u8> {
        self.param_range
    }

    fn new(node_idx: u8, param_range: Range<u8>) -> (r: Self)
        ensures
            r.node_idx == node_idx,
            r.param_range == param_range,
    {
        NodeParam { node_idx, param_range }
    }
}

/// What a search keeps from one node to the next.
struct SearchState<'a> {
    absolute_offset: u8,
    curr_edges_range: Option<Range<u8>>,
    curr_identifier: &'a str,
    edges_offset_begin: u8,
}

/// [`SearchState`] with the bytes of what is left of the path.
pub struct SearchView {
    /// Where what is left of the path begins in the whole path.
    pub absolute_offset: u8,
    /// The edges of the nodes to compare next.
    pub edges_range: Option<Range<u8>>,
    /// What is left of the path.
    pub curr: Seq<u8>,
    /// Where the edges of the next node begin.
    pub edges_offset_begin: u8,
}

impl<'a> SearchState<'a> {
    spec fn view(&self) -> SearchView {
        SearchView {
            absolute_offset: self.absolute_offset,
            edges_range: self.curr_edges_range,
            curr: self.curr_identifier.spec_bytes(),
            edges_offset_begin: self.edges_offset_begin,
        }
    }
}

/// How a scan over candidate nodes ended.
#[derive(Clone, Copy, Debug, PartialEq, Eq, Structural)]
pub enum SearchStep {
    /// A node matched all that was left of the path.
    Found,
    /// A node matched a part and its children are next.
    Descend,
    /// No node matched.
    Exhausted,
}

/// The value and the rest of the path that a parameter takes from `rhs`: up to `after` where the
/// parameter has no suffix, up to `tail` otherwise. `None` where `tail` does not occur.
pub open spec fn spec_param_split(rhs: Seq<u8>, after: Option<u8>, tail: Seq<u8>) -> Option<
    (Seq<u8>, Seq<u8>),
> {
    if tail.len() == 0 {
        let found = match after {
            Some(byte) => match spec_split_once1(rhs, byte) {
                Some((param, _)) => Some(
                    (
                        param,
                        match spec_str_get(rhs, param.len() as int, rhs.len() as int) {
                            Some(elem) => elem,
                            None => Seq::empty(),
                        },
                    ),
                ),
                None => None,
            },
            None => None,
        };
        match found {
            Some(elem) => Some(elem),
            None => Some((rhs, Seq::empty())),
        }
    } else {
        spec_split_once_str(rhs, tail)
    }
}

/// A length as a `u8`, or zero where it does not fit.
pub open spec fn len_or_zero(len: nat) -> u8 {
    if len <= IDENTIFIER_CAP {
        len as u8
    } else {
        0
    }
}

/// Comparing what is left of the path in `st` with `node`, the node at `node_idx`: whether it
/// did not match (`Some(false)`), matched all (`Some(true)`) or a part (`None`), the state
/// afterwards and where the parameter of the node lies in the whole path.
pub open spec fn spec_check_search<T>(
    st: SearchView,
    identifier_len: u8,
    node: Node<T>,
    node_idx: u8,
) -> (Option<bool>, SearchView, Range<u8>) {
    let id = node.spec_identifier().spec_bytes();
    let name = spec_comparing_name(id, node.spec_ty());
    match spec_split_at(st.curr, name.len() as int) {
        None => (Some(false), st, 0..0),
        Some((lhs, rhs)) => if lhs != name {
            (Some(false), st, 0..0)
        } else {
            let step: Option<(Seq<u8>, Range<u8>)> = match node.spec_ty() {
                NodeTy::Literal => Some((rhs, 0..0)),
                NodeTy::Param { after, end_idx, .. } => {
                    let tail = match spec_str_get(id, end_idx as int, id.len() as int) {
                        Some(elem) => elem,
                        None => Seq::empty(),
                    };
                    match spec_param_split(rhs, after, tail) {
                        None => None,
                        Some((param, after_param)) => {
                            let start = st.absolute_offset.wrapping_add(len_or_zero(name.len()));
                            Some((after_param, start..start.wrapping_add(len_or_zero(param.len()))))
                        },
                    }
                },
                NodeTy::Wildcard { begin_idx, .. } => Some(
                    (Seq::empty(), st.absolute_offset.wrapping_add(begin_idx)..identifier_len),
                ),
            };
            match step {
                None => (Some(false), st, 0..0),
                Some((curr, range)) => if curr.len() == 0 {
                    (
                        Some(true),
                        SearchView {
                            absolute_offset: st.absolute_offset,
                            edges_range: st.edges_range,
                            curr,
                            edges_offset_begin: st.edges_offset_begin,
                        },
                        range,
                    )
                } else {
                    (
                        None,
                        SearchView {
                            absolute_offset: st.absolute_offset,
                            edges_range: Some(st.edges_offset_begin..node.spec_edges_offset()),
                            curr,
                            edges_offset_begin: node.spec_edges_offset(),
                        },
                        range,
                    )
                },
            }
        },
    }
}

/// The records of a search with `param` added, unless they are full.
pub closed spec fn push_capped(params: Seq<NodeParam>, param: NodeParam) -> Seq<NodeParam> {
    if params.len() < NODES_PARAMS_CAP {
        params.push(param)
    } else {
        params
    }
}

/// `st` with the edges of the node to compare beginning at `begin`.
pub open spec fn with_begin(st: SearchView, begin: u8) -> SearchView {
    SearchView { edges_offset_begin: begin, ..st }
}

/// The state after a node matched a part: `next`, where the offset moved past what the node took.
pub open spec fn advanced(prev: SearchView, next: SearchView) -> SearchView {
    SearchView {
        absolute_offset: prev.absolute_offset.wrapping_add((prev.curr.len() - next.curr.len()) as u8),
        edges_range: next.edges_range,
        curr: next.curr,
        edges_offset_begin: next.edges_offset_begin,
    }
}

/// Decomposes a series of prefixed strings into common nodes to allow fast comparisons with
/// other dynamic strings.
///
/// This particular radix tree allows the insertion of wildcards or dynamic parameters, which makes
/// it suitable for URI routers.
///
/// * `hey_{anything*}`: hey_, hey_world, hey_you_you_are_nodding_out
/// * `{phrase}_ready_to_go.avif`: are_you_ready_to_go.avif,  cause i_am_ready_to_go.avif
pub struct RadixTree<T> {
    edges: Vector<Edge>,
    nodes: Vector<Node<T>>,
    root_len: u8,
}

impl<T> RadixTree<T> {
    /// The edges, in CSR order.
    pub closed spec fn spec_edges(&self) -> Seq<Edge> {
        self.edges@
    }

    /// The nodes: first the roots, then the others.
    pub closed spec fn spec_nodes(&self) -> Seq<Node<T>> {
        self.nodes@
    }

    /// How many of the first nodes are roots.
    pub closed spec fn spec_root_len(&self) -> u8 {
        self.root_len
    }

    /// Empty instance
    pub fn new() -> (r: Self)
        ensures
            r.spec_edges().len() == 0,
            r.spec_nodes().len() == 0,
            r.spec_root_len() == 0,
    {
        RadixTree { edges: Vector::new(), nodes: Vector::new(), root_len: 0 }
    }

    /// Empties the tree and returns a builder that adds nodes to it.
    pub fn builder(&mut self) -> (r: RadixTreeBuilder<'_, T>)
        ensures
            r.tree().spec_edges().len() == 0,
            r.tree().spec_nodes().len() == 0,
            r.tree().spec_root_len() == 0,
            *final(self) == *final(r.tree),
    {
        self.edges.clear();
        self.nodes.clear();
        self.root_len = 0;
        RadixTreeBuilder { tree: self }
    }

    /// The edges, in CSR order.
    pub fn edges(&self) -> (r: &[Edge])
        ensures
            r@ == self.spec_edges(),
    {
        self.edges.as_slice()
    }

    /// The nodes: first the roots, then the others.
    pub fn nodes(&self) -> (r: &[Node<T>])
        ensures
            r@ == self.spec_nodes(),
    {
        self.nodes.as_slice()
    }

    /// How many of the first nodes are roots.
    pub fn root_len(&self) -> (r: u8)
        ensures
            r == self.spec_root_len(),
    {
        self.root_len
    }

    /// Where the edges of the node at `idx` begin: where those of the node before it end, or at
    /// the first edge for the first node.
    pub closed spec fn spec_edges_start(&self, idx: int) -> u8 {
        if 1 <= idx <= self.nodes@.len() {
            self.nodes@[idx - 1].edges_offset
        } else {
            0
        }
    }

    /// See [`Self::spec_edges_start`].
    fn edges_start(&self, idx: usize) -> (r: u8)
        ensures
            r == self.spec_edges_start(idx as int),
    {
        if idx >= 1 && idx <= self.nodes.len() {
            self.nodes.as_slice()[idx - 1].edges_offset
        } else {
            0
        }
    }

    /// Comparing the roots, from the one at `idx` on, with what is left of the path.
    pub closed spec fn spec_scan_roots(
        &self,
        st: SearchView,
        params: Seq<NodeParam>,
        idx: int,
        identifier_len: u8,
    ) -> (SearchStep, SearchView, Seq<NodeParam>)
        decreases self.spec_root_len() - idx,
    {
        if idx < 0 || idx >= self.root_len || self.root_len > self.nodes@.len() {
            (SearchStep::Exhausted, st, params)
        } else {
            let st1 = with_begin(st, self.spec_edges_start(idx));
            let (r, next, range) = spec_check_search(
                st1,
                identifier_len,
                self.nodes@[idx],
                idx as u8,
            );
            let pushed = push_capped(params, NodeParam { node_idx: idx as u8, param_range: range });
            match r {
                Some(false) => self.spec_scan_roots(st1, params, idx + 1, identifier_len),
                Some(true) => (SearchStep::Found, next, pushed),
                None => (SearchStep::Descend, advanced(st1, next), pushed),
            }
        }
    }

    /// Comparing the targets of the edges from `idx` to `end` with what is left of the path.
    pub closed spec fn spec_scan_edges(
        &self,
        st: SearchView,
        params: Seq<NodeParam>,
        idx: int,
        end: int,
        identifier_len: u8,
    ) -> (SearchStep, SearchView, Seq<NodeParam>)
        decreases end - idx,
    {
        if idx < 0 || idx >= end || end > self.edges@.len() {
            (SearchStep::Exhausted, st, params)
        } else {
            let target = self.edges@[idx].node_target_idx;
            if target >= self.nodes@.len() {
                self.spec_scan_edges(st, params, idx + 1, end, identifier_len)
            } else {
                let st1 = with_begin(st, self.spec_edges_start(target as int));
                let (r, next, range) = spec_check_search(
                    st1,
                    identifier_len,
                    self.nodes@[target as int],
                    target,
                );
                let pushed = push_capped(params, NodeParam { node_idx: target, param_range: range });
                match r {
                    Some(false) => self.spec_scan_edges(st1, params, idx + 1, end, identifier_len),
                    Some(true) => (SearchStep::Found, next, pushed),
                    None => (SearchStep::Descend, advanced(st1, next), pushed),
                }
            }
        }
    }

    /// The search from the state `st` on, where `rounds` levels were already searched: the
    /// records of the nodes that matched, or `None` where no node matched all of the path.
    pub closed spec fn spec_search(
        &self,
        st: SearchView,
        params: Seq<NodeParam>,
        rounds: nat,
        identifier_len: u8,
    ) -> Option<Seq<NodeParam>>
        decreases self.spec_nodes().len() - rounds,
    {
        match st.edges_range {
            None => None,
            Some(range) => if rounds >= self.nodes@.len() {
                None
            } else {
                let st0 = SearchView {
                    absolute_offset: st.absolute_offset,
                    edges_range: None,
                    curr: st.curr,
                    edges_offset_begin: st.edges_offset_begin,
                };
                if range.start <= range.end && range.end <= self.edges@.len() {
                    let (step, next, pushed) = self.spec_scan_edges(
                        st0,
                        params,
                        range.start as int,
                        range.end as int,
                        identifier_len,
                    );
                    match step {
                        SearchStep::Found => Some(pushed),
                        _ => self.spec_search(next, pushed, rounds + 1, identifier_len),
                    }
                } else {
                    self.spec_search(st0, params, rounds + 1, identifier_len)
                }
            },
        }
    }

    /// The records of the nodes that match `identifier`, first the roots, then the descendants
    /// level by level, each level through the edges of the node that matched above it; `None`
    /// where no node matches all of it.
    pub closed spec fn spec_find(&self, identifier: Seq<u8>) -> Option<Seq<NodeParam>> {
        let identifier_len = identifier.len() as u8;
        let st = SearchView {
            absolute_offset: 0,
            edges_range: None,
            curr: identifier,
            edges_offset_begin: 0,
        };
        let (step, next, params) = self.spec_scan_roots(st, Seq::empty(), 0, identifier_len);
        match step {
            SearchStep::Found => Some(params),
            _ => self.spec_search(next, params, 0, identifier_len),
        }
    }

    /// The records end at a node that exists and holds a value.
    pub closed spec fn spec_path_ok(&self, params: Seq<NodeParam>) -> bool {
        &&& params.len() > 0
        &&& params.last().node_idx < self.nodes@.len()
        &&& self.nodes@[params.last().node_idx as int].value is Some
    }

    /// In a tree of literal nodes, a search succeeds only on the text of a path from a root
    /// along edges, and its records are the nodes of that path, as many as it keeps.
    pub proof fn lemma_literal_finds_only_paths(&self, identifier: Seq<u8>)
        requires
            is_literal_tree(*self),
        ensures
            self.spec_find(identifier) matches Some(params) ==> found_on_path(*self, identifier, params),
    {
        assert(self.spec_nodes() == self.nodes@);
        assert(self.spec_edges() == self.edges@);
        assert(self.spec_root_len() == self.root_len);
        let len = identifier.len() as u8;
        let st = SearchView {
            absolute_offset: 0,
            edges_range: None,
            curr: identifier,
            edges_offset_begin: 0,
        };
        self.lemma_scan_literal_roots(st, Seq::empty(), 0, len);
        let (step, next, params) = self.spec_scan_roots(st, Seq::empty(), 0, len);
        if step == SearchStep::Exhausted {
            assert(self.spec_search(next, params, 0, len) is None);
        }
        assert(self.spec_find(identifier) == if step == SearchStep::Found {
            Some(params)
        } else {
            self.spec_search(next, params, 0, len)
        });
        if step == SearchStep::Descend {
            let k = choose|k: int|
                0 <= k < self.nodes@.len() && k < self.root_len && (#[trigger] self.nodes@[k]).identifier.spec_bytes() + next.curr
                    == identifier && next.edges_range == Some(self.spec_edges_start(k)..self.nodes@[k].edges_offset)
                    && params == push_capped(
                    Seq::empty(),
                    NodeParam { node_idx: k as u8, param_range: 0..0 },
                );
            let path = seq![k];
            assert(path.drop_last() =~= Seq::<int>::empty());
            assert(path_text(*self, Seq::<int>::empty()) == Seq::<u8>::empty());
            assert(path.last() == k);
            assert(path_text(*self, path) =~= self.nodes@[k].identifier.spec_bytes());
            assert(is_route_path(*self, path));
            assert(records_follow(params, path));
            assert(path_text(*self, path) == self.nodes@[k].identifier.spec_bytes());
            self.lemma_search_literal(next, params, 0, len, identifier, path);
        } else if step == SearchStep::Found {
            let k = choose|k: int|
                0 <= k < self.nodes@.len() && k < self.root_len && (#[trigger] self.nodes@[k]).identifier.spec_bytes()
                    == identifier && params == push_capped(
                    Seq::empty(),
                    NodeParam { node_idx: k as u8, param_range: 0..0 },
                );
            let path = seq![k];
            assert(path.drop_last() =~= Seq::<int>::empty());
            assert(path_text(*self, Seq::<int>::empty()) == Seq::<u8>::empty());
            assert(path.last() == k);
            assert(path_text(*self, path) =~= self.nodes@[k].identifier.spec_bytes());
            assert(is_route_path(*self, path));
            assert(records_follow(params, path));
            assert(path_text(*self, path) == self.nodes@[k].identifier.spec_bytes());
            assert(self.nodes@[k].identifier.spec_bytes() == identifier);
            assert(self.spec_find(identifier) == Some(params));
            assert(is_route_path(*self, path) && path_text(*self, path) == identifier
                && records_follow(params, path));
            assert(found_on_path(*self, identifier, params));
            assert(records_follow(params, path));
        }
    }

    /// In any tree whose wildcards begin where the text before them ends, the records of a
    /// successful search of `path`, as long as the search keeps all of them, spell `path`: the
    /// pieces that their nodes took, each made of the node's literal text and, for a parameter
    /// or a wildcard, of the value that the record locates in `path`, follow one another and
    /// make up all of `path`.
    pub proof fn lemma_found_records_spell_path(&self, path: Seq<u8>)
        requires
            path.len() <= IDENTIFIER_CAP,
            wildcards_well_placed(*self),
        ensures
            self.spec_find(path) matches Some(recs) ==> (recs.len() < NODES_PARAMS_CAP
                ==> records_text(*self, path, recs) == path),
    {
        let len = path.len() as u8;
        let st = SearchView { absolute_offset: 0, edges_range: None, curr: path, edges_offset_begin: 0 };
        assert(path.skip(0) =~= path);
        assert(path.take(0) =~= Seq::<u8>::empty());
        assert(records_text(*self, path, Seq::<NodeParam>::empty()) == Seq::<u8>::empty());
        self.lemma_scan_roots_spell(path, st, Seq::empty(), 0);
        let (step, next, recs) = self.spec_scan_roots(st, Seq::empty(), 0, len);
        if step != SearchStep::Found {
            self.lemma_search_spells(path, next, recs, 0);
        }
    }

    /// A record of a node that took `piece` from what is left of the path keeps the records
    /// spelling what was matched.
    proof fn lemma_record_spells(
        &self,
        path: Seq<u8>,
        st: SearchView,
        recs: Seq<NodeParam>,
        rec: NodeParam,
        next: SearchView,
    )
        requires
            path.len() <= IDENTIFIER_CAP,
            spells_so_far(*self, path, st, recs),
            st.curr == record_piece(*self, path, rec) + next.curr,
        ensures
            next.curr.len() == 0 ==> (push_capped(recs, rec).len() < NODES_PARAMS_CAP
                ==> records_text(*self, path, push_capped(recs, rec)) == path),
            spells_so_far(*self, path, advanced(st, next), push_capped(recs, rec)),
    {
        let off = st.absolute_offset as int;
        let n = record_piece(*self, path, rec).len();
        assert(path.take(off) + st.curr =~= path);
        assert(advanced(st, next).absolute_offset == off + n);
        assert(next.curr =~= path.skip(off + n));
        if recs.len() < NODES_PARAMS_CAP {
            let pushed = recs.push(rec);
            assert(pushed.drop_last() =~= recs);
            assert(records_text(*self, path, pushed) == records_text(*self, path, recs)
                + record_piece(*self, path, rec));
            assert(path.take(off + n) =~= path.take(off) + record_piece(*self, path, rec));
        }
    }

    /// Scanning the roots from `j` on keeps the records spelling what was matched, and where it
    /// finds a node that matches all of the path, they spell all of it.
    proof fn lemma_scan_roots_spell(&self, path: Seq<u8>, st: SearchView, recs: Seq<NodeParam>, j: int)
        requires
            path.len() <= IDENTIFIER_CAP,
            wildcards_well_placed(*self),
            spells_so_far(*self, path, st, recs),
        ensures
            ({
                let (step, next, pushed) = self.spec_scan_roots(st, recs, j, path.len() as u8);
                &&& step == SearchStep::Found ==> (pushed.len() < NODES_PARAMS_CAP ==> records_text(
                    *self,
                    path,
                    pushed,
                ) == path)
                &&& step != SearchStep::Found ==> spells_so_far(*self, path, next, pushed)
            }),
        decreases self.spec_root_len() - j,
    {
        assert(self.spec_nodes() == self.nodes@);
        assert(self.spec_root_len() == self.root_len);
        if 0 <= j < self.root_len && self.root_len <= self.nodes@.len() {
            let len = path.len() as u8;
            let st1 = with_begin(st, self.spec_edges_start(j));
            lemma_check_search_takes_piece(*self, path, st1, j as u8);
            let (r, next, range) = spec_check_search(st1, len, self.nodes@[j], j as u8);
            let rec = NodeParam { node_idx: j as u8, param_range: range };
            if r == Some(false) {
                self.lemma_scan_roots_spell(path, st1, recs, j + 1);
            } else {
                self.lemma_record_spells(path, st1, recs, rec, next);
            }
        }
    }

    /// Scanning the edges from `j` to `end` keeps the records spelling what was matched, and
    /// where it finds a node that matches all of the path, they spell all of it.
    proof fn lemma_scan_edges_spell(
        &self,
        path: Seq<u8>,
        st: SearchView,
        recs: Seq<NodeParam>,
        j: int,
        end: int,
    )
        requires
            path.len() <= IDENTIFIER_CAP,
            wildcards_well_placed(*self),
            spells_so_far(*self, path, st, recs),
        ensures
            ({
                let (step, next, pushed) = self.spec_scan_edges(st, recs, j, end, path.len() as u8);
                &&& step == SearchStep::Found ==> (pushed.len() < NODES_PARAMS_CAP ==> records_text(
                    *self,
                    path,
                    pushed,
                ) == path)
                &&& step != SearchStep::Found ==> spells_so_far(*self, path, next, pushed)
            }),
        decreases end - j,
    {
        assert(self.spec_nodes() == self.nodes@);
        if 0 <= j < end && end <= self.edges@.len() {
            let len = path.len() as u8;
            let target = self.edges@[j].node_target_idx;
            if target >= self.nodes@.len() {
                self.lemma_scan_edges_spell(path, st, recs, j + 1, end);
            } else {
                let st1 = with_begin(st, self.spec_edges_start(target as int));
                lemma_check_search_takes_piece(*self, path, st1, target);
                let (r, next, range) = spec_check_search(st1, len, self.nodes@[target as int], target);
                let rec = NodeParam { node_idx: target, param_range: range };
                if r == Some(false) {
                    self.lemma_scan_edges_spell(path, st1, recs, j + 1, end);
                } else {
                    self.lemma_record_spells(path, st1, recs, rec, next);
                }
            }
        }
    }

    /// A search from a state whose records spell what was matched succeeds only with records
    /// that spell all of the path.
    proof fn lemma_search_spells(&self, path: Seq<u8>, st: SearchView, recs: Seq<NodeParam>, rounds: nat)
        requires
            path.len() <= IDENTIFIER_CAP,
            wildcards_well_placed(*self),
            spells_so_far(*self, path, st, recs),
        ensures
            self.spec_search(st, recs, rounds, path.len() as u8) matches Some(found) ==> (found.len()
                < NODES_PARAMS_CAP ==> records_text(*self, path, found) == path),
        decreases self.spec_nodes().len() - rounds,
    {
        assert(self.spec_nodes() == self.nodes@);
        assert(self.spec_edges() == self.edges@);
        let len = path.len() as u8;
        if st.edges_range is Some && rounds < self.nodes@.len() {
            let range = st.edges_range->0;
            let st0 = SearchView {
                absolute_offset: st.absolute_offset,
                edges_range: None,
                curr: st.curr,
                edges_offset_begin: st.edges_offset_begin,
            };
            if range.start <= range.end && range.end <= self.edges@.len() {
                self.lemma_scan_edges_spell(path, st0, recs, range.start as int, range.end as int);
                let (step, next, pushed) = self.spec_scan_edges(
                    st0,
                    recs,
                    range.start as int,
                    range.end as int,
                    len,
                );
                if step != SearchStep::Found {
                    self.lemma_search_spells(path, next, pushed, rounds + 1);
                }
            } else {
                self.lemma_search_spells(path, st0, recs, rounds + 1);
            }
        }
    }

    /// Scanning the roots of a tree of literal nodes: a root is found where it holds all that is
    /// left of the path, and a root that holds a part of it leads to its own edges.
    proof fn lemma_scan_literal_roots(&self, st: SearchView, params: Seq<NodeParam>, j: int, len: u8)
        requires
            is_literal_tree(*self),
            0 <= j,
        ensures
            ({
                let (step, next, pushed) = self.spec_scan_roots(st, params, j, len);
                &&& step == SearchStep::Found ==> exists|k: int|
                    j <= k < self.nodes@.len() && k < self.root_len
                        && (#[trigger] self.nodes@[k]).identifier.spec_bytes() == st.curr && pushed
                        == push_capped(params, NodeParam { node_idx: k as u8, param_range: 0..0 })
                &&& step == SearchStep::Descend ==> exists|k: int|
                    j <= k < self.nodes@.len() && k < self.root_len
                        && (#[trigger] self.nodes@[k]).identifier.spec_bytes() + next.curr == st.curr
                        && next.edges_range == Some(self.spec_edges_start(k)..self.nodes@[k].edges_offset)
                        && pushed == push_capped(
                        params,
                        NodeParam { node_idx: k as u8, param_range: 0..0 },
                    )
                &&& step == SearchStep::Exhausted ==> next.edges_range == st.edges_range
                &&& step != SearchStep::Exhausted ==> self.root_len <= self.nodes@.len()
            }),
        decreases self.spec_root_len() - j,
    {
        if j < self.root_len && self.root_len <= self.nodes@.len() {
            let node = self.nodes@[j];
            assert(node == self.spec_nodes()[j]);
            let st1 = with_begin(st, self.spec_edges_start(j));
            let (r, next, range) = spec_check_search(st1, len, node, j as u8);
            let id = node.identifier.spec_bytes();
            match spec_split_at(st.curr, id.len() as int) {
                Some((lhs, rhs)) => {
                    assert(st.curr =~= lhs + rhs);
                },
                None => {},
            }
            if r == Some(false) {
                self.lemma_scan_literal_roots(st1, params, j + 1, len);
            }
        }
    }

    /// Scanning the edges from `j` to `end` in a tree of literal nodes: a target is found where
    /// it holds all that is left of the path, and a target that holds a part of it leads to its
    /// own edges; the scan ends with no edges to search otherwise.
    proof fn lemma_scan_literal_edges(
        &self,
        st: SearchView,
        params: Seq<NodeParam>,
        j: int,
        end: int,
        len: u8,
    )
        requires
            is_literal_tree(*self),
            st.edges_range is None,
            0 <= j,
        ensures
            ({
                let (step, next, pushed) = self.spec_scan_edges(st, params, j, end, len);
                &&& step == SearchStep::Found ==> exists|e: int|
                    j <= e < end && e < self.edges@.len() && (#[trigger] self.edges@[e]).node_target_idx
                        < self.nodes@.len() && self.nodes@[self.edges@[e].node_target_idx as int].identifier.spec_bytes()
                        == st.curr && pushed == push_capped(
                        params,
                        NodeParam { node_idx: self.edges@[e].node_target_idx, param_range: 0..0 },
                    )
                &&& step == SearchStep::Descend ==> exists|e: int|
                    j <= e < end && e < self.edges@.len() && (#[trigger] self.edges@[e]).node_target_idx
                        < self.nodes@.len() && self.nodes@[self.edges@[e].node_target_idx as int].identifier.spec_bytes()
                        + next.curr == st.curr && next.edges_range == Some(
                        self.spec_edges_start(self.edges@[e].node_target_idx as int)..self.nodes@[
                            self.edges@[e].node_target_idx as int
                        ].edges_offset,
                    ) && pushed == push_capped(
                        params,
                        NodeParam { node_idx: self.edges@[e].node_target_idx, param_range: 0..0 },
                    )
                &&& step == SearchStep::Exhausted ==> next.edges_range is None
            }),
        decreases end - j,
    {
        if j < end && end <= self.edges@.len() {
            let target = self.edges@[j].node_target_idx;
            if target < self.nodes@.len() {
                let node = self.nodes@[target as int];
                assert(node == self.spec_nodes()[target as int]);
                let st1 = with_begin(st, self.spec_edges_start(target as int));
                let (r, next, range) = spec_check_search(st1, len, node, target);
                let id = node.identifier.spec_bytes();
                match spec_split_at(st.curr, id.len() as int) {
                    Some((lhs, rhs)) => {
                        assert(st.curr =~= lhs + rhs);
                    },
                    None => {},
                }
                if r == Some(false) {
                    self.lemma_scan_literal_edges(st1, params, j + 1, end, len);
                }
            } else {
                self.lemma_scan_literal_edges(st, params, j + 1, end, len);
            }
        }
    }

    /// A search from a state reached along `path` in a tree of literal nodes succeeds only on the
    /// text of a longer path, with records that follow it.
    #[verifier::spinoff_prover]
    #[verifier::rlimit(60)]
    proof fn lemma_search_literal(
        &self,
        st: SearchView,
        params: Seq<NodeParam>,
        rounds: nat,
        len: u8,
        identifier: Seq<u8>,
        path: Seq<int>,
    )
        requires
            is_literal_tree(*self),
            is_route_path(*self, path),
            path_text(*self, path) + st.curr == identifier,
            st.edges_range == Some(self.spec_edges_start(path.last())..self.nodes@[path.last()].edges_offset),
            records_follow(params, path),
        ensures
            self.spec_search(st, params, rounds, len) matches Some(found) ==> found_on_path(
                *self,
                identifier,
                found,
            ),
        decreases self.spec_nodes().len() - rounds,
    {
        assert(self.spec_nodes() == self.nodes@);
        assert(self.spec_edges() == self.edges@);
        let range = st.edges_range->0;
        let last = path.last();
        assert(0 <= last < self.nodes@.len()) by {
            if path.len() > 1 {
                let i = path.len() - 2;
                assert(path[i + 1] == last);
            }
        }
        if rounds >= self.nodes@.len() {
            assert(self.spec_search(st, params, rounds, len) is None);
        }
        if rounds < self.nodes@.len() {
            let st0 = SearchView {
                absolute_offset: st.absolute_offset,
                edges_range: None,
                curr: st.curr,
                edges_offset_begin: st.edges_offset_begin,
            };
            if !(range.start <= range.end && range.end <= self.edges@.len()) {
                assert(self.spec_search(st0, params, rounds + 1, len) is None);
                assert(self.spec_search(st, params, rounds, len) is None);
            }
            if range.start <= range.end && range.end <= self.edges@.len() {
                let end = range.end as int;
                self.lemma_scan_literal_edges(st0, params, range.start as int, end, len);
                let (step, next, pushed) = self.spec_scan_edges(st0, params, range.start as int, end, len);
                assert(edges_begin(*self, last) == self.spec_edges_start(last));
                assert(self.spec_search(st, params, rounds, len) == if step == SearchStep::Found {
                    Some(pushed)
                } else {
                    self.spec_search(next, pushed, rounds + 1, len)
                });
                if step == SearchStep::Exhausted {
                    assert(self.spec_search(next, pushed, rounds + 1, len) is None);
                }
                if step == SearchStep::Found || step == SearchStep::Descend {
                    let e = choose|e: int|
                        range.start <= e < end && e < self.edges@.len() && (#[trigger] self.edges@[e]).node_target_idx
                            < self.nodes@.len() && (if step == SearchStep::Found {
                            self.nodes@[self.edges@[e].node_target_idx as int].identifier.spec_bytes()
                                == st0.curr
                        } else {
                            self.nodes@[self.edges@[e].node_target_idx as int].identifier.spec_bytes()
                                + next.curr == st0.curr && next.edges_range == Some(
                                self.spec_edges_start(self.edges@[e].node_target_idx as int)..self.nodes@[
                                    self.edges@[e].node_target_idx as int
                                ].edges_offset,
                            )
                        }) && pushed == push_capped(
                            params,
                            NodeParam { node_idx: self.edges@[e].node_target_idx, param_range: 0..0 },
                        );
                    let t = self.edges@[e].node_target_idx as int;
                    let p2 = path.push(t);
                    assert(self.spec_edges()[e] == self.edges@[e]);
                    assert(self.spec_nodes()[last] == self.nodes@[last]);
                    assert(has_edge_to(*self, last, t));
                    assert forall|i: int| 0 <= i < p2.len() - 1 implies 0 <= #[trigger] p2[i + 1]
                        < self.spec_nodes().len() && has_edge_to(*self, p2[i], p2[i + 1]) by {
                        if i < path.len() - 1 {
                            assert(p2[i + 1] == path[i + 1]);
                        }
                    }
                    assert(p2.drop_last() =~= path);
                    assert(p2[0] == path[0]);
                    assert(is_route_path(*self, p2));
                    assert(self.spec_nodes()[t] == self.nodes@[t]);
                    assert forall|i: int| 0 <= i < pushed.len() implies (pushed[i]).spec_node_idx()
                        == p2[i] by {
                        if i < params.len() {
                            assert(pushed[i] == params[i]);
                        }
                    }
                    assert(records_follow(pushed, p2));
                    assert(p2.last() == t);
                    if step == SearchStep::Found {
                        assert(path_text(*self, p2) =~= identifier);
                        assert(is_route_path(*self, p2) && path_text(*self, p2) == identifier
                            && records_follow(pushed, p2));
                        assert(found_on_path(*self, identifier, pushed));
                    } else {
                        assert(path_text(*self, p2) + next.curr =~= identifier);
                        self.lemma_search_literal(next, pushed, rounds + 1, len, identifier, p2);
                    }
                }
            }
        }
    }

    /// In a tree whose nodes a search can tell apart, the text of every path from a root along
    /// edges that ends at a node with a value, no longer than the records a search keeps and than
    /// the nodes of the tree, is found: the search follows that path.
    #[verifier::spinoff_prover]
    #[verifier::rlimit(60)]
    pub proof fn lemma_searchable_finds_paths(&self, path: Seq<int>)
        requires
            is_searchable_literal_tree(*self),
            is_route_path(*self, path),
            path.len() <= NODES_PARAMS_CAP,
            path.len() <= self.spec_nodes().len(),
            self.spec_nodes()[path.last()].spec_value() is Some,
        ensures
            self.spec_find(path_text(*self, path)) matches Some(params) && self.spec_path_ok(params)
                && records_follow(params, path),
    {
        assert(self.spec_nodes() == self.nodes@);
        assert(self.spec_edges() == self.edges@);
        assert(self.spec_root_len() == self.root_len);
        let identifier = path_text(*self, path);
        let len = identifier.len() as u8;
        let m = path.len() as int;
        let k = path[0];
        lemma_path_text_split(*self, path, 1);
        assert(path.take(1).drop_last() =~= Seq::<int>::empty());
        assert(path_text(*self, Seq::<int>::empty()) == Seq::<u8>::empty());
        assert(path_text(*self, path.take(1)) =~= self.nodes@[k].identifier.spec_bytes());
        let rest = path_text(*self, path.skip(1));
        if m > 1 {
            self.lemma_text_starts_with_node(path.skip(1));
            assert(path.skip(1)[0] == path[1]);
            assert(0 <= path[0int + 1] < self.spec_nodes().len());
        }
        let st = SearchView {
            absolute_offset: 0,
            edges_range: None,
            curr: identifier,
            edges_offset_begin: 0,
        };
        self.lemma_scan_roots_reaches(st, Seq::empty(), 0, k, rest, len);
        let (step, next, params) = self.spec_scan_roots(st, Seq::empty(), 0, len);
        let last = path.last();
        assert(0 <= last < self.nodes@.len()) by {
            if m > 1 {
                let i = m - 2;
                assert(path[i + 1] == last);
            }
        }
        if m == 1 {
            assert(path.skip(1) =~= Seq::<int>::empty());
            assert(rest =~= Seq::<u8>::empty());
            assert(self.spec_find(identifier) == Some(params));
            assert(params[0] == NodeParam { node_idx: k as u8, param_range: 0..0 });
            assert(records_follow(params, path));
        } else {
            assert(self.spec_find(identifier) == self.spec_search(next, params, 0, len));
            assert(path.take(1) =~= seq![k]);
            assert(records_follow(params, path.take(1)));
            self.lemma_search_follows(next, params, 0, path, len);
        }
    }

    /// The text of a path that is not empty begins with the identifier of its first node.
    proof fn lemma_text_starts_with_node(&self, path: Seq<int>)
        requires
            path.len() >= 1,
        ensures
            path_text(*self, path) == self.spec_nodes()[path[0]].spec_identifier().spec_bytes()
                + path_text(*self, path.skip(1)),
    {
        lemma_path_text_split(*self, path, 1);
        assert(path.take(1).drop_last() =~= Seq::<int>::empty());
        assert(path_text(*self, Seq::<int>::empty()) == Seq::<u8>::empty());
        assert(path_text(*self, path.take(1)) =~= self.spec_nodes()[path[0]].spec_identifier().spec_bytes());
    }

    /// Scanning the roots from `j` on, in a tree whose nodes a search can tell apart, for a path
    /// that begins with the identifier of root `k` ends at root `k`.
    #[verifier::spinoff_prover]
    #[verifier::rlimit(60)]
    proof fn lemma_scan_roots_reaches(
        &self,
        st: SearchView,
        params: Seq<NodeParam>,
        j: int,
        k: int,
        rest: Seq<u8>,
        len: u8,
    )
        requires
            is_searchable_literal_tree(*self),
            0 <= j <= k < self.root_len,
            st.curr == self.nodes@[k].identifier.spec_bytes() + rest,
            rest.len() > 0 ==> !(128 <= rest[0] < 192),
        ensures
            ({
                let (step, next, pushed) = self.spec_scan_roots(st, params, j, len);
                &&& pushed == push_capped(params, NodeParam { node_idx: k as u8, param_range: 0..0 })
                &&& rest.len() == 0 ==> step == SearchStep::Found
                &&& rest.len() > 0 ==> step == SearchStep::Descend && next.curr == rest
                    && next.edges_range == Some(self.spec_edges_start(k)..self.nodes@[k].edges_offset)
            }),
        decreases k - j,
    {
        assert(self.spec_nodes() == self.nodes@);
        assert(self.spec_root_len() == self.root_len);
        let node = self.nodes@[j];
        let id = node.identifier.spec_bytes();
        let kid = self.nodes@[k].identifier.spec_bytes();
        let st1 = with_begin(st, self.spec_edges_start(j));
        let (r, next, range) = spec_check_search(st1, len, node, j as u8);
        assert(st.curr[0] == kid[0]);
        if j == k {
            assert(st.curr.take(kid.len() as int) =~= kid);
            assert(st.curr.skip(kid.len() as int) =~= rest);
            if rest.len() > 0 {
                assert(st.curr[kid.len() as int] == rest[0]);
            }
            assert(spec_is_str_range(st.curr, 0, kid.len() as int));
        } else {
            lemma_apart_no_match(id, kid, rest);
            assert(r == Some(false));
            self.lemma_scan_roots_reaches(st1, params, j + 1, k, rest, len);
        }
    }

    /// Scanning the edges of node `p` from `j` on, in a tree whose nodes a search can tell apart,
    /// for a path that begins with the identifier of node `q`, which edge `e`, not before `j`,
    /// leads to, ends at `q`.
    #[verifier::spinoff_prover]
    #[verifier::rlimit(60)]
    proof fn lemma_scan_edges_reaches(
        &self,
        st: SearchView,
        params: Seq<NodeParam>,
        j: int,
        p: int,
        e: int,
        rest: Seq<u8>,
        len: u8,
    )
        requires
            is_searchable_literal_tree(*self),
            0 <= p < self.nodes@.len(),
            edges_begin(*self, p) <= j <= e < self.nodes@[p].edges_offset,
            st.curr == self.nodes@[self.edges@[e].node_target_idx as int].identifier.spec_bytes() + rest,
            rest.len() > 0 ==> !(128 <= rest[0] < 192),
        ensures
            ({
                let q = self.edges@[e].node_target_idx;
                let (step, next, pushed) = self.spec_scan_edges(
                    st,
                    params,
                    j,
                    self.nodes@[p].edges_offset as int,
                    len,
                );
                &&& pushed == push_capped(params, NodeParam { node_idx: q, param_range: 0..0 })
                &&& rest.len() == 0 ==> step == SearchStep::Found
                &&& rest.len() > 0 ==> step == SearchStep::Descend && next.curr == rest
                    && next.edges_range == Some(self.spec_edges_start(q as int)..self.nodes@[q as int].edges_offset)
            }),
        decreases e - j,
    {
        assert(self.spec_nodes() == self.nodes@);
        assert(self.spec_edges() == self.edges@);
        let end = self.nodes@[p].edges_offset as int;
        let q = self.edges@[e].node_target_idx;
        let u = self.edges@[j].node_target_idx;
        assert(self.spec_nodes()[p] == self.nodes@[p]);
        assert(self.spec_edges()[j] == self.edges@[j]);
        assert(self.spec_edges()[e] == self.edges@[e]);
        assert(u < self.nodes@.len());
        assert(q < self.nodes@.len());
        assert(end <= self.edges@.len());
        let node = self.nodes@[u as int];
        let id = node.identifier.spec_bytes();
        let qid = self.nodes@[q as int].identifier.spec_bytes();
        assert(self.spec_nodes()[q as int] == self.nodes@[q as int]);
        assert(self.spec_nodes()[u as int] == self.nodes@[u as int]);
        let st1 = with_begin(st, self.spec_edges_start(u as int));
        let (r, next, range) = spec_check_search(st1, len, node, u);
        assert(st.curr[0] == qid[0]);
        if u == q {
            assert(st.curr.take(qid.len() as int) =~= qid);
            assert(st.curr.skip(qid.len() as int) =~= rest);
            if rest.len() > 0 {
                assert(st.curr[qid.len() as int] == rest[0]);
            }
            assert(spec_is_str_range(st.curr, 0, qid.len() as int));
        } else {
            lemma_apart_no_match(id, qid, rest);
            assert(r == Some(false));
            self.lemma_scan_edges_reaches(st1, params, j + 1, p, e, rest, len);
        }
    }

    /// A search that matched the first `i + 1` nodes of `path`, in a tree whose nodes a search
    /// can tell apart, follows the rest of the path.
    #[verifier::spinoff_prover]
    #[verifier::rlimit(60)]
    proof fn lemma_search_follows(
        &self,
        st: SearchView,
        params: Seq<NodeParam>,
        i: int,
        path: Seq<int>,
        len: u8,
    )
        requires
            is_searchable_literal_tree(*self),
            is_route_path(*self, path),
            0 <= i < path.len() - 1,
            path.len() <= NODES_PARAMS_CAP,
            path.len() <= self.spec_nodes().len(),
            0 <= path[i] < self.spec_nodes().len(),
            st.curr == path_text(*self, path.skip(i + 1)),
            st.edges_range == Some(self.spec_edges_start(path[i])..self.nodes@[path[i]].edges_offset),
            records_follow(params, path.take(i + 1)),
        ensures
            self.spec_search(st, params, i as nat, len) matches Some(found) && records_follow(
                found,
                path,
            ),
        decreases path.len() - i,
    {
        assert(self.spec_nodes() == self.nodes@);
        assert(self.spec_edges() == self.edges@);
        let pi = path[i];
        let q = path[i + 1];
        assert(has_edge_to(*self, pi, q));
        let e = choose|e: int|
            edges_begin(*self, pi) <= e < self.spec_nodes()[pi].spec_edges_offset() && e
                < self.spec_edges().len() && (#[trigger] self.spec_edges()[e]).target() == q;
        assert(self.spec_nodes()[pi] == self.nodes@[pi]);
        assert(edges_begin(*self, pi) <= self.nodes@[pi].edges_offset <= self.edges@.len());
        assert(edges_begin(*self, pi) == self.spec_edges_start(pi));
        let sub = path.skip(i + 1);
        self.lemma_text_starts_with_node(sub);
        assert(sub[0] == q);
        let rest = path_text(*self, sub.skip(1));
        assert(sub.skip(1) =~= path.skip(i + 2));
        if i + 2 < path.len() {
            self.lemma_text_starts_with_node(path.skip(i + 2));
            assert(path.skip(i + 2)[0] == path[i + 2]);
            assert(0 <= path[(i + 1) + 1] < self.spec_nodes().len());
            assert(self.spec_nodes()[path[i + 2]] == self.nodes@[path[i + 2]]);
        } else {
            assert(path.skip(i + 2) =~= Seq::<int>::empty());
            assert(rest =~= Seq::<u8>::empty());
        }
        let st0 = SearchView {
            absolute_offset: st.absolute_offset,
            edges_range: None,
            curr: st.curr,
            edges_offset_begin: st.edges_offset_begin,
        };
        let end = self.nodes@[pi].edges_offset as int;
        self.lemma_scan_edges_reaches(st0, params, edges_begin(*self, pi), pi, e, rest, len);
        let (step, next, pushed) = self.spec_scan_edges(st0, params, edges_begin(*self, pi), end, len);
        let p2 = path.take(i + 2);
        assert(p2.len() == i + 2);
        assert forall|k: int| 0 <= k < pushed.len() implies (#[trigger] pushed[k]).spec_node_idx() == p2[k] by {
            if k < params.len() {
                assert(pushed[k] == params[k]);
                assert(p2[k] == path.take(i + 1)[k]);
            }
        }
        assert(records_follow(pushed, p2));
        if i + 2 == path.len() {
            assert(p2 =~= path);
            assert(self.spec_search(st, params, i as nat, len) == Some(pushed));
        } else {
            assert(self.spec_search(st, params, i as nat, len) == self.spec_search(
                next,
                pushed,
                (i + 1) as nat,
                len,
            ));
            assert(path.skip(i + 2) =~= path.skip((i + 1) + 1));
            self.lemma_search_follows(next, pushed, i + 1, path, len);
        }
    }

    /// In a tree of one node and no edges, a search succeeds exactly where comparing the path
    /// with that node matches all of it and the node holds a value; its one record is that of
    /// the comparison.
    pub proof fn lemma_single_node_find(&self, identifier: Seq<u8>)
        requires
            self.spec_root_len() == 1,
            self.spec_nodes().len() == 1,
            self.spec_edges().len() == 0,
        ensures
            ({
                let st = SearchView {
                    absolute_offset: 0,
                    edges_range: None,
                    curr: identifier,
                    edges_offset_begin: 0,
                };
                let (r, _, range) = spec_check_search(
                    st,
                    identifier.len() as u8,
                    self.spec_nodes()[0],
                    0,
                );
                &&& (self.spec_find(identifier) matches Some(params) && self.spec_path_ok(params))
                    <==> (r == Some(true) && self.spec_nodes()[0].spec_value() is Some)
                &&& r == Some(true) ==> (self.spec_find(identifier) matches Some(params)
                    && params.len() == 1 && params[0].spec_node_idx() == 0
                    && params[0].spec_param_range() == range)
            }),
    {
        assert(self.spec_nodes() == self.nodes@);
        assert(self.spec_edges() == self.edges@);
        let len = identifier.len() as u8;
        let st = SearchView {
            absolute_offset: 0,
            edges_range: None,
            curr: identifier,
            edges_offset_begin: 0,
        };
        assert(with_begin(st, self.spec_edges_start(0)) == st);
        let (r, next, range) = spec_check_search(st, len, self.nodes@[0], 0);
        let params = push_capped(Seq::empty(), NodeParam { node_idx: 0, param_range: range });
        if r == Some(false) {
            assert(self.spec_scan_roots(st, Seq::empty(), 1, len) == (SearchStep::Exhausted, st, Seq::<NodeParam>::empty()));
            assert(self.spec_find(identifier) is None);
        } else if r is None {
            let adv = advanced(st, next);
            assert(self.spec_scan_roots(st, Seq::empty(), 0, len) == (SearchStep::Descend, adv, params));
            let st0 = SearchView {
                absolute_offset: adv.absolute_offset,
                edges_range: None,
                curr: adv.curr,
                edges_offset_begin: adv.edges_offset_begin,
            };
            let rg = adv.edges_range->0;
            if rg.start <= rg.end && rg.end <= self.edges@.len() {
                assert(self.spec_scan_edges(st0, params, rg.start as int, rg.end as int, len) == (
                    SearchStep::Exhausted,
                    st0,
                    params,
                ));
            }
            assert(self.spec_search(st0, params, 1, len) is None);
            assert(self.spec_find(identifier) is None);
        } else {
            assert(self.spec_find(identifier) == Some(params));
        }
    }

    /// In a tree of one wildcard node with a value, whose wildcard begins where the text before
    /// it ends, a path is found exactly where it begins with that text, ending between two
    /// characters; the wildcard's value is then all the rest of the path.
    pub proof fn lemma_wildcard_root_takes_rest(&self, path: Seq<u8>)
        requires
            self.spec_root_len() == 1,
            self.spec_nodes().len() == 1,
            self.spec_edges().len() == 0,
            self.spec_nodes()[0].spec_value() is Some,
            self.spec_nodes()[0].spec_ty() matches NodeTy::Wildcard { begin_idx, .. }
                && spec_str_get(self.spec_nodes()[0].spec_identifier().spec_bytes(), 0, begin_idx as int) is Some,
            path.len() <= IDENTIFIER_CAP,
        ensures
            ({
                let id = self.spec_nodes()[0].spec_identifier().spec_bytes();
                let prefix = spec_comparing_name(id, self.spec_nodes()[0].spec_ty());
                &&& (self.spec_find(path) matches Some(params) && self.spec_path_ok(params)) <==> (
                prefix.len() <= path.len() && path.take(prefix.len() as int) == prefix
                    && spec_is_char_boundary(prefix.len() as int, path))
                &&& (self.spec_find(path) matches Some(params) && self.spec_path_ok(params)) ==> (
                self.spec_find(path) matches Some(params) && params.len() == 1
                    && params[0].spec_param_range() == ((prefix.len() as u8)..(path.len() as u8)))
            }),
    {
        self.lemma_single_node_find(path);
        let id = self.spec_nodes()[0].spec_identifier().spec_bytes();
        let prefix = spec_comparing_name(id, self.spec_nodes()[0].spec_ty());
        let st = SearchView { absolute_offset: 0, edges_range: None, curr: path, edges_offset_begin: 0 };
        let (r, _, range) = spec_check_search(st, path.len() as u8, self.spec_nodes()[0], 0);
        if prefix.len() <= path.len() && path.take(prefix.len() as int) == prefix
            && spec_is_char_boundary(prefix.len() as int, path) {
            assert(spec_is_str_range(path, 0, prefix.len() as int));
            assert(r == Some(true));
        }
        if r == Some(true) {
            assert(spec_is_str_range(path, 0, prefix.len() as int));
        }
    }

    /// In a tree of one parameter node with a value, whose parameter begins where the text
    /// before it ends and is followed by text that is not empty, a path made of the text before
    /// the parameter, a value `v` and the text after the parameter is found where that text
    /// occurs first right after `v` and the value begins and ends between two characters; the
    /// parameter's value is then `v`.
    pub proof fn lemma_param_root_takes_value(&self, v: Seq<u8>)
        requires
            self.spec_root_len() == 1,
            self.spec_nodes().len() == 1,
            self.spec_edges().len() == 0,
            self.spec_nodes()[0].spec_value() is Some,
            self.spec_nodes()[0].spec_ty() is Param,
            node_suffix(self.spec_nodes()[0]).len() > 0,
            ({
                let node = self.spec_nodes()[0];
                let prefix = spec_comparing_name(node.spec_identifier().spec_bytes(), node.spec_ty());
                let tail = node_suffix(node);
                let path = prefix + v + tail;
                &&& path.len() <= IDENTIFIER_CAP
                &&& first_occurrence(v + tail, tail, 0) == Some(v.len() as int)
                &&& spec_is_char_boundary(prefix.len() as int, path)
                &&& spec_is_char_boundary((prefix.len() + v.len()) as int, path)
            }),
        ensures
            ({
                let node = self.spec_nodes()[0];
                let prefix = spec_comparing_name(node.spec_identifier().spec_bytes(), node.spec_ty());
                let path = prefix + v + node_suffix(node);
                self.spec_find(path) matches Some(params) && self.spec_path_ok(params) && params.len()
                    == 1 && params[0].spec_param_range() == ((prefix.len() as u8)..((prefix.len()
                    + v.len()) as u8)) && path.subrange(
                    params[0].spec_param_range().start as int,
                    params[0].spec_param_range().end as int,
                ) == v
            }),
    {
        let node = self.spec_nodes()[0];
        let prefix = spec_comparing_name(node.spec_identifier().spec_bytes(), node.spec_ty());
        let tail = node_suffix(node);
        let path = prefix + v + tail;
        self.lemma_single_node_find(path);
        let rhs = v + tail;
        assert(path.take(prefix.len() as int) =~= prefix);
        assert(path.skip(prefix.len() as int) =~= rhs);
        assert(spec_is_str_range(path, 0, prefix.len() as int));
        assert(rhs.take(v.len() as int) =~= v);
        assert(rhs.skip((v.len() + tail.len()) as int) =~= Seq::<u8>::empty());
        assert(spec_is_char_boundary(v.len() as int, rhs));
        assert(spec_is_str_range(rhs, 0, v.len() as int));
        assert(spec_is_str_range(rhs, (v.len() + tail.len()) as int, rhs.len() as int));
        assert(path.subrange(prefix.len() as int, (prefix.len() + v.len()) as int) =~= v);
    }

    /// A tree without nodes finds nothing.
    pub proof fn lemma_empty_finds_nothing(&self, identifier: Seq<u8>)
        requires
            self.spec_nodes().len() == 0,
        ensures
            self.spec_find(identifier) is None,
    {
        let st = SearchView {
            absolute_offset: 0,
            edges_range: None,
            curr: identifier,
            edges_offset_begin: 0,
        };
        assert(self.spec_scan_roots(st, Seq::empty(), 0, identifier.len() as u8).0
            == SearchStep::Exhausted);
    }

    /// A route held by the only node of a tree, a literal root with a value, is found again:
    /// the search ends at that node.
    pub proof fn lemma_single_route_is_found(&self, identifier: Seq<u8>)
        requires
            self.spec_root_len() == 1,
            self.spec_nodes().len() == 1,
            self.spec_nodes()[0].spec_identifier().spec_bytes() == identifier,
            self.spec_nodes()[0].spec_ty() == NodeTy::Literal,
            self.spec_nodes()[0].spec_value() is Some,
        ensures
            self.spec_find(identifier) matches Some(params) && self.spec_path_ok(params)
                && params.len() == 1 && params[0].spec_node_idx() == 0,
    {
        let st = SearchView {
            absolute_offset: 0,
            edges_range: None,
            curr: identifier,
            edges_offset_begin: 0,
        };
        assert(identifier.take(identifier.len() as int) == identifier);
        assert(identifier.skip(identifier.len() as int).len() == 0);
        let checked = spec_check_search(st, identifier.len() as u8, self.nodes@[0], 0);
        assert(checked.0 == Some(true));
        assert(self.spec_scan_roots(st, Seq::empty(), 0, identifier.len() as u8).0
            == SearchStep::Found);
    }

    /// In a tree of literal roots whose routes start with distinct bytes, the route of any root
    /// is found again: the search ends at that root, which holds a value.
    pub proof fn lemma_flat_route_is_found(&self, k: int)
        requires
            is_flat_literal_tree(*self),
            0 <= k < self.spec_nodes().len(),
        ensures
            ({
                let identifier = self.spec_nodes()[k].spec_identifier().spec_bytes();
                self.spec_find(identifier) matches Some(params) && self.spec_path_ok(params)
                    && params.len() == 1 && params[0].spec_node_idx() == k
            }),
    {
        let identifier = self.nodes@[k].identifier.spec_bytes();
        let st = SearchView {
            absolute_offset: 0,
            edges_range: None,
            curr: identifier,
            edges_offset_begin: 0,
        };
        self.lemma_scan_flat_roots(st, 0, k);
    }

    /// Adding a literal route that starts with a byte no root starts with to a tree of literal
    /// roots (the tree `self` becomes `next`, as [`RadixTreeBuilder::node`] states it): the new
    /// route is found with its value, and every route of `self` is still found, at its node.
    pub proof fn lemma_added_route_is_found(&self, next: &Self, identifier: Seq<u8>, value: T)
        requires
            extends_flat_literal_tree(*self, identifier),
            is_flat_literal_tree(*next),
            next.spec_nodes().drop_last() == self.spec_nodes(),
            next.spec_nodes().len() == self.spec_nodes().len() + 1,
            next.spec_nodes().last().spec_identifier().spec_bytes() == identifier,
            next.spec_nodes().last().spec_value() == Some(value),
        ensures
            next.spec_find(identifier) matches Some(params) && next.spec_path_ok(params)
                && params.last().spec_node_idx() == self.spec_nodes().len()
                && next.spec_nodes()[params.last().spec_node_idx() as int].spec_value() == Some(
                value,
            ),
            forall|k: int|
                0 <= k < self.spec_nodes().len() ==> ((#[trigger] next.spec_find(
                    self.spec_nodes()[k].spec_identifier().spec_bytes(),
                )) matches Some(params) && next.spec_path_ok(params)
                    && params.last().spec_node_idx() == k),
    {
        next.lemma_flat_route_is_found(self.spec_nodes().len() as int);
        assert forall|k: int| 0 <= k < self.spec_nodes().len() implies ((#[trigger] next.spec_find(
            self.spec_nodes()[k].spec_identifier().spec_bytes(),
        )) matches Some(params) && next.spec_path_ok(params) && params.last().spec_node_idx()
            == k) by {
            assert(next.spec_nodes()[k] == self.spec_nodes()[k]);
            next.lemma_flat_route_is_found(k);
        }
    }

    /// In a tree of literal roots whose routes start with distinct bytes, scanning the roots from
    /// `j` on for the route of root `k`, with `j <= k`, ends at root `k`.
    proof fn lemma_scan_flat_roots(&self, st: SearchView, j: int, k: int)
        requires
            is_flat_literal_tree(*self),
            0 <= j <= k < self.nodes@.len(),
            st.curr == self.nodes@[k].identifier.spec_bytes(),
        ensures
            ({
                let (step, _, params) = self.spec_scan_roots(
                    st,
                    Seq::empty(),
                    j,
                    st.curr.len() as u8,
                );
                step == SearchStep::Found && params.len() == 1 && params[0].node_idx == k
            }),
        decreases k - j,
    {
        let identifier = st.curr;
        let node = self.nodes@[j];
        let name = node.identifier.spec_bytes();
        assert(self.nodes@[j] == self.spec_nodes()[j]);
        assert(self.nodes@[k] == self.spec_nodes()[k]);
        if j == k {
            assert(identifier.take(identifier.len() as int) == identifier);
            assert(identifier.skip(identifier.len() as int).len() == 0);
            let checked = spec_check_search(with_begin(st, self.spec_edges_start(j)), identifier.len() as u8, node, j as u8);
            assert(checked.0 == Some(true));
        } else {
            assert(name[0] != identifier[0]);
            let checked = spec_check_search(with_begin(st, self.spec_edges_start(j)), identifier.len() as u8, node, j as u8);
            match spec_split_at(identifier, name.len() as int) {
                None => {},
                Some((lhs, rhs)) => {
                    assert(lhs[0] == identifier[0]);
                    assert(lhs != name);
                },
            }
            assert(checked.0 == Some(false));
            self.lemma_scan_flat_roots(with_begin(st, self.spec_edges_start(j)), j + 1, k);
        }
    }

    /// In a tree of one literal root with literal leaves, the route of the root is found: the
    /// search ends at the root.
    pub proof fn lemma_star_root_is_found(&self)
        requires
            is_star_literal_tree(*self),
        ensures
            ({
                let identifier = self.spec_nodes()[0].spec_identifier().spec_bytes();
                self.spec_find(identifier) matches Some(params) && params.len() == 1
                    && params[0].spec_node_idx() == 0
            }),
    {
        let identifier = self.nodes@[0].identifier.spec_bytes();
        let st = SearchView {
            absolute_offset: 0,
            edges_range: None,
            curr: identifier,
            edges_offset_begin: 0,
        };
        assert(self.nodes@[0] == self.spec_nodes()[0]);
        assert(identifier.take(identifier.len() as int) == identifier);
        assert(identifier.skip(identifier.len() as int).len() == 0);
        let checked = spec_check_search(st, identifier.len() as u8, self.nodes@[0], 0);
        assert(checked.0 == Some(true));
    }

    /// In a tree of one literal root with literal leaves, the route of each leaf, the identifier
    /// of the root followed by that of the leaf, is found: the search ends at the leaf, which
    /// holds a value.
    pub proof fn lemma_star_route_is_found(&self, k: int)
        requires
            is_star_literal_tree(*self),
            1 <= k <= self.spec_edges().len(),
        ensures
            ({
                let identifier = self.spec_nodes()[0].spec_identifier().spec_bytes()
                    + self.spec_nodes()[k].spec_identifier().spec_bytes();
                self.spec_find(identifier) matches Some(params) && self.spec_path_ok(params)
                    && params.len() == 2 && params[0].spec_node_idx() == 0
                    && params.last().spec_node_idx() == k
            }),
    {
        let root = self.nodes@[0].identifier.spec_bytes();
        let leaf = self.nodes@[k].identifier.spec_bytes();
        let identifier = root + leaf;
        let len = identifier.len() as u8;
        assert(self.nodes@[0] == self.spec_nodes()[0]);
        assert(self.nodes@[k] == self.spec_nodes()[k]);
        let st = SearchView {
            absolute_offset: 0,
            edges_range: None,
            curr: identifier,
            edges_offset_begin: 0,
        };
        assert(identifier[root.len() as int] == leaf[0]);
        assert(identifier.take(root.len() as int) =~= root);
        assert(identifier.skip(root.len() as int) =~= leaf);
        let (r, next, range) = spec_check_search(st, len, self.nodes@[0], 0);
        assert(r is None);
        assert(next.curr == leaf);
        let n = self.edges@.len();
        assert(next.edges_range == Some(0u8..(n as u8)));
        let params = push_capped(Seq::empty(), NodeParam { node_idx: 0, param_range: range });
        assert(params.len() == 1);
        let adv = advanced(st, next);
        assert(self.spec_scan_roots(st, Seq::empty(), 0, len) == (SearchStep::Descend, adv, params));
        let st0 = SearchView {
            absolute_offset: adv.absolute_offset,
            edges_range: None,
            curr: adv.curr,
            edges_offset_begin: adv.edges_offset_begin,
        };
        let jk = choose|j: int| 0 <= j < n && (#[trigger] self.spec_edges()[j]).target() == k;
        self.lemma_scan_star_edges(st0, params, 0, k, jk, len);
        let (step, _, pushed) = self.spec_scan_edges(st0, params, 0, n as int, len);
        assert(step == SearchStep::Found);
        assert(self.spec_search(adv, params, 0, len) == Some(pushed));
        assert(self.spec_find(identifier) == Some(pushed));
        assert(pushed[0] == pushed.drop_last()[0]);
        assert(self.nodes@[pushed.last().node_idx as int].value is Some);
    }

    /// Adding to a tree of one literal root with literal leaves a literal route that continues
    /// the root with a byte no leaf begins with (the tree `self` becomes `next`, as
    /// [`RadixTreeBuilder::node`] states it): the new route is found with its value, the route of
    /// every leaf of `self` is still found with its value, and so is the route of the root.
    pub proof fn lemma_star_added_route_is_found(&self, next: &Self, identifier: Seq<u8>, value: T)
        requires
            extends_star_literal_tree(*self, identifier),
            is_star_literal_tree(*next),
            next.spec_nodes().len() == self.spec_nodes().len() + 1,
            next.spec_nodes()[0].spec_identifier() == self.spec_nodes()[0].spec_identifier(),
            next.spec_nodes()[0].spec_value() == self.spec_nodes()[0].spec_value(),
            next.spec_nodes()[1].spec_identifier().spec_bytes() == identifier.skip(
                self.spec_nodes()[0].spec_identifier().spec_bytes().len() as int,
            ),
            next.spec_nodes()[1].spec_value() == Some(value),
            forall|k: int|
                1 <= k < self.spec_nodes().len() ==> next.spec_nodes()[k + 1].spec_identifier() == (
                #[trigger] self.spec_nodes()[k]).spec_identifier() && next.spec_nodes()[k
                    + 1].spec_value() == self.spec_nodes()[k].spec_value(),
        ensures
            next.spec_find(identifier) matches Some(params) && next.spec_path_ok(params)
                && next.spec_nodes()[params.last().spec_node_idx() as int].spec_value() == Some(
                value,
            ),
            forall|k: int|
                1 <= k < self.spec_nodes().len() ==> ((#[trigger] next.spec_find(
                    self.spec_nodes()[0].spec_identifier().spec_bytes() + self.spec_nodes()[
                        k
                    ].spec_identifier().spec_bytes(),
                )) matches Some(params) && next.spec_path_ok(params) && next.spec_nodes()[
                    params.last().spec_node_idx() as int
                ].spec_value() == self.spec_nodes()[k].spec_value()),
            next.spec_find(self.spec_nodes()[0].spec_identifier().spec_bytes()) matches Some(
                params,
            ) && params.len() == 1 && params[0].spec_node_idx() == 0,
    {
        let root = self.spec_nodes()[0].spec_identifier().spec_bytes();
        assert(identifier =~= root + identifier.skip(root.len() as int));
        next.lemma_star_route_is_found(1);
        assert forall|k: int| 1 <= k < self.spec_nodes().len() implies ((#[trigger] next.spec_find(
            root + self.spec_nodes()[k].spec_identifier().spec_bytes(),
        )) matches Some(params) && next.spec_path_ok(params) && next.spec_nodes()[
            params.last().spec_node_idx() as int
        ].spec_value() == self.spec_nodes()[k].spec_value()) by {
            next.lemma_star_route_is_found(k + 1);
        }
        next.lemma_star_root_is_found();
    }

    /// Adding to a tree of one literal root a literal route that shares a part of it splits the
    /// root (the tree `self` becomes `next`, as [`RadixTreeBuilder::node`] states it): the new
    /// route is found with its value, the old route is still found with its value, and the
    /// shared part, which holds no value, is not found.
    pub proof fn lemma_split_route_is_found(&self, next: &Self, identifier: Seq<u8>, value: T)
        requires
            splits_single_literal_root(*self, identifier),
            is_star_literal_tree(*next),
            next.spec_nodes().len() == 3,
            next.spec_nodes()[0].spec_identifier().spec_bytes() == identifier.take(
                spec_common_prefix_len(identifier, self.spec_nodes()[0].spec_identifier().spec_bytes()),
            ),
            next.spec_nodes()[0].spec_value() is None,
            next.spec_nodes()[1].spec_identifier().spec_bytes() == identifier.skip(
                spec_common_prefix_len(identifier, self.spec_nodes()[0].spec_identifier().spec_bytes()),
            ),
            next.spec_nodes()[1].spec_value() == Some(value),
            next.spec_nodes()[2].spec_identifier().spec_bytes() == self.spec_nodes()[0].spec_identifier().spec_bytes().skip(
                spec_common_prefix_len(identifier, self.spec_nodes()[0].spec_identifier().spec_bytes()),
            ),
            next.spec_nodes()[2].spec_value() == self.spec_nodes()[0].spec_value(),
        ensures
            next.spec_find(identifier) matches Some(params) && next.spec_path_ok(params)
                && next.spec_nodes()[params.last().spec_node_idx() as int].spec_value() == Some(
                value,
            ),
            next.spec_find(self.spec_nodes()[0].spec_identifier().spec_bytes()) matches Some(params)
                && next.spec_path_ok(params) && next.spec_nodes()[params.last().spec_node_idx() as int].spec_value()
                == self.spec_nodes()[0].spec_value(),
            !(next.spec_find(next.spec_nodes()[0].spec_identifier().spec_bytes()) matches Some(params)
                && next.spec_path_ok(params)),
    {
        let a = self.spec_nodes()[0].spec_identifier().spec_bytes();
        let p = spec_common_prefix_len(identifier, a);
        assert(identifier.take(0) =~= a.take(0));
        lemma_common_prefix_from_is_common(identifier, a, 0);
        assert(identifier =~= identifier.take(p) + identifier.skip(p));
        assert(a =~= a.take(p) + a.skip(p));
        next.lemma_star_route_is_found(1);
        next.lemma_star_route_is_found(2);
        next.lemma_star_root_is_found();
    }

    /// In a tree of literal roots whose routes start with distinct bytes, a search succeeds only
    /// on the route of a root.
    pub proof fn lemma_flat_finds_only_routes(&self, identifier: Seq<u8>)
        requires
            is_flat_literal_tree(*self),
        ensures
            (self.spec_find(identifier) matches Some(params) && self.spec_path_ok(params)) ==> exists|
                k: int,
            |
                0 <= k < self.spec_nodes().len() && identifier == (
                #[trigger] self.spec_nodes()[k]).spec_identifier().spec_bytes(),
    {
        let len = identifier.len() as u8;
        let st = SearchView {
            absolute_offset: 0,
            edges_range: None,
            curr: identifier,
            edges_offset_begin: 0,
        };
        self.lemma_scan_flat_roots_outcome(st, Seq::empty(), 0, len);
        let (step, next, params) = self.spec_scan_roots(st, Seq::empty(), 0, len);
        if step == SearchStep::Descend {
            let st1 = SearchView {
                absolute_offset: next.absolute_offset,
                edges_range: None,
                curr: next.curr,
                edges_offset_begin: next.edges_offset_begin,
            };
            assert(self.spec_scan_edges(st1, params, 0, 0, len) == (SearchStep::Exhausted, st1, params));
            assert(self.spec_search(st1, params, 1, len) is None);
            assert(self.spec_search(next, params, 0, len) is None);
        }
    }

    /// In a tree of literal roots whose routes start with distinct bytes, scanning the roots from
    /// `j` on: a root is found only where it holds all of the path, and a root that holds a part
    /// of it has no edges to search next.
    proof fn lemma_scan_flat_roots_outcome(&self, st: SearchView, params: Seq<NodeParam>, j: int, len: u8)
        requires
            is_flat_literal_tree(*self),
            st.edges_offset_begin == 0,
            st.edges_range is None,
            0 <= j <= self.nodes@.len(),
        ensures
            ({
                let (step, next, pushed) = self.spec_scan_roots(st, params, j, len);
                &&& step == SearchStep::Found ==> exists|k: int|
                    j <= k < self.nodes@.len() && st.curr == (
                    #[trigger] self.spec_nodes()[k]).spec_identifier().spec_bytes()
                &&& step == SearchStep::Descend ==> next.edges_range == Some(0u8..0u8)
                &&& step == SearchStep::Exhausted ==> next == st
            }),
        decreases self.nodes@.len() - j,
    {
        if j < self.nodes@.len() {
            let node = self.nodes@[j];
            assert(node == self.spec_nodes()[j]);
            let (r, next, range) = spec_check_search(st, len, node, j as u8);
            if r == Some(true) {
                match spec_split_at(st.curr, node.identifier.spec_bytes().len() as int) {
                    Some((lhs, rhs)) => {
                        assert(st.curr =~= lhs + rhs);
                    },
                    None => {},
                }
                assert(st.curr == self.spec_nodes()[j].spec_identifier().spec_bytes());
            } else if r == Some(false) {
                self.lemma_scan_flat_roots_outcome(st, params, j + 1, len);
            }
        }
    }

    /// In a tree of one literal root with literal leaves, a search succeeds only on the routes
    /// of the tree: the identifier of the root, where the root holds a value, or that of the
    /// root followed by that of a leaf.
    pub proof fn lemma_star_finds_only_routes(&self, identifier: Seq<u8>)
        requires
            is_star_literal_tree(*self),
        ensures
            (self.spec_find(identifier) matches Some(params) && self.spec_path_ok(params)) ==> {
                let root = self.spec_nodes()[0].spec_identifier().spec_bytes();
                ||| identifier == root && self.spec_nodes()[0].spec_value() is Some
                ||| exists|k: int|
                    1 <= k <= self.spec_edges().len() && identifier == root + (
                    #[trigger] self.spec_nodes()[k]).spec_identifier().spec_bytes()
            },
    {
        let root = self.nodes@[0].identifier.spec_bytes();
        let n = self.edges@.len() as int;
        let len = identifier.len() as u8;
        assert(self.nodes@[0] == self.spec_nodes()[0]);
        let st = SearchView {
            absolute_offset: 0,
            edges_range: None,
            curr: identifier,
            edges_offset_begin: 0,
        };
        let (r, next, range) = spec_check_search(st, len, self.nodes@[0], 0);
        let params = push_capped(Seq::empty(), NodeParam { node_idx: 0, param_range: range });
        if r == Some(false) {
            assert(self.spec_scan_roots(st, Seq::empty(), 1, len) == (SearchStep::Exhausted, st, Seq::<NodeParam>::empty()));
            assert(self.spec_find(identifier) is None);
        } else if r == Some(true) {
            match spec_split_at(identifier, root.len() as int) {
                Some((lhs, rhs)) => {
                    assert(identifier =~= lhs + rhs);
                },
                None => {},
            }
            assert(self.spec_find(identifier) == Some(params));
        } else {
            let adv = advanced(st, next);
            assert(self.spec_scan_roots(st, Seq::empty(), 0, len) == (SearchStep::Descend, adv, params));
            match spec_split_at(identifier, root.len() as int) {
                Some((lhs, rhs)) => {
                    assert(identifier =~= lhs + rhs);
                },
                None => {},
            }
            assert(next.edges_range == Some(0u8..(n as u8)));
            let st0 = SearchView {
                absolute_offset: adv.absolute_offset,
                edges_range: None,
                curr: adv.curr,
                edges_offset_begin: adv.edges_offset_begin,
            };
            assert(st0.edges_offset_begin == n);
            self.lemma_scan_star_edges_outcome(st0, params, 0, len);
            let (step, after, pushed) = self.spec_scan_edges(st0, params, 0, n, len);
            if step == SearchStep::Descend {
                let st1 = SearchView {
                    absolute_offset: after.absolute_offset,
                    edges_range: None,
                    curr: after.curr,
                    edges_offset_begin: after.edges_offset_begin,
                };
                assert(self.spec_scan_edges(st1, pushed, n, n, len) == (SearchStep::Exhausted, st1, pushed));
                assert(self.spec_search(st1, pushed, 2, len) is None);
                assert(self.spec_search(after, pushed, 1, len) is None);
            } else if step == SearchStep::Exhausted {
                assert(self.spec_search(after, pushed, 1, len) is None);
            }
            assert(self.spec_search(adv, params, 0, len) == if step == SearchStep::Found {
                Some(pushed)
            } else {
                self.spec_search(after, pushed, 1, len)
            });
        }
    }

    /// In a tree of one literal root with literal leaves, scanning the edges from `j` on, after
    /// the root matched: a leaf is found only where it holds all that is left of the path, and
    /// a leaf that holds a part of it has no edges to search next.
    proof fn lemma_scan_star_edges_outcome(&self, st: SearchView, params: Seq<NodeParam>, j: int, len: u8)
        requires
            is_star_literal_tree(*self),
            st.edges_offset_begin == self.edges@.len(),
            st.edges_range is None,
            0 <= j <= self.edges@.len(),
        ensures
            ({
                let n = self.edges@.len() as int;
                let (step, next, pushed) = self.spec_scan_edges(st, params, j, n, len);
                &&& step == SearchStep::Found ==> exists|k: int|
                    1 <= k <= n && st.curr == (#[trigger] self.spec_nodes()[k]).spec_identifier().spec_bytes()
                        && pushed == push_capped(params, NodeParam { node_idx: k as u8, param_range: 0..0 })
                &&& step == SearchStep::Descend ==> next.edges_range == Some((n as u8)..(n as u8))
                &&& step == SearchStep::Exhausted ==> next == st && pushed == params
            }),
        decreases self.edges@.len() - j,
    {
        let n = self.edges@.len() as int;
        if j < n {
            let target = self.edges@[j].node_target_idx;
            assert(self.spec_edges()[j] == self.edges@[j]);
            assert(1 <= target <= n);
            let node = self.nodes@[target as int];
            assert(node == self.spec_nodes()[target as int]);
            let (r, next, range) = spec_check_search(st, len, node, target);
            if r == Some(true) {
                match spec_split_at(st.curr, node.identifier.spec_bytes().len() as int) {
                    Some((lhs, rhs)) => {
                        assert(st.curr =~= lhs + rhs);
                    },
                    None => {},
                }
                assert(st.curr == self.spec_nodes()[target as int].spec_identifier().spec_bytes());
            } else if r == Some(false) {
                self.lemma_scan_star_edges_outcome(st, params, j + 1, len);
            }
        }
    }

    /// In a tree of one literal root with literal leaves, scanning the edges from `j` on for the
    /// identifier of leaf `k`, where edge `jk`, not before `j`, leads to `k`, ends at `k`.
    proof fn lemma_scan_star_edges(
        &self,
        st: SearchView,
        params: Seq<NodeParam>,
        j: int,
        k: int,
        jk: int,
        len: u8,
    )
        requires
            is_star_literal_tree(*self),
            1 <= k <= self.edges@.len(),
            0 <= j <= jk < self.edges@.len(),
            self.edges@[jk].target() == k,
            st.curr == self.nodes@[k].identifier.spec_bytes(),
            params.len() < NODES_PARAMS_CAP,
        ensures
            ({
                let (step, _, pushed) = self.spec_scan_edges(
                    st,
                    params,
                    j,
                    self.edges@.len() as int,
                    len,
                );
                step == SearchStep::Found && pushed.len() == params.len() + 1
                    && pushed.last().node_idx == k && pushed.drop_last() == params
            }),
        decreases jk - j,
    {
        let n = self.edges@.len() as int;
        let target = self.edges@[j].node_target_idx;
        assert(self.spec_edges()[j] == self.edges@[j]);
        assert(1 <= target <= n);
        let node = self.nodes@[target as int];
        assert(node == self.spec_nodes()[target as int]);
        assert(self.nodes@[k] == self.spec_nodes()[k]);
        let leaf = st.curr;
        let name = node.identifier.spec_bytes();
        let st1 = with_begin(st, self.spec_edges_start(target as int));
        let (r, next, range) = spec_check_search(st1, len, node, target);
        let pushed = push_capped(params, NodeParam { node_idx: target, param_range: range });
        assert(pushed.drop_last() =~= params);
        if target == k {
            assert(leaf.take(leaf.len() as int) == leaf);
            assert(leaf.skip(leaf.len() as int).len() == 0);
            assert(r == Some(true));
        } else {
            assert(name[0] != leaf[0]);
            match spec_split_at(leaf, name.len() as int) {
                None => {},
                Some((lhs, rhs)) => {
                    assert(lhs[0] == leaf[0]);
                    assert(lhs != name);
                },
            }
            assert(r == Some(false));
            assert(j != jk);
            self.lemma_scan_star_edges(st1, params, j + 1, k, jk, len);
        }
    }

    /// Tries to find a path that corresponds to `identifier`.
    pub fn find<'a>(&'a self, identifier: &'a str) -> (r: Result<RadixTreePath<'a, T>, Error>)
        ensures
            identifier.spec_bytes().len() > IDENTIFIER_CAP ==> r == Err::<RadixTreePath<'a, T>, Error>(
                Error::OutOfBoundsArithmetic,
            ),
            identifier.spec_bytes().len() <= IDENTIFIER_CAP ==> match self.spec_find(
                identifier.spec_bytes(),
            ) {
                Some(params) => if self.spec_path_ok(params) {
                    r matches Ok(path) && path.wf() && path.spec_identifier() == identifier
                        && path.spec_nodes() == self.spec_nodes() && path.spec_records() == params
                } else {
                    r == Err::<RadixTreePath<'a, T>, Error>(
                        Error::RadixTreeError(RadixTreeError::UnknownMatchingRoute),
                    )
                },
                None => r == Err::<RadixTreePath<'a, T>, Error>(
                    Error::RadixTreeError(RadixTreeError::UnknownMatchingRoute),
                ),
            },
    {
        let identifier_len_usize = identifier.as_bytes().len();
        if identifier_len_usize > IDENTIFIER_CAP {
            return Err(Error::OutOfBoundsArithmetic);
        }
        let identifier_len = identifier_len_usize as u8;
        let mut state = SearchState {
            absolute_offset: 0,
            curr_edges_range: None,
            curr_identifier: identifier,
            edges_offset_begin: 0,
        };
        let ghost st0 = state.view();
        let ghost goal = self.spec_find(identifier.spec_bytes());
        let mut nodes_params: Vec<NodeParam> = Vec::new();
        let step = self.scan_roots(&mut state, &mut nodes_params, identifier_len, Ghost(identifier));
        if step == SearchStep::Found {
            return self.path_or_err(identifier, nodes_params);
        }
        let nodes_len = self.nodes.len();
        let mut rounds: usize = 0;
        loop
            invariant
                nodes_len == self.nodes@.len(),
                rounds <= nodes_len,
                nodes_params@.len() <= NODES_PARAMS_CAP,
                identifier.spec_bytes().len() <= IDENTIFIER_CAP,
                identifier_len == identifier.spec_bytes().len(),
                state.curr_identifier.spec_bytes().len() <= identifier.spec_bytes().len(),
                goal == self.spec_find(identifier.spec_bytes()),
                goal == self.spec_search(state.view(), nodes_params@, rounds as nat, identifier_len),
            decreases nodes_len - rounds,
        {
            let curr_edges_range = match state.curr_edges_range.take() {
                Some(elem) => elem,
                None => return Err(Error::RadixTreeError(RadixTreeError::UnknownMatchingRoute)),
            };
            if rounds >= nodes_len {
                return Err(Error::RadixTreeError(RadixTreeError::UnknownMatchingRoute));
            }
            rounds = rounds + 1;
            let begin = curr_edges_range.start as usize;
            let end = curr_edges_range.end as usize;
            if begin <= end && end <= self.edges.len() {
                let step = self.scan_edges(
                    &mut state,
                    &mut nodes_params,
                    begin,
                    end,
                    identifier_len,
                    Ghost(identifier),
                );
                if step == SearchStep::Found {
                    return self.path_or_err(identifier, nodes_params);
                }
            }
        }
    }

    /// Compares the roots with the path, in order, until one matches.
    fn scan_roots<'a>(
        &self,
        state: &mut SearchState<'a>,
        nodes_params: &mut Vec<NodeParam>,
        identifier_len: u8,
        Ghost(identifier): Ghost<&'a str>,
    ) -> (r: SearchStep)
        requires
            old(nodes_params)@.len() <= NODES_PARAMS_CAP,
            identifier.spec_bytes().len() <= IDENTIFIER_CAP,
            old(state).curr_identifier.spec_bytes().len() <= identifier.spec_bytes().len(),
        ensures
            self.spec_scan_roots(old(state).view(), old(nodes_params)@, 0, identifier_len) == (
                r,
                final(state).view(),
                final(nodes_params)@,
            ),
            final(nodes_params)@.len() <= NODES_PARAMS_CAP,
            final(state).curr_identifier.spec_bytes().len() <= identifier.spec_bytes().len(),
    {
        let root_len = self.root_len as usize;
        let nodes_len = self.nodes.len();
        if root_len > nodes_len {
            return SearchStep::Exhausted;
        }
        let ghost st0 = state.view();
        let ghost p0 = nodes_params@;
        let mut node_idx: usize = 0;
        while node_idx < root_len
            invariant
                root_len <= nodes_len,
                root_len == self.root_len,
                nodes_len == self.nodes@.len(),
                node_idx <= root_len,
                nodes_params@.len() <= NODES_PARAMS_CAP,
                identifier.spec_bytes().len() <= IDENTIFIER_CAP,
                state.curr_identifier.spec_bytes().len() <= identifier.spec_bytes().len(),
                st0 == old(state).view(),
                p0 == old(nodes_params)@,
                self.spec_scan_roots(st0, p0, 0, identifier_len) == self.spec_scan_roots(
                    state.view(),
                    nodes_params@,
                    node_idx as int,
                    identifier_len,
                ),
            decreases root_len - node_idx,
        {
            let node = &self.nodes.as_slice()[node_idx];
            let ghost before = state.view();
            let ghost pb = nodes_params@;
            let ghost unfolded = self.spec_scan_roots(before, pb, node_idx as int, identifier_len);
            assert(*node == self.nodes@[node_idx as int]);
            state.edges_offset_begin = self.edges_start(node_idx);
            let len_before = state.curr_identifier.as_bytes().len();
            match Self::check_search_node(state, identifier_len, node, node_idx as u8, nodes_params) {
                Some(false) => {},
                Some(true) => {
                    assert(unfolded == (SearchStep::Found, state.view(), nodes_params@));
                    return SearchStep::Found;
                },
                None => {
                    let consumed = len_before - state.curr_identifier.as_bytes().len();
                    state.absolute_offset = state.absolute_offset.wrapping_add(consumed as u8);
                    assert(state.view() == advanced(
                        before,
                        spec_check_search(
                            with_begin(before, self.spec_edges_start(node_idx as int)),
                            identifier_len,
                            self.nodes@[node_idx as int],
                            node_idx as u8,
                        ).1,
                    ));
                    assert(unfolded == (SearchStep::Descend, state.view(), nodes_params@));
                    return SearchStep::Descend;
                },
            }
            node_idx = node_idx + 1;
        }
        SearchStep::Exhausted
    }

    /// Compares the targets of the edges in `begin..end` with the path, in order, until one
    /// matches.
    fn scan_edges<'a>(
        &self,
        state: &mut SearchState<'a>,
        nodes_params: &mut Vec<NodeParam>,
        begin: usize,
        end: usize,
        identifier_len: u8,
        Ghost(identifier): Ghost<&'a str>,
    ) -> (r: SearchStep)
        requires
            begin <= end <= self.spec_edges().len(),
            old(nodes_params)@.len() <= NODES_PARAMS_CAP,
            identifier.spec_bytes().len() <= IDENTIFIER_CAP,
            old(state).curr_identifier.spec_bytes().len() <= identifier.spec_bytes().len(),
        ensures
            self.spec_scan_edges(
                old(state).view(),
                old(nodes_params)@,
                begin as int,
                end as int,
                identifier_len,
            ) == (r, final(state).view(), final(nodes_params)@),
            final(nodes_params)@.len() <= NODES_PARAMS_CAP,
            final(state).curr_identifier.spec_bytes().len() <= identifier.spec_bytes().len(),
    {
        let ghost st0 = state.view();
        let ghost p0 = nodes_params@;
        let mut edge_idx = begin;
        while edge_idx < end
            invariant
                end <= self.edges@.len(),
                begin <= edge_idx <= end,
                nodes_params@.len() <= NODES_PARAMS_CAP,
                identifier.spec_bytes().len() <= IDENTIFIER_CAP,
                state.curr_identifier.spec_bytes().len() <= identifier.spec_bytes().len(),
                st0 == old(state).view(),
                p0 == old(nodes_params)@,
                self.spec_scan_edges(st0, p0, begin as int, end as int, identifier_len)
                    == self.spec_scan_edges(
                    state.view(),
                    nodes_params@,
                    edge_idx as int,
                    end as int,
                    identifier_len,
                ),
            decreases end - edge_idx,
        {
            let target = self.edges.as_slice()[edge_idx].node_target_idx;
            edge_idx = edge_idx + 1;
            let node = match self.nodes.get(target as usize) {
                Some(elem) => elem,
                None => {
                    continue ;
                },
            };
            let ghost before = state.view();
            let ghost pb = nodes_params@;
            let ghost unfolded = self.spec_scan_edges(
                before,
                pb,
                edge_idx - 1,
                end as int,
                identifier_len,
            );
            state.edges_offset_begin = self.edges_start(target as usize);
            let len_before = state.curr_identifier.as_bytes().len();
            match Self::check_search_node(state, identifier_len, node, target, nodes_params) {
                Some(false) => {},
                Some(true) => {
                    assert(unfolded == (SearchStep::Found, state.view(), nodes_params@));
                    return SearchStep::Found;
                },
                None => {
                    let consumed = len_before - state.curr_identifier.as_bytes().len();
                    state.absolute_offset = state.absolute_offset.wrapping_add(consumed as u8);
                    assert(state.view() == advanced(
                        before,
                        spec_check_search(
                            with_begin(before, self.spec_edges_start(target as int)),
                            identifier_len,
                            self.nodes@[target as int],
                            target,
                        ).1,
                    ));
                    assert(unfolded == (SearchStep::Descend, state.view(), nodes_params@));
                    return SearchStep::Descend;
                },
            }
        }
        SearchStep::Exhausted
    }

    /// The path of a successful search, provided that its last node holds a value.
    fn path_or_err<'a>(&'a self, identifier: &'a str, nodes_params: Vec<NodeParam>) -> (r: Result<
        RadixTreePath<'a, T>,
        Error,
    >)
        requires
            nodes_params@.len() <= NODES_PARAMS_CAP,
        ensures
            self.spec_path_ok(nodes_params@) ==> (r matches Ok(path) && path.wf()
                && path.spec_identifier() == identifier && path.spec_nodes() == self.spec_nodes()
                && path.nodes_params@ == nodes_params@),
            !self.spec_path_ok(nodes_params@) ==> r == Err::<RadixTreePath<'a, T>, Error>(
                Error::RadixTreeError(RadixTreeError::UnknownMatchingRoute),
            ),
    {
        let len = nodes_params.len();
        if len == 0 {
            return Err(Error::RadixTreeError(RadixTreeError::UnknownMatchingRoute));
        }
        let last = nodes_params[len - 1].node_idx;
        match self.nodes.get(last as usize) {
            Some(node) => {
                if node.value.is_none() {
                    return Err(Error::RadixTreeError(RadixTreeError::UnknownMatchingRoute));
                }
            },
            None => return Err(Error::RadixTreeError(RadixTreeError::UnknownMatchingRoute)),
        }
        Ok(RadixTreePath { identifier, nodes: &self.nodes, nodes_params })
    }

    /// Compares the rest of a searched path with `node`. `Some(false)`: the node does not match.
    /// `Some(true)`: the node matches what is left. `None`: the node matches a part and the
    /// search goes on with its children.
    fn check_search_node(
        state: &mut SearchState<'_>,
        identifier_len: u8,
        node: &Node<T>,
        node_idx: u8,
        nodes_params: &mut Vec<NodeParam>,
    ) -> (r: Option<bool>)
        requires
            old(nodes_params)@.len() <= NODES_PARAMS_CAP,
        ensures
            ({
                let (sr, snext, srange) = spec_check_search(
                    old(state).view(),
                    identifier_len,
                    *node,
                    node_idx,
                );
                &&& r == sr
                &&& final(state).view() == snext
                &&& sr == Some(false) ==> final(nodes_params)@ == old(nodes_params)@
                &&& sr != Some(false) ==> final(nodes_params)@ == push_capped(
                    old(nodes_params)@,
                    NodeParam { node_idx, param_range: srange },
                )
            }),
            final(nodes_params)@.len() <= NODES_PARAMS_CAP,
            final(state).curr_identifier.spec_bytes().len() <= old(
                state,
            ).curr_identifier.spec_bytes().len(),
    {
        let name = comparing_name(node.identifier, node.ty);
        let (lhs, rhs) = match str_split_at(state.curr_identifier, name.as_bytes().len()) {
            Some(elem) => elem,
            None => return Some(false),
        };
        if !bytes_eq(lhs.as_bytes(), name.as_bytes()) {
            return Some(false);
        }
        let param_range = match node.ty {
            NodeTy::Literal => {
                state.curr_identifier = rhs;
                0..0
            },
            NodeTy::Param { after, end_idx, .. } => {
                let tail = match str_get(node.identifier, end_idx as usize, node.identifier.as_bytes().len()) {
                    Some(elem) => elem,
                    None => empty_str(),
                };
                let (param, after_param) = if tail.as_bytes().len() == 0 {
                    let mut found: Option<(&str, &str)> = None;
                    match after {
                        Some(byte) => {
                            match str_split_once1(rhs, byte) {
                                Some((param, _)) => {
                                    let rest = match str_get(
                                        rhs,
                                        param.as_bytes().len(),
                                        rhs.as_bytes().len(),
                                    ) {
                                        Some(elem) => elem,
                                        None => empty_str(),
                                    };
                                    found = Some((param, rest));
                                },
                                None => {},
                            }
                        },
                        None => {},
                    }
                    match found {
                        Some(elem) => elem,
                        None => (rhs, empty_str()),
                    }
                } else {
                    match str_split_once_str(rhs, tail) {
                        Some(elem) => elem,
                        None => return Some(false),
                    }
                };
                state.curr_identifier = after_param;
                let name_len = name.as_bytes().len();
                let comparing_name_len: u8 = if name_len <= IDENTIFIER_CAP {
                    name_len as u8
                } else {
                    0
                };
                let param_len = param.as_bytes().len();
                let param_len_u8: u8 = if param_len <= IDENTIFIER_CAP {
                    param_len as u8
                } else {
                    0
                };
                let param_start = state.absolute_offset.wrapping_add(comparing_name_len);
                let param_end = param_start.wrapping_add(param_len_u8);
                param_start..param_end
            },
            NodeTy::Wildcard { begin_idx, .. } => {
                state.curr_identifier = empty_str();
                state.absolute_offset.wrapping_add(begin_idx)..identifier_len
            },
        };
        if nodes_params.len() < NODES_PARAMS_CAP {
            nodes_params.push(NodeParam::new(node_idx, param_range));
        }
        if state.curr_identifier.as_bytes().len() == 0 {
            Some(true)
        } else {
            let edges_range = state.edges_offset_begin..node.edges_offset;
            state.curr_edges_range = Some(edges_range);
            state.edges_offset_begin = node.edges_offset;
            None
        }
    }
}

impl<T> Default for RadixTree<T> {
    fn default() -> (r: Self)
        ensures
            r.spec_edges().len() == 0,
            r.spec_nodes().len() == 0,
            r.spec_root_len() == 0,
    {
        Self::new()
    }
}

/// The result of a successful search.
pub struct RadixTreePath<'any, T> {
    identifier: &'any str,
    nodes: &'any Vector<Node<T>>,
    nodes_params: Vec<NodeParam>,
}

impl<'any, T> RadixTreePath<'any, T> {
    /// The searched path.
    pub closed spec fn spec_identifier(&self) -> &'any str {
        self.identifier
    }

    /// The nodes of the tree that was searched.
    pub closed spec fn spec_nodes(&self) -> Seq<Node<T>> {
        self.nodes@
    }

    /// Every node the search went through, with where its parameter is in the path.
    pub closed spec fn spec_nodes_params(&self) -> Seq<(u8, Range<u8>)> {
        Seq::new(
            self.nodes_params@.len(),
            |k: int| (self.nodes_params@[k].node_idx, self.nodes_params@[k].param_range),
        )
    }

    /// The records of the nodes that the search went through.
    pub closed spec fn spec_records(&self) -> Seq<NodeParam> {
        self.nodes_params@
    }

    /// The last node of the search exists and holds a value.
    pub closed spec fn wf(&self) -> bool {
        let params = self.nodes_params@;
        &&& params.len() > 0
        &&& params.len() <= NODES_PARAMS_CAP
        &&& params.last().node_idx < self.nodes@.len()
        &&& self.nodes@[params.last().node_idx as int].value is Some
    }

    /// The node where the search ended.
    pub open spec fn spec_last_node(&self) -> Node<T> {
        self.spec_nodes()[self.spec_records().last().spec_node_idx() as int]
    }

    /// The value of the route that matched.
    pub fn data(&self) -> (r: &T)
        requires
            self.wf(),
        ensures
            Some(*r) == self.spec_last_node().spec_value(),
    {
        let len = self.nodes_params.len();
        let last_node_idx = self.nodes_params[len - 1].node_idx;
        let node = self.nodes.get(last_node_idx as usize).unwrap();
        node.value.as_ref().unwrap()
    }

    /// The parameter that the record at `k` contributes, if any: the name that the node gives
    /// it and the bytes of its value, where the recorded range is a piece of the path.
    pub closed spec fn spec_param(&self, k: int) -> Option<(&'static str, Seq<u8>)> {
        let p = self.nodes_params@[k];
        let bytes = self.identifier.spec_bytes();
        let start = p.param_range.start as int;
        let end = p.param_range.end as int;
        if p.node_idx < self.nodes@.len() && spec_is_str_range(bytes, start, end) {
            match self.nodes@[p.node_idx as int].ty {
                NodeTy::Literal => None,
                NodeTy::Param { name, .. } => Some((name, bytes.subrange(start, end))),
                NodeTy::Wildcard { name, .. } => Some((name, bytes.subrange(start, end))),
            }
        } else {
            None
        }
    }

    /// The parameters of the first `n` records, in order.
    pub closed spec fn spec_params_upto(&self, n: int) -> Seq<(&'static str, Seq<u8>)>
        decreases n,
    {
        if n <= 0 {
            Seq::empty()
        } else {
            let prev = self.spec_params_upto(n - 1);
            match self.spec_param(n - 1) {
                Some(elem) => prev.push(elem),
                None => prev,
            }
        }
    }

    /// All parameters of the path, in order: their names and the bytes of their values.
    pub closed spec fn spec_params(&self) -> Seq<(&'static str, Seq<u8>)> {
        self.spec_params_upto(self.nodes_params@.len() as int)
    }

    fn param(&self, k: usize) -> (r: Option<RadixTreePathParam<'any>>)
        requires
            k < self.nodes_params@.len(),
        ensures
            r is Some <==> self.spec_param(k as int) is Some,
            r matches Some(p) ==> self.spec_param(k as int) == Some((p.name, p.value.spec_bytes())),
    {
        let param = &self.nodes_params[k];
        let node = self.nodes.get(param.node_idx as usize)?;
        let name = match node.ty {
            NodeTy::Literal => return None,
            NodeTy::Param { name, .. } => name,
            NodeTy::Wildcard { name, .. } => name,
        };
        let identifier = self.identifier;
        let value = str_get(
            identifier,
            param.param_range.start as usize,
            param.param_range.end as usize,
        )?;
        Some(RadixTreePathParam::new(name, value))
    }

    /// All parameters, in the order of the path.
    pub fn params(&self) -> (r: Vec<RadixTreePathParam<'any>>)
        ensures
            r@.len() == self.spec_params().len(),
            forall|k: int|
                0 <= k < r@.len() ==> (#[trigger] r@[k]).name == self.spec_params()[k].0
                    && r@[k].value.spec_bytes() == self.spec_params()[k].1,
    {
        let mut r: Vec<RadixTreePathParam<'any>> = Vec::new();
        let mut idx: usize = 0;
        while idx < self.nodes_params.len()
            invariant
                idx <= self.nodes_params@.len(),
                r@.len() == self.spec_params_upto(idx as int).len(),
                forall|k: int|
                    0 <= k < r@.len() ==> (#[trigger] r@[k]).name == self.spec_params_upto(
                        idx as int,
                    )[k].0 && r@[k].value.spec_bytes() == self.spec_params_upto(idx as int)[k].1,
            decreases self.nodes_params@.len() - idx,
        {
            match self.param(idx) {
                Some(elem) => r.push(elem),
                None => {},
            }
            idx = idx + 1;
        }
        r
    }

    /// Gets a parameter according to its index that is related to the entire URI.
    pub fn param_by_idx(&self, idx: usize) -> (r: Option<RadixTreePathParam<'any>>)
        ensures
            idx >= self.spec_params().len() ==> r is None,
            idx < self.spec_params().len() ==> (r matches Some(p) && p.name
                == self.spec_params()[idx as int].0 && p.value.spec_bytes()
                == self.spec_params()[idx as int].1),
    {
        let mut params = self.params();
        if idx < params.len() {
            Some(params.swap_remove(idx))
        } else {
            None
        }
    }

    /// Gets a parameter according to its declared name: the first one with that name.
    pub fn param_by_name(&self, name: &[u8]) -> (r: Option<RadixTreePathParam<'any>>)
        ensures
            r is Some <==> exists|k: int|
                0 <= k < self.spec_params().len() && self.spec_params()[k].0.spec_bytes() == name@,
            r matches Some(p) ==> exists|k: int|
                0 <= k < self.spec_params().len() && p.name == self.spec_params()[k].0
                    && p.value.spec_bytes() == self.spec_params()[k].1 && p.name.spec_bytes()
                    == name@ && forall|j: int|
                    0 <= j < k ==> self.spec_params()[j].0.spec_bytes() != name@,
    {
        let mut params = self.params();
        let mut idx: usize = 0;
        while idx < params.len()
            invariant
                idx <= params@.len(),
                params@.len() == self.spec_params().len(),
                forall|k: int|
                    0 <= k < params@.len() ==> (#[trigger] params@[k]).name == self.spec_params()[k].0
                        && params@[k].value.spec_bytes() == self.spec_params()[k].1,
                forall|j: int| 0 <= j < idx ==> self.spec_params()[j].0.spec_bytes() != name@,
            decreases params@.len() - idx,
        {
            if bytes_eq(params[idx].name.as_bytes(), name) {
                return Some(params.swap_remove(idx));
            }
            idx = idx + 1;
        }
        None
    }
}

/// Route match parameter
#[derive(Debug, PartialEq)]
pub struct RadixTreePathParam<'any> {
    /// Identifies the parameter and is defined when building the route.
    pub name: &'static str,
    /// Dynamic value associated with the name.
    pub value: &'any str,
}

impl<'any> RadixTreePathParam<'any> {
    /// Shortcut
    pub fn new(name: &'static str, value: &'any str) -> (r: Self)
        ensures
            r.name == name,
            r.value == value,
    {
        RadixTreePathParam { name, value }
    }
}

/// What comparing a route that is being added with one node gave.
#[derive(Clone, Copy, Debug, PartialEq, Eq, Structural)]
pub enum CheckInsertNodeRslt {
    /// The node is longer than what is left of the route.
    Impossible,
    /// The node matched a part of the route, and what is left is not empty.
    MatchedAll,
    /// The route and the node share a part, after which they differ.
    MatchedPart {
        /// The length of the shared part.
        common_prefix_len: usize,
        /// Whether the shared part is all that the node compares.
        is_single: bool,
    },
    /// The route and the node share nothing.
    Unmatched,
}

/// The outcome of a successful comparison of a route being added with a node: a full match,
/// with `ident` as what is left of the route.
pub open spec fn spec_insert_matched(
    range: Option<Range<u8>>,
    edges_range: Range<u8>,
    begin: u8,
    ident: Seq<u8>,
) -> (Result<CheckInsertNodeRslt, Error>, Option<Range<u8>>, u8, bool, Seq<u8>) {
    if ident.len() == 0 {
        (Err(Error::RadixTreeError(RadixTreeError::DuplicateRoute)), range, begin, false, ident)
    } else {
        (Ok(CheckInsertNodeRslt::MatchedAll), Some(edges_range), begin, false, ident)
    }
}

/// Comparing what is left of a route being added, `ident`, with `node`: the outcome, then the
/// edges to search next, where the edges of the next node begin, whether the route is still
/// to become a root, and what is left of the route afterwards.
pub open spec fn spec_check_insert<T>(
    range: Option<Range<u8>>,
    begin: u8,
    is_root: bool,
    node: Node<T>,
    ident: Seq<u8>,
) -> (Result<CheckInsertNodeRslt, Error>, Option<Range<u8>>, u8, bool, Seq<u8>) {
    let edges_range = begin..node.spec_edges_offset();
    let nb = node.spec_edges_offset();
    let id = node.spec_identifier().spec_bytes();
    let comp = spec_comparing_name(id, node.spec_ty());
    match spec_split_at(ident, comp.len() as int) {
        None => {
            let p = spec_common_prefix_len(ident, comp);
            if p > 0 && first_byte_idx(ident, 123u8, 0) is Some {
                (
                    Err(Error::RadixTreeError(RadixTreeError::InvalidRouteDefinition)),
                    range,
                    nb,
                    is_root,
                    ident,
                )
            } else {
                (Ok(CheckInsertNodeRslt::Impossible), range, nb, is_root, ident)
            }
        },
        Some((lhs, rhs)) => {
            let p = spec_common_prefix_len(lhs, comp);
            if p == 0 {
                (Ok(CheckInsertNodeRslt::Unmatched), range, nb, is_root, ident)
            } else if p != lhs.len() {
                (
                    Ok(
                        CheckInsertNodeRslt::MatchedPart {
                            common_prefix_len: p as usize,
                            is_single: p == comp.len(),
                        },
                    ),
                    range,
                    nb,
                    is_root,
                    ident,
                )
            } else {
                match node.spec_ty() {
                    NodeTy::Literal => spec_insert_matched(range, edges_range, nb, rhs),
                    NodeTy::Param { end_idx, .. } => {
                        let tail = spec_or_empty(spec_str_get(id, end_idx as int, id.len() as int));
                        let np = spec_common_prefix_len(id, ident);
                        if tail.len() == 0 {
                            if np == id.len() {
                                (
                                    Ok(CheckInsertNodeRslt::MatchedAll),
                                    Some(edges_range),
                                    nb,
                                    false,
                                    spec_or_empty(spec_str_get(ident, np, ident.len() as int)),
                                )
                            } else {
                                (
                                    Err(Error::RadixTreeError(RadixTreeError::ConflictingRoute)),
                                    range,
                                    nb,
                                    false,
                                    ident,
                                )
                            }
                        } else {
                            match spec_split_once_str(rhs, tail) {
                                Some((_, after)) => spec_insert_matched(range, edges_range, nb, after),
                                None => (
                                    Ok(
                                        CheckInsertNodeRslt::MatchedPart {
                                            common_prefix_len: np as usize,
                                            is_single: np == id.len(),
                                        },
                                    ),
                                    range,
                                    nb,
                                    false,
                                    ident,
                                ),
                            }
                        }
                    },
                    NodeTy::Wildcard { .. } => (
                        Err(Error::RadixTreeError(RadixTreeError::MultipleWildcardsInPath)),
                        range,
                        nb,
                        false,
                        ident,
                    ),
                }
            }
        },
    }
}

/// The byte that opens a parameter.
const OPENING_BRACE: u8 = 123;

/// The byte that closes a parameter.
const CLOSING_BRACE: u8 = 125;

/// The byte that marks a parameter as a wildcard.
const ASTERISK: u8 = 42;

/// The bytes that ASCII covers end before this one.
const ASCII_END: u8 = 128;

/// The bytes of a piece of string, or none where there is no piece.
pub open spec fn spec_or_empty(piece: Option<Seq<u8>>) -> Seq<u8> {
    match piece {
        Some(elem) => elem,
        None => Seq::empty(),
    }
}

/// The bytes of `identifier` from byte `common_prefix_len` on, or none where that cuts a
/// character.
pub open spec fn spec_unique_path(identifier: Seq<u8>, common_prefix_len: int) -> Seq<u8> {
    spec_or_empty(spec_str_get(identifier, common_prefix_len, identifier.len() as int))
}

/// The first byte of `bytes`, or zero where there is none.
pub open spec fn first_byte_or_zero(bytes: Seq<u8>) -> u8 {
    if bytes.len() > 0 {
        bytes[0]
    } else {
        0u8
    }
}

/// `identifier` up to byte `common_prefix_len`, or nothing where that cuts a character.
fn common_path(common_prefix_len: usize, identifier: &'static str) -> (r: &'static str)
    ensures
        r.spec_bytes().len() > 0 ==> r.spec_bytes() == identifier.spec_bytes().take(
            common_prefix_len as int,
        ),
        r.spec_bytes() == spec_or_empty(spec_str_get(identifier.spec_bytes(), 0, common_prefix_len as int)),
{
    match str_get(identifier, 0, common_prefix_len) {
        Some(elem) => {
            assert(identifier.spec_bytes().take(common_prefix_len as int) == identifier.spec_bytes().subrange(0, common_prefix_len as int));
            elem
        },
        None => empty_str(),
    }
}

/// `identifier` from byte `common_prefix_len` on, or nothing where that cuts a character.
fn unique_path(common_prefix_len: usize, identifier: &'static str) -> (r: &'static str)
    ensures
        r.spec_bytes().len() > 0 ==> r.spec_bytes() == identifier.spec_bytes().skip(
            common_prefix_len as int,
        ),
        r.spec_bytes() == spec_unique_path(identifier.spec_bytes(), common_prefix_len as int),
{
    let len = identifier.as_bytes().len();
    match str_get(identifier, common_prefix_len, len) {
        Some(elem) => {
            assert(identifier.spec_bytes().skip(common_prefix_len as int) == identifier.spec_bytes().subrange(common_prefix_len as int, len as int));
            elem
        },
        None => empty_str(),
    }
}

/// The length of the longest common prefix of `a` and `b`, counted from position `i` on.
pub open spec fn common_prefix_from(a: Seq<u8>, b: Seq<u8>, i: int) -> int
    decreases a.len() - i,
{
    if i < 0 || i >= a.len() || i >= b.len() || a[i] != b[i] {
        i
    } else {
        common_prefix_from(a, b, i + 1)
    }
}

/// The length of the longest common prefix of `a` and `b`.
pub open spec fn spec_common_prefix_len(a: Seq<u8>, b: Seq<u8>) -> int {
    common_prefix_from(a, b, 0)
}

/// What [`common_prefix_len`] finds is the longest common prefix.
proof fn lemma_common_prefix_len(a: Seq<u8>, b: Seq<u8>, n: int)
    requires
        is_common_prefix_len(a, b, n),
    ensures
        n == spec_common_prefix_len(a, b),
{
    lemma_common_prefix_from(a, b, n, 0);
}

proof fn lemma_common_prefix_from(a: Seq<u8>, b: Seq<u8>, n: int, i: int)
    requires
        is_common_prefix_len(a, b, n),
        0 <= i <= n,
    ensures
        common_prefix_from(a, b, i) == n,
    decreases n - i,
{
    if i < n {
        assert(a.take(n)[i] == a[i]);
        assert(b.take(n)[i] == b[i]);
        lemma_common_prefix_from(a, b, n, i + 1);
    }
}

/// The longest common prefix from `i` on, where `a` and `b` agree before `i`, is a common
/// prefix after which they differ.
proof fn lemma_common_prefix_from_is_common(a: Seq<u8>, b: Seq<u8>, i: int)
    requires
        0 <= i <= a.len(),
        i <= b.len(),
        a.take(i) == b.take(i),
    ensures
        is_common_prefix_len(a, b, common_prefix_from(a, b, i)),
    decreases a.len() - i,
{
    if i < a.len() && i < b.len() && a[i] == b[i] {
        assert(a.take(i + 1) =~= a.take(i).push(a[i]));
        assert(b.take(i + 1) =~= b.take(i).push(b[i]));
        lemma_common_prefix_from_is_common(a, b, i + 1);
    }
}

/// The text of the node `node` after its parameter, or nothing for a node without one.
pub open spec fn node_suffix<T>(node: Node<T>) -> Seq<u8> {
    match node.spec_ty() {
        NodeTy::Param { end_idx, .. } => param_suffix(node.spec_identifier().spec_bytes(), end_idx),
        _ => Seq::empty(),
    }
}

/// Where comparing the route `ident` with `node` matches all of the node, or finds that the
/// node holds the route already, the node took the front of the route and what is left is
/// its end: the route is the node's text before its parameter, then what stands in the
/// parameter's place, then the node's text after its parameter, then what is left. For a
/// literal node the route is the node's text followed by what is left, and a duplicate leaves
/// nothing.
pub proof fn lemma_check_insert_takes_node_text<T>(
    range: Option<Range<u8>>,
    begin: u8,
    is_root: bool,
    node: Node<T>,
    ident: Seq<u8>,
)
    ensures
        ({
            let (res, _, _, _, rest) = spec_check_insert(range, begin, is_root, node, ident);
            let id = node.spec_identifier().spec_bytes();
            let comp = spec_comparing_name(id, node.spec_ty());
            let tail = node_suffix(node);
            (res == Ok::<CheckInsertNodeRslt, Error>(CheckInsertNodeRslt::MatchedAll) || res
                == Err::<CheckInsertNodeRslt, Error>(
                Error::RadixTreeError(RadixTreeError::DuplicateRoute),
            )) ==> {
                &&& comp.len() + tail.len() + rest.len() <= ident.len()
                &&& ident == comp + ident.subrange(
                    comp.len() as int,
                    ident.len() - tail.len() - rest.len(),
                ) + tail + rest
                &&& node.spec_ty() is Literal ==> ident == id + rest
                &&& node.spec_ty() is Param && tail.len() == 0 ==> id.len() <= ident.len()
                    && ident.take(id.len() as int) == id && (spec_is_char_boundary(
                    id.len() as int,
                    ident,
                ) ==> rest == ident.skip(id.len() as int))
                &&& res is Err ==> rest.len() == 0
                &&& res is Ok && (node.spec_ty() is Literal || tail.len() > 0) ==> rest.len() > 0
            }
        }),
{
    let (res, _, _, _, rest) = spec_check_insert(range, begin, is_root, node, ident);
    let id = node.spec_identifier().spec_bytes();
    let comp = spec_comparing_name(id, node.spec_ty());
    let tail = node_suffix(node);
    match spec_split_at(ident, comp.len() as int) {
        None => {},
        Some((lhs, rhs)) => {
            let p = spec_common_prefix_len(lhs, comp);
            if p != 0 && p == lhs.len() {
                assert(lhs.take(0) =~= comp.take(0));
                lemma_common_prefix_from_is_common(lhs, comp, 0);
                assert(lhs =~= lhs.take(p));
                assert(comp =~= comp.take(p));
                assert(ident =~= comp + rhs);
                match node.spec_ty() {
                    NodeTy::Literal => {
                        assert(ident.subrange(comp.len() as int, ident.len() - rest.len()) =~= Seq::<
                            u8,
                        >::empty());
                    },
                    NodeTy::Param { end_idx, .. } => {
                        let np = spec_common_prefix_len(id, ident);
                        if tail.len() == 0 {
                            if np == id.len() {
                                assert(id.take(0) =~= ident.take(0));
                                lemma_common_prefix_from_is_common(id, ident, 0);
                                assert(id =~= id.take(np));
                                match spec_str_get(ident, np, ident.len() as int) {
                                    Some(r) => {},
                                    None => {},
                                }
                                assert(ident =~= comp + ident.subrange(
                                    comp.len() as int,
                                    ident.len() - tail.len() - rest.len(),
                                ) + tail + rest);
                            }
                        } else {
                            match spec_split_once_str(rhs, tail) {
                                Some((x, after)) => {
                                    lemma_first_occurrence_bounds(rhs, tail, 0);
                                    let idx = first_occurrence(rhs, tail, 0)->0;
                                    assert(rhs =~= x + tail + after);
                                    assert(ident.subrange(
                                        comp.len() as int,
                                        ident.len() - tail.len() - after.len(),
                                    ) =~= x);
                                    assert(ident =~= comp + x + tail + after);
                                },
                                None => {},
                            }
                        }
                    },
                    NodeTy::Wildcard { .. } => {},
                }
            }
        },
    }
}

/// A route compared with a parameter node whose identifier is exactly that route, where the
/// text before the parameter is not empty and the text after it, which is not empty either,
/// occurs in the rest of the identifier first right after the parameter, is a duplicate.
pub proof fn lemma_check_insert_same_param<T>(
    range: Option<Range<u8>>,
    begin: u8,
    is_root: bool,
    node: Node<T>,
)
    requires
        node.spec_ty() matches NodeTy::Param { begin_idx, end_idx, .. } && {
            let id = node.spec_identifier().spec_bytes();
            &&& spec_str_get(id, 0, begin_idx as int) is Some
            &&& begin_idx > 0
            &&& spec_str_get(id, end_idx as int, id.len() as int) is Some
            &&& end_idx < id.len()
            &&& begin_idx <= end_idx
            &&& first_occurrence(id.skip(begin_idx as int), id.skip(end_idx as int), 0) == Some(
                end_idx - begin_idx,
            )
        },
    ensures
        spec_check_insert(range, begin, is_root, node, node.spec_identifier().spec_bytes()).0
            == Err::<CheckInsertNodeRslt, Error>(
            Error::RadixTreeError(RadixTreeError::DuplicateRoute),
        ),
{
    let id = node.spec_identifier().spec_bytes();
    let (bi, ei) = match node.spec_ty() {
        NodeTy::Param { begin_idx, end_idx, .. } => (begin_idx as int, end_idx as int),
        _ => (0, 0),
    };
    let comp = spec_comparing_name(id, node.spec_ty());
    assert(comp =~= id.take(bi));
    assert(spec_is_str_range(id, 0, bi));
    let lhs = id.take(bi);
    let rhs = id.skip(bi);
    lemma_common_prefix_len(lhs, comp, bi);
    let tail = id.skip(ei);
    assert(param_suffix(id, ei as u8) =~= tail);
    assert(spec_str_get(id, ei, id.len() as int) == Some(id.subrange(ei, id.len() as int)));
    assert(tail =~= id.subrange(ei, id.len() as int));
    let idx = ei - bi;
    assert(rhs.skip(idx) =~= tail);
    assert(rhs.take(idx) =~= id.subrange(bi, ei));
    assert(spec_is_char_boundary(ei, id));
    assert(spec_is_str_range(rhs, 0, idx));
    assert(spec_is_str_range(rhs, idx + tail.len(), rhs.len() as int));
    assert(rhs.skip(idx + tail.len()) =~= Seq::<u8>::empty());
}

/// Adding again the route of a first root that is a parameter node (with text before its
/// parameter, and text after it that occurs first right after the parameter) is refused as a
/// duplicate: the builder answers with that error and leaves the tree as it was.
pub proof fn lemma_param_root_route_is_refused_again<T>(tree: RadixTree<T>)
    requires
        1 <= tree.spec_root_len() <= tree.spec_nodes().len(),
        tree.spec_nodes()[0].spec_ty() matches NodeTy::Param { begin_idx, end_idx, .. } && {
            let id = tree.spec_nodes()[0].spec_identifier().spec_bytes();
            &&& spec_str_get(id, 0, begin_idx as int) is Some
            &&& begin_idx > 0
            &&& spec_str_get(id, end_idx as int, id.len() as int) is Some
            &&& end_idx < id.len()
            &&& begin_idx <= end_idx
            &&& first_occurrence(id.skip(begin_idx as int), id.skip(end_idx as int), 0) == Some(
                end_idx - begin_idx,
            )
        },
    ensures
        first_root_refuses(tree, tree.spec_nodes()[0].spec_identifier().spec_bytes()) == Some(
            Error::RadixTreeError(RadixTreeError::DuplicateRoute),
        ),
        is_route_conflict(Error::RadixTreeError(RadixTreeError::DuplicateRoute)),
{
    lemma_check_insert_same_param(None, 0, true, tree.spec_nodes()[0]);
}

/// A route that shares with a literal node a part of its identifier, and is at least as long
/// as it, splits that node at the shared part.
pub proof fn lemma_check_insert_splits_literal<T>(
    range: Option<Range<u8>>,
    begin: u8,
    is_root: bool,
    node: Node<T>,
    ident: Seq<u8>,
)
    requires
        node.spec_ty() == NodeTy::Literal,
        ident.len() >= node.spec_identifier().spec_bytes().len(),
        spec_is_char_boundary(node.spec_identifier().spec_bytes().len() as int, ident),
        0 < spec_common_prefix_len(ident, node.spec_identifier().spec_bytes()) < node.spec_identifier().spec_bytes().len(),
    ensures
        spec_check_insert(range, begin, is_root, node, ident).0 == Ok::<CheckInsertNodeRslt, Error>(
            CheckInsertNodeRslt::MatchedPart {
                common_prefix_len: spec_common_prefix_len(ident, node.spec_identifier().spec_bytes()) as usize,
                is_single: false,
            },
        ),
{
    let id = node.spec_identifier().spec_bytes();
    let n = id.len() as int;
    let p = spec_common_prefix_len(ident, id);
    assert(ident.take(0) =~= id.take(0));
    lemma_common_prefix_from_is_common(ident, id, 0);
    assert(spec_is_str_range(ident, 0, n));
    let lhs = ident.take(n);
    assert(lhs.take(p) =~= ident.take(p));
    assert(lhs[p] == ident[p]);
    lemma_common_prefix_len(lhs, id, p);
}

/// A route that continues the identifier of a literal node matches all of that node: what is
/// left is the continuation, and the edges of the node are searched next.
pub proof fn lemma_check_insert_continues_literal<T>(
    range: Option<Range<u8>>,
    begin: u8,
    is_root: bool,
    node: Node<T>,
    ident: Seq<u8>,
)
    requires
        node.spec_ty() == NodeTy::Literal,
        node.spec_identifier().spec_bytes().len() > 0,
        ident.len() > node.spec_identifier().spec_bytes().len(),
        ident.take(node.spec_identifier().spec_bytes().len() as int) == node.spec_identifier().spec_bytes(),
        !(128 <= ident[node.spec_identifier().spec_bytes().len() as int] < 192),
    ensures
        spec_check_insert(range, begin, is_root, node, ident) == (
            Ok::<CheckInsertNodeRslt, Error>(CheckInsertNodeRslt::MatchedAll),
            Some(begin..node.spec_edges_offset()),
            node.spec_edges_offset(),
            false,
            ident.skip(node.spec_identifier().spec_bytes().len() as int),
        ),
{
    let id = node.spec_identifier().spec_bytes();
    let n = id.len() as int;
    assert(spec_is_str_range(ident, 0, n));
    lemma_common_prefix_len(ident.take(n), id, n);
}

/// A route compared with a literal node that holds exactly that route is a duplicate.
pub proof fn lemma_check_insert_same_literal<T>(
    range: Option<Range<u8>>,
    begin: u8,
    is_root: bool,
    node: Node<T>,
    ident: Seq<u8>,
)
    requires
        node.spec_ty() == NodeTy::Literal,
        node.spec_identifier().spec_bytes() == ident,
        ident.len() > 0,
    ensures
        spec_check_insert(range, begin, is_root, node, ident).0 == Err::<CheckInsertNodeRslt, Error>(
            Error::RadixTreeError(RadixTreeError::DuplicateRoute),
        ),
{
    let n = ident.len() as int;
    assert(spec_is_str_range(ident, 0, n));
    assert(ident.take(n) =~= ident);
    assert(ident.skip(n) =~= Seq::<u8>::empty());
    lemma_common_prefix_len(ident, ident, n);
}

/// Whether `byte` occurs in `bytes` from position `from` on.
fn has_byte_from(bytes: &[u8], from: usize, byte: u8) -> (r: bool)
    ensures
        r == exists|j: int| from <= j < bytes@.len() && bytes@[j] == byte,
{
    let mut idx = from;
    while idx < bytes.len()
        invariant
            from <= idx || idx >= bytes@.len(),
            forall|j: int| from <= j < idx && j < bytes@.len() ==> bytes@[j] != byte,
        decreases bytes@.len() - idx,
    {
        if bytes[idx] == byte {
            return true;
        }
        idx = idx + 1;
    }
    false
}

/// Whether `byte` ends the name of a parameter: an asterisk or a brace.
pub open spec fn is_param_delimiter(byte: u8) -> bool {
    byte == 42u8 || byte == 123u8 || byte == 125u8
}

/// The first position of a parameter delimiter in `bytes` from position `from` on, if any.
pub open spec fn first_delimiter_idx(bytes: Seq<u8>, from: int) -> Option<int>
    decreases bytes.len() - from,
{
    if from < 0 || from >= bytes.len() {
        None
    } else if is_param_delimiter(bytes[from]) {
        Some(from)
    } else {
        first_delimiter_idx(bytes, from + 1)
    }
}

/// The name of a parameter that opens at byte `begin` of `identifier` and whose last byte is at
/// `end`: the bytes after `begin` up to and including `end`, both positions taken modulo 256,
/// or nothing where that range is not a piece of the string.
pub open spec fn param_name(identifier: Seq<u8>, begin: int, end: int) -> Seq<u8> {
    match spec_str_get(identifier, (begin + 1) % 256, (end + 1) % 256) {
        Some(elem) => elem,
        None => Seq::empty(),
    }
}

/// What classifying the identifier `bytes` of a node gives, `r`. Literal text where it can not
/// be split at an opening brace. Otherwise the parameter opens at the first opening brace, which
/// must lie within the first 256 bytes, and its name runs up to the first asterisk or brace
/// after it: a wildcard where that is an asterisk followed by a closing brace that ends the
/// identifier, a parameter where it is a closing brace with no opening brace after it, and an
/// error where it is anything else or where there is none.
pub open spec fn spec_node_ty_of(bytes: Seq<u8>, r: Result<NodeTy, Error>) -> bool {
    match spec_split_once1(bytes, 123u8) {
        None => r == Ok::<NodeTy, Error>(NodeTy::Literal),
        Some((lhs, rhs)) => {
            let p = lhs.len() as int;
            if p > 255 {
                r == Err::<NodeTy, Error>(Error::OutOfBoundsArithmetic)
            } else {
                match first_delimiter_idx(rhs, 0) {
                    None => r == Err::<NodeTy, Error>(
                        Error::RadixTreeError(RadixTreeError::UnclosedParameterBracket),
                    ),
                    Some(q) => spec_param_ty(bytes, rhs, p, q, r),
                }
            }
        },
    }
}

/// What classifying a parameter gives, `r`, where the parameter opens at byte `p` of the
/// identifier `bytes`, `rhs` is what follows that opening brace and the first asterisk or brace
/// of `rhs` is at `q`: see [`spec_node_ty_of`].
pub open spec fn spec_param_ty(
    bytes: Seq<u8>,
    rhs: Seq<u8>,
    p: int,
    q: int,
    r: Result<NodeTy, Error>,
) -> bool {
    let name = param_name(bytes, p, p + q);
    if rhs[q] == 42u8 {
        if rhs.len() == q + 2 && rhs[q + 1] == 125u8 {
            r matches Ok(NodeTy::Wildcard { begin_idx, name: n }) && begin_idx == p
                && n.spec_bytes() == name
        } else {
            r == Err::<NodeTy, Error>(Error::RadixTreeError(RadixTreeError::WildcardNotAtEnd))
        }
    } else if rhs[q] == 123u8 {
        r == Err::<NodeTy, Error>(Error::RadixTreeError(RadixTreeError::NestedParameters))
    } else if exists|j: int| q < j < rhs.len() && rhs[j] == 123u8 {
        r == Err::<NodeTy, Error>(
            Error::RadixTreeError(RadixTreeError::NodesCanHaveAtMostOneParameter),
        )
    } else {
        let end_idx = ((p + q + 2) % 256) as u8;
        r matches Ok(NodeTy::Param { after, begin_idx, end_idx: e, name: n }) && begin_idx == p
            && e == end_idx && n.spec_bytes() == name && after == if end_idx as nat == name.len() {
            Some(0u8)
        } else {
            None::<u8>
        }
    }
}

/// The classification of an identifier is either a type or an error, never both, and the
/// error is unique.
pub proof fn lemma_node_ty_of_unique(bytes: Seq<u8>, r: Result<NodeTy, Error>)
    requires
        spec_node_ty_of(bytes, r),
    ensures
        r is Ok ==> forall|e: Error| !#[trigger] spec_node_ty_of(bytes, Err(e)),
        r matches Err(e0) ==> forall|e: Error| #[trigger] spec_node_ty_of(bytes, Err(e)) ==> e == e0,
{
}

/// See [`is_param_delimiter`].
fn is_delimiter_byte(byte: u8) -> (r: bool)
    ensures
        r == is_param_delimiter(byte),
{
    byte == ASTERISK || byte == OPENING_BRACE || byte == CLOSING_BRACE
}

impl<T> RadixTree<T> {
    /// Classifies a node by the parameter that its identifier holds, if any.
    fn find_node_ty(identifier: &'static str) -> (r: Result<NodeTy, Error>)
        ensures
            spec_node_ty_of(identifier.spec_bytes(), r),
            first_byte_idx(identifier.spec_bytes(), OPENING_BRACE, 0) is None ==> r == Ok::<
                NodeTy,
                Error,
            >(NodeTy::Literal),
            r matches Ok(NodeTy::Param { begin_idx, .. }) ==> identifier.spec_bytes()[begin_idx as int]
                == OPENING_BRACE,
            r matches Ok(NodeTy::Wildcard { begin_idx, .. }) ==> identifier.spec_bytes()[begin_idx as int]
                == OPENING_BRACE && identifier.spec_bytes().last() == CLOSING_BRACE,
            r matches Err(e) ==> !is_route_conflict(e),
    {
        proof {
            crate::collection::text::lemma_first_byte_idx(identifier.spec_bytes(), OPENING_BRACE, 0);
        }
        let (lhs, rhs) = match str_split_once1(identifier, OPENING_BRACE) {
            Some(elem) => elem,
            None => return Ok(NodeTy::Literal),
        };
        let lhs_len = lhs.as_bytes().len();
        assert(first_byte_idx(identifier.spec_bytes(), OPENING_BRACE, 0) is Some);
        if lhs_len > IDENTIFIER_CAP {
            return Err(Error::OutOfBoundsArithmetic);
        }
        let begin_idx = lhs_len as u8;
        let mut end_idx = begin_idx;
        let rhs_bytes = rhs.as_bytes();
        let len = rhs_bytes.len();
        let mut idx: usize = 0;
        while idx < len && !is_delimiter_byte(rhs_bytes[idx])
            invariant
                len == rhs_bytes@.len(),
                rhs_bytes@ == rhs.spec_bytes(),
                idx <= len,
                end_idx == (begin_idx + idx) % 256,
                first_delimiter_idx(rhs.spec_bytes(), 0) == first_delimiter_idx(
                    rhs.spec_bytes(),
                    idx as int,
                ),
            decreases len - idx,
        {
            end_idx = end_idx.wrapping_add(1);
            idx = idx + 1;
        }
        if idx == len {
            return Err(Error::RadixTreeError(RadixTreeError::UnclosedParameterBracket));
        }
        proof {
            assert(rhs.spec_bytes() == identifier.spec_bytes().skip(begin_idx + 1));
            assert(identifier.spec_bytes()[begin_idx as int] == OPENING_BRACE);
        }
        Self::classify_param(identifier, rhs_bytes, begin_idx, end_idx, idx)
    }

    /// Classifies the parameter that opens at byte `begin_idx` of `identifier`, where `rhs` is
    /// what follows the opening brace, `q` the position in `rhs` of its first asterisk or brace
    /// and `end_idx` is `begin_idx + q`, modulo 256.
    fn classify_param(
        identifier: &'static str,
        rhs: &[u8],
        begin_idx: u8,
        end_idx: u8,
        q: usize,
    ) -> (r: Result<NodeTy, Error>)
        requires
            q < rhs@.len(),
            end_idx == (begin_idx + q) % 256,
            rhs@ == identifier.spec_bytes().skip(begin_idx + 1),
            begin_idx < identifier.spec_bytes().len(),
            identifier.spec_bytes()[begin_idx as int] == OPENING_BRACE,
        ensures
            spec_param_ty(identifier.spec_bytes(), rhs@, begin_idx as int, q as int, r),
            r matches Ok(NodeTy::Param { begin_idx: b, .. }) ==> b == begin_idx,
            r matches Ok(NodeTy::Wildcard { begin_idx: b, .. }) ==> b == begin_idx
                && identifier.spec_bytes().last() == CLOSING_BRACE,
    {
        let len = rhs.len();
        let elem = rhs[q];
        let name_begin = begin_idx.wrapping_add(1);
        let name_end = end_idx.wrapping_add(1);
        proof {
            assert(name_begin == (begin_idx + 1) % 256);
            assert(name_end == (begin_idx + q + 1) % 256);
        }
        if elem == ASTERISK {
            if len - q == 2 && rhs[q + 1] == CLOSING_BRACE {
                let name = match str_get(identifier, name_begin as usize, name_end as usize) {
                    Some(piece) => piece,
                    None => empty_str(),
                };
                assert(identifier.spec_bytes().last() == rhs@.last());
                return Ok(NodeTy::Wildcard { begin_idx, name });
            }
            return Err(Error::RadixTreeError(RadixTreeError::WildcardNotAtEnd));
        } else if elem == OPENING_BRACE {
            return Err(Error::RadixTreeError(RadixTreeError::NestedParameters));
        }
        if has_byte_from(rhs, q + 1, OPENING_BRACE) {
            return Err(Error::RadixTreeError(RadixTreeError::NodesCanHaveAtMostOneParameter));
        }
        let name = match str_get(identifier, name_begin as usize, name_end as usize) {
            Some(piece) => piece,
            None => empty_str(),
        };
        let param_end = end_idx.wrapping_add(2);
        proof {
            assert(param_end == (begin_idx + q + 2) % 256);
        }
        let does_not_have_suffix = param_end as usize == name.as_bytes().len();
        let after = if does_not_have_suffix {
            Some(0u8)
        } else {
            None
        };
        Ok(NodeTy::Param { after, begin_idx, end_idx: param_end, name })
    }

    /// Moves every edge that leads to `node_idx` or after by `offset`, as nodes are about to be
    /// inserted there.
    fn adjust_edges(&mut self, node_idx: u8, offset: u8)
        ensures
            final(self).nodes@ == old(self).nodes@,
            final(self).root_len == old(self).root_len,
            final(self).edges@.len() == old(self).edges@.len(),
            forall|k: int|
                0 <= k < old(self).edges@.len() ==> (#[trigger] final(self).edges@[k]).node_target_idx
                    == if old(self).edges@[k].node_target_idx >= node_idx {
                    old(self).edges@[k].node_target_idx.wrapping_add(offset)
                } else {
                    old(self).edges@[k].node_target_idx
                },
    {
        let ghost prev = self.edges@;
        let edges = self.edges.vec_mut();
        let mut idx: usize = 0;
        while idx < edges.len()
            invariant
                edges@.len() == prev.len(),
                idx <= prev.len(),
                forall|k: int|
                    0 <= k < idx ==> (#[trigger] edges@[k]).node_target_idx == if prev[k].node_target_idx
                        >= node_idx {
                        prev[k].node_target_idx.wrapping_add(offset)
                    } else {
                        prev[k].node_target_idx
                    },
                forall|k: int| idx <= k < prev.len() ==> #[trigger] edges@[k] == prev[k],
            decreases prev.len() - idx,
        {
            let target = edges[idx].node_target_idx;
            if target >= node_idx {
                edges[idx] = Edge::new(target.wrapping_add(offset));
            }
            idx = idx + 1;
        }
    }

    fn set_edges_offset(&mut self, idx: usize, edges_offset: u8)
        requires
            idx < old(self).nodes@.len(),
        ensures
            final(self).nodes@.len() == old(self).nodes@.len(),
            final(self).root_len == old(self).root_len,
            final(self).edges@ == old(self).edges@,
            final(self).nodes@ == old(self).nodes@.update(
                idx as int,
                Node { edges_offset, ..old(self).nodes@[idx as int] },
            ),
    {
        let nodes = self.nodes.vec_mut();
        nodes[idx].edges_offset = edges_offset;
    }

    fn set_identifier(&mut self, idx: usize, identifier: &'static str)
        requires
            idx < old(self).nodes@.len(),
        ensures
            final(self).nodes@.len() == old(self).nodes@.len(),
            final(self).root_len == old(self).root_len,
            final(self).edges@ == old(self).edges@,
            final(self).nodes@ == old(self).nodes@.update(
                idx as int,
                Node { identifier, ..old(self).nodes@[idx as int] },
            ),
    {
        let nodes = self.nodes.vec_mut();
        nodes[idx].identifier = identifier;
    }

    fn set_ty(&mut self, idx: usize, ty: NodeTy)
        requires
            idx < old(self).nodes@.len(),
        ensures
            final(self).nodes@.len() == old(self).nodes@.len(),
            final(self).root_len == old(self).root_len,
            final(self).edges@ == old(self).edges@,
            final(self).nodes@ == old(self).nodes@.update(
                idx as int,
                Node { ty, ..old(self).nodes@[idx as int] },
            ),
    {
        let nodes = self.nodes.vec_mut();
        nodes[idx].ty = ty;
    }

    fn set_value(&mut self, idx: usize, value: Option<T>)
        requires
            idx < old(self).nodes@.len(),
        ensures
            final(self).nodes@.len() == old(self).nodes@.len(),
            final(self).root_len == old(self).root_len,
            final(self).edges@ == old(self).edges@,
            final(self).nodes@ == old(self).nodes@.update(
                idx as int,
                Node { value, ..old(self).nodes@[idx as int] },
            ),
    {
        let nodes = self.nodes.vec_mut();
        nodes[idx].value = value;
    }

    fn take_value(&mut self, idx: usize) -> (r: Option<T>)
        requires
            idx < old(self).nodes@.len(),
        ensures
            final(self).nodes@.len() == old(self).nodes@.len(),
            final(self).root_len == old(self).root_len,
            final(self).edges@ == old(self).edges@,
            r == old(self).nodes@[idx as int].value,
            final(self).nodes@ == old(self).nodes@.update(
                idx as int,
                Node { value: None, ..old(self).nodes@[idx as int] },
            ),
    {
        let nodes = self.nodes.vec_mut();
        nodes[idx].value.take()
    }

    /// Gives the node at `child` the part of `node_identifier` that follows the common prefix,
    /// classifies it, and lets a parameter of the node at `parent` end where the child begins.
    fn modify_child(
        &mut self,
        child: usize,
        common_prefix_len: usize,
        node_identifier: &'static str,
        parent: usize,
    ) -> (r: Result<(), Error>)
        requires
            child < old(self).nodes@.len(),
            parent < old(self).nodes@.len(),
        ensures
            final(self).nodes@.len() == old(self).nodes@.len(),
            final(self).root_len == old(self).root_len,
            final(self).edges@ == old(self).edges@,
            r matches Err(e) ==> !is_route_conflict(e),
            child != parent ==> ({
                let old_nodes = old(self).nodes@;
                let new_child = final(self).nodes@[child as int];
                let unique = spec_unique_path(node_identifier.spec_bytes(), common_prefix_len as int);
                let named = old_nodes.update(
                    child as int,
                    Node { identifier: new_child.identifier, ..old_nodes[child as int] },
                );
                let typed = old_nodes.update(
                    child as int,
                    Node { identifier: new_child.identifier, ty: new_child.ty, ..old_nodes[child as int] },
                );
                let first = first_byte_or_zero(new_child.identifier.spec_bytes());
                &&& new_child.identifier.spec_bytes() == unique
                &&& forall|e: Error| #[trigger] spec_node_ty_of(unique, Err(e)) ==> r == Err::<
                    (),
                    Error,
                >(e) && final(self).nodes@ == named
                &&& (forall|e: Error| !#[trigger] spec_node_ty_of(unique, Err(e))) ==> {
                    &&& spec_node_ty_of(unique, Ok(new_child.ty))
                    &&& match old_nodes[parent as int].ty {
                        NodeTy::Param { after: None, begin_idx, end_idx, name } => if first >= 128 {
                            r == Err::<(), Error>(Error::NonAsciiByte) && final(self).nodes@ == typed
                        } else {
                            r is Ok && final(self).nodes@ == typed.update(
                                parent as int,
                                Node {
                                    ty: NodeTy::Param { after: Some(first), begin_idx, end_idx, name },
                                    ..old_nodes[parent as int]
                                },
                            )
                        },
                        _ => r is Ok && final(self).nodes@ == typed,
                    }
                }
            }),
    {
        let child_identifier = unique_path(common_prefix_len, node_identifier);
        self.set_identifier(child, child_identifier);
        let ty = match Self::find_node_ty(child_identifier) {
            Ok(elem) => elem,
            Err(e) => {
                proof {
                    lemma_node_ty_of_unique(child_identifier.spec_bytes(), Err(e));
                }
                return Err(e);
            },
        };
        proof {
            lemma_node_ty_of_unique(child_identifier.spec_bytes(), Ok(ty));
        }
        self.set_ty(child, ty);
        let parent_ty = self.nodes.as_slice()[parent].ty;
        match parent_ty {
            NodeTy::Param { after: None, begin_idx, end_idx, name } => {
                let first = if child_identifier.as_bytes().len() > 0 {
                    child_identifier.as_bytes()[0]
                } else {
                    0u8
                };
                if first >= ASCII_END {
                    return Err(Error::NonAsciiByte);
                }
                self.set_ty(parent, NodeTy::Param { after: Some(first), begin_idx, end_idx, name });
            },
            _ => {},
        }
        Ok(())
    }

    /// Adds a root node after the existing ones.
    fn add_root_node(&mut self, node_identifier: &'static str, node_value: T) -> (r: Result<
        (),
        Error,
    >)
        ensures
            r is Ok ==> final(self).nodes@.len() == old(self).nodes@.len() + 1
                && final(self).root_len == old(self).root_len.wrapping_add(1),
            r matches Err(e) ==> !is_route_conflict(e),
            r is Err ==> final(self).nodes@ == old(self).nodes@ && final(self).root_len == old(
                self,
            ).root_len && final(self).edges@.len() == old(self).edges@.len(),
            forall|e: Error| #[trigger] spec_node_ty_of(node_identifier.spec_bytes(), Err(e)) ==> r
                == Err::<(), Error>(e),
            r matches Err(e) ==> spec_node_ty_of(node_identifier.spec_bytes(), Err(e)) || e
                == Error::VectorError(VectorError::ReserveOverflow) || e == Error::VectorError(
                VectorError::OutOfBoundsInsertIdx,
            ),
            old(self).root_len <= old(self).nodes@.len() ==> (r matches Err(e) ==> e
                != Error::VectorError(VectorError::OutOfBoundsInsertIdx)),
            old(self).root_len <= old(self).nodes@.len() && r is Ok ==> {
                let root = old(self).root_len as int;
                &&& final(self).nodes@ == old(self).nodes@.insert(
                    root,
                    Node {
                        edges_offset: if root >= 1 {
                            old(self).nodes@[root - 1].edges_offset
                        } else {
                            0
                        },
                        identifier: node_identifier,
                        ty: final(self).nodes@[root].ty,
                        value: Some(node_value),
                    },
                )
                &&& spec_node_ty_of(node_identifier.spec_bytes(), Ok(final(self).nodes@[root].ty))
                &&& final(self).edges@ == shifted_edges(old(self).edges@, old(self).root_len, 1)
            },
            old(self).nodes@.len() == 0 && old(self).root_len == 0 && old(self).edges@.len() == 0
                && first_byte_idx(node_identifier.spec_bytes(), OPENING_BRACE, 0) is None ==> {
                &&& r is Ok ==> final(self).nodes@ == seq![
                    Node {
                        edges_offset: 0,
                        identifier: node_identifier,
                        ty: NodeTy::Literal,
                        value: Some(node_value),
                    },
                ] && final(self).root_len == 1 && final(self).edges@.len() == 0
                &&& r matches Err(e) ==> e == Error::VectorError(VectorError::ReserveOverflow)
            },
            old(self).nodes@.len() == 0 && old(self).root_len == 0 && old(self).edges@.len() == 0
                ==> {
                &&& forall|e: Error| #[trigger]
                    spec_node_ty_of(node_identifier.spec_bytes(), Err(e)) ==> r == Err::<(), Error>(e)
                &&& r is Ok ==> final(self).nodes@.len() == 1 && final(self).nodes@[0] == (Node {
                    edges_offset: 0,
                    identifier: node_identifier,
                    ty: final(self).nodes@[0].ty,
                    value: Some(node_value),
                }) && spec_node_ty_of(
                    node_identifier.spec_bytes(),
                    Ok(final(self).nodes@[0].ty),
                ) && final(self).root_len == 1 && final(self).edges@.len() == 0
                &&& r matches Err(e) ==> spec_node_ty_of(node_identifier.spec_bytes(), Err(e)) || e
                    == Error::VectorError(VectorError::ReserveOverflow)
            },
            extends_flat_literal_tree(*old(self), node_identifier.spec_bytes()) ==> {
                &&& r is Ok ==> final(self).nodes@ == old(self).nodes@.push(
                    Node {
                        edges_offset: 0,
                        identifier: node_identifier,
                        ty: NodeTy::Literal,
                        value: Some(node_value),
                    },
                ) && final(self).root_len == old(self).root_len + 1 && final(self).edges@.len()
                    == 0
                &&& r matches Err(e) ==> e == Error::VectorError(VectorError::ReserveOverflow)
            },
    {
        proof {
            crate::collection::text::lemma_first_byte_idx(
                node_identifier.spec_bytes(),
                OPENING_BRACE,
                0,
            );
        }
        let ty = match Self::find_node_ty(node_identifier) {
            Ok(elem) => elem,
            Err(e) => return Err(e),
        };
        proof {
            lemma_node_ty_of_unique(node_identifier.spec_bytes(), Ok(ty));
        }
        let root_len = self.root_len;
        self.adjust_edges(root_len, 1);
        proof {
            assert(self.edges@ =~= shifted_edges(old(self).edges@, root_len, 1)) by {
                assert forall|k: int| 0 <= k < self.edges@.len() implies self.edges@[k]
                    == shifted_edges(old(self).edges@, root_len, 1)[k] by {
                    assert(old(self).edges@[k].target() == old(self).edges@[k].node_target_idx);
                }
            }
        }
        let edges_offset = if root_len >= 1 {
            match self.nodes.get((root_len - 1) as usize) {
                Some(elem) => elem.edges_offset,
                None => 0,
            }
        } else {
            0
        };
        proof {
            if extends_flat_literal_tree(*old(self), node_identifier.spec_bytes()) && root_len >= 1 {
                assert(self.nodes@[root_len - 1] == old(self).spec_nodes()[root_len - 1]);
            }
        }
        let ghost before = self.nodes@;
        match self.nodes.insert(
            root_len as usize,
            Node::new(edges_offset, node_identifier, ty, Some(node_value)),
        ) {
            Ok(()) => {},
            Err(e) => return Err(e),
        }
        self.root_len = root_len.wrapping_add(1);
        proof {
            if extends_flat_literal_tree(*old(self), node_identifier.spec_bytes()) {
                assert(before.insert(before.len() as int, self.nodes@.last()) =~= before.push(
                    self.nodes@.last(),
                ));
            }
        }
        Ok(())
    }

    // * Parent's node equals common path. With an existent `/aa` (0 edges, 1 node), the new `/aab`
    // forms `/aa -> b` (1 edge, 2 nodes)
    //
    // * Parent's node does not equals common path. With an existent `/aab` (0 edges, 1 node), the
    // new `/aac` forms `/aa -> b, c` (2 edges, 3 nodes)
    #[verifier::spinoff_prover]
    #[verifier::rlimit(100)]
    fn add_common_node(
        &mut self,
        common_prefix_len: usize,
        is_single: bool,
        node_identifier: &'static str,
        node_insert_idx0: u8,
        node_value: T,
    ) -> (r: Result<(), Error>)
        ensures
            final(self).root_len == old(self).root_len,
            r matches Err(e) ==> !is_route_conflict(e),
            ({
                let first = node_insert_idx0.wrapping_add(1) as int;
                is_single && common_prefix_len == 0 && r is Ok && first > 0
                    && old(self).nodes@[first - 1].ty == NodeTy::Literal ==> {
                    &&& final(self).nodes@ == child_added(
                        old(self).nodes@,
                        first,
                        final(self).nodes@[first].identifier,
                        final(self).nodes@[first].ty,
                        node_value,
                    )
                    &&& spec_node_ty_of(
                        final(self).nodes@[first].identifier.spec_bytes(),
                        Ok(final(self).nodes@[first].ty),
                    )
                }
            }),
            !is_single && node_insert_idx0 == 0 && common_prefix_len > 0 && old(self).nodes@.len()
                == 1 && old(self).edges@.len() == 0 && old(self).nodes@[0].ty == NodeTy::Literal
                && old(self).nodes@[0].edges_offset == 0 && r is Ok ==> {
                let a = old(self).nodes@[0];
                let nodes = final(self).nodes@;
                &&& nodes.len() == 3
                &&& nodes[0] == Node::<T> {
                    edges_offset: 2,
                    identifier: nodes[0].identifier,
                    ty: NodeTy::Literal,
                    value: None,
                }
                &&& nodes[0].identifier.spec_bytes() == spec_or_empty(
                    spec_str_get(a.identifier.spec_bytes(), 0, common_prefix_len as int),
                )
                &&& nodes[1] == Node {
                    edges_offset: 2,
                    identifier: nodes[1].identifier,
                    ty: nodes[1].ty,
                    value: Some(node_value),
                }
                &&& nodes[1].identifier.spec_bytes() == spec_unique_path(
                    node_identifier.spec_bytes(),
                    common_prefix_len as int,
                )
                &&& spec_node_ty_of(nodes[1].identifier.spec_bytes(), Ok(nodes[1].ty))
                &&& nodes[2] == Node {
                    edges_offset: 2,
                    identifier: nodes[2].identifier,
                    ty: nodes[2].ty,
                    value: a.value,
                }
                &&& nodes[2].identifier.spec_bytes() == spec_unique_path(
                    a.identifier.spec_bytes(),
                    common_prefix_len as int,
                )
                &&& spec_node_ty_of(nodes[2].identifier.spec_bytes(), Ok(nodes[2].ty))
            },
            r is Ok ==> final(self).nodes@.len() == old(self).nodes@.len() + if is_single {
                1int
            } else {
                2int
            },
            ({
                let idx0 = node_insert_idx0.wrapping_add(1);
                let first = idx0 as int;
                let shifted = shifted_edges(
                    old(self).edges@,
                    idx0,
                    if is_single {
                        1u8
                    } else {
                        2u8
                    },
                );
                let inserted = Node::<T> {
                    edges_offset: 0,
                    identifier: node_identifier,
                    ty: NodeTy::Literal,
                    value: None,
                };
                let both = old(self).nodes@.insert(first, inserted).insert(
                    idx0.wrapping_add(1) as int,
                    inserted,
                );
                let parent1 = if first >= 2 {
                    both[first - 2].edges_offset as int
                } else {
                    0
                };
                let with_second = shifted.insert(parent1, Edge::new_spec(idx0.wrapping_add(1)));
                if is_single {
                    &&& r is Ok && first > 0 ==> final(self).edges@ == shifted.insert(
                        old(self).nodes@[first - 1].edges_offset as int,
                        Edge::new_spec(idx0),
                    ) && final(self).nodes@[first].value == Some(node_value)
                        && final(self).nodes@[first].identifier.spec_bytes() == spec_unique_path(
                        node_identifier.spec_bytes(),
                        common_prefix_len as int,
                    )
                    &&& !(r is Ok && first > 0) ==> final(self).edges@ == shifted
                } else {
                    &&& r is Ok && first > 0 && old(self).nodes@.len() + 2 - first >= 2 ==> final(self).edges@ == with_second.insert(parent1, Edge::new_spec(idx0)) && final(self).nodes@[first].value == Some(node_value) && final(self).nodes@[first].identifier.spec_bytes() == spec_unique_path(
                        node_identifier.spec_bytes(),
                        common_prefix_len as int,
                    )
                    &&& !(r is Ok && first > 0 && old(self).nodes@.len() + 2 - first >= 2) ==> (
                    final(self).edges@ == shifted || final(self).edges@ == with_second)
                }
            }),
    {
        let idx0 = node_insert_idx0.wrapping_add(1);
        let is_in_same_depth = common_prefix_len > 0;
        let offset: u8 = if is_single {
            1
        } else {
            2
        };
        self.adjust_edges(idx0, offset);
        let first = idx0 as usize;
        let parent: usize;
        let rest_begin: usize;
        let ghost plain_child = is_single && common_prefix_len == 0 && first > 0
            && old(self).nodes@[first - 1].ty == NodeTy::Literal;
        let ghost mut child_identifier: &'static str = node_identifier;
        let ghost mut child_ty: NodeTy = NodeTy::Literal;
        let ghost split_pair = !is_single && node_insert_idx0 == 0 && common_prefix_len > 0
            && old(self).nodes@.len() == 1 && old(self).edges@.len() == 0 && old(self).nodes@[0].ty
            == NodeTy::Literal && old(self).nodes@[0].edges_offset == 0;
        let ghost mut second_identifier: &'static str = node_identifier;
        let ghost mut second_ty: NodeTy = NodeTy::Literal;
        if is_single {
            let ghost n0 = self.nodes@;
            let inserted = Node::from_identifier(node_identifier);
            self.nodes.insert(first, inserted)?;
            if first == 0 {
                return Ok(());
            }
            parent = first - 1;
            let ghost n1 = self.nodes@;
            self.modify_child(first, common_prefix_len, node_identifier, parent)?;
            proof {
                child_identifier = self.nodes@[first as int].identifier;
                child_ty = self.nodes@[first as int].ty;
                if plain_child {
                    assert(n1 == old(self).nodes@.insert(first as int, inserted));
                    assert(n1[first - 1] == old(self).nodes@[first - 1]);
                    assert(self.nodes@ == n1.update(
                        first as int,
                        Node { identifier: child_identifier, ty: child_ty, ..n1[first as int] },
                    ));
                }
            }
            let parent_edges_offset = self.nodes.as_slice()[parent].edges_offset;
            self.set_edges_offset(first, parent_edges_offset.wrapping_add(offset));
            self.set_value(first, Some(node_value));
            self.edges.insert(parent_edges_offset as usize, Edge::new(idx0))?;
            rest_begin = first + 1;
        } else {
            let idx1 = idx0.wrapping_add(1);
            self.nodes.insert(first, Node::from_identifier(node_identifier))?;
            self.nodes.insert(idx1 as usize, Node::from_identifier(node_identifier))?;
            if first == 0 || self.nodes.len() - first < 2 {
                return Ok(());
            }
            let parent1_edges_offset = if first >= 2 {
                self.nodes.as_slice()[first - 2].edges_offset
            } else {
                0
            };
            parent = first - 1;
            let second = first + 1;
            let ghost n2 = self.nodes@;
            self.modify_child(first, common_prefix_len, node_identifier, parent)?;
            let ghost n3 = self.nodes@;
            let parent_identifier = self.nodes.as_slice()[parent].identifier;
            self.modify_child(second, common_prefix_len, parent_identifier, parent)?;
            proof {
                child_identifier = self.nodes@[first as int].identifier;
                child_ty = self.nodes@[first as int].ty;
                second_identifier = self.nodes@[second as int].identifier;
                second_ty = self.nodes@[second as int].ty;
                if split_pair {
                    assert(n2[0] == old(self).nodes@[0]);
                    assert(n3[0] == n2[0]);
                    assert(self.nodes@ =~= seq![
                        old(self).nodes@[0],
                        Node { identifier: child_identifier, ty: child_ty, ..n2[1] },
                        Node { identifier: second_identifier, ty: second_ty, ..n2[2] },
                    ]);
                }
            }
            self.set_edges_offset(first, parent1_edges_offset.wrapping_add(offset));
            self.set_value(first, Some(node_value));
            let parent_edges_offset = self.nodes.as_slice()[parent].edges_offset;
            self.set_edges_offset(second, parent_edges_offset.wrapping_add(offset));
            let parent_value = self.take_value(parent);
            self.set_value(second, parent_value);
            self.edges.insert(parent1_edges_offset as usize, Edge::new(idx1))?;
            self.edges.insert(parent1_edges_offset as usize, Edge::new(idx0))?;
            self.set_edges_offset(parent, parent1_edges_offset);
            rest_begin = first + 2;
            proof {
                if split_pair {
                    assert(self.nodes@ =~= seq![
                        Node::<T> {
                            edges_offset: 0,
                            identifier: old(self).nodes@[0].identifier,
                            ty: NodeTy::Literal,
                            value: None,
                        },
                        Node {
                            edges_offset: 2,
                            identifier: child_identifier,
                            ty: child_ty,
                            value: Some(node_value),
                        },
                        Node {
                            edges_offset: 2,
                            identifier: second_identifier,
                            ty: second_ty,
                            value: old(self).nodes@[0].value,
                        },
                    ]);
                }
            }
        }
        let parent_edges_offset = self.nodes.as_slice()[parent].edges_offset;
        self.set_edges_offset(parent, parent_edges_offset.wrapping_add(offset));
        if is_in_same_depth {
            let parent_identifier = self.nodes.as_slice()[parent].identifier;
            self.set_identifier(parent, common_path(common_prefix_len, parent_identifier));
        }
        let len = self.nodes.len();
        let mut idx = rest_begin;
        let ghost nodes_before = self.nodes@;
        let ghost edges_before = self.edges@;
        while idx < len
            invariant
                len == self.nodes@.len(),
                self.root_len == old(self).root_len,
                nodes_before.len() == len,
                self.edges@ == edges_before,
                rest_begin <= idx,
                forall|k: int|
                    0 <= k < len ==> (#[trigger] self.nodes@[k]) == if rest_begin <= k < idx {
                        Node { edges_offset: nodes_before[k].edges_offset.wrapping_add(offset), ..nodes_before[k] }
                    } else {
                        nodes_before[k]
                    },
                len == old(self).nodes@.len() + if is_single {
                    1int
                } else {
                    2int
                },
            decreases len - idx,
        {
            let edges_offset = self.nodes.as_slice()[idx].edges_offset;
            self.set_edges_offset(idx, edges_offset.wrapping_add(offset));
            idx = idx + 1;
        }
        proof {
            if plain_child {
                let expected = child_added(
                    old(self).nodes@,
                    first as int,
                    child_identifier,
                    child_ty,
                    node_value,
                );
                assert forall|i: int| 0 <= i < len implies self.nodes@[i] == expected[i] by {
                    if i > first {
                        assert(old(self).nodes@.insert(
                            first as int,
                            Node::<T> {
                                edges_offset: 0,
                                identifier: node_identifier,
                                ty: NodeTy::Literal,
                                value: None,
                            },
                        )[i] == old(self).nodes@[i - 1]);
                    }
                }
                assert(self.nodes@ =~= expected);
            }
        }
        Ok(())
    }

    /// Compares the rest of a route that is being added with `node`.
    fn check_insert_node(
        curr_edges_range_opt: &mut Option<Range<u8>>,
        edges_offset_begin: &mut u8,
        is_root: &mut bool,
        node: &Node<T>,
        node_identifier: &mut &'static str,
    ) -> (r: Result<CheckInsertNodeRslt, Error>)
        ensures
            ({
                let (sr, srange, sbegin, sroot, sident) = spec_check_insert(
                    *old(curr_edges_range_opt),
                    *old(edges_offset_begin),
                    *old(is_root),
                    *node,
                    old(node_identifier).spec_bytes(),
                );
                &&& r == sr
                &&& *final(curr_edges_range_opt) == srange
                &&& *final(edges_offset_begin) == sbegin
                &&& *final(is_root) == sroot
                &&& final(node_identifier).spec_bytes() == sident
            }),
            r matches Ok(CheckInsertNodeRslt::MatchedAll) ==> final(node_identifier).spec_bytes().len()
                < old(node_identifier).spec_bytes().len() && (*final(curr_edges_range_opt)) is Some,
            r matches Ok(x) && !(x is MatchedAll) ==> *final(node_identifier) == *old(
                node_identifier,
            ) && *final(curr_edges_range_opt) == *old(curr_edges_range_opt),
            node.ty == NodeTy::Literal && node.identifier.spec_bytes().len() > 0 && old(
                node_identifier,
            ).spec_bytes().len() > 0 && old(node_identifier).spec_bytes()[0]
                != node.identifier.spec_bytes()[0] ==> (r matches Ok(x) && (x is Unmatched
                || x is Impossible)) && *final(is_root) == *old(is_root),
    {
        let edges_range = *edges_offset_begin..node.edges_offset;
        *edges_offset_begin = node.edges_offset;
        let comparing_identifier = comparing_name(node.identifier, node.ty);
        let ident: &'static str = *node_identifier;
        let (lhs, rhs) = match str_split_at(ident, comparing_identifier.as_bytes().len()) {
            Some(elem) => elem,
            None => {
                let prefix_len = common_prefix_len(
                    ident.as_bytes(),
                    comparing_identifier.as_bytes(),
                );
                proof {
                    lemma_common_prefix_len(
                        ident.spec_bytes(),
                        comparing_identifier.spec_bytes(),
                        prefix_len as int,
                    );
                    if prefix_len > 0 {
                        assert(ident.spec_bytes().take(prefix_len as int)[0]
                            == ident.spec_bytes()[0]);
                        assert(comparing_identifier.spec_bytes().take(prefix_len as int)[0]
                            == comparing_identifier.spec_bytes()[0]);
                    }
                }
                if prefix_len > 0 && str_contains_byte(ident, OPENING_BRACE) {
                    return Err(Error::RadixTreeError(RadixTreeError::InvalidRouteDefinition));
                }
                return Ok(CheckInsertNodeRslt::Impossible);
            },
        };
        let prefix_len = common_prefix_len(lhs.as_bytes(), comparing_identifier.as_bytes());
        proof {
            lemma_common_prefix_len(
                lhs.spec_bytes(),
                comparing_identifier.spec_bytes(),
                prefix_len as int,
            );
            if prefix_len > 0 {
                assert(lhs.spec_bytes() == ident.spec_bytes().take(
                    comparing_identifier.spec_bytes().len() as int,
                ));
                assert(lhs.spec_bytes().take(prefix_len as int)[0] == lhs.spec_bytes()[0]);
                assert(comparing_identifier.spec_bytes().take(prefix_len as int)[0]
                    == comparing_identifier.spec_bytes()[0]);
            }
        }
        if prefix_len == 0 {
            return Ok(CheckInsertNodeRslt::Unmatched);
        } else if prefix_len != lhs.as_bytes().len() {
            return Ok(
                CheckInsertNodeRslt::MatchedPart {
                    common_prefix_len: prefix_len,
                    is_single: prefix_len == comparing_identifier.as_bytes().len(),
                },
            );
        }
        *is_root = false;
        match node.ty {
            NodeTy::Literal => {
                *node_identifier = rhs;
            },
            NodeTy::Param { end_idx, .. } => {
                let node_len = node.identifier.as_bytes().len();
                let tail = match str_get(node.identifier, end_idx as usize, node_len) {
                    Some(elem) => elem,
                    None => empty_str(),
                };
                if tail.as_bytes().len() == 0 {
                    let node_prefix_len = common_prefix_len(
                        node.identifier.as_bytes(),
                        ident.as_bytes(),
                    );
                    proof {
                        lemma_common_prefix_len(
                            node.identifier.spec_bytes(),
                            ident.spec_bytes(),
                            node_prefix_len as int,
                        );
                    }
                    if node_prefix_len == node_len {
                        let ident_len = ident.as_bytes().len();
                        let remainder = match str_get(ident, node_prefix_len, ident_len) {
                            Some(elem) => elem,
                            None => empty_str(),
                        };
                        *curr_edges_range_opt = Some(edges_range);
                        *node_identifier = remainder;
                        return Ok(CheckInsertNodeRslt::MatchedAll);
                    }
                    return Err(Error::RadixTreeError(RadixTreeError::ConflictingRoute));
                } else {
                    match str_split_once_str(rhs, tail) {
                        Some((_, after)) => {
                            *node_identifier = after;
                        },
                        None => {
                            let node_prefix_len = common_prefix_len(
                                node.identifier.as_bytes(),
                                ident.as_bytes(),
                            );
                            proof {
                                lemma_common_prefix_len(
                                    node.identifier.spec_bytes(),
                                    ident.spec_bytes(),
                                    node_prefix_len as int,
                                );
                            }
                            return Ok(
                                CheckInsertNodeRslt::MatchedPart {
                                    common_prefix_len: node_prefix_len,
                                    is_single: node_prefix_len == node_len,
                                },
                            );
                        },
                    }
                }
            },
            NodeTy::Wildcard { .. } => {
                return Err(Error::RadixTreeError(RadixTreeError::MultipleWildcardsInPath));
            },
        }
        if node_identifier.as_bytes().len() == 0 {
            return Err(Error::RadixTreeError(RadixTreeError::DuplicateRoute));
        }
        *curr_edges_range_opt = Some(edges_range);
        Ok(CheckInsertNodeRslt::MatchedAll)
    }

    /// Adds a route and its value: see [`RadixTreeBuilder::node`].
    #[verifier::spinoff_prover]
    #[verifier::rlimit(100)]
    fn insert_node(&mut self, identifier: &'static str, value: T) -> (r: Result<(), Error>)
        ensures
            first_root_refuses(*old(self), identifier.spec_bytes()) matches Some(e) ==> r == Err::<
                (),
                Error,
            >(e),
            becomes_root(*old(self), identifier.spec_bytes()) ==> {
                let root = old(self).root_len as int;
                &&& forall|e: Error| #[trigger] spec_node_ty_of(identifier.spec_bytes(), Err(e)) ==> r
                    == Err::<(), Error>(e)
                &&& r matches Err(e) ==> spec_node_ty_of(identifier.spec_bytes(), Err(e)) || e
                    == Error::VectorError(VectorError::ReserveOverflow)
                &&& r is Ok ==> {
                    &&& final(self).nodes@ == old(self).nodes@.insert(
                        root,
                        Node {
                            edges_offset: if root >= 1 {
                                old(self).nodes@[root - 1].edges_offset
                            } else {
                                0
                            },
                            identifier,
                            ty: final(self).nodes@[root].ty,
                            value: Some(value),
                        },
                    )
                    &&& spec_node_ty_of(identifier.spec_bytes(), Ok(final(self).nodes@[root].ty))
                    &&& final(self).edges@ == shifted_edges(old(self).edges@, old(self).root_len, 1)
                    &&& final(self).root_len == old(self).root_len.wrapping_add(1)
                }
            },
            r matches Err(e) && is_route_conflict(e) ==> final(self).nodes@ == old(self).nodes@
                && final(self).edges@ == old(self).edges@ && final(self).root_len == old(self).root_len,
            holds_flat_route(*old(self), identifier.spec_bytes()) || holds_star_leaf_route(
                *old(self),
                identifier.spec_bytes(),
            ) || first_root_holds(*old(self), identifier.spec_bytes()) ==> r == Err::<(), Error>(
                Error::RadixTreeError(RadixTreeError::DuplicateRoute),
            ),
            old(self).nodes@.len() == 0 && old(self).root_len == 0 && old(self).edges@.len() == 0
                && r is Err ==> final(self).nodes@.len() == 0 && final(self).root_len == 0
                && final(self).edges@.len() == 0,
            splits_single_literal_root(*old(self), identifier.spec_bytes()) ==> (r is Ok ==> {
                let a = old(self).nodes@[0].identifier.spec_bytes();
                let p = spec_common_prefix_len(identifier.spec_bytes(), a);
                &&& is_star_literal_tree(*final(self))
                &&& final(self).nodes@.len() == 3
                &&& final(self).nodes@[0].identifier.spec_bytes() == identifier.spec_bytes().take(p)
                &&& final(self).nodes@[0].value is None
                &&& final(self).nodes@[1].identifier.spec_bytes() == identifier.spec_bytes().skip(p)
                &&& final(self).nodes@[1].value == Some(value)
                &&& final(self).nodes@[2].identifier.spec_bytes() == a.skip(p)
                &&& final(self).nodes@[2].value == old(self).nodes@[0].value
            }),
            extends_star_literal_tree(*old(self), identifier.spec_bytes()) ==> (r is Ok ==> {
                &&& is_star_literal_tree(*final(self))
                &&& final(self).nodes@.len() == old(self).nodes@.len() + 1
                &&& final(self).nodes@[0].identifier == old(self).nodes@[0].identifier
                &&& final(self).nodes@[0].value == old(self).nodes@[0].value
                &&& final(self).nodes@[1].identifier.spec_bytes() == identifier.spec_bytes().skip(
                    old(self).nodes@[0].identifier.spec_bytes().len() as int,
                )
                &&& final(self).nodes@[1].value == Some(value)
                &&& forall|k: int|
                    1 <= k < old(self).nodes@.len() ==> final(self).nodes@[k + 1].identifier == (
                    #[trigger] old(self).nodes@[k]).identifier && final(self).nodes@[k + 1].value
                        == old(self).nodes@[k].value
            }),
            r is Ok ==> (final(self).nodes@.len() == old(self).nodes@.len() + 1
                && final(self).root_len == old(self).root_len.wrapping_add(1)) || (
            final(self).root_len == old(self).root_len && (final(self).nodes@.len()
                == old(self).nodes@.len() + 1 || final(self).nodes@.len() == old(self).nodes@.len() + 2)),
            old(self).nodes@.len() == 0 && old(self).root_len == 0 && old(self).edges@.len() == 0
                ==> {
                &&& identifier.spec_bytes().len() > IDENTIFIER_CAP ==> r == Err::<(), Error>(
                    Error::OutOfBoundsArithmetic,
                )
                &&& identifier.spec_bytes().len() <= IDENTIFIER_CAP && first_byte_idx(
                    identifier.spec_bytes(),
                    OPENING_BRACE,
                    0,
                ) is None ==> {
                    &&& r is Ok ==> final(self).nodes@ == seq![
                        Node {
                            edges_offset: 0,
                            identifier,
                            ty: NodeTy::Literal,
                            value: Some(value),
                        },
                    ] && final(self).root_len == 1 && final(self).edges@.len() == 0
                    &&& r matches Err(e) ==> e == Error::VectorError(VectorError::ReserveOverflow)
                }
                &&& identifier.spec_bytes().len() <= IDENTIFIER_CAP ==> {
                    &&& forall|e: Error| #[trigger]
                        spec_node_ty_of(identifier.spec_bytes(), Err(e)) ==> r == Err::<(), Error>(e)
                    &&& r is Ok ==> final(self).nodes@.len() == 1 && final(self).nodes@[0] == (Node {
                        edges_offset: 0,
                        identifier,
                        ty: final(self).nodes@[0].ty,
                        value: Some(value),
                    }) && spec_node_ty_of(identifier.spec_bytes(), Ok(final(self).nodes@[0].ty))
                        && final(self).root_len == 1 && final(self).edges@.len() == 0
                    &&& r matches Err(e) ==> spec_node_ty_of(identifier.spec_bytes(), Err(e)) || e
                        == Error::VectorError(VectorError::ReserveOverflow)
                }
            },
            extends_flat_literal_tree(*old(self), identifier.spec_bytes()) ==> {
                &&& r is Ok ==> final(self).nodes@ == old(self).nodes@.push(
                    Node { edges_offset: 0, identifier, ty: NodeTy::Literal, value: Some(value) },
                ) && final(self).root_len == old(self).root_len + 1 && final(self).edges@.len()
                    == 0 && is_flat_literal_tree(*final(self))
                &&& r matches Err(e) ==> e == Error::VectorError(VectorError::ReserveOverflow)
            },
    {
        let mut curr_edges_range_opt: Option<Range<u8>> = None;
        let mut is_root = true;
        let mut nodes_idx: u8 = 0;
        let mut parent_node_idx: u8 = 0;
        let mut edges_offset_begin: u8 = 0;
        let mut ident: &'static str = identifier;
        let root_len = self.root_len as usize;
        let ghost dup = holds_flat_route(*old(self), identifier.spec_bytes());
        let ghost star = extends_star_literal_tree(*old(self), identifier.spec_bytes());
        let ghost split = splits_single_literal_root(*old(self), identifier.spec_bytes());
        let ghost ferr = first_root_refuses(*old(self), identifier.spec_bytes()) is Some;
        let ghost br = becomes_root(*old(self), identifier.spec_bytes());
        let ghost rootdup = first_root_holds(*old(self), identifier.spec_bytes());
        let ghost sdup = holds_star_leaf_route(*old(self), identifier.spec_bytes()) && !rootdup;
        let ghost ks = choose|k: int|
            1 <= k <= old(self).spec_edges().len() && identifier.spec_bytes() == old(
                self,
            ).spec_nodes()[0].spec_identifier().spec_bytes() + (#[trigger] old(
                self,
            ).spec_nodes()[k]).spec_identifier().spec_bytes();
        let ghost js = choose|j: int|
            0 <= j < old(self).spec_edges().len() && (#[trigger] old(self).spec_edges()[j]).target()
                == ks;
        let ghost rest = identifier.spec_bytes().skip(
            old(self).nodes@[0].identifier.spec_bytes().len() as int,
        );
        let ghost n = old(self).edges@.len();
        let ghost kd = choose|k: int|
            0 <= k < old(self).spec_nodes().len() && (#[trigger] old(
                self,
            ).spec_nodes()[k]).spec_identifier().spec_bytes() == identifier.spec_bytes();
        if root_len <= self.nodes.len() {
            let mut idx: usize = 0;
            let mut matched_all = false;
            while idx < root_len && !matched_all
                invariant
                    root_len <= self.nodes@.len(),
                    idx <= root_len,
                    self.nodes@ == old(self).nodes@,
                    self.edges@ == old(self).edges@,
                    self.root_len == old(self).root_len,
                    root_len == old(self).root_len,
                    root_len == 0 ==> is_root && ident == identifier,
                    extends_flat_literal_tree(*old(self), identifier.spec_bytes()) ==> is_root
                        && ident == identifier && !matched_all,
                    !is_root ==> curr_edges_range_opt is Some,
                    dup == holds_flat_route(*old(self), identifier.spec_bytes()),
                    split == splits_single_literal_root(*old(self), identifier.spec_bytes()),
                    ferr == (first_root_refuses(*old(self), identifier.spec_bytes()) is Some),
                    br == becomes_root(*old(self), identifier.spec_bytes()),
                    br ==> is_root && ident == identifier && !matched_all && curr_edges_range_opt
                        is None,
                    ferr ==> idx == 0 && !matched_all && is_root && ident == identifier
                        && curr_edges_range_opt is None && edges_offset_begin == 0,
                    rootdup == first_root_holds(*old(self), identifier.spec_bytes()),
                    rootdup ==> idx == 0 && !matched_all && is_root && ident == identifier,
                    sdup == (holds_star_leaf_route(*old(self), identifier.spec_bytes()) && !rootdup),
                    sdup ==> 1 <= ks <= n && 0 <= js < n && old(self).spec_edges()[js].target() == ks
                        && identifier.spec_bytes() == old(self).spec_nodes()[0].spec_identifier().spec_bytes()
                        + old(self).spec_nodes()[ks].spec_identifier().spec_bytes(),
                    sdup ==> idx == 0 && nodes_idx == 0 && root_len == 1 && if matched_all {
                        !is_root && ident.spec_bytes() == old(self).spec_nodes()[ks].spec_identifier().spec_bytes()
                            && curr_edges_range_opt == Some(0u8..(n as u8)) && parent_node_idx == 0
                    } else {
                        is_root && ident == identifier && curr_edges_range_opt is None
                            && edges_offset_begin == 0
                    },
                    split ==> idx == 0 && nodes_idx == 0 && root_len == 1 && !matched_all && is_root
                        && ident == identifier && curr_edges_range_opt is None && edges_offset_begin
                        == 0,
                    star == extends_star_literal_tree(*old(self), identifier.spec_bytes()),
                    rest == identifier.spec_bytes().skip(
                        old(self).nodes@[0].identifier.spec_bytes().len() as int,
                    ),
                    n == old(self).edges@.len(),
                    star ==> idx == 0 && nodes_idx == 0 && root_len == 1 && if matched_all {
                        !is_root && ident.spec_bytes() == rest && curr_edges_range_opt == Some(
                            0u8..(n as u8),
                        ) && parent_node_idx == 0
                    } else {
                        is_root && ident == identifier && curr_edges_range_opt is None
                            && edges_offset_begin == 0
                    },
                    dup ==> 0 <= kd < root_len && idx <= kd && is_root && ident == identifier
                        && !matched_all && old(self).spec_nodes()[kd].spec_identifier().spec_bytes()
                        == identifier.spec_bytes() && is_flat_literal_tree(*old(self)),
                decreases (root_len - idx) * 2 + if matched_all {
                    0int
                } else {
                    1int
                },
            {
                let node = &self.nodes.as_slice()[idx];
                proof {
                    if extends_flat_literal_tree(*old(self), identifier.spec_bytes()) {
                        assert(old(self).spec_nodes()[idx as int] == *node);
                    }
                    if ferr {
                        assert(old(self).spec_nodes()[0] == *node);
                    }
                    if br {
                        assert(old(self).spec_nodes()[idx as int] == *node);
                        assert(spec_check_insert(
                            curr_edges_range_opt,
                            edges_offset_begin,
                            is_root,
                            *node,
                            ident.spec_bytes(),
                        ).0 == spec_check_insert(None, 0, true, *node, ident.spec_bytes()).0);
                    }
                    if rootdup {
                        assert(old(self).spec_nodes()[0] == *node);
                        lemma_check_insert_same_literal(
                            curr_edges_range_opt,
                            edges_offset_begin,
                            is_root,
                            *node,
                            ident.spec_bytes(),
                        );
                    }
                    if sdup {
                        assert(old(self).spec_nodes()[0] == *node);
                        assert(old(self).spec_edges()[js] == old(self).edges@[js]);
                        let leaf = old(self).spec_nodes()[ks].spec_identifier().spec_bytes();
                        let root_id = node.identifier.spec_bytes();
                        assert(ident.spec_bytes().take(root_id.len() as int) =~= root_id);
                        assert(ident.spec_bytes()[root_id.len() as int] == leaf[0]);
                        assert(ident.spec_bytes().skip(root_id.len() as int) =~= leaf);
                        lemma_check_insert_continues_literal(
                            curr_edges_range_opt,
                            edges_offset_begin,
                            is_root,
                            *node,
                            ident.spec_bytes(),
                        );
                    }
                    if split {
                        assert(old(self).spec_nodes()[0] == *node);
                        lemma_check_insert_splits_literal(
                            curr_edges_range_opt,
                            edges_offset_begin,
                            is_root,
                            *node,
                            ident.spec_bytes(),
                        );
                    }
                    if star {
                        assert(old(self).spec_nodes()[0] == *node);
                        assert(old(self).nodes@[0] == *node);
                        assert(ident.spec_bytes()[node.identifier.spec_bytes().len() as int]
                            == rest[0]);
                        lemma_check_insert_continues_literal(
                            curr_edges_range_opt,
                            edges_offset_begin,
                            is_root,
                            *node,
                            ident.spec_bytes(),
                        );
                    }
                    if dup {
                        assert(old(self).spec_nodes()[idx as int] == *node);
                        if idx == kd {
                            lemma_check_insert_same_literal(
                                curr_edges_range_opt,
                                edges_offset_begin,
                                is_root,
                                *node,
                                ident.spec_bytes(),
                            );
                        } else {
                            assert(old(self).spec_nodes()[kd].spec_identifier().spec_bytes()[0]
                                != node.identifier.spec_bytes()[0]);
                        }
                    }
                }
                let checked = Self::check_insert_node(
                    &mut curr_edges_range_opt,
                    &mut edges_offset_begin,
                    &mut is_root,
                    node,
                    &mut ident,
                );
                let rslt = match checked {
                    Ok(elem) => elem,
                    Err(e) => return Err(e),
                };
                match rslt {
                    CheckInsertNodeRslt::Impossible | CheckInsertNodeRslt::Unmatched => {
                        nodes_idx = nodes_idx.wrapping_add(1);
                        idx = idx + 1;
                    },
                    CheckInsertNodeRslt::MatchedAll => {
                        parent_node_idx = nodes_idx;
                        matched_all = true;
                    },
                    CheckInsertNodeRslt::MatchedPart { common_prefix_len, is_single } => {
                        if ident.as_bytes().len() > IDENTIFIER_CAP {
                            return Err(Error::OutOfBoundsArithmetic);
                        }
                        let ghost before = *self;
                        let r = self.add_common_node(
                            common_prefix_len,
                            is_single,
                            ident,
                            nodes_idx,
                            value,
                        );
                        proof {
                            if split && r is Ok {
                                assert(before.nodes@[0] == old(self).spec_nodes()[0]);
                                assert(self.edges@ =~= seq![Edge::new_spec(1), Edge::new_spec(2)]);
                                lemma_split_into_star(before, *self, identifier.spec_bytes(), value);
                            }
                        }
                        return r;
                    },
                }
            }
        }
        assert(!dup);
        if is_root {
            if ident.as_bytes().len() > IDENTIFIER_CAP {
                return Err(Error::OutOfBoundsArithmetic);
            }
            let ghost before = *self;
            let r = self.add_root_node(ident, value);
            proof {
                if extends_flat_literal_tree(*old(self), identifier.spec_bytes()) && r is Ok {
                    let nodes = self.nodes@;
                    assert(nodes.last() == (Node {
                        edges_offset: 0,
                        identifier,
                        ty: NodeTy::Literal,
                        value: Some(value),
                    }));
                    assert forall|j: int, k: int|
                        0 <= j < k < nodes.len() implies (#[trigger] nodes[j]).identifier.spec_bytes()[0]
                        != (#[trigger] nodes[k]).identifier.spec_bytes()[0] by {
                        assert(nodes[j] == before.spec_nodes()[j]);
                        if k < nodes.len() - 1 {
                            assert(nodes[k] == before.spec_nodes()[k]);
                        }
                    }
                    assert forall|k: int| 0 <= k < nodes.len() implies {
                        &&& (#[trigger] nodes[k]).ty == NodeTy::Literal
                        &&& nodes[k].value is Some
                        &&& nodes[k].edges_offset == 0
                        &&& nodes[k].identifier.spec_bytes().len() > 0
                    } by {
                        if k < nodes.len() - 1 {
                            assert(nodes[k] == before.spec_nodes()[k]);
                        }
                    }
                }
            }
            return r;
        }
        loop
            invariant
                !(old(self).nodes@.len() == 0 && old(self).root_len == 0 && old(self).edges@.len()
                    == 0),
                !extends_flat_literal_tree(*old(self), identifier.spec_bytes()),
                !holds_flat_route(*old(self), identifier.spec_bytes()),
                !splits_single_literal_root(*old(self), identifier.spec_bytes()),
                curr_edges_range_opt is Some,
                star == extends_star_literal_tree(*old(self), identifier.spec_bytes()),
                rest == identifier.spec_bytes().skip(
                    old(self).nodes@[0].identifier.spec_bytes().len() as int,
                ),
                n == old(self).edges@.len(),
                star ==> curr_edges_range_opt == Some(0u8..(n as u8)) && ident.spec_bytes() == rest
                    && parent_node_idx == 0,
                !rootdup,
                rootdup == first_root_holds(*old(self), identifier.spec_bytes()),
                !(first_root_refuses(*old(self), identifier.spec_bytes()) is Some),
                !becomes_root(*old(self), identifier.spec_bytes()),
                sdup == (holds_star_leaf_route(*old(self), identifier.spec_bytes()) && !rootdup),
                sdup ==> 1 <= ks <= n && 0 <= js < n && old(self).spec_edges()[js].target() == ks,
                sdup ==> curr_edges_range_opt == Some(0u8..(n as u8)) && ident.spec_bytes() == old(
                    self,
                ).spec_nodes()[ks].spec_identifier().spec_bytes(),
                self.nodes@ == old(self).nodes@,
                self.edges@ == old(self).edges@,
                self.root_len == old(self).root_len,
            decreases ident.spec_bytes().len(),
        {
            let curr_edges_range = match curr_edges_range_opt.take() {
                Some(elem) => elem,
                None => return Ok(()),
            };
            let ghost start_ident = ident;
            let begin = curr_edges_range.start as usize;
            let end = curr_edges_range.end as usize;
            let mut has_match = false;
            if begin <= end && end <= self.edges.len() {
                let mut edge_idx = begin;
                while edge_idx < end && !has_match
                    invariant
                        end <= self.edges@.len(),
                        edge_idx <= end,
                        has_match ==> ident.spec_bytes().len() < start_ident.spec_bytes().len()
                            && curr_edges_range_opt is Some,
                        !has_match ==> ident == start_ident,
                        !(old(self).nodes@.len() == 0 && old(self).root_len == 0
                            && old(self).edges@.len() == 0),
                        !extends_flat_literal_tree(*old(self), identifier.spec_bytes()),
                        !holds_flat_route(*old(self), identifier.spec_bytes()),
                        !splits_single_literal_root(*old(self), identifier.spec_bytes()),
                        !has_match ==> curr_edges_range_opt is None,
                        star == extends_star_literal_tree(*old(self), identifier.spec_bytes()),
                        rest == identifier.spec_bytes().skip(
                            old(self).nodes@[0].identifier.spec_bytes().len() as int,
                        ),
                        n == old(self).edges@.len(),
                        star ==> !has_match && ident.spec_bytes() == rest && parent_node_idx == 0
                            && begin == 0 && end == n,
                        !rootdup,
                        rootdup == first_root_holds(*old(self), identifier.spec_bytes()),
                        !(first_root_refuses(*old(self), identifier.spec_bytes()) is Some),
                        !becomes_root(*old(self), identifier.spec_bytes()),
                        sdup == (holds_star_leaf_route(*old(self), identifier.spec_bytes()) && !rootdup),
                        sdup ==> 1 <= ks <= n && 0 <= js < n && old(self).spec_edges()[js].target() == ks,
                        sdup ==> !has_match && ident.spec_bytes() == old(
                            self,
                        ).spec_nodes()[ks].spec_identifier().spec_bytes() && begin == 0 && end == n
                            && edge_idx <= js,
                        self.nodes@ == old(self).nodes@,
                        self.edges@ == old(self).edges@,
                        self.root_len == old(self).root_len,
                    decreases end - edge_idx,
                {
                    let target = self.edges.as_slice()[edge_idx].node_target_idx;
                    proof {
                        if star || sdup {
                            assert(old(self).spec_edges()[edge_idx as int] == self.edges@[edge_idx as int]);
                            assert(1 <= target <= n);
                            assert(old(self).spec_nodes()[target as int] == self.nodes@[target as int]);
                        }
                        if sdup {
                            assert(old(self).spec_nodes()[ks] == self.nodes@[ks]);
                            if target as int != ks {
                                assert(edge_idx != js);
                            }
                        }
                    }
                    edge_idx = edge_idx + 1;
                    let node = match self.nodes.get(target as usize) {
                        Some(elem) => elem,
                        None => {
                            continue ;
                        },
                    };
                    edges_offset_begin = if target >= 1 {
                        match self.nodes.get((target - 1) as usize) {
                            Some(elem) => elem.edges_offset,
                            None => 0,
                        }
                    } else {
                        0
                    };
                    proof {
                        if sdup {
                            if target as int == ks {
                                lemma_check_insert_same_literal(
                                    curr_edges_range_opt,
                                    edges_offset_begin,
                                    is_root,
                                    *node,
                                    ident.spec_bytes(),
                                );
                            }
                        }
                    }
                    let checked = Self::check_insert_node(
                        &mut curr_edges_range_opt,
                        &mut edges_offset_begin,
                        &mut is_root,
                        node,
                        &mut ident,
                    );
                    let rslt = match checked {
                        Ok(elem) => elem,
                        Err(e) => return Err(e),
                    };
                    match rslt {
                        CheckInsertNodeRslt::Impossible | CheckInsertNodeRslt::Unmatched => {},
                        CheckInsertNodeRslt::MatchedAll => {
                            parent_node_idx = target;
                            has_match = true;
                        },
                        CheckInsertNodeRslt::MatchedPart { common_prefix_len, is_single } => {
                            if ident.as_bytes().len() > IDENTIFIER_CAP {
                                return Err(Error::OutOfBoundsArithmetic);
                            }
                            return self.add_common_node(
                                common_prefix_len,
                                is_single,
                                ident,
                                target,
                                value,
                            );
                        },
                    }
                }
            }
            if !has_match {
                if ident.as_bytes().len() > IDENTIFIER_CAP {
                    return Err(Error::OutOfBoundsArithmetic);
                }
                let ghost before = *self;
                let r = self.add_common_node(0, true, ident, parent_node_idx, value);
                proof {
                    if star && r is Ok {
                        let child = self.nodes@[1];
                        assert(spec_is_str_range(rest, 0, rest.len() as int));
                        assert(rest.subrange(0, rest.len() as int) =~= rest);
                        assert(child.identifier.spec_bytes() == rest);
                        assert forall|j: int| 0 <= j < rest.len() implies rest[j] != OPENING_BRACE by {
                            assert(rest[j] == identifier.spec_bytes()[j + old(
                                self,
                            ).nodes@[0].identifier.spec_bytes().len()]);
                        }
                        crate::collection::text::lemma_first_byte_idx(rest, OPENING_BRACE, 0);
                        assert(child.ty == NodeTy::Literal);
                        assert forall|k: int| 1 <= k < before.nodes@.len() implies (
                        #[trigger] before.nodes@[k]).identifier.spec_bytes()[0]
                            != child.identifier.spec_bytes()[0] by {
                            assert(before.nodes@[k] == old(self).spec_nodes()[k]);
                        }
                        assert(before.nodes@[0] == old(self).spec_nodes()[0]);
                        lemma_star_child_added(before, *self, child.identifier, value);
                    }
                }
                return r;
            }
        }
    }
}

/// `nodes` after a child with `identifier`, `ty` and `value` was put at `first`, right after
/// its parent: the edges of the parent and of every node after it end one place further,
/// modulo 256, and the child's edges end where its parent's do.
spec fn child_added<T>(
    nodes: Seq<Node<T>>,
    first: int,
    identifier: &'static str,
    ty: NodeTy,
    value: T,
) -> Seq<Node<T>> {
    Seq::new(
        nodes.len() + 1,
        |i: int|
            if i < first - 1 {
                nodes[i]
            } else if i == first - 1 {
                Node { edges_offset: nodes[i].spec_edges_offset().wrapping_add(1), ..nodes[i] }
            } else if i == first {
                Node {
                    edges_offset: nodes[first - 1].spec_edges_offset().wrapping_add(1),
                    identifier,
                    ty,
                    value: Some(value),
                }
            } else {
                Node { edges_offset: nodes[i - 1].spec_edges_offset().wrapping_add(1), ..nodes[i - 1] }
            },
    )
}

/// Splitting the only node of a tree at the part that it shares with a new literal route
/// gives a tree of one literal root, that part, with two literal leaves: the rest of the new
/// route first, then the rest of the old one.
proof fn lemma_split_into_star<T>(prev: RadixTree<T>, next: RadixTree<T>, identifier: Seq<u8>, value: T)
    requires
        splits_single_literal_root(prev, identifier),
        next.nodes@.len() == 3,
        next.nodes@[0] == (Node::<T> {
            edges_offset: 2,
            identifier: next.nodes@[0].identifier,
            ty: NodeTy::Literal,
            value: None,
        }),
        next.nodes@[0].identifier.spec_bytes() == spec_or_empty(
            spec_str_get(
                prev.nodes@[0].identifier.spec_bytes(),
                0,
                spec_common_prefix_len(identifier, prev.nodes@[0].identifier.spec_bytes()),
            ),
        ),
        next.nodes@[1] == (Node {
            edges_offset: 2,
            identifier: next.nodes@[1].identifier,
            ty: next.nodes@[1].ty,
            value: Some(value),
        }),
        next.nodes@[1].identifier.spec_bytes() == spec_unique_path(
            identifier,
            spec_common_prefix_len(identifier, prev.nodes@[0].identifier.spec_bytes()),
        ),
        spec_node_ty_of(next.nodes@[1].identifier.spec_bytes(), Ok(next.nodes@[1].ty)),
        next.nodes@[2] == (Node {
            edges_offset: 2,
            identifier: next.nodes@[2].identifier,
            ty: next.nodes@[2].ty,
            value: prev.nodes@[0].value,
        }),
        next.nodes@[2].identifier.spec_bytes() == spec_unique_path(
            prev.nodes@[0].identifier.spec_bytes(),
            spec_common_prefix_len(identifier, prev.nodes@[0].identifier.spec_bytes()),
        ),
        spec_node_ty_of(next.nodes@[2].identifier.spec_bytes(), Ok(next.nodes@[2].ty)),
        next.edges@ == seq![Edge::new_spec(1), Edge::new_spec(2)],
        next.root_len == 1,
    ensures
        ({
            let a = prev.nodes@[0].identifier.spec_bytes();
            let p = spec_common_prefix_len(identifier, a);
            &&& is_star_literal_tree(next)
            &&& next.nodes@[0].identifier.spec_bytes() == identifier.take(p)
            &&& a.take(p) == identifier.take(p)
            &&& next.nodes@[1].identifier.spec_bytes() == identifier.skip(p)
            &&& next.nodes@[2].identifier.spec_bytes() == a.skip(p)
        }),
{
    let a = prev.nodes@[0].identifier.spec_bytes();
    let p = spec_common_prefix_len(identifier, a);
    assert(prev.nodes@ == prev.spec_nodes());
    assert(next.nodes@ == next.spec_nodes());
    assert(next.edges@ == next.spec_edges());
    assert(identifier.take(0) =~= a.take(0));
    lemma_common_prefix_from_is_common(identifier, a, 0);
    assert(spec_is_str_range(a, 0, p));
    assert(a.subrange(0, p) =~= a.take(p));
    assert(spec_is_str_range(identifier, p, identifier.len() as int));
    assert(identifier.subrange(p, identifier.len() as int) =~= identifier.skip(p));
    assert(spec_is_str_range(a, p, a.len() as int));
    assert(a.subrange(p, a.len() as int) =~= a.skip(p));
    let id1 = identifier.skip(p);
    let id2 = a.skip(p);
    assert forall|j: int| 0 <= j < id1.len() implies id1[j] != OPENING_BRACE by {
        assert(id1[j] == identifier[j + p]);
    }
    assert forall|j: int| 0 <= j < id2.len() implies id2[j] != OPENING_BRACE by {
        assert(id2[j] == a[j + p]);
    }
    crate::collection::text::lemma_first_byte_idx(id1, OPENING_BRACE, 0);
    crate::collection::text::lemma_first_byte_idx(id2, OPENING_BRACE, 0);
    assert(next.nodes@[1].ty == NodeTy::Literal);
    assert(next.nodes@[2].ty == NodeTy::Literal);
    assert(id1[0] == identifier[p]);
    assert(id2[0] == a[p]);
    assert(next.spec_edges()[0].target() == 1);
    assert(next.spec_edges()[1].target() == 2);
}

/// A tree of one literal root with literal leaves stays one when a leaf with a literal
/// identifier that begins with a new byte is put right after the root.
proof fn lemma_star_child_added<T>(
    prev: RadixTree<T>,
    next: RadixTree<T>,
    child_identifier: &'static str,
    value: T,
)
    requires
        is_star_literal_tree(prev),
        prev.edges@.len() < 254,
        child_identifier.spec_bytes().len() > 0,
        !(128 <= child_identifier.spec_bytes()[0] < 192),
        forall|k: int|
            1 <= k < prev.nodes@.len() ==> (#[trigger] prev.nodes@[k]).identifier.spec_bytes()[0]
                != child_identifier.spec_bytes()[0],
        next.nodes@ == child_added(prev.nodes@, 1, child_identifier, NodeTy::Literal, value),
        next.edges@ == shifted_edges(prev.edges@, 1, 1).insert(
            prev.nodes@[0].edges_offset as int,
            Edge::new_spec(1),
        ),
        next.root_len == prev.root_len,
    ensures
        is_star_literal_tree(next),
        next.nodes@.len() == prev.nodes@.len() + 1,
        next.nodes@[0].identifier == prev.nodes@[0].identifier,
        next.nodes@[0].value == prev.nodes@[0].value,
        next.nodes@[1].identifier == child_identifier,
        next.nodes@[1].value == Some(value),
        forall|k: int|
            1 <= k < prev.nodes@.len() ==> next.nodes@[k + 1].identifier == (#[trigger] prev.nodes@[
                k
            ]).identifier && next.nodes@[k + 1].value == prev.nodes@[k].value,
{
    let n = prev.edges@.len() as int;
    let nodes = next.nodes@;
    let edges = next.edges@;
    let shifted = shifted_edges(prev.edges@, 1, 1);
    assert(prev.nodes@ == prev.spec_nodes());
    assert(prev.edges@ == prev.spec_edges());
    assert(nodes == next.spec_nodes());
    assert(edges == next.spec_edges());
    assert(prev.nodes@[0].edges_offset == n);
    assert(edges.len() == n + 1);
    assert forall|j: int| 0 <= j < n + 1 implies 1 <= (#[trigger] edges[j]).target() <= n + 1 by {
        if j < n {
            assert(edges[j] == shifted[j]);
            assert(1 <= prev.spec_edges()[j].target() <= n);
        } else {
            assert(edges[j] == Edge::new_spec(1));
        }
    }
    assert forall|k: int| 1 <= k <= n + 1 implies {
        &&& (#[trigger] nodes[k]).spec_ty() == NodeTy::Literal
        &&& nodes[k].spec_value() is Some
        &&& nodes[k].spec_edges_offset() == n + 1
        &&& nodes[k].spec_identifier().spec_bytes().len() > 0
        &&& !(128 <= nodes[k].spec_identifier().spec_bytes()[0] < 192)
        &&& exists|j: int| 0 <= j < n + 1 && (#[trigger] edges[j]).target() == k
    } by {
        if k == 1 {
            assert(edges[n] == Edge::new_spec(1));
            assert(edges[n].target() == 1);
        } else {
            let old_node = prev.spec_nodes()[k - 1];
            assert(nodes[k] == Node { edges_offset: old_node.edges_offset.wrapping_add(1), ..old_node });
            let j = choose|j: int| 0 <= j < n && (#[trigger] prev.spec_edges()[j]).target() == k - 1;
            assert(edges[j] == shifted[j]);
            assert(edges[j].target() == k);
        }
    }
    assert forall|j: int, k: int| 1 <= j < k <= n + 1 implies (#[trigger] nodes[j]).spec_identifier().spec_bytes()[0]
        != (#[trigger] nodes[k]).spec_identifier().spec_bytes()[0] by {
        assert(nodes[k] == Node { edges_offset: prev.nodes@[k - 1].edges_offset.wrapping_add(1), ..prev.nodes@[k - 1] });
        if j > 1 {
            assert(nodes[j] == Node { edges_offset: prev.nodes@[j - 1].edges_offset.wrapping_add(1), ..prev.nodes@[j - 1] });
            assert(prev.spec_nodes()[j - 1] == prev.nodes@[j - 1]);
            assert(prev.spec_nodes()[k - 1] == prev.nodes@[k - 1]);
        }
    }
    assert forall|k: int| 1 <= k < prev.nodes@.len() implies next.nodes@[k + 1].identifier == (
    #[trigger] prev.nodes@[k]).identifier && next.nodes@[k + 1].value == prev.nodes@[k].value by {
        assert(nodes[k + 1] == Node { edges_offset: prev.nodes@[k].edges_offset.wrapping_add(1), ..prev.nodes@[k] });
    }
}

/// `edges` after the nodes from `node_idx` on moved by `offset`: every edge that leads to
/// `node_idx` or after leads `offset` further, modulo 256.
pub open spec fn shifted_edges(edges: Seq<Edge>, node_idx: u8, offset: u8) -> Seq<Edge> {
    Seq::new(
        edges.len(),
        |k: int|
            Edge::new_spec(
                if edges[k].target() >= node_idx {
                    edges[k].target().wrapping_add(offset)
                } else {
                    edges[k].target()
                },
            ),
    )
}

/// An error that the builder reports when a route clashes with the routes already in the tree:
/// it is found before the tree is changed.
pub open spec fn is_route_conflict(e: Error) -> bool {
    match e {
        Error::RadixTreeError(RadixTreeError::ConflictingRoute) => true,
        Error::RadixTreeError(RadixTreeError::DuplicateRoute) => true,
        Error::RadixTreeError(RadixTreeError::InvalidRouteDefinition) => true,
        Error::RadixTreeError(RadixTreeError::MultipleWildcardsInPath) => true,
        _ => false,
    }
}

/// A route without a parameter: it holds no opening brace.
pub open spec fn is_literal_route(identifier: Seq<u8>) -> bool {
    forall|j: int| 0 <= j < identifier.len() ==> identifier[j] != 123u8
}

/// A tree made only of literal roots that hold values, with no edges, whose identifiers are
/// not empty and start with bytes that differ from root to root.
pub open spec fn is_flat_literal_tree<T>(tree: RadixTree<T>) -> bool {
    let nodes = tree.spec_nodes();
    &&& tree.spec_edges().len() == 0
    &&& tree.spec_root_len() == nodes.len()
    &&& forall|k: int|
        0 <= k < nodes.len() ==> {
            &&& (#[trigger] nodes[k]).spec_ty() == NodeTy::Literal
            &&& nodes[k].spec_value() is Some
            &&& nodes[k].spec_edges_offset() == 0
            &&& nodes[k].spec_identifier().spec_bytes().len() > 0
        }
    &&& forall|j: int, k: int|
        0 <= j < k < nodes.len() ==> (#[trigger] nodes[j]).spec_identifier().spec_bytes()[0]
            != (#[trigger] nodes[k]).spec_identifier().spec_bytes()[0]
}

/// A tree of one literal root whose edges lead to literal leaves that hold values: every leaf
/// is the target of an edge, the identifiers of the leaves are not empty, start with distinct
/// bytes and begin a character, and the edges of the root are all the edges.
pub open spec fn is_star_literal_tree<T>(tree: RadixTree<T>) -> bool {
    let nodes = tree.spec_nodes();
    let edges = tree.spec_edges();
    let n = edges.len();
    &&& tree.spec_root_len() == 1
    &&& nodes.len() == n + 1
    &&& nodes[0].spec_ty() == NodeTy::Literal
    &&& nodes[0].spec_edges_offset() == n
    &&& nodes[0].spec_identifier().spec_bytes().len() > 0
    &&& forall|k: int|
        1 <= k <= n ==> {
            &&& (#[trigger] nodes[k]).spec_ty() == NodeTy::Literal
            &&& nodes[k].spec_value() is Some
            &&& nodes[k].spec_edges_offset() == n
            &&& nodes[k].spec_identifier().spec_bytes().len() > 0
            &&& !(128 <= nodes[k].spec_identifier().spec_bytes()[0] < 192)
            &&& exists|j: int| 0 <= j < n && (#[trigger] edges[j]).target() == k
        }
    &&& forall|j: int| 0 <= j < n ==> 1 <= (#[trigger] edges[j]).target() <= n
    &&& forall|j: int, k: int|
        1 <= j < k <= n ==> (#[trigger] nodes[j]).spec_identifier().spec_bytes()[0]
            != (#[trigger] nodes[k]).spec_identifier().spec_bytes()[0]
}

/// Every node of `tree` is literal.
pub open spec fn is_literal_tree<T>(tree: RadixTree<T>) -> bool {
    forall|k: int| 0 <= k < tree.spec_nodes().len() ==> (#[trigger] tree.spec_nodes()[k]).spec_ty()
        == NodeTy::Literal
}

/// Where the edges of node `p` of `tree` begin: where those of the node before it end.
pub open spec fn edges_begin<T>(tree: RadixTree<T>, p: int) -> int {
    if p <= 0 {
        0
    } else {
        tree.spec_nodes()[p - 1].spec_edges_offset() as int
    }
}

/// One of the edges of node `p` of `tree` leads to node `c`.
pub open spec fn has_edge_to<T>(tree: RadixTree<T>, p: int, c: int) -> bool {
    exists|j: int|
        edges_begin(tree, p) <= j < tree.spec_nodes()[p].spec_edges_offset() && j < tree.spec_edges().len()
            && (#[trigger] tree.spec_edges()[j]).target() == c
}

/// `path` starts at a root of `tree` and goes from each node to the next along an edge.
pub open spec fn is_route_path<T>(tree: RadixTree<T>, path: Seq<int>) -> bool {
    &&& path.len() >= 1
    &&& tree.spec_root_len() <= tree.spec_nodes().len()
    &&& 0 <= path[0] < tree.spec_root_len()
    &&& forall|i: int|
        0 <= i < path.len() - 1 ==> 0 <= #[trigger] path[i + 1] < tree.spec_nodes().len()
            && has_edge_to(tree, path[i], path[i + 1])
}

/// The identifiers of the nodes of `path`, one after the other.
pub open spec fn path_text<T>(tree: RadixTree<T>, path: Seq<int>) -> Seq<u8>
    decreases path.len(),
{
    if path.len() == 0 {
        Seq::empty()
    } else {
        path_text(tree, path.drop_last()) + tree.spec_nodes()[path.last()].spec_identifier().spec_bytes()
    }
}

/// A tree of literal nodes in which a search can tell its nodes apart: identifiers are not
/// empty and begin a character, no root begins with another, the edges of each node lie within
/// the edges and lead to nodes, and of two different nodes reached from the same node neither
/// begins with the other.
pub open spec fn is_searchable_literal_tree<T>(tree: RadixTree<T>) -> bool {
    let nodes = tree.spec_nodes();
    let edges = tree.spec_edges();
    &&& is_literal_tree(tree)
    &&& tree.spec_root_len() <= nodes.len()
    &&& forall|k: int|
        0 <= k < nodes.len() ==> {
            &&& (#[trigger] nodes[k]).spec_identifier().spec_bytes().len() > 0
            &&& !(128 <= nodes[k].spec_identifier().spec_bytes()[0] < 192)
            &&& edges_begin(tree, k) <= nodes[k].spec_edges_offset() <= edges.len()
        }
    &&& forall|j: int, k: int|
        0 <= j < k < tree.spec_root_len() ==> apart(
            (#[trigger] nodes[j]).spec_identifier().spec_bytes(),
            (#[trigger] nodes[k]).spec_identifier().spec_bytes(),
        )
    &&& forall|p: int, i: int, j: int|
        #![trigger nodes[p], edges[i], edges[j]]
        0 <= p < nodes.len() && edges_begin(tree, p) <= i < nodes[p].spec_edges_offset()
            && edges_begin(tree, p) <= j < nodes[p].spec_edges_offset() ==> edges[i].target()
            < nodes.len() && (edges[i].target() == edges[j].target() || apart(
            nodes[edges[i].target() as int].spec_identifier().spec_bytes(),
            nodes[edges[j].target() as int].spec_identifier().spec_bytes(),
        ))
}

/// Neither of `a` and `b` begins with the other.
#[verifier::opaque]
pub open spec fn apart(a: Seq<u8>, b: Seq<u8>) -> bool {
    !a.is_prefix_of(b) && !b.is_prefix_of(a)
}

/// A path that begins with `b` does not begin with `a` where the two are apart.
proof fn lemma_apart_no_match(a: Seq<u8>, b: Seq<u8>, rest: Seq<u8>)
    requires
        apart(a, b),
    ensures
        spec_split_at(b + rest, a.len() as int) matches Some((lhs, _)) ==> lhs != a,
{
    reveal(apart);
    let c = b + rest;
    if a.len() <= c.len() {
        let lhs = c.take(a.len() as int);
        if lhs == a {
            if a.len() <= b.len() {
                assert(a =~= b.subrange(0, a.len() as int));
            } else {
                assert(b =~= a.subrange(0, b.len() as int));
            }
        }
    }
}

/// The text of a path is the text of its first `n` nodes followed by that of the others.
pub proof fn lemma_path_text_split<T>(tree: RadixTree<T>, path: Seq<int>, n: int)
    requires
        0 <= n <= path.len(),
    ensures
        path_text(tree, path) == path_text(tree, path.take(n)) + path_text(tree, path.skip(n)),
    decreases path.len(),
{
    if n == path.len() {
        assert(path.take(n) =~= path);
        assert(path.skip(n) =~= Seq::<int>::empty());
        assert(path_text(tree, path.skip(n)) =~= Seq::<u8>::empty());
    } else {
        let d = path.drop_last();
        lemma_path_text_split(tree, d, n);
        assert(d.take(n) =~= path.take(n));
        assert(path.skip(n).drop_last() =~= d.skip(n));
        assert(path.skip(n).last() == path.last());
    }
}

/// The text that follows the parameter `{name}` in the identifier `id` of a node whose
/// parameter ends at `end_idx`.
pub open spec fn param_suffix(id: Seq<u8>, end_idx: u8) -> Seq<u8> {
    match spec_str_get(id, end_idx as int, id.len() as int) {
        Some(elem) => elem,
        None => Seq::empty(),
    }
}

/// The part of `path` that the node of the record `rec` took in a search of `tree`: all of
/// its text for a literal node; for a parameter or a wildcard, the text before the parameter,
/// the value that `rec` locates in `path`, and the text after the parameter.
pub open spec fn record_piece<T>(tree: RadixTree<T>, path: Seq<u8>, rec: NodeParam) -> Seq<u8> {
    let node = tree.spec_nodes()[rec.spec_node_idx() as int];
    let id = node.spec_identifier().spec_bytes();
    let name = spec_comparing_name(id, node.spec_ty());
    let value = path.subrange(
        rec.spec_param_range().start as int,
        rec.spec_param_range().end as int,
    );
    match node.spec_ty() {
        NodeTy::Literal => id,
        NodeTy::Param { end_idx, .. } => name + value + param_suffix(id, end_idx),
        NodeTy::Wildcard { .. } => name + value,
    }
}

/// The pieces of `path` that the nodes of the records `recs` took, one after the other.
pub open spec fn records_text<T>(tree: RadixTree<T>, path: Seq<u8>, recs: Seq<NodeParam>) -> Seq<
    u8,
>
    decreases recs.len(),
{
    if recs.len() == 0 {
        Seq::empty()
    } else {
        records_text(tree, path, recs.drop_last()) + record_piece(tree, path, recs.last())
    }
}

/// The wildcard of every wildcard node of `tree` begins where the text before it ends, between
/// two characters of the node's identifier.
pub open spec fn wildcards_well_placed<T>(tree: RadixTree<T>) -> bool {
    forall|k: int|
        0 <= k < tree.spec_nodes().len() ==> match (#[trigger] tree.spec_nodes()[k]).spec_ty() {
            NodeTy::Wildcard { begin_idx, .. } => spec_str_get(
                tree.spec_nodes()[k].spec_identifier().spec_bytes(),
                0,
                begin_idx as int,
            ) is Some,
            _ => true,
        }
}

/// A search state that stands at `st.absolute_offset` in `path`, with what is left of `path`
/// still to match, and whose records, while the search keeps all of them, spell what was
/// matched so far.
spec fn spells_so_far<T>(tree: RadixTree<T>, path: Seq<u8>, st: SearchView, recs: Seq<NodeParam>) -> bool {
    &&& st.absolute_offset <= path.len()
    &&& st.curr == path.skip(st.absolute_offset as int)
    &&& recs.len() < NODES_PARAMS_CAP ==> records_text(tree, path, recs) == path.take(
        st.absolute_offset as int,
    )
}

/// Comparing what is left of `path` with a node that matches it takes the piece of the node
/// from the front of it, with the value at the place that the record gives.
proof fn lemma_check_search_takes_piece<T>(
    tree: RadixTree<T>,
    path: Seq<u8>,
    st: SearchView,
    node_idx: u8,
)
    requires
        path.len() <= IDENTIFIER_CAP,
        wildcards_well_placed(tree),
        node_idx < tree.spec_nodes().len(),
        st.absolute_offset <= path.len(),
        st.curr == path.skip(st.absolute_offset as int),
    ensures
        ({
            let (r, next, range) = spec_check_search(
                st,
                path.len() as u8,
                tree.spec_nodes()[node_idx as int],
                node_idx,
            );
            let piece = record_piece(tree, path, NodeParam { node_idx, param_range: range });
            &&& r != Some(false) ==> st.curr == piece + next.curr
            &&& r == Some(true) ==> next.curr.len() == 0
            &&& r is None ==> next.curr.len() > 0
        }),
{
    let node = tree.spec_nodes()[node_idx as int];
    let id = node.spec_identifier().spec_bytes();
    let name = spec_comparing_name(id, node.spec_ty());
    let off = st.absolute_offset as int;
    let (r, next, range) = spec_check_search(st, path.len() as u8, node, node_idx);
    let rec = NodeParam { node_idx, param_range: range };
    assert(rec.spec_node_idx() == node_idx && rec.spec_param_range() == range);
    if r != Some(false) {
        match spec_split_at(st.curr, name.len() as int) {
            None => {},
            Some((lhs, rhs)) => {
                assert(lhs == name);
                assert(st.curr =~= name + rhs);
                assert(rhs =~= path.skip(off + name.len()));
                match node.spec_ty() {
                    NodeTy::Literal => {
                        assert(st.curr =~= record_piece(tree, path, rec) + next.curr);
                    },
                    NodeTy::Param { after, end_idx, .. } => {
                        let tail = param_suffix(id, end_idx);
                        match spec_param_split(rhs, after, tail) {
                            None => {},
                            Some((param, after_param)) => {
                                if tail.len() == 0 {
                                    match after {
                                        Some(byte) => match spec_split_once1(rhs, byte) {
                                            Some((p, _)) => {
                                                assert(rhs =~= param + after_param);
                                            },
                                            None => {
                                                assert(rhs =~= param + after_param);
                                            },
                                        },
                                        None => {
                                            assert(rhs =~= param + after_param);
                                        },
                                    }
                                    assert(tail =~= Seq::<u8>::empty());
                                } else {
                                    let idx = first_occurrence(rhs, tail, 0)->0;
                                    lemma_first_occurrence_bounds(rhs, tail, 0);
                                    assert(rhs =~= param + tail + after_param);
                                }
                                let start = off + name.len();
                                assert(range.start == start);
                                assert(range.end == start + param.len());
                                assert(path.subrange(start, start + param.len()) =~= param);
                                assert(st.curr =~= record_piece(tree, path, rec) + next.curr);
                            },
                        }
                    },
                    NodeTy::Wildcard { begin_idx, .. } => {
                        assert(spec_str_get(id, 0, begin_idx as int) is Some);
                        assert(name.len() == begin_idx);
                        assert(range.start == off + begin_idx);
                        assert(range.end == path.len());
                        assert(path.subrange(off + begin_idx, path.len() as int) =~= rhs);
                        assert(st.curr =~= record_piece(tree, path, rec) + next.curr);
                    },
                }
            },
        }
    }
}

/// `identifier` is the text of a path of `tree` from a root along edges, which the records
/// `params` of a search follow.
pub open spec fn found_on_path<T>(tree: RadixTree<T>, identifier: Seq<u8>, params: Seq<NodeParam>) -> bool {
    exists|path: Seq<int>|
        is_route_path(tree, path) && path_text(tree, path) == identifier && #[trigger] records_follow(
            params,
            path,
        )
}

/// The records of a search follow `path`, up to the number of records a search keeps.
pub open spec fn records_follow(params: Seq<NodeParam>, path: Seq<int>) -> bool {
    &&& params.len() == if path.len() < NODES_PARAMS_CAP {
        path.len()
    } else {
        NODES_PARAMS_CAP as nat
    }
    &&& forall|i: int| 0 <= i < params.len() ==> (#[trigger] params[i]).spec_node_idx() == path[i]
}

/// The route `identifier`, of at most 255 bytes, becomes a new root of `tree`: comparing it with
/// each root finds nothing in common or a root longer than it, and no error.
pub open spec fn becomes_root<T>(tree: RadixTree<T>, identifier: Seq<u8>) -> bool {
    &&& tree.spec_root_len() <= tree.spec_nodes().len()
    &&& identifier.len() <= 255
    &&& forall|j: int|
        0 <= j < tree.spec_root_len() ==> (spec_check_insert(
            None,
            0,
            true,
            #[trigger] tree.spec_nodes()[j],
            identifier,
        ).0 matches Ok(x) && (x is Impossible || x is Unmatched))
}

/// The error that comparing the route `identifier` with the first root of `tree` reports, if
/// any: a route that clashes with the first root, such as a literal segment where the root has
/// a parameter, or a duplicate of it.
pub open spec fn first_root_refuses<T>(tree: RadixTree<T>, identifier: Seq<u8>) -> Option<Error> {
    if 1 <= tree.spec_root_len() <= tree.spec_nodes().len() {
        match spec_check_insert(None, 0, true, tree.spec_nodes()[0], identifier).0 {
            Err(e) => Some(e),
            Ok(_) => None,
        }
    } else {
        None
    }
}

/// `tree` is a tree of one literal root with literal leaves, and `identifier` is the identifier
/// of the root followed by that of one of its leaves.
pub open spec fn holds_star_leaf_route<T>(tree: RadixTree<T>, identifier: Seq<u8>) -> bool {
    let nodes = tree.spec_nodes();
    let root = nodes[0].spec_identifier().spec_bytes();
    &&& is_star_literal_tree(tree)
    &&& exists|k: int|
        1 <= k <= tree.spec_edges().len() && identifier == root + (
        #[trigger] nodes[k]).spec_identifier().spec_bytes()
}

/// The first root of `tree`, which counts no more roots than nodes, is a literal node whose
/// identifier is exactly `identifier`, which is not empty, whether or not it holds a value.
pub open spec fn first_root_holds<T>(tree: RadixTree<T>, identifier: Seq<u8>) -> bool {
    &&& 1 <= tree.spec_root_len() <= tree.spec_nodes().len()
    &&& tree.spec_nodes()[0].spec_ty() == NodeTy::Literal
    &&& tree.spec_nodes()[0].spec_identifier().spec_bytes() == identifier
    &&& identifier.len() > 0
}

/// Adding the literal route `identifier` to `tree` splits its only node: `tree` holds one
/// literal root, and `identifier`, of at most 255 bytes and no shorter than that root's
/// identifier, shares with it a part that is neither empty nor all of it and ends between two
/// characters of both.
pub open spec fn splits_single_literal_root<T>(tree: RadixTree<T>, identifier: Seq<u8>) -> bool {
    let root = tree.spec_nodes()[0].spec_identifier().spec_bytes();
    let p = spec_common_prefix_len(identifier, root);
    &&& is_flat_literal_tree(tree)
    &&& tree.spec_nodes().len() == 1
    &&& is_literal_route(root)
    &&& identifier.len() <= 255
    &&& is_literal_route(identifier)
    &&& identifier.len() >= root.len()
    &&& spec_is_char_boundary(root.len() as int, identifier)
    &&& 0 < p < root.len()
    &&& spec_is_char_boundary(p, identifier)
    &&& spec_is_char_boundary(p, root)
}

/// Adding the literal route `identifier` to `tree` makes it a tree of one literal root with one
/// more literal leaf: `tree` is such a tree with fewer than 254 leaves, and `identifier`, of at
/// most 255 bytes, is the identifier of the root followed by a piece that begins a character
/// with a byte no leaf begins with.
pub open spec fn extends_star_literal_tree<T>(tree: RadixTree<T>, identifier: Seq<u8>) -> bool {
    let nodes = tree.spec_nodes();
    let root = nodes[0].spec_identifier().spec_bytes();
    let rest = identifier.skip(root.len() as int);
    &&& is_star_literal_tree(tree)
    &&& tree.spec_edges().len() < 254
    &&& identifier.len() <= 255
    &&& is_literal_route(identifier)
    &&& identifier.len() > root.len()
    &&& identifier.take(root.len() as int) == root
    &&& !(128 <= rest[0] < 192)
    &&& forall|k: int|
        1 <= k < nodes.len() ==> (#[trigger] nodes[k]).spec_identifier().spec_bytes()[0] != rest[0]
}

/// `tree` is a tree of literal roots, one of which holds exactly the route `identifier`.
pub open spec fn holds_flat_route<T>(tree: RadixTree<T>, identifier: Seq<u8>) -> bool {
    &&& is_flat_literal_tree(tree)
    &&& exists|k: int|
        0 <= k < tree.spec_nodes().len() && (#[trigger] tree.spec_nodes()[k]).spec_identifier().spec_bytes()
            == identifier
}

/// Adding the literal route `identifier` to `tree` keeps it a tree of literal roots whose routes
/// start with distinct bytes: `tree` is one, has fewer than 255 roots, and `identifier` is a
/// literal route of 1 to 255 bytes that starts with a byte no root starts with.
pub open spec fn extends_flat_literal_tree<T>(tree: RadixTree<T>, identifier: Seq<u8>) -> bool {
    &&& is_flat_literal_tree(tree)
    &&& tree.spec_root_len() < 255
    &&& 0 < identifier.len() <= 255
    &&& is_literal_route(identifier)
    &&& forall|k: int|
        0 <= k < tree.spec_nodes().len() ==> (#[trigger] tree.spec_nodes()[k]).spec_identifier().spec_bytes()[0]
            != identifier[0]
}

/// Constructs nodes
pub struct RadixTreeBuilder<'instance, T> {
    /// The tree that receives the nodes; once the builder is dropped, the tree holds what the
    /// builder left in it.
    pub tree: &'instance mut RadixTree<T>,
}

impl<'instance, T> RadixTreeBuilder<'instance, T> {
    /// The tree that receives the nodes.
    pub closed spec fn tree(&self) -> RadixTree<T> {
        *self.tree
    }

    /// Adds a new node and its associated value to the tree.
    pub fn node(&mut self, identifier: &'static str, value: T) -> (r: Result<&mut Self, Error>)
        ensures
            r matches Ok(b) ==> *final(b.tree) == *final(old(self).tree) && *final(b) == *final(self),
            r is Err ==> *final(final(self).tree) == *final(old(self).tree),
            first_root_refuses(old(self).tree(), identifier.spec_bytes()) matches Some(e) ==> (r matches Err(
                e1,
            ) && e1 == e),
            becomes_root(old(self).tree(), identifier.spec_bytes()) ==> {
                let prev = old(self).tree();
                let root = prev.spec_root_len() as int;
                &&& forall|e: Error| #[trigger] spec_node_ty_of(identifier.spec_bytes(), Err(e)) ==> (
                r matches Err(e1) && e1 == e)
                &&& r matches Err(e) ==> spec_node_ty_of(identifier.spec_bytes(), Err(e)) || e
                    == Error::VectorError(VectorError::ReserveOverflow)
                &&& r matches Ok(b) ==> {
                    let next = b.tree().spec_nodes();
                    &&& next == prev.spec_nodes().insert(root, next[root])
                    &&& next[root].spec_edges_offset() == if root >= 1 {
                        prev.spec_nodes()[root - 1].spec_edges_offset()
                    } else {
                        0
                    }
                    &&& next[root].spec_identifier() == identifier
                    &&& next[root].spec_value() == Some(value)
                    &&& spec_node_ty_of(identifier.spec_bytes(), Ok(next[root].spec_ty()))
                    &&& b.tree().spec_edges() == shifted_edges(prev.spec_edges(), prev.spec_root_len(), 1)
                    &&& b.tree().spec_root_len() == prev.spec_root_len().wrapping_add(1)
                }
            },
            r matches Err(e) && is_route_conflict(e) ==> final(self).tree().spec_nodes() == old(
                self,
            ).tree().spec_nodes() && final(self).tree().spec_edges() == old(self).tree().spec_edges()
                && final(self).tree().spec_root_len() == old(self).tree().spec_root_len(),
            holds_flat_route(old(self).tree(), identifier.spec_bytes()) || holds_star_leaf_route(
                old(self).tree(),
                identifier.spec_bytes(),
            ) || first_root_holds(old(self).tree(), identifier.spec_bytes()) ==> (r matches Err(e)
                && e == Error::RadixTreeError(RadixTreeError::DuplicateRoute)),
            old(self).tree().spec_nodes().len() == 0 && old(self).tree().spec_root_len() == 0
                && old(self).tree().spec_edges().len() == 0 && r is Err ==> final(self).tree().spec_nodes().len() == 0
                && final(self).tree().spec_root_len() == 0 && final(self).tree().spec_edges().len() == 0,
            splits_single_literal_root(old(self).tree(), identifier.spec_bytes()) ==> (r matches Ok(
                b,
            ) ==> {
                let prev = old(self).tree().spec_nodes();
                let next = b.tree().spec_nodes();
                let a = prev[0].spec_identifier().spec_bytes();
                let p = spec_common_prefix_len(identifier.spec_bytes(), a);
                &&& is_star_literal_tree(b.tree())
                &&& next.len() == 3
                &&& next[0].spec_identifier().spec_bytes() == identifier.spec_bytes().take(p)
                &&& next[0].spec_value() is None
                &&& next[1].spec_identifier().spec_bytes() == identifier.spec_bytes().skip(p)
                &&& next[1].spec_value() == Some(value)
                &&& next[2].spec_identifier().spec_bytes() == a.skip(p)
                &&& next[2].spec_value() == prev[0].spec_value()
            }),
            extends_star_literal_tree(old(self).tree(), identifier.spec_bytes()) ==> (r matches Ok(b)
                ==> {
                let prev = old(self).tree().spec_nodes();
                let next = b.tree().spec_nodes();
                &&& is_star_literal_tree(b.tree())
                &&& next.len() == prev.len() + 1
                &&& next[0].spec_identifier() == prev[0].spec_identifier()
                &&& next[0].spec_value() == prev[0].spec_value()
                &&& next[1].spec_identifier().spec_bytes() == identifier.spec_bytes().skip(
                    prev[0].spec_identifier().spec_bytes().len() as int,
                )
                &&& next[1].spec_value() == Some(value)
                &&& forall|k: int|
                    1 <= k < prev.len() ==> next[k + 1].spec_identifier() == (
                    #[trigger] prev[k]).spec_identifier() && next[k + 1].spec_value()
                        == prev[k].spec_value()
            }),
            r matches Ok(b) ==> (b.tree().spec_nodes().len() == old(self).tree().spec_nodes().len()
                + 1 && b.tree().spec_root_len() == old(self).tree().spec_root_len().wrapping_add(1))
                || (b.tree().spec_root_len() == old(self).tree().spec_root_len() && (
            b.tree().spec_nodes().len() == old(self).tree().spec_nodes().len() + 1
                || b.tree().spec_nodes().len() == old(self).tree().spec_nodes().len() + 2)),
            old(self).tree().spec_nodes().len() == 0 && old(self).tree().spec_root_len() == 0
                && old(self).tree().spec_edges().len() == 0 ==> {
                &&& identifier.spec_bytes().len() > IDENTIFIER_CAP ==> (r matches Err(e) && e
                    == Error::OutOfBoundsArithmetic)
                &&& identifier.spec_bytes().len() <= IDENTIFIER_CAP && is_literal_route(
                    identifier.spec_bytes(),
                ) ==> {
                    &&& r matches Ok(b) ==> {
                        &&& b.tree().spec_nodes().len() == 1
                        &&& b.tree().spec_nodes()[0].spec_edges_offset() == 0
                        &&& b.tree().spec_nodes()[0].spec_identifier() == identifier
                        &&& b.tree().spec_nodes()[0].spec_ty() == NodeTy::Literal
                        &&& b.tree().spec_nodes()[0].spec_value() == Some(value)
                        &&& b.tree().spec_root_len() == 1
                        &&& b.tree().spec_edges().len() == 0
                    }
                    &&& r matches Err(e) ==> e == Error::VectorError(VectorError::ReserveOverflow)
                }
                &&& identifier.spec_bytes().len() <= IDENTIFIER_CAP ==> {
                    &&& forall|e: Error| #[trigger]
                        spec_node_ty_of(identifier.spec_bytes(), Err(e)) ==> (r matches Err(e1) && e1
                            == e)
                    &&& r matches Ok(b) ==> {
                        &&& b.tree().spec_nodes().len() == 1
                        &&& b.tree().spec_nodes()[0].spec_edges_offset() == 0
                        &&& b.tree().spec_nodes()[0].spec_identifier() == identifier
                        &&& spec_node_ty_of(
                            identifier.spec_bytes(),
                            Ok(b.tree().spec_nodes()[0].spec_ty()),
                        )
                        &&& b.tree().spec_nodes()[0].spec_value() == Some(value)
                        &&& b.tree().spec_root_len() == 1
                        &&& b.tree().spec_edges().len() == 0
                    }
                    &&& r matches Err(e) ==> spec_node_ty_of(identifier.spec_bytes(), Err(e)) || e
                        == Error::VectorError(VectorError::ReserveOverflow)
                }
            },
            extends_flat_literal_tree(old(self).tree(), identifier.spec_bytes()) ==> {
                &&& r matches Ok(b) ==> {
                    &&& is_flat_literal_tree(b.tree())
                    &&& b.tree().spec_nodes().drop_last() == old(self).tree().spec_nodes()
                    &&& b.tree().spec_nodes().len() == old(self).tree().spec_nodes().len() + 1
                    &&& b.tree().spec_nodes().last().spec_identifier() == identifier
                    &&& b.tree().spec_nodes().last().spec_value() == Some(value)
                }
                &&& r matches Err(e) ==> e == Error::VectorError(VectorError::ReserveOverflow)
            },
    {
        proof {
            crate::collection::text::lemma_first_byte_idx(identifier.spec_bytes(), OPENING_BRACE, 0);
        }
        self.tree.insert_node(identifier, value)?;
        Ok(self)
    }
}

} // verus!
