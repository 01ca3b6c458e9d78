//! The route tree: an n-ary prefix tree whose nodes own an optional segment
//! matcher (absent only at the root), an insertion-ordered sequence of child
//! routes, and an optional handler stored where a registration terminated.
use vstd::prelude::*;

use vstd::pervasive::cloned;

use crate::MatchPathNode;
use crate::PathNode;
use crate::PathNodeView;
use crate::SisoError;
use crate::SisoResult;

verus! {

/// The mathematical model of a route tree node: the matcher's content, the
/// children in insertion order, and the stored handler.
#[verifier::ext_equal]
pub struct RouteView<V> {
    pub node: Option<PathNodeView>,
    pub routes: Seq<RouteView<V>>,
    pub value: Option<V>,
}

/// The model of the tree a fresh router starts with: an unmatched root with
/// no children and no handler.
pub open spec fn empty_route_view<V>() -> RouteView<V> {
    RouteView { node: None, routes: Seq::empty(), value: None }
}

/// Whether a child's matcher accepts the segment; a matcherless child
/// accepts nothing.
pub open spec fn child_matches<V>(c: RouteView<V>, segment: Seq<char>) -> bool {
    match c.node {
        Some(n) => n.matches_segment(segment),
        None => false,
    }
}

/// Whether a child's matcher carries the given registration identity; a
/// matcherless child carries none.
pub open spec fn child_has_uid<V>(c: RouteView<V>, uid: Seq<char>) -> bool {
    match c.node {
        Some(n) => n.uid() == uid,
        None => false,
    }
}

/// The first index at or after `i` whose child accepts the segment.
pub open spec fn first_match_from<V>(cs: Seq<RouteView<V>>, segment: Seq<char>, i: int) -> Option<
    int,
>
    decreases cs.len() - i,
{
    if i < 0 || i >= cs.len() {
        None
    } else if child_matches(cs[i], segment) {
        Some(i)
    } else {
        first_match_from(cs, segment, i + 1)
    }
}

/// The first index at or after `i` whose child carries the identity.
pub open spec fn uid_index_from<V>(cs: Seq<RouteView<V>>, uid: Seq<char>, i: int) -> Option<int>
    decreases cs.len() - i,
{
    if i < 0 || i >= cs.len() {
        None
    } else if child_has_uid(cs[i], uid) {
        Some(i)
    } else {
        uid_index_from(cs, uid, i + 1)
    }
}

/// What a lookup resolves to: the handler at the node reached by descending,
/// at each level, into the first child in insertion order that accepts the
/// current segment; `None` when no child accepts a segment or the reached
/// node stores no handler.
pub open spec fn spec_find<V>(r: RouteView<V>, segments: Seq<Seq<char>>) -> Option<V>
    decreases segments.len(),
{
    if segments.len() == 0 {
        None
    } else {
        match first_match_from(r.routes, segments[0], 0) {
            None => None,
            Some(i) => if segments.len() == 1 {
                r.routes[i].value
            } else {
                spec_find(r.routes[i], segments.drop_first())
            },
        }
    }
}

/// The handler stored at the end of the identity path `uids`, walking at
/// each level into the first child that carries the current identity;
/// `None` when the path is absent or its terminal node stores no handler.
pub open spec fn uid_value<V>(r: RouteView<V>, uids: Seq<Seq<char>>) -> Option<V>
    decreases uids.len(),
{
    if uids.len() == 0 {
        None
    } else {
        match uid_index_from(r.routes, uids[0], 0) {
            None => None,
            Some(i) => if uids.len() == 1 {
                r.routes[i].value
            } else {
                uid_value(r.routes[i], uids.drop_first())
            },
        }
    }
}

/// A child created while registering: the given matcher, no children, no
/// handler yet.
pub open spec fn fresh_child<V>(n: PathNodeView) -> RouteView<V> {
    RouteView { node: Some(n), routes: Seq::empty(), value: None }
}

/// What registering does: walk the identity path, appending a fresh child
/// wherever the current identity is absent, and store the handler at the
/// terminal node. The first component tells whether registration succeeded;
/// it fails, leaving the tree unchanged, exactly when the terminal node
/// already stores a handler.
pub open spec fn spec_register<V>(r: RouteView<V>, nodes: Seq<PathNodeView>, v: V) -> (bool,
    RouteView<V>)
    decreases nodes.len(),
{
    if nodes.len() == 0 {
        (false, r)
    } else {
        let u = nodes[0].uid();
        let (i, r1): (int, RouteView<V>) = match uid_index_from(r.routes, u, 0) {
            Some(i) => (i, r),
            None => (
                r.routes.len() as int,
                RouteView { routes: r.routes.push(fresh_child(nodes[0])), ..r },
            ),
        };
        if nodes.len() == 1 {
            if r1.routes[i].value is Some {
                (false, r)
            } else {
                (
                    true,
                    RouteView {
                        routes: r1.routes.update(
                            i,
                            RouteView { value: Some(v), ..r1.routes[i] },
                        ),
                        ..r1
                    },
                )
            }
        } else {
            let (ok, c) = spec_register(r1.routes[i], nodes.drop_first(), v);
            if ok {
                (true, RouteView { routes: r1.routes.update(i, c), ..r1 })
            } else {
                (false, r)
            }
        }
    }
}

/// Whether, walking the identity path `us` through the tree, the node
/// reached at each level accepts the corresponding input segment. A lookup
/// that a registration newly serves matches, in this sense, the registered
/// identity path as it stands in the tree.
pub open spec fn uid_path_matches<V>(
    r: RouteView<V>,
    us: Seq<Seq<char>>,
    segments: Seq<Seq<char>>,
) -> bool
    decreases us.len(),
{
    us.len() == segments.len() && (us.len() == 0 || (match uid_index_from(r.routes, us[0], 0) {
        None => false,
        Some(i) => child_matches(r.routes[i], segments[0]) && uid_path_matches(
            r.routes[i],
            us.drop_first(),
            segments.drop_first(),
        ),
    }))
}

/// The identity path of a matcher sequence.
pub open spec fn uids_of(nodes: Seq<PathNodeView>) -> Seq<Seq<char>> {
    nodes.map_values(|n: PathNodeView| n.uid())
}

/// The models of a sequence of matchers.
pub open spec fn node_views(nodes: Seq<PathNode>) -> Seq<PathNodeView> {
    nodes.map_values(|n: PathNode| n.node_view())
}

/// The character sequences of a sequence of input segments.
pub open spec fn seg_views(segments: Seq<String>) -> Seq<Seq<char>> {
    segments.map_values(|s: String| s@)
}

/// A route tree node. The matcher is absent only at a tree's root; the
/// children keep insertion order, which is the tie-break when several
/// pattern children accept the same segment.
pub struct Route<V: Clone + PartialEq> {
    pub node: Option<PathNode>,
    pub routes: Vec<Route<V>>,
    pub value: Option<V>,
}

/// The models of a sequence of tree nodes, in the same order.
pub open spec fn routes_view<V: Clone + PartialEq>(rs: Seq<Route<V>>) -> Seq<RouteView<V>>
    decreases rs,
{
    Seq::new(
        rs.len(),
        |i: int|
            if 0 <= i < rs.len() {
                route_view(rs[i])
            } else {
                empty_route_view()
            },
    )
}

/// The model of a tree node.
pub open spec fn route_view<V: Clone + PartialEq>(r: Route<V>) -> RouteView<V>
    decreases r,
{
    RouteView {
        node: match r.node {
            Some(n) => Some(n.node_view()),
            None => None,
        },
        routes: routes_view(r.routes@),
        value: r.value,
    }
}

impl<V: Clone + PartialEq> View for Route<V> {
    type V = RouteView<V>;

    open spec fn view(&self) -> RouteView<V> {
        route_view(*self)
    }
}

/// Registering into a child created during the same walk always succeeds:
/// the fresh subtree grows one fresh child per remaining matcher and ends at
/// a node that stores no handler yet.
pub(crate) proof fn lemma_register_into_fresh<V>(n: PathNodeView, nodes: Seq<PathNodeView>, v: V)
    requires
        nodes.len() >= 1,
    ensures
        spec_register(fresh_child::<V>(n), nodes, v).0,
    decreases nodes.len(),
{
    let r = fresh_child::<V>(n);
    let u = nodes[0].uid();
    assert(uid_index_from(r.routes, u, 0) is None);
    let r1 = RouteView { routes: r.routes.push(fresh_child(nodes[0])), ..r };
    if nodes.len() == 1 {
        assert(r1.routes[0].value is None);
    } else {
        assert(r1.routes[0] == fresh_child::<V>(nodes[0]));
        lemma_register_into_fresh(nodes[0], nodes.drop_first(), v);
    }
}

/// The index of the first child in insertion order whose matcher accepts the
/// segment, if any.
fn match_position<V: Clone + PartialEq>(routes: &Vec<Route<V>>, segment: &String) -> (r: Option<
    usize,
>)
    ensures
        r matches Some(k) ==> k < routes@.len() && first_match_from(
            routes_view(routes@),
            segment@,
            0,
        ) == Some(k as int),
        r is None ==> first_match_from(routes_view(routes@), segment@, 0) is None,
{
    let n = routes.len();
    let mut k: usize = 0;
    while k < n
        invariant
            k <= n,
            n == routes@.len(),
            first_match_from(routes_view(routes@), segment@, 0) == first_match_from(
                routes_view(routes@),
                segment@,
                k as int,
            ),
        decreases n - k,
    {
        let matched = match &routes[k].node {
            Some(nd) => nd.path_node_match(segment.as_str()),
            None => false,
        };
        if matched {
            proof {
                assert(child_matches(routes_view(routes@)[k as int], segment@));
            }
            return Some(k);
        }
        proof {
            assert(!child_matches(routes_view(routes@)[k as int], segment@));
        }
        k = k + 1;
    }
    None
}

/// The index of the first child in insertion order whose matcher carries the
/// registration identity, if any.
fn uid_position<V: Clone + PartialEq>(routes: &Vec<Route<V>>, uid: &String) -> (r: Option<usize>)
    ensures
        r matches Some(k) ==> k < routes@.len() && uid_index_from(
            routes_view(routes@),
            uid@,
            0,
        ) == Some(k as int),
        r is None ==> uid_index_from(routes_view(routes@), uid@, 0) is None,
{
    let n = routes.len();
    let mut k: usize = 0;
    while k < n
        invariant
            k <= n,
            n == routes@.len(),
            uid_index_from(routes_view(routes@), uid@, 0) == uid_index_from(
                routes_view(routes@),
                uid@,
                k as int,
            ),
        decreases n - k,
    {
        let same = match &routes[k].node {
            Some(nd) => {
                let cu = nd.to_uid();
                cu == *uid
            },
            None => false,
        };
        if same {
            proof {
                assert(child_has_uid(routes_view(routes@)[k as int], uid@));
            }
            return Some(k);
        }
        proof {
            assert(!child_has_uid(routes_view(routes@)[k as int], uid@));
        }
        k = k + 1;
    }
    None
}

impl<V: Clone + PartialEq> Route<V> {
    pub fn new(node: Option<PathNode>, value: Option<V>) -> (r: Route<V>)
        ensures
            r@ == (RouteView {
                node: match node {
                    Some(n) => Some(n.node_view()),
                    None => None,
                },
                routes: Seq::<RouteView<V>>::empty(),
                value: value,
            }),
    {
        let r = Route { routes: Vec::new(), node, value };
        proof {
            assert(r@.routes =~= Seq::<RouteView<V>>::empty());
            assert(r@ =~= (RouteView {
                node: match r.node {
                    Some(n) => Some(n.node_view()),
                    None => None,
                },
                routes: Seq::<RouteView<V>>::empty(),
                value: r.value,
            }));
        }
        r
    }

    /// Register a non-empty sequence of matchers, walking the identity path
    /// from the root, appending a fresh child wherever the current identity
    /// is absent at a level, and storing the handler at the terminal node.
    /// Fails with `E_VALUE_EXISTS`, leaving the tree unchanged, exactly when
    /// the terminal node already stores a handler.
    pub fn register(&mut self, path_nodes: &[PathNode], value: V) -> (r: Result<(), SisoError>)
        requires
            path_nodes@.len() >= 1,
        ensures
            ({
                let (ok, t) = spec_register(old(self)@, node_views(path_nodes@), value);
                &&& (r is Ok <==> ok)
                &&& final(self)@ == t
            }),
            r matches Err(e) ==> e.code@ == "E_VALUE_EXISTS"@,
    {
        proof {
            assert(node_views(path_nodes@).skip(0) =~= node_views(path_nodes@));
        }
        self.register_from(path_nodes, 0, value)
    }

    /// The registration walk from matcher `idx` on.
    fn register_from(&mut self, path_nodes: &[PathNode], idx: usize, value: V) -> (r: Result<
        (),
        SisoError,
    >)
        requires
            idx < path_nodes@.len(),
        ensures
            ({
                let (ok, t) = spec_register(
                    old(self)@,
                    node_views(path_nodes@).skip(idx as int),
                    value,
                );
                &&& (r is Ok <==> ok)
                &&& final(self)@ == t
            }),
            r matches Err(e) ==> e.code@ == "E_VALUE_EXISTS"@,
        decreases path_nodes@.len() - idx,
    {
        let ghost nvs = node_views(path_nodes@).skip(idx as int);
        let ghost r0 = self@;
        proof {
            assert(nvs.len() == path_nodes@.len() - idx);
            assert(nvs[0] == path_nodes@[idx as int].node_view());
        }
        let uid = path_nodes[idx].to_uid();
        let found = uid_position(&self.routes, &uid);
        let index: usize;
        match found {
            Some(i) => {
                index = i;
                proof {
                    assert(uid_index_from(r0.routes, nvs[0].uid(), 0) == Some(index as int));
                    assert(self@ == r0);
                }
            },
            None => {
                index = self.routes.len();
                let child = Route { node: Some(path_nodes[idx].clone()), routes: Vec::new(), value: None };
                let ghost cg = child;
                self.routes.push(child);
                proof {
                    assert(uid_index_from(r0.routes, nvs[0].uid(), 0) is None);
                    assert(self.routes@[index as int] == cg);
                    assert(cg.node matches Some(n) && n.node_view() == nvs[0]);
                    assert(route_view(cg).routes =~= Seq::<RouteView<V>>::empty());
                    assert(route_view(cg) =~= fresh_child(nvs[0]));
                    assert(self@.routes[index as int] =~= fresh_child(nvs[0]));
                    assert(self@.routes =~= r0.routes.push(fresh_child(nvs[0])));
                    assert(self@ =~= (RouteView {
                        routes: r0.routes.push(fresh_child(nvs[0])),
                        ..r0
                    }));
                }
            },
        }
        let ghost r1 = self@;
        if idx + 1 == path_nodes.len() {
            if self.routes[index].value.is_some() {
                proof {
                    assert(found is Some);
                    assert(r1 == r0);
                    assert(spec_register(r0, nvs, value) == (false, r0));
                }
                Err(SisoError { code: "E_VALUE_EXISTS".to_string() })
            } else {
                let ghost v0 = self.routes@;
                self.routes[index].value = Some(value);
                proof {
                    assert(self.routes@.len() == v0.len());
                    assert(self.routes@[index as int].value == Some(value));
                    assert(self.routes@[index as int].node == v0[index as int].node);
                    assert(self.routes@[index as int].routes == v0[index as int].routes);
                    assert(forall|j: int| 0 <= j < v0.len() && j != index ==> self.routes@[j] == v0[j]);
                    assert(self.routes@[index as int].routes@ == v0[index as int].routes@);
                    assert(route_view(self.routes@[index as int]).routes == route_view(
                        v0[index as int],
                    ).routes);
                    assert(route_view(self.routes@[index as int]) == (RouteView {
                        value: Some(value),
                        ..route_view(v0[index as int])
                    }));
                    assert(r1.routes[index as int] == route_view(v0[index as int]));
                    assert(self@.routes[index as int] =~= (RouteView {
                        value: Some(value),
                        ..r1.routes[index as int]
                    }));
                    assert(self@.routes =~= r1.routes.update(
                        index as int,
                        RouteView { value: Some(value), ..r1.routes[index as int] },
                    ));
                    assert(self@ =~= spec_register(r0, nvs, value).1);
                }
                Ok(())
            }
        } else {
            proof {
                assert(nvs.drop_first() =~= node_views(path_nodes@).skip(idx + 1));
            }
            let res = self.routes[index].register_from(path_nodes, idx + 1, value);
            proof {
                let (ok_c, t_c) = spec_register(r1.routes[index as int], nvs.drop_first(), value);
                assert(self@.routes =~= r1.routes.update(index as int, t_c));
                if found is None {
                    lemma_register_into_fresh(nvs[0], nvs.drop_first(), value);
                    assert(ok_c);
                }
                if ok_c {
                    assert(self@ =~= (RouteView {
                        routes: r1.routes.update(index as int, t_c),
                        ..r1
                    }));
                    assert(self@ == spec_register(r0, nvs, value).1);
                } else {
                    assert(t_c == r1.routes[index as int]);
                    assert(r1 == r0);
                    assert(self@.routes =~= r0.routes);
                    assert(self@ =~= r0);
                }
            }
            res
        }
    }

    /// Resolve a non-empty sequence of input segments to the handler stored
    /// at the node reached by descending, at each level, into the first
    /// child in insertion order that accepts the current segment.
    pub fn find(&self, path_nodes: &[String], context: FindContext) -> (r: Result<
        SisoResult<V>,
        SisoError,
    >)
        requires
            path_nodes@.len() >= 1,
        ensures
            r is Ok <==> spec_find(self@, seg_views(path_nodes@)) is Some,
            r matches Ok(res) ==> spec_find(self@, seg_views(path_nodes@)) matches Some(h)
                && cloned(h, res.handler) && res.nodes@ == context.nodes@ && res.values@
                == context.values@,
            r matches Err(e) ==> e.code@ == "E_NOT_FOUND"@,
    {
        proof {
            assert(seg_views(path_nodes@).skip(0) =~= seg_views(path_nodes@));
        }
        self.find_from(path_nodes, 0, context)
    }

    /// The lookup walk from segment `idx` on.
    fn find_from(&self, path_nodes: &[String], idx: usize, context: FindContext) -> (r: Result<
        SisoResult<V>,
        SisoError,
    >)
        requires
            idx < path_nodes@.len(),
        ensures
            r is Ok <==> spec_find(self@, seg_views(path_nodes@).skip(idx as int)) is Some,
            r matches Ok(res) ==> spec_find(
                self@,
                seg_views(path_nodes@).skip(idx as int),
            ) matches Some(h) && cloned(h, res.handler) && res.nodes@ == context.nodes@
                && res.values@ == context.values@,
            r matches Err(e) ==> e.code@ == "E_NOT_FOUND"@,
        decreases path_nodes@.len() - idx,
    {
        let ghost segs = seg_views(path_nodes@).skip(idx as int);
        proof {
            assert(segs.len() == path_nodes@.len() - idx);
            assert(segs[0] == path_nodes@[idx as int]@);
        }
        match match_position(&self.routes, &path_nodes[idx]) {
            None => Err(SisoError { code: "E_NOT_FOUND".to_string() }),
            Some(k) => {
                if idx + 1 == path_nodes.len() {
                    match &self.routes[k].value {
                        Some(value) => Ok(
                            SisoResult {
                                nodes: context.nodes,
                                values: context.values,
                                handler: value.clone(),
                            },
                        ),
                        None => Err(SisoError { code: "E_NOT_FOUND".to_string() }),
                    }
                } else {
                    proof {
                        assert(segs.drop_first() =~= seg_views(path_nodes@).skip(idx + 1));
                    }
                    self.routes[k].find_from(path_nodes, idx + 1, context)
                }
            },
        }
    }
}

/// The per-lookup accumulator: matched node identifiers and captured pattern
/// values. The walk keeps both empty; they are the extension point for
/// reporting which pattern matched and what it captured.
#[derive(Debug)]
pub struct FindContext {
    pub nodes: Vec<String>,
    pub values: Vec<(String, bool)>,
}

impl FindContext {
    pub fn new() -> (c: FindContext)
        ensures
            c.nodes@ == Seq::<String>::empty(),
            c.values@ == Seq::<(String, bool)>::empty(),
    {
        FindContext { nodes: Vec::new(), values: Vec::new() }
    }
}

} // verus!
