//! A hierarchical path router: sequences of segment matchers are registered
//! with a handler, and a concrete sequence of string segments is later
//! resolved to the handler by a greedy first-match walk over a prefix tree.
use vstd::prelude::*;

pub mod laws;
pub mod route;
pub mod rx;

use vstd::pervasive::cloned;

use route::empty_route_view;
use route::node_views;
use route::seg_views;
use route::spec_find;
use route::spec_register;
use route::FindContext;
use route::Route;
use route::RouteView;

verus! {

/// The router: a single root route with exactly two operations, `register`
/// and `find`, each a walk that starts at the root. Every lookup runs with a
/// fresh, empty context and never changes the tree.
pub struct Siso<V: Clone + PartialEq> {
    pub route: Route<V>,
}

impl<V: Clone + PartialEq> View for Siso<V> {
    type V = RouteView<V>;

    open spec fn view(&self) -> RouteView<V> {
        self.route@
    }
}

/// Everything a lookup promises of its result, as a predicate of the tree
/// model and the input alone: `Ok` exactly when the walk resolves to a
/// handler, the returned handler then a clone of the resolved one beside an
/// empty context, and `E_NOT_FOUND` otherwise.
pub open spec fn find_post<V: Clone + PartialEq>(
    t: RouteView<V>,
    segments: Seq<Seq<char>>,
    r: Result<SisoResult<V>, SisoError>,
) -> bool {
    &&& (r is Ok <==> spec_find(t, segments) is Some)
    &&& (r matches Ok(res) ==> spec_find(t, segments) matches Some(h) && cloned(h, res.handler)
        && res.nodes@ == Seq::<String>::empty() && res.values@ == Seq::<(String, bool)>::empty())
    &&& (r matches Err(e) ==> e.code@ == "E_NOT_FOUND"@)
}

impl<V: Clone + PartialEq> Siso<V> {
    /// Register a non-empty path of matchers with a handler; fails with
    /// `E_VALUE_EXISTS`, leaving the tree unchanged, exactly when the same
    /// identity path was already registered in full.
    pub fn register(&mut self, path_nodes: &[PathNode], value: V) -> (r: Result<(), SisoError>)
        requires
            path_nodes@.len() >= 1,
        ensures
            ({
                let (ok, t) = spec_register(old(self)@, node_views(path_nodes@), value);
                &&& (r is Ok <==> ok)
                &&& final(self)@ == t
            }),
            r matches Err(e) ==> e.code@ == "E_VALUE_EXISTS"@,
    {
        self.route.register(path_nodes, value)
    }

    /// Resolve a non-empty sequence of input segments; fails with
    /// `E_NOT_FOUND` when no registered path matches.
    pub fn find(&self, path_nodes: &[String]) -> (r: Result<SisoResult<V>, SisoError>)
        requires
            path_nodes@.len() >= 1,
        ensures
            find_post(self@, seg_views(path_nodes@), r),
    {
        self.route.find(path_nodes, FindContext::new())
    }

    /// An empty router: a single unmatched root with no children.
    pub fn new() -> (r: Siso<V>)
        ensures
            r@ == empty_route_view::<V>(),
    {
        let r = Siso { route: Route::new(None, None) };
        proof {
            assert(r@ =~= empty_route_view::<V>());
        }
        r
    }
}

/// The mathematical content of one path node: what it matches and the
/// registration identity under which it occupies a slot in the tree.
pub enum PathNodeView {
    Literal { text: Seq<char> },
    Pattern { name: Seq<char>, pattern: Seq<char> },
}

impl PathNodeView {
    /// The registration identity: the key that decides whether two nodes
    /// occupy the same tree slot during registration. For a literal node it
    /// is the text itself; for a pattern node it is the pattern's name, so a
    /// later registration under the same name reuses the existing subtree.
    pub open spec fn uid(self) -> Seq<char> {
        match self {
            PathNodeView::Literal { text } => text,
            PathNodeView::Pattern { name, pattern: _ } => name,
        }
    }

    /// The lookup predicate: whether this node accepts an input segment.
    /// A literal accepts exactly its own text; a pattern accepts the
    /// segments that the anchored form of its expression matches — the
    /// whole segment, never a substring.
    pub open spec fn matches_segment(self, segment: Seq<char>) -> bool {
        match self {
            PathNodeView::Literal { text } => segment == text,
            PathNodeView::Pattern { name: _, pattern } => rx::pattern_valid(
                rx::anchored_of(pattern),
            ) && rx::pattern_found(rx::anchored_of(pattern), segment),
        }
    }
}

/// One matchable path segment, with the two capabilities the tree needs:
/// a lookup predicate over input segments, and a stable registration
/// identity used only to deduplicate children while registering.
pub trait MatchPathNode: Sized {
    /// The node's mathematical content.
    spec fn node_view(&self) -> PathNodeView;

    /// Whether this node accepts the given input segment.
    fn path_node_match(&self, segment: &str) -> (b: bool)
        ensures
            b == self.node_view().matches_segment(segment@),
    ;

    /// The registration identity as an owned string.
    fn to_uid(&self) -> (u: String)
        ensures
            u@ == self.node_view().uid(),
    ;
}

impl MatchPathNode for String {
    open spec fn node_view(&self) -> PathNodeView {
        PathNodeView::Literal { text: self@ }
    }

    fn path_node_match(&self, segment: &str) -> (b: bool)
        ensures
            b == self.node_view().matches_segment(segment@),
    {
        segment.to_string() == *self
    }

    fn to_uid(&self) -> (u: String)
        ensures
            u@ == self.node_view().uid(),
    {
        self.clone()
    }
}

/// A named pattern segment. It keeps the pattern source text; construction
/// fails unless the anchored form of the pattern compiles, so matching never
/// fails to compile later.
#[derive(Debug)]
pub struct PathPattern {
    name: String,
    pattern: String,
}

impl PathPattern {
    pub fn new(name: String, pattern: String) -> (r: Result<PathPattern, SisoError>)
        ensures
            r is Ok <==> rx::pattern_valid(rx::anchored_of(pattern@)),
            r matches Ok(p) ==> p.node_view() == (PathNodeView::Pattern {
                name: name@,
                pattern: pattern@,
            }),
            r matches Err(e) ==> e.code@ == "E_INVALID_PATTERN"@,
    {
        let anchored = rx::anchor(pattern.as_str());
        if rx::compile_check(anchored.as_str()) {
            Ok(PathPattern { name, pattern })
        } else {
            Err(SisoError { code: "E_INVALID_PATTERN".to_string() })
        }
    }
}

impl Clone for PathPattern {
    fn clone(&self) -> (r: Self)
        ensures
            r == *self,
    {
        PathPattern { name: self.name.clone(), pattern: self.pattern.clone() }
    }
}

impl MatchPathNode for PathPattern {
    closed spec fn node_view(&self) -> PathNodeView {
        PathNodeView::Pattern { name: self.name@, pattern: self.pattern@ }
    }

    fn path_node_match(&self, segment: &str) -> (b: bool)
        ensures
            b == self.node_view().matches_segment(segment@),
    {
        let anchored = rx::anchor(self.pattern.as_str());
        rx::is_match(anchored.as_str(), segment)
    }

    fn to_uid(&self) -> (u: String)
        ensures
            u@ == self.node_view().uid(),
    {
        self.name.clone()
    }
}

/// The closed set of matcher kinds a tree can hold.
#[derive(Debug)]
pub enum PathNode {
    Literal(String),
    Pattern(PathPattern),
}

impl PathNode {
    /// A node that accepts exactly the given text.
    pub fn literal(text: String) -> (n: PathNode)
        ensures
            n.node_view() == (PathNodeView::Literal { text: text@ }),
    {
        PathNode::Literal(text)
    }

    /// A named node that accepts the segments its pattern matches in full;
    /// fails with `E_INVALID_PATTERN` if the pattern does not compile.
    pub fn pattern(name: String, pattern: String) -> (r: Result<PathNode, SisoError>)
        ensures
            r is Ok <==> rx::pattern_valid(rx::anchored_of(pattern@)),
            r matches Ok(n) ==> n.node_view() == (PathNodeView::Pattern {
                name: name@,
                pattern: pattern@,
            }),
            r matches Err(e) ==> e.code@ == "E_INVALID_PATTERN"@,
    {
        match PathPattern::new(name, pattern) {
            Ok(p) => Ok(PathNode::Pattern(p)),
            Err(e) => Err(e),
        }
    }
}

impl Clone for PathNode {
    fn clone(&self) -> (r: Self)
        ensures
            r == *self,
    {
        match self {
            PathNode::Literal(text) => PathNode::Literal(text.clone()),
            PathNode::Pattern(p) => PathNode::Pattern(p.clone()),
        }
    }
}

impl MatchPathNode for PathNode {
    open spec fn node_view(&self) -> PathNodeView {
        match self {
            PathNode::Literal(text) => text.node_view(),
            PathNode::Pattern(p) => p.node_view(),
        }
    }

    fn path_node_match(&self, segment: &str) -> (b: bool)
        ensures
            b == self.node_view().matches_segment(segment@),
    {
        match self {
            PathNode::Literal(text) => text.path_node_match(segment),
            PathNode::Pattern(p) => p.path_node_match(segment),
        }
    }

    fn to_uid(&self) -> (u: String)
        ensures
            u@ == self.node_view().uid(),
    {
        match self {
            PathNode::Literal(text) => text.to_uid(),
            PathNode::Pattern(p) => p.to_uid(),
        }
    }
}

/// The failure discriminator: `E_VALUE_EXISTS` when the exact path was
/// already registered, `E_NOT_FOUND` when a lookup resolves to no handler,
/// `E_INVALID_PATTERN` when a pattern does not compile.
#[derive(Debug)]
pub struct SisoError {
    pub code: String,
}

impl Clone for SisoError {
    fn clone(&self) -> (r: Self)
        ensures
            r == *self,
    {
        SisoError { code: self.code.clone() }
    }
}

/// A successful lookup: the accumulated context and the handler.
#[derive(Debug, PartialEq)]
pub struct SisoResult<V: Clone + PartialEq> {
    pub nodes: Vec<String>,
    pub values: Vec<(String, bool)>,
    pub handler: V,
}

} // verus!
