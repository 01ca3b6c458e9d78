//! The laws of the route tree, stated over the models in `route` and proved
//! once and for all: how registration and lookup interact across calls.
use vstd::prelude::*;

use crate::route::child_has_uid;
use crate::route::child_matches;
use crate::route::empty_route_view;
use crate::route::first_match_from;
use crate::route::fresh_child;
use crate::route::spec_find;
use crate::route::spec_register;
use crate::route::uid_index_from;
use crate::route::uid_path_matches;
use crate::route::uid_value;
use crate::route::uids_of;
use crate::route::RouteView;
use crate::find_post;
use crate::PathNodeView;
use crate::SisoError;
use crate::SisoResult;
use vstd::pervasive::cloned;

verus! {

/// What the first occurrence of an identity means: the child there carries
/// it and no earlier child does; absence means no child carries it.
proof fn lemma_uid_index_characterizes<V>(cs: Seq<RouteView<V>>, u: Seq<char>, k: int)
    requires
        0 <= k,
    ensures
        uid_index_from(cs, u, k) matches Some(i) ==> k <= i < cs.len() && child_has_uid(cs[i], u)
            && forall|j: int| k <= j < i ==> !child_has_uid(cs[j], u),
        uid_index_from(cs, u, k) is None ==> forall|j: int|
            k <= j < cs.len() ==> !child_has_uid(cs[j], u),
    decreases cs.len() - k,
{
    if k < cs.len() && !child_has_uid(cs[k], u) {
        lemma_uid_index_characterizes(cs, u, k + 1);
    }
}

/// First-match-wins, stated of the selection itself: when a child is
/// selected for a segment it accepts that segment and no child earlier in
/// insertion order does; when none is selected no child accepts it.
pub proof fn lemma_first_match_characterizes<V>(cs: Seq<RouteView<V>>, segment: Seq<char>, k: int)
    requires
        0 <= k,
    ensures
        first_match_from(cs, segment, k) matches Some(i) ==> k <= i < cs.len() && child_matches(
            cs[i],
            segment,
        ) && forall|j: int| k <= j < i ==> !child_matches(cs[j], segment),
        first_match_from(cs, segment, k) is None ==> forall|j: int|
            k <= j < cs.len() ==> !child_matches(cs[j], segment),
    decreases cs.len() - k,
{
    if k < cs.len() && !child_matches(cs[k], segment) {
        lemma_first_match_characterizes(cs, segment, k + 1);
    }
}

/// Replacing a child with one that keeps its matcher does not move the
/// first occurrence of any registration identity.
proof fn lemma_uid_index_update<V>(
    cs: Seq<RouteView<V>>,
    u: Seq<char>,
    i: int,
    c: RouteView<V>,
    k: int,
)
    requires
        0 <= i < cs.len(),
        c.node == cs[i].node,
    ensures
        uid_index_from(cs.update(i, c), u, k) == uid_index_from(cs, u, k),
    decreases cs.len() - k,
{
    let cs2 = cs.update(i, c);
    if 0 <= k < cs.len() {
        assert(child_has_uid(cs2[k], u) == child_has_uid(cs[k], u));
        if !child_has_uid(cs[k], u) {
            lemma_uid_index_update(cs, u, i, c, k + 1);
        }
    }
}

/// Appending a child leaves every earlier identity occurrence in place; a
/// previously absent identity is found at the end exactly when the new
/// child carries it.
proof fn lemma_uid_index_push<V>(cs: Seq<RouteView<V>>, u: Seq<char>, c: RouteView<V>, k: int)
    requires
        0 <= k <= cs.len(),
    ensures
        ({
            let r = uid_index_from(cs, u, k);
            let r2 = uid_index_from(cs.push(c), u, k);
            &&& (r matches Some(j) ==> r2 == Some(j))
            &&& (r is None ==> if child_has_uid(c, u) {
                r2 == Some(cs.len() as int)
            } else {
                r2 is None
            })
        }),
    decreases cs.len() - k,
{
    let cs2 = cs.push(c);
    if k == cs.len() {
        assert(cs2[k] == c);
    } else {
        assert(cs2[k] == cs[k]);
        if !child_has_uid(cs[k], u) {
            lemma_uid_index_push(cs, u, c, k + 1);
        }
    }
}

/// Replacing a child with one that keeps its matcher does not move the
/// first match of any segment.
proof fn lemma_first_match_update<V>(
    cs: Seq<RouteView<V>>,
    segment: Seq<char>,
    i: int,
    c: RouteView<V>,
    k: int,
)
    requires
        0 <= i < cs.len(),
        c.node == cs[i].node,
    ensures
        first_match_from(cs.update(i, c), segment, k) == first_match_from(cs, segment, k),
    decreases cs.len() - k,
{
    let cs2 = cs.update(i, c);
    if 0 <= k < cs.len() {
        assert(child_matches(cs2[k], segment) == child_matches(cs[k], segment));
        if !child_matches(cs[k], segment) {
            lemma_first_match_update(cs, segment, i, c, k + 1);
        }
    }
}

/// Appending a child leaves every earlier first match in place; a segment
/// previously matched by no child matches at the end exactly when the new
/// child accepts it.
proof fn lemma_first_match_push<V>(
    cs: Seq<RouteView<V>>,
    segment: Seq<char>,
    c: RouteView<V>,
    k: int,
)
    requires
        0 <= k <= cs.len(),
    ensures
        ({
            let r = first_match_from(cs, segment, k);
            let r2 = first_match_from(cs.push(c), segment, k);
            &&& (r matches Some(j) ==> r2 == Some(j))
            &&& (r is None ==> if child_matches(c, segment) {
                r2 == Some(cs.len() as int)
            } else {
                r2 is None
            })
        }),
    decreases cs.len() - k,
{
    let cs2 = cs.push(c);
    if k == cs.len() {
        assert(cs2[k] == c);
    } else {
        assert(cs2[k] == cs[k]);
        if !child_matches(cs[k], segment) {
            lemma_first_match_push(cs, segment, c, k + 1);
        }
    }
}

/// Registering never touches the root's own matcher or handler: only child
/// lists and the terminal child's handler change.
proof fn lemma_register_keeps_root<V>(r: RouteView<V>, p: Seq<PathNodeView>, v: V)
    requires
        p.len() >= 1,
    ensures
        spec_register(r, p, v).1.node == r.node,
        spec_register(r, p, v).1.value == r.value,
{
}

/// The identity path of the tail of a matcher sequence.
proof fn lemma_uids_of_drop_first(p: Seq<PathNodeView>)
    requires
        p.len() >= 1,
    ensures
        uids_of(p).drop_first() =~= uids_of(p.drop_first()),
{
}

/// An identity path that starts with the head identity and continues as the
/// tail's identity path is the whole identity path.
proof fn lemma_uids_eq_from_parts(us: Seq<Seq<char>>, p: Seq<PathNodeView>)
    requires
        us.len() >= 1,
        p.len() >= 1,
        us[0] == p[0].uid(),
        us.drop_first() == uids_of(p.drop_first()),
    ensures
        us == uids_of(p),
{
    assert(uids_of(p.drop_first()).len() == p.drop_first().len());
    assert(us.len() == p.len());
    assert forall|j: int| 0 <= j < us.len() implies us[j] == uids_of(p)[j] by {
        if j >= 1 {
            assert(us.drop_first()[j - 1] == us[j]);
            assert(uids_of(p.drop_first())[j - 1] == uids_of(p)[j]);
        }
    }
    assert(us =~= uids_of(p));
}

/// Registration succeeds exactly when the identity path does not yet store
/// a handler: a free slot is filled, an occupied one is a collision.
pub proof fn lemma_register_succeeds_iff_free<V>(r: RouteView<V>, p: Seq<PathNodeView>, v: V)
    requires
        p.len() >= 1,
    ensures
        spec_register(r, p, v).0 <==> uid_value(r, uids_of(p)) is None,
    decreases p.len(),
{
    let us = uids_of(p);
    let u = p[0].uid();
    assert(us[0] == u);
    lemma_uid_index_characterizes(r.routes, u, 0);
    match uid_index_from(r.routes, u, 0) {
        Some(i) => {
            if p.len() > 1 {
                lemma_register_succeeds_iff_free(r.routes[i], p.drop_first(), v);
                lemma_uids_of_drop_first(p);
            }
        },
        None => {
            if p.len() > 1 {
                crate::route::lemma_register_into_fresh(p[0], p.drop_first(), v);
            }
        },
    }
}

/// A successful registration stores exactly the given handler at the end of
/// its identity path.
pub proof fn lemma_register_stores_handler<V>(r: RouteView<V>, p: Seq<PathNodeView>, v: V)
    requires
        p.len() >= 1,
        spec_register(r, p, v).0,
    ensures
        uid_value(spec_register(r, p, v).1, uids_of(p)) == Some(v),
    decreases p.len(),
{
    let us = uids_of(p);
    let u = p[0].uid();
    assert(us[0] == u);
    let t = spec_register(r, p, v).1;
    lemma_uids_of_drop_first(p);
    lemma_uid_index_characterizes(r.routes, u, 0);
    match uid_index_from(r.routes, u, 0) {
        Some(i) => {
            if p.len() == 1 {
                let c = RouteView { value: Some(v), ..r.routes[i] };
                lemma_uid_index_update(r.routes, u, i, c, 0);
            } else {
                let (ok, c) = spec_register(r.routes[i], p.drop_first(), v);
                lemma_register_keeps_root(r.routes[i], p.drop_first(), v);
                lemma_uid_index_update(r.routes, u, i, c, 0);
                lemma_register_stores_handler(r.routes[i], p.drop_first(), v);
            }
        },
        None => {
            let f = fresh_child::<V>(p[0]);
            let rs1 = r.routes.push(f);
            if p.len() == 1 {
                let c = RouteView { value: Some(v), ..f };
                lemma_uid_index_push(r.routes, u, f, 0);
                lemma_uid_index_update(rs1, u, r.routes.len() as int, c, 0);
                assert(uid_index_from(t.routes, u, 0) == Some(r.routes.len() as int));
            } else {
                crate::route::lemma_register_into_fresh(p[0], p.drop_first(), v);
                let (ok, c) = spec_register(f, p.drop_first(), v);
                lemma_register_keeps_root(f, p.drop_first(), v);
                lemma_uid_index_push(r.routes, u, f, 0);
                lemma_uid_index_update(rs1, u, r.routes.len() as int, c, 0);
                assert(uid_index_from(t.routes, u, 0) == Some(r.routes.len() as int));
                lemma_register_stores_handler(f, p.drop_first(), v);
            }
        },
    }
}

/// Registering one identity path leaves the handler stored at every other
/// identity path unchanged.
pub proof fn lemma_register_keeps_other_paths<V>(
    r: RouteView<V>,
    p: Seq<PathNodeView>,
    v: V,
    us: Seq<Seq<char>>,
)
    requires
        p.len() >= 1,
        us != uids_of(p),
    ensures
        uid_value(spec_register(r, p, v).1, us) == uid_value(r, us),
    decreases p.len(),
{
    let (ok, t) = spec_register(r, p, v);
    if ok && us.len() >= 1 {
        let u = p[0].uid();
        assert(uids_of(p)[0] == u);
        lemma_uids_of_drop_first(p);
        lemma_uid_index_characterizes(r.routes, u, 0);
        lemma_uid_index_characterizes(r.routes, us[0], 0);
        match uid_index_from(r.routes, u, 0) {
            Some(i) => {
                let c = if p.len() == 1 {
                    RouteView { value: Some(v), ..r.routes[i] }
                } else {
                    spec_register(r.routes[i], p.drop_first(), v).1
                };
                if p.len() > 1 {
                    lemma_register_keeps_root(r.routes[i], p.drop_first(), v);
                }
                lemma_uid_index_update(r.routes, u, i, c, 0);
                assert(t.routes == r.routes.update(i, c));
                lemma_uid_index_update(r.routes, us[0], i, c, 0);
                match uid_index_from(r.routes, us[0], 0) {
                    None => {},
                    Some(j) => {
                        if j != i {
                            assert(t.routes[j] == r.routes[j]);
                        } else {
                            assert(child_has_uid(r.routes[i], us[0]) && child_has_uid(
                                r.routes[i],
                                u,
                            ));
                            assert(us[0] == u);
                            if us.len() == 1 {
                                if p.len() == 1 {
                                    assert(us =~= uids_of(p));
                                } else {
                                    assert(t.routes[i].value == r.routes[i].value);
                                }
                            } else {
                                if p.len() == 1 {
                                    assert(t.routes[i].routes == r.routes[i].routes);
                                    assert(uid_value(t.routes[i], us.drop_first()) == uid_value(
                                        r.routes[i],
                                        us.drop_first(),
                                    ));
                                } else {
                                    if us.drop_first() == uids_of(p.drop_first()) {
                                        lemma_uids_eq_from_parts(us, p);
                                    }
                                    lemma_register_keeps_other_paths(
                                        r.routes[i],
                                        p.drop_first(),
                                        v,
                                        us.drop_first(),
                                    );
                                }
                            }
                        }
                    },
                }
            },
            None => {
                let f = fresh_child::<V>(p[0]);
                let rs1 = r.routes.push(f);
                let i = r.routes.len() as int;
                let c = if p.len() == 1 {
                    RouteView { value: Some(v), ..f }
                } else {
                    spec_register(f, p.drop_first(), v).1
                };
                if p.len() > 1 {
                    crate::route::lemma_register_into_fresh(p[0], p.drop_first(), v);
                    lemma_register_keeps_root(f, p.drop_first(), v);
                }
                assert(t.routes == rs1.update(i, c));
                lemma_uid_index_push(r.routes, us[0], f, 0);
                lemma_uid_index_update(rs1, us[0], i, c, 0);
                match uid_index_from(r.routes, us[0], 0) {
                    Some(j) => {
                        assert(t.routes[j] == r.routes[j]);
                    },
                    None => {
                        if child_has_uid(f, us[0]) {
                            assert(us[0] == u);
                            assert(uid_index_from(t.routes, us[0], 0) == Some(i));
                            if us.len() == 1 {
                                if p.len() == 1 {
                                    assert(us =~= uids_of(p));
                                } else {
                                    assert(t.routes[i].value is None);
                                }
                            } else {
                                if p.len() == 1 {
                                    assert(t.routes[i].routes =~= Seq::<RouteView<V>>::empty());
                                    assert(uid_value(t.routes[i], us.drop_first()) is None);
                                } else {
                                    if us.drop_first() == uids_of(p.drop_first()) {
                                        lemma_uids_eq_from_parts(us, p);
                                    }
                                    lemma_register_keeps_other_paths(
                                        f,
                                        p.drop_first(),
                                        v,
                                        us.drop_first(),
                                    );
                                    assert(uid_value(f, us.drop_first()) is None);
                                }
                            }
                        }
                    },
                }
            },
        }
    }
}

/// A lookup on the empty tree a fresh router starts with resolves to
/// nothing: before any registration every lookup is a miss.
pub proof fn lemma_find_on_empty<V>(segments: Seq<Seq<char>>)
    ensures
        spec_find(empty_route_view::<V>(), segments) is None,
{
    if segments.len() >= 1 {
        assert(first_match_from(empty_route_view::<V>().routes, segments[0], 0) is None);
    }
}

/// Registering changes the outcome of at most the lookups it newly serves:
/// every lookup outcome either stays exactly as it was, or it was a miss,
/// the registration succeeded, the lookup's segments match the registered
/// identity path as it stands in the new tree, and the lookup now resolves
/// to the newly registered handler. A lookup whose segments were never
/// covered by a registration therefore remains a miss.
pub proof fn lemma_register_changes_only_new<V>(
    r: RouteView<V>,
    p: Seq<PathNodeView>,
    v: V,
    segments: Seq<Seq<char>>,
)
    requires
        p.len() >= 1,
    ensures
        ({
            let (ok, t) = spec_register(r, p, v);
            ||| spec_find(t, segments) == spec_find(r, segments)
            ||| (ok && spec_find(r, segments) is None && uid_path_matches(t, uids_of(p), segments)
                && spec_find(t, segments) == Some(v))
        }),
    decreases p.len(),
{
    let (ok, t) = spec_register(r, p, v);
    if ok && segments.len() >= 1 {
        let u = p[0].uid();
        let s0 = segments[0];
        lemma_uid_index_characterizes(r.routes, u, 0);
        match uid_index_from(r.routes, u, 0) {
            Some(i) => {
                let c = if p.len() == 1 {
                    RouteView { value: Some(v), ..r.routes[i] }
                } else {
                    spec_register(r.routes[i], p.drop_first(), v).1
                };
                if p.len() > 1 {
                    lemma_register_keeps_root(r.routes[i], p.drop_first(), v);
                }
                assert(t.routes == r.routes.update(i, c));
                lemma_first_match_update(r.routes, s0, i, c, 0);
                lemma_first_match_characterizes(r.routes, s0, 0);
                lemma_uid_index_update(r.routes, u, i, c, 0);
                lemma_uids_of_drop_first(p);
                assert(uids_of(p)[0] == u);
                assert(uid_index_from(t.routes, u, 0) == Some(i));
                match first_match_from(r.routes, s0, 0) {
                    None => {},
                    Some(j) => {
                        if j != i {
                            assert(t.routes[j] == r.routes[j]);
                        } else {
                            assert(child_matches(t.routes[i], s0));
                            if segments.len() == 1 {
                                if p.len() == 1 {
                                    assert(r.routes[i].value is None);
                                    assert(t.routes[i].value == Some(v));
                                    assert(uid_path_matches(
                                        t.routes[i],
                                        uids_of(p).drop_first(),
                                        segments.drop_first(),
                                    ));
                                    assert(uid_path_matches(t, uids_of(p), segments));
                                } else {
                                    assert(t.routes[i].value == r.routes[i].value);
                                }
                            } else {
                                if p.len() == 1 {
                                    assert(c.routes == r.routes[i].routes);
                                    assert(spec_find(c, segments.drop_first()) == spec_find(
                                        r.routes[i],
                                        segments.drop_first(),
                                    ));
                                } else {
                                    lemma_register_changes_only_new(
                                        r.routes[i],
                                        p.drop_first(),
                                        v,
                                        segments.drop_first(),
                                    );
                                    if spec_find(c, segments.drop_first()) != spec_find(
                                        r.routes[i],
                                        segments.drop_first(),
                                    ) {
                                        assert(uid_path_matches(t, uids_of(p), segments));
                                    }
                                }
                            }
                        }
                    },
                }
            },
            None => {
                let f = fresh_child::<V>(p[0]);
                let rs1 = r.routes.push(f);
                let i = r.routes.len() as int;
                let c = if p.len() == 1 {
                    RouteView { value: Some(v), ..f }
                } else {
                    spec_register(f, p.drop_first(), v).1
                };
                if p.len() > 1 {
                    crate::route::lemma_register_into_fresh(p[0], p.drop_first(), v);
                    lemma_register_keeps_root(f, p.drop_first(), v);
                }
                assert(t.routes == rs1.update(i, c));
                lemma_first_match_push(r.routes, s0, f, 0);
                lemma_first_match_update(rs1, s0, i, c, 0);
                lemma_uid_index_push(r.routes, u, f, 0);
                lemma_uid_index_update(rs1, u, i, c, 0);
                lemma_uids_of_drop_first(p);
                assert(uids_of(p)[0] == u);
                assert(child_has_uid(f, u));
                assert(uid_index_from(t.routes, u, 0) == Some(i));
                match first_match_from(r.routes, s0, 0) {
                    Some(j) => {
                        lemma_first_match_characterizes(r.routes, s0, 0);
                        assert(t.routes[j] == r.routes[j]);
                    },
                    None => {
                        if child_matches(f, s0) {
                            assert(first_match_from(t.routes, s0, 0) == Some(i));
                            assert(spec_find(r, segments) is None);
                            assert(child_matches(t.routes[i], s0));
                            if segments.len() == 1 {
                                if p.len() == 1 {
                                    assert(t.routes[i].value == Some(v));
                                    assert(uid_path_matches(
                                        t.routes[i],
                                        uids_of(p).drop_first(),
                                        segments.drop_first(),
                                    ));
                                    assert(uid_path_matches(t, uids_of(p), segments));
                                } else {
                                    assert(t.routes[i].value is None);
                                }
                            } else {
                                if p.len() == 1 {
                                    assert(c.routes =~= Seq::<RouteView<V>>::empty());
                                    assert(spec_find(c, segments.drop_first()) is None);
                                } else {
                                    lemma_register_changes_only_new(
                                        f,
                                        p.drop_first(),
                                        v,
                                        segments.drop_first(),
                                    );
                                    assert(spec_find(f, segments.drop_first()) is None);
                                    if spec_find(c, segments.drop_first()) != spec_find(
                                        f,
                                        segments.drop_first(),
                                    ) {
                                        assert(uid_path_matches(t, uids_of(p), segments));
                                    }
                                }
                            }
                        }
                    },
                }
            },
        }
    }
}

/// A successful registration never disturbs a lookup that already resolved:
/// routes registered before keep answering with their own handlers.
pub proof fn lemma_register_preserves_found<V>(
    r: RouteView<V>,
    p: Seq<PathNodeView>,
    v: V,
    segments: Seq<Seq<char>>,
    h: V,
)
    requires
        p.len() >= 1,
        spec_find(r, segments) == Some(h),
    ensures
        spec_find(spec_register(r, p, v).1, segments) == Some(h),
{
    lemma_register_changes_only_new(r, p, v, segments);
}

/// Registering keeps every existing sibling in place with its matcher, and
/// only ever appends: a node registered earlier keeps its precedence under
/// first-match-wins.
pub proof fn lemma_register_keeps_sibling_order<V>(r: RouteView<V>, p: Seq<PathNodeView>, v: V)
    requires
        p.len() >= 1,
    ensures
        ({
            let t = spec_register(r, p, v).1;
            &&& t.routes.len() >= r.routes.len()
            &&& forall|j: int| 0 <= j < r.routes.len() ==> t.routes[j].node == r.routes[j].node
        }),
{
    let (ok, t) = spec_register(r, p, v);
    if ok {
        let u = p[0].uid();
        lemma_uid_index_characterizes(r.routes, u, 0);
        match uid_index_from(r.routes, u, 0) {
            Some(i) => {
                if p.len() > 1 {
                    lemma_register_keeps_root(r.routes[i], p.drop_first(), v);
                }
            },
            None => {
                if p.len() > 1 {
                    crate::route::lemma_register_into_fresh(p[0], p.drop_first(), v);
                    lemma_register_keeps_root(fresh_child(p[0]), p.drop_first(), v);
                }
            },
        }
    }
}

/// Whether every matcher in a path is a literal.
pub open spec fn all_literals(p: Seq<PathNodeView>) -> bool {
    forall|j: int| 0 <= j < p.len() ==> p[j] is Literal
}

/// Whether every matcher in the tree, down to the given depth, is a
/// literal.
pub open spec fn literal_to_depth<V>(r: RouteView<V>, d: nat) -> bool
    decreases d,
{
    d == 0 || forall|i: int|
        0 <= i < r.routes.len() ==> ((#[trigger] r.routes[i]).node matches Some(n) && n is Literal
            && literal_to_depth(r.routes[i], (d - 1) as nat))
}

/// Among literal children, accepting a segment and carrying it as identity
/// are the same thing, so the two scans select the same child.
proof fn lemma_literal_scan_agrees<V>(cs: Seq<RouteView<V>>, s: Seq<char>, k: int)
    requires
        0 <= k,
        forall|i: int|
            0 <= i < cs.len() ==> ((#[trigger] cs[i]).node matches Some(n) && n is Literal),
    ensures
        first_match_from(cs, s, k) == uid_index_from(cs, s, k),
    decreases cs.len() - k,
{
    if 0 <= k < cs.len() {
        assert(child_matches(cs[k], s) == child_has_uid(cs[k], s));
        if !child_matches(cs[k], s) {
            lemma_literal_scan_agrees(cs, s, k + 1);
        }
    }
}

/// Whether a tree is literal to a depth depends only on its children.
proof fn lemma_literal_depth_same_routes<V>(a: RouteView<V>, b: RouteView<V>, d: nat)
    requires
        a.routes == b.routes,
    ensures
        literal_to_depth(a, d) == literal_to_depth(b, d),
{
}

/// In a tree of literal matchers, a lookup follows exactly the identity
/// path of its segments: a literal accepts a segment iff the segment is its
/// identity.
pub proof fn lemma_literal_find_follows_uids<V>(r: RouteView<V>, segments: Seq<Seq<char>>)
    requires
        literal_to_depth(r, segments.len()),
    ensures
        spec_find(r, segments) == uid_value(r, segments),
    decreases segments.len(),
{
    if segments.len() >= 1 {
        lemma_literal_scan_agrees(r.routes, segments[0], 0);
        lemma_uid_index_characterizes(r.routes, segments[0], 0);
        match uid_index_from(r.routes, segments[0], 0) {
            None => {},
            Some(i) => {
                if segments.len() > 1 {
                    assert(literal_to_depth(r.routes[i], (segments.len() - 1) as nat));
                    lemma_literal_find_follows_uids(r.routes[i], segments.drop_first());
                }
            },
        }
    }
}

/// Registering a path of literal matchers keeps a literal tree literal, to
/// any depth.
pub proof fn lemma_register_keeps_literal<V>(r: RouteView<V>, p: Seq<PathNodeView>, v: V, d: nat)
    requires
        p.len() >= 1,
        all_literals(p),
        literal_to_depth(r, d),
    ensures
        literal_to_depth(spec_register(r, p, v).1, d),
    decreases p.len(),
{
    let (ok, t) = spec_register(r, p, v);
    if ok && d >= 1 {
        let u = p[0].uid();
        lemma_uid_index_characterizes(r.routes, u, 0);
        assert(all_literals(p.drop_first())) by {
            assert(forall|j: int|
                0 <= j < p.drop_first().len() ==> p.drop_first()[j] == p[j + 1]);
        }
        match uid_index_from(r.routes, u, 0) {
            Some(i) => {
                let c = if p.len() == 1 {
                    RouteView { value: Some(v), ..r.routes[i] }
                } else {
                    spec_register(r.routes[i], p.drop_first(), v).1
                };
                assert(t.routes == r.routes.update(i, c));
                if p.len() == 1 {
                    lemma_literal_depth_same_routes(c, r.routes[i], (d - 1) as nat);
                } else {
                    lemma_register_keeps_root(r.routes[i], p.drop_first(), v);
                    lemma_register_keeps_literal(r.routes[i], p.drop_first(), v, (d - 1) as nat);
                }
                assert(literal_to_depth(c, (d - 1) as nat));
                assert(c.node matches Some(n) && n is Literal);
                assert(literal_to_depth(t, d));
            },
            None => {
                let f = fresh_child::<V>(p[0]);
                let rs1 = r.routes.push(f);
                let i = r.routes.len() as int;
                let c = if p.len() == 1 {
                    RouteView { value: Some(v), ..f }
                } else {
                    spec_register(f, p.drop_first(), v).1
                };
                assert(t.routes == rs1.update(i, c));
                assert(literal_to_depth(f, (d - 1) as nat));
                if p.len() == 1 {
                    lemma_literal_depth_same_routes(c, f, (d - 1) as nat);
                } else {
                    crate::route::lemma_register_into_fresh(p[0], p.drop_first(), v);
                    lemma_register_keeps_root(f, p.drop_first(), v);
                    lemma_register_keeps_literal(f, p.drop_first(), v, (d - 1) as nat);
                }
                assert(literal_to_depth(c, (d - 1) as nat));
                assert(c.node matches Some(n) && n is Literal);
                assert(literal_to_depth(t, d));
            },
        }
    }
}

/// Two different all-literal routes registered into a fresh router both
/// succeed, and each lookup then resolves to its own handler, without
/// interference from the other registration.
pub proof fn lemma_two_literal_routes<V>(
    p1: Seq<PathNodeView>,
    p2: Seq<PathNodeView>,
    h1: V,
    h2: V,
)
    requires
        p1.len() >= 1,
        p2.len() >= 1,
        all_literals(p1),
        all_literals(p2),
        uids_of(p1) != uids_of(p2),
    ensures
        ({
            let r0 = empty_route_view::<V>();
            let (ok1, r1) = spec_register(r0, p1, h1);
            let (ok2, r2) = spec_register(r1, p2, h2);
            &&& ok1
            &&& ok2
            &&& spec_find(r2, uids_of(p1)) == Some(h1)
            &&& spec_find(r2, uids_of(p2)) == Some(h2)
        }),
{
    let r0 = empty_route_view::<V>();
    let u1 = uids_of(p1);
    let u2 = uids_of(p2);
    assert(u1.len() == p1.len() && u2.len() == p2.len());
    assert(uid_value(r0, u1) is None && uid_value(r0, u2) is None);
    lemma_register_succeeds_iff_free(r0, p1, h1);
    let r1 = spec_register(r0, p1, h1).1;
    lemma_register_keeps_other_paths(r0, p1, h1, u2);
    lemma_register_succeeds_iff_free(r1, p2, h2);
    let r2 = spec_register(r1, p2, h2).1;
    lemma_register_stores_handler(r0, p1, h1);
    lemma_register_keeps_other_paths(r1, p2, h2, u1);
    lemma_register_stores_handler(r1, p2, h2);
    assert(literal_to_depth(r0, u1.len()));
    lemma_register_keeps_literal(r0, p1, h1, u1.len());
    lemma_register_keeps_literal(r1, p2, h2, u1.len());
    assert(literal_to_depth(r0, u2.len()));
    lemma_register_keeps_literal(r0, p1, h1, u2.len());
    lemma_register_keeps_literal(r1, p2, h2, u2.len());
    lemma_literal_find_follows_uids(r2, u1);
    lemma_literal_find_follows_uids(r2, u2);
}

/// Registering a literal route in a fresh router makes its lookup resolve
/// to its handler; registering the same route again with another handler
/// collides, leaves the tree exactly as it was, and the lookup still
/// resolves to the first handler.
pub proof fn lemma_reregister_keeps_first_handler<V>(p: Seq<PathNodeView>, h1: V, h2: V)
    requires
        p.len() >= 1,
        all_literals(p),
    ensures
        ({
            let r0 = empty_route_view::<V>();
            let (ok1, t1) = spec_register(r0, p, h1);
            let (ok2, t2) = spec_register(t1, p, h2);
            &&& ok1
            &&& spec_find(t1, uids_of(p)) == Some(h1)
            &&& !ok2
            &&& t2 == t1
            &&& spec_find(t2, uids_of(p)) == Some(h1)
        }),
{
    let r0 = empty_route_view::<V>();
    assert(uid_value(r0, uids_of(p)) is None);
    lemma_register_succeeds_iff_free(r0, p, h1);
    let t1 = spec_register(r0, p, h1).1;
    lemma_register_stores_handler(r0, p, h1);
    assert(uids_of(p).len() == p.len());
    assert(literal_to_depth(r0, uids_of(p).len()));
    lemma_register_keeps_literal(r0, p, h1, uids_of(p).len());
    lemma_literal_find_follows_uids(t1, uids_of(p));
    lemma_reregister_collides(r0, p, h1, h2);
}

/// Idempotence of lookup: any two results that a lookup can return for the
/// same unmodified tree and the same input agree — the same success or
/// failure, the same error code, and handlers cloned from the same stored
/// handler.
pub proof fn lemma_find_idempotent<V: Clone + PartialEq>(
    t: RouteView<V>,
    segments: Seq<Seq<char>>,
    r1: Result<SisoResult<V>, SisoError>,
    r2: Result<SisoResult<V>, SisoError>,
)
    requires
        find_post(t, segments, r1),
        find_post(t, segments, r2),
    ensures
        r1 is Ok <==> r2 is Ok,
        r1 matches Err(e1) ==> r2 matches Err(e2) && e1.code@ == e2.code@,
        r1 matches Ok(a) ==> r2 matches Ok(b) && a.nodes@ == b.nodes@ && a.values@ == b.values@
            && (spec_find(t, segments) matches Some(h) && cloned(h, a.handler) && cloned(
            h,
            b.handler,
        )),
{
}

/// Registering the identical identity path twice fails the second time with
/// a collision and leaves the tree exactly as the first registration built
/// it, so every later lookup still resolves as before the collision.
pub proof fn lemma_reregister_collides<V>(
    r: RouteView<V>,
    p: Seq<PathNodeView>,
    h1: V,
    h2: V,
)
    requires
        p.len() >= 1,
        spec_register(r, p, h1).0,
    ensures
        ({
            let t1 = spec_register(r, p, h1).1;
            spec_register(t1, p, h2) == (false, t1)
        }),
{
    let t1 = spec_register(r, p, h1).1;
    lemma_register_stores_handler(r, p, h1);
    lemma_register_succeeds_iff_free(t1, p, h2);
    assert(!spec_register(t1, p, h2).0);
}

} // verus!
