//! Route registration and dispatch. The router owns the route tree and the
//! middleware registry (name to middleware id). Building happens through
//! `register` and friends, plus `subrouter`/`merge_group` for route groups;
//! dispatch walks the tree with exact-spelling preference, then a
//! placeholder child, then a wildcard child, binds placeholder names to the
//! literal segments, and resolves the matched node's middleware names
//! against the registry, silently skipping unregistered names.

use vstd::prelude::*;
use crate::dict::{entry_views, Table};
use crate::http::HTTPMethod;
use crate::routetree::{
    defined_at, find_child, handler_of, insert_at, is_empty_node, merge_trees, mws_sel, mws_set,
    node_at, node_wf, str_in, RouteTree,
};
use crate::strutil::{
    clone_strs, drop_empty, keep_nonempty, spec_trim_char, split_by, split_str, str_eq, trim_char,
    views,
};
use crate::routetree::mw_extend;

verus! {

/// A word character, as placeholder names are made of: a letter, a digit or
/// an underscore.
pub open spec fn is_word_char(c: char) -> bool {
    ||| 97 <= c as u32 <= 122
    ||| 65 <= c as u32 <= 90
    ||| 48 <= c as u32 <= 57
    ||| c as u32 == 95
}

/// A placeholder segment: `{name}` with a non-empty word-character name.
pub open spec fn is_placeholder(seg: Seq<char>) -> bool {
    &&& seg.len() >= 3
    &&& seg[0] == '{'
    &&& seg[seg.len() - 1] == '}'
    &&& forall|i: int| 1 <= i < seg.len() - 1 ==> is_word_char(#[trigger] seg[i])
}

/// The name a placeholder segment binds.
pub open spec fn ph_name(seg: Seq<char>) -> Seq<char> {
    seg.subrange(1, seg.len() - 1)
}

/// The wildcard segment `*`.
pub open spec fn is_wildcard(seg: Seq<char>) -> bool {
    seg.len() == 1 && seg[0] == '*'
}

/// Index of the first placeholder-spelled child at or after `k`, or `-1`.
pub open spec fn find_ph(cs: Seq<RouteTree>, k: int) -> int
    decreases cs.len() - k,
{
    if k < 0 || k >= cs.len() {
        -1
    } else if is_placeholder(cs[k].path@) {
        k
    } else {
        find_ph(cs, k + 1)
    }
}

/// Index of the first wildcard child at or after `k`, or `-1`.
pub open spec fn find_wc(cs: Seq<RouteTree>, k: int) -> int
    decreases cs.len() - k,
{
    if k < 0 || k >= cs.len() {
        -1
    } else if is_wildcard(cs[k].path@) {
        k
    } else {
        find_wc(cs, k + 1)
    }
}

/// One step of path matching: prefer the exactly-spelled child, then the
/// first placeholder child (binding its name to the segment), then a
/// wildcard child, which consumes everything that remains. The result is
/// the matched node and the bindings in path order.
pub open spec fn walk(t: RouteTree, ss: Seq<Seq<char>>) -> Option<
    (RouteTree, Seq<(Seq<char>, Seq<char>)>),
>
    decreases ss.len(),
{
    if ss.len() == 0 {
        Some((t, Seq::empty()))
    } else {
        let ce = find_child(t.children@, ss[0], 0);
        if ce >= 0 {
            walk(t.children@[ce], ss.skip(1))
        } else {
            let cp = find_ph(t.children@, 0);
            if cp >= 0 {
                match walk(t.children@[cp], ss.skip(1)) {
                    Some((n, ps)) => Some(
                        (n, seq![(ph_name(t.children@[cp].path@), ss[0])] + ps),
                    ),
                    None => None,
                }
            } else {
                let cw = find_wc(t.children@, 0);
                if cw >= 0 {
                    Some((t.children@[cw], Seq::empty()))
                } else {
                    None
                }
            }
        }
    }
}

/// The dispatch decision: the handler id for the method at the matched
/// node, the placeholder bindings, and the matched node's middleware names.
/// A matched node without a handler for the method degrades to its wildcard
/// child.
pub open spec fn dispatch_spec(t: RouteTree, ss: Seq<Seq<char>>, m: HTTPMethod) -> Option<
    (u64, Seq<(Seq<char>, Seq<char>)>, Seq<String>),
> {
    match walk(t, ss) {
        None => None,
        Some((n, ps)) => match n.handlers.spec_get(m) {
            Some(h) => Some((h, ps, n.middlewares@)),
            None => {
                let cw = find_wc(n.children@, 0);
                if cw >= 0 {
                    match n.children@[cw].handlers.spec_get(m) {
                        Some(h) => Some((h, ps, n.children@[cw].middlewares@)),
                        None => None,
                    }
                } else {
                    None
                }
            },
        },
    }
}

/// The non-empty segments of a path, leading and trailing slashes dropped.
pub open spec fn route_segs(path: Seq<char>) -> Seq<Seq<char>> {
    keep_nonempty(split_by(spec_trim_char(path, '/'), seq!['/']))
}

/// The mapping a list of bindings denotes; a later binding wins.
pub open spec fn pairs_to_map(ps: Seq<(Seq<char>, Seq<char>)>) -> Map<Seq<char>, Seq<char>>
    decreases ps.len(),
{
    if ps.len() == 0 {
        Map::empty()
    } else {
        pairs_to_map(ps.drop_last()).insert(ps.last().0, ps.last().1)
    }
}

/// First registry entry for a name, scanning from the front.
pub open spec fn reg_lookup(rs: Seq<(String, u64)>, x: Seq<char>) -> Option<u64>
    decreases rs.len(),
{
    if rs.len() == 0 {
        None
    } else if rs[0].0@ == x {
        Some(rs[0].1)
    } else {
        reg_lookup(rs.skip(1), x)
    }
}

/// The ids of the registered names among `names`, in order; unregistered
/// names are skipped.
pub open spec fn resolve_spec(rs: Seq<(String, u64)>, names: Seq<String>) -> Seq<u64>
    decreases names.len(),
{
    if names.len() == 0 {
        Seq::empty()
    } else {
        match reg_lookup(rs, names[0]@) {
            Some(id) => seq![id] + resolve_spec(rs, names.skip(1)),
            None => resolve_spec(rs, names.skip(1)),
        }
    }
}

/// The outcome of dispatching a request path and method.
pub enum Dispatch {
    Found { handler: u64, params: Table, middlewares: Vec<u64> },
    NotFound,
}

/// What one registration changes: the handler now registered at the path's
/// spelling, every other (path, method) pair kept, nodes created only along
/// the path, every newly created node carrying exactly the inherited and
/// route middleware names, and the terminal's middleware set grown by
/// exactly those names.
pub open spec fn registered_effect(
    before: RouteTree,
    after: RouteTree,
    ss: Seq<Seq<char>>,
    m: HTTPMethod,
    h: u64,
    inherited: Seq<String>,
    route_mws: Seq<String>,
) -> bool {
    &&& node_wf(after)
    &&& forall|ss2: Seq<Seq<char>>, m2: HTTPMethod| #[trigger]
        handler_of(after, ss2, m2) == if ss2 == ss && m2 == m {
            Some(h)
        } else {
            handler_of(before, ss2, m2)
        }
    &&& forall|ss2: Seq<Seq<char>>| #[trigger]
        defined_at(after, ss2) <==> defined_at(before, ss2) || crate::routetree::is_prefix_of(
            ss2,
            ss,
        )
    &&& forall|ss2: Seq<Seq<char>>|
        #[trigger] defined_at(before, ss2) && ss2 != ss ==> crate::routetree::mws_of(after, ss2)
            == crate::routetree::mws_of(before, ss2)
    &&& forall|ss2: Seq<Seq<char>>| #![trigger mws_sel(after, ss2)]
        !defined_at(before, ss2) && crate::routetree::is_prefix_of(ss2, ss) && ss2 != ss
            ==> mws_set(mws_sel(after, ss2)) == mws_set(inherited) + mws_set(route_mws)
    &&& mws_set(mws_sel(after, ss)) == (if defined_at(before, ss) {
        mws_set(mws_sel(before, ss))
    } else {
        Set::<Seq<char>>::empty()
    }) + mws_set(inherited) + mws_set(route_mws)
}

pub struct Router {
    pub routes: RouteTree,
    pub registered_middlewares: Vec<(String, u64)>,
    pub middlewares: Vec<String>,
    pub prefix: String,
}

impl Router {
    /// The building-phase invariant: a well-formed tree and a deduplicated
    /// inherited middleware set.
    pub open spec fn wf(&self) -> bool {
        &&& node_wf(self.routes)
        &&& crate::routetree::distinct_strs(self.middlewares@)
    }

    /// A fresh router: empty tree, empty registry, no inherited middleware,
    /// no prefix.
    pub fn new() -> (r: Router)
        ensures
            r.wf(),
            is_empty_node(r.routes),
            r.routes.path@.len() == 0,
            r.registered_middlewares@.len() == 0,
            r.middlewares@.len() == 0,
            r.prefix@.len() == 0,
    {
        Router {
            routes: RouteTree::empty_root(),
            registered_middlewares: Vec::new(),
            middlewares: Vec::new(),
            prefix: String::new(),
        }
    }

    /// Replace the group prefix used by later registrations.
    pub fn with_prefix(&mut self, prefix: String)
        ensures
            final(self).prefix == prefix,
            final(self).routes == old(self).routes,
            final(self).middlewares == old(self).middlewares,
            final(self).registered_middlewares == old(self).registered_middlewares,
    {
        self.prefix = prefix;
    }

    /// Replace the inherited middleware set used by later registrations.
    pub fn with_middlewares(&mut self, middlewares: Vec<String>)
        requires
            crate::routetree::distinct_strs(middlewares@),
        ensures
            final(self).middlewares == middlewares,
            final(self).routes == old(self).routes,
            final(self).prefix == old(self).prefix,
            final(self).registered_middlewares == old(self).registered_middlewares,
    {
        self.middlewares = middlewares;
    }

    /// The spelling the current prefix and a path register under.
    pub open spec fn reg_segs(&self, path: Seq<char>) -> Seq<Seq<char>> {
        route_segs(self.prefix@) + route_segs(path)
    }

    /// Register `handler` for `method` at the prefix-joined path. A later
    /// registration for the same (path, method) overwrites the earlier one;
    /// nothing else changes.
    pub fn register(
        &mut self,
        path: &str,
        method: HTTPMethod,
        handler: u64,
        middlewares: Vec<String>,
    )
        requires
            old(self).wf(),
        ensures
            final(self).wf(),
            final(self).prefix == old(self).prefix,
            final(self).middlewares == old(self).middlewares,
            final(self).registered_middlewares == old(self).registered_middlewares,
            registered_effect(
                old(self).routes,
                final(self).routes,
                old(self).reg_segs(path@),
                method,
                handler,
                old(self).middlewares@,
                middlewares@,
            ),
    {
        let mut full_segs = segs_of_path(self.prefix.as_str());
        let mut path_segs = segs_of_path(path);
        full_segs.append(&mut path_segs);
        proof {
            assert(views(full_segs@) =~= self.reg_segs(path@)) by {
                assert(forall|q: int|
                    0 <= q < full_segs@.len() ==> views(full_segs@)[q] == full_segs@[q]@);
            }
        }
        let mut all = clone_strs(&self.middlewares);
        proof {
            assert(crate::routetree::distinct_strs(all@)) by {
                assert(forall|q: int| 0 <= q < all@.len() ==> all@[q]@ == self.middlewares@[q]@);
            }
        }
        let ghost base = all@;
        mw_extend(&mut all, &middlewares);
        proof {
            assert(mws_set(all@) =~= mws_set(old(self).middlewares@) + mws_set(middlewares@))
                by {
                assert forall|x: Seq<char>|
                    mws_set(all@).contains(x) <==> (mws_set(old(self).middlewares@) + mws_set(
                        middlewares@,
                    )).contains(x) by {
                    assert(str_in(all@, x) <==> str_in(base, x) || str_in(middlewares@, x));
                    assert(str_in(base, x) <==> str_in(old(self).middlewares@, x)) by {
                        if str_in(base, x) {
                            let w = choose|w: int| 0 <= w < base.len() && base[w]@ == x;
                            assert(old(self).middlewares@[w]@ == x);
                        }
                        if str_in(old(self).middlewares@, x) {
                            let w = choose|w: int|
                                0 <= w < old(self).middlewares@.len()
                                    && old(self).middlewares@[w]@ == x;
                            assert(base[w]@ == x);
                        }
                    }
                }
            }
        }
        insert_at(&mut self.routes, &full_segs, 0, method, handler, &all);
        proof {
            assert(views(full_segs@).skip(0) =~= views(full_segs@));
            let ghost reg = old(self).reg_segs(path@);
            assert(mws_set(mws_sel(self.routes, reg)) =~= (if defined_at(old(self).routes, reg) {
                mws_set(mws_sel(old(self).routes, reg))
            } else {
                Set::<Seq<char>>::empty()
            }) + mws_set(old(self).middlewares@) + mws_set(middlewares@));
            assert forall|ss2: Seq<Seq<char>>| #![trigger mws_sel(self.routes, ss2)]
                !defined_at(old(self).routes, ss2) && crate::routetree::is_prefix_of(ss2, reg)
                    && ss2 != reg implies mws_set(mws_sel(self.routes, ss2)) == mws_set(
                old(self).middlewares@,
            ) + mws_set(middlewares@) by {
                assert forall|x: Seq<char>|
                    mws_set(mws_sel(self.routes, ss2)).contains(x) <==> (mws_set(
                        old(self).middlewares@,
                    ) + mws_set(middlewares@)).contains(x) by {
                    assert(str_in(mws_sel(self.routes, ss2), x) <==> str_in(all@, x));
                    assert(mws_set(all@).contains(x) == str_in(all@, x));
                }
                assert(mws_set(mws_sel(self.routes, ss2)) =~= mws_set(old(self).middlewares@)
                    + mws_set(middlewares@));
            }
        }
    }

    /// Register a GET route.
    pub fn get(&mut self, path: &str, handler: u64, middlewares: Option<Vec<String>>)
        requires
            old(self).wf(),
        ensures
            final(self).wf(),
            final(self).prefix == old(self).prefix,
            final(self).middlewares == old(self).middlewares,
            final(self).registered_middlewares == old(self).registered_middlewares,
            registered_effect(
                old(self).routes,
                final(self).routes,
                old(self).reg_segs(path@),
                HTTPMethod::GET,
                handler,
                old(self).middlewares@,
                match middlewares {
                    Some(ms) => ms@,
                    None => Seq::empty(),
                },
            ),
    {
        match middlewares {
            Some(ms) => self.register(path, HTTPMethod::GET, handler, ms),
            None => {
                let ms: Vec<String> = Vec::new();
                self.register(path, HTTPMethod::GET, handler, ms);
            },
        }
    }

    /// Register a POST route.
    pub fn post(&mut self, path: &str, handler: u64, middlewares: Option<Vec<String>>)
        requires
            old(self).wf(),
        ensures
            final(self).wf(),
            final(self).prefix == old(self).prefix,
            final(self).middlewares == old(self).middlewares,
            final(self).registered_middlewares == old(self).registered_middlewares,
            registered_effect(
                old(self).routes,
                final(self).routes,
                old(self).reg_segs(path@),
                HTTPMethod::POST,
                handler,
                old(self).middlewares@,
                match middlewares {
                    Some(ms) => ms@,
                    None => Seq::empty(),
                },
            ),
    {
        match middlewares {
            Some(ms) => self.register(path, HTTPMethod::POST, handler, ms),
            None => {
                let ms: Vec<String> = Vec::new();
                self.register(path, HTTPMethod::POST, handler, ms);
            },
        }
    }

    /// Register a PUT route.
    pub fn put(&mut self, path: &str, handler: u64, middlewares: Option<Vec<String>>)
        requires
            old(self).wf(),
        ensures
            final(self).wf(),
            final(self).prefix == old(self).prefix,
            final(self).middlewares == old(self).middlewares,
            final(self).registered_middlewares == old(self).registered_middlewares,
            registered_effect(
                old(self).routes,
                final(self).routes,
                old(self).reg_segs(path@),
                HTTPMethod::PUT,
                handler,
                old(self).middlewares@,
                match middlewares {
                    Some(ms) => ms@,
                    None => Seq::empty(),
                },
            ),
    {
        match middlewares {
            Some(ms) => self.register(path, HTTPMethod::PUT, handler, ms),
            None => {
                let ms: Vec<String> = Vec::new();
                self.register(path, HTTPMethod::PUT, handler, ms);
            },
        }
    }

    /// Register a DELETE route.
    pub fn delete(&mut self, path: &str, handler: u64, middlewares: Option<Vec<String>>)
        requires
            old(self).wf(),
        ensures
            final(self).wf(),
            final(self).prefix == old(self).prefix,
            final(self).middlewares == old(self).middlewares,
            final(self).registered_middlewares == old(self).registered_middlewares,
            registered_effect(
                old(self).routes,
                final(self).routes,
                old(self).reg_segs(path@),
                HTTPMethod::DELETE,
                handler,
                old(self).middlewares@,
                match middlewares {
                    Some(ms) => ms@,
                    None => Seq::empty(),
                },
            ),
    {
        match middlewares {
            Some(ms) => self.register(path, HTTPMethod::DELETE, handler, ms),
            None => {
                let ms: Vec<String> = Vec::new();
                self.register(path, HTTPMethod::DELETE, handler, ms);
            },
        }
    }

    /// Register a PATCH route.
    pub fn patch(&mut self, path: &str, handler: u64, middlewares: Option<Vec<String>>)
        requires
            old(self).wf(),
        ensures
            final(self).wf(),
            final(self).prefix == old(self).prefix,
            final(self).middlewares == old(self).middlewares,
            final(self).registered_middlewares == old(self).registered_middlewares,
            registered_effect(
                old(self).routes,
                final(self).routes,
                old(self).reg_segs(path@),
                HTTPMethod::PATCH,
                handler,
                old(self).middlewares@,
                match middlewares {
                    Some(ms) => ms@,
                    None => Seq::empty(),
                },
            ),
    {
        match middlewares {
            Some(ms) => self.register(path, HTTPMethod::PATCH, handler, ms),
            None => {
                let ms: Vec<String> = Vec::new();
                self.register(path, HTTPMethod::PATCH, handler, ms);
            },
        }
    }

    /// Bind a middleware id to a name; a later registration for the same
    /// name wins, and never fails.
    pub fn register_middleware(&mut self, name: String, handler: u64)
        ensures
            final(self).routes == old(self).routes,
            final(self).middlewares == old(self).middlewares,
            final(self).prefix == old(self).prefix,
            forall|x: Seq<char>| #[trigger]
                reg_lookup(final(self).registered_middlewares@, x) == if x == name@ {
                    Some(handler)
                } else {
                    reg_lookup(old(self).registered_middlewares@, x)
                },
    {
        let ghost pre = self.registered_middlewares@;
        self.registered_middlewares.insert(0, (name, handler));
        proof {
            assert(self.registered_middlewares@.skip(1) =~= pre);
        }
    }

    /// An isolated sub-router for a route group: its prefix is the parent
    /// prefix joined with `path`, its inherited middleware set is the
    /// parent's set unioned with the group's own, its tree starts empty.
    pub fn subrouter(&self, path: &str, middlewares: Vec<String>) -> (r: Router)
        requires
            self.wf(),
        ensures
            r.wf(),
            is_empty_node(r.routes),
            r.prefix@ == self.prefix@ + seq!['/'] + path@,
            mws_set(r.middlewares@) == mws_set(self.middlewares@) + mws_set(middlewares@),
            mws_set(self.middlewares@).subset_of(mws_set(r.middlewares@)),
            r.registered_middlewares@.len() == 0,
    {
        let mut joined = self.prefix.clone();
        joined.append("/");
        joined.append(path);
        proof {
            reveal_strlit("/");
            assert(joined@ =~= self.prefix@ + seq!['/'] + path@);
        }
        let mut inherited = clone_strs(&self.middlewares);
        proof {
            assert(crate::routetree::distinct_strs(inherited@)) by {
                assert(forall|q: int|
                    0 <= q < inherited@.len() ==> inherited@[q]@ == self.middlewares@[q]@);
            }
        }
        let ghost base = inherited@;
        mw_extend(&mut inherited, &middlewares);
        let r = Router {
            routes: RouteTree::empty_root(),
            registered_middlewares: Vec::new(),
            middlewares: inherited,
            prefix: joined,
        };
        proof {
            assert(mws_set(r.middlewares@) =~= mws_set(self.middlewares@) + mws_set(
                middlewares@,
            )) by {
                assert forall|x: Seq<char>|
                    mws_set(r.middlewares@).contains(x) <==> (mws_set(self.middlewares@)
                        + mws_set(middlewares@)).contains(x) by {
                    assert(str_in(r.middlewares@, x) <==> str_in(base, x) || str_in(
                        middlewares@,
                        x,
                    ));
                    assert(str_in(base, x) <==> str_in(self.middlewares@, x)) by {
                        if str_in(base, x) {
                            let w = choose|w: int| 0 <= w < base.len() && base[w]@ == x;
                            assert(self.middlewares@[w]@ == x);
                        }
                        if str_in(self.middlewares@, x) {
                            let w = choose|w: int|
                                0 <= w < self.middlewares@.len() && self.middlewares@[w]@ == x;
                            assert(base[w]@ == x);
                        }
                    }
                }
            }
            assert(mws_set(self.middlewares@).subset_of(mws_set(r.middlewares@)));
        }
        r
    }

    /// Fold a sub-router's finished tree into this router's tree. The
    /// effect is exact: at every spelling path the handler is the
    /// sub-tree's where it has one and the old one otherwise, nodes exist
    /// exactly where one existed in either tree, and middleware sets are
    /// exactly the union — so everything already registered here survives,
    /// and a name the sub-tree holds nowhere is added nowhere. Merging an
    /// untouched sub-router changes nothing.
    pub fn merge_group(&mut self, sub: Router)
        requires
            old(self).wf(),
            sub.wf(),
        ensures
            final(self).wf(),
            final(self).prefix == old(self).prefix,
            final(self).middlewares == old(self).middlewares,
            final(self).registered_middlewares == old(self).registered_middlewares,
            forall|ss: Seq<Seq<char>>, m2: HTTPMethod| #[trigger]
                handler_of(final(self).routes, ss, m2) == match handler_of(sub.routes, ss, m2) {
                    Some(hh) => Some(hh),
                    None => handler_of(old(self).routes, ss, m2),
                },
            forall|ss: Seq<Seq<char>>| #[trigger]
                defined_at(final(self).routes, ss) <==> defined_at(old(self).routes, ss)
                    || defined_at(sub.routes, ss),
            forall|ss: Seq<Seq<char>>| #[trigger]
                mws_set(mws_sel(final(self).routes, ss)) == mws_set(mws_sel(old(self).routes, ss))
                    + mws_set(mws_sel(sub.routes, ss)),
            forall|ss: Seq<Seq<char>>| #[trigger]
                defined_at(sub.routes, ss) ==> defined_at(final(self).routes, ss) && mws_set(
                    mws_sel(sub.routes, ss),
                ).subset_of(mws_set(mws_sel(final(self).routes, ss))),
            is_empty_node(sub.routes) ==> final(self).routes == old(self).routes,
    {
        let ghost troutes = sub.routes;
        merge_trees(&mut self.routes, sub.routes);
        proof {
            assert forall|ss: Seq<Seq<char>>| #[trigger]
                defined_at(troutes, ss) implies defined_at(self.routes, ss) && mws_set(
                mws_sel(troutes, ss),
            ).subset_of(mws_set(mws_sel(self.routes, ss))) by {
                assert(mws_set(mws_sel(self.routes, ss)) == mws_set(
                    mws_sel(old(self).routes, ss),
                ) + mws_set(mws_sel(troutes, ss)));
            }
        }
    }
}

/// The route segments of a request or registration path.
pub fn segs_of_path(path: &str) -> (r: Vec<String>)
    ensures
        views(r@) == route_segs(path@),
{
    let trimmed = trim_char(path, '/');
    proof {
        reveal_strlit("/");
        assert("/"@ =~= seq!['/']);
    }
    let parts = split_str(trimmed.as_str(), "/");
    drop_empty(parts)
}

/// Whether a segment is spelled as a placeholder, `{name}`.
pub fn is_placeholder_seg(s: &str) -> (r: bool)
    ensures
        r == is_placeholder(s@),
{
    let n = s.unicode_len();
    if n < 3 {
        return false;
    }
    if s.get_char(0) != '{' || s.get_char(n - 1) != '}' {
        return false;
    }
    let mut i: usize = 1;
    while i < n - 1
        invariant
            1 <= i <= n - 1,
            n == s@.len(),
            n >= 3,
            forall|j: int| 1 <= j < i ==> is_word_char(#[trigger] s@[j]),
        decreases n - i,
    {
        let c = s.get_char(i);
        let u = c as u32;
        if !((97 <= u && u <= 122) || (65 <= u && u <= 90) || (48 <= u && u <= 57) || u == 95) {
            assert(!is_word_char(s@[i as int]));
            return false;
        }
        i = i + 1;
    }
    true
}

/// Drop one pair of surrounding braces, if both are present.
pub open spec fn spec_strip_braces(s: Seq<char>) -> Seq<char> {
    if s.len() >= 2 && s[0] == '{' && s[s.len() - 1] == '}' {
        s.subrange(1, s.len() - 1)
    } else {
        s
    }
}

pub fn strip_braces(s: &str) -> (r: String)
    ensures
        r@ == spec_strip_braces(s@),
{
    let n = s.unicode_len();
    if n >= 2 && s.get_char(0) == '{' && s.get_char(n - 1) == '}' {
        crate::strutil::substring(s, 1, n - 1)
    } else {
        s.to_owned()
    }
}

/// Position of the first placeholder-spelled child.
fn placeholder_position(t: &RouteTree) -> (r: Option<usize>)
    ensures
        match r {
            Some(i) => i < t.children@.len() && find_ph(t.children@, 0) == i as int,
            None => find_ph(t.children@, 0) == -1,
        },
{
    let n = t.children.len();
    let mut i: usize = 0;
    while i < n
        invariant
            i <= n,
            n == t.children@.len(),
            forall|j: int| 0 <= j < i ==> !is_placeholder(#[trigger] t.children@[j].path@),
        decreases n - i,
    {
        if is_placeholder_seg(t.children[i].path.as_str()) {
            proof {
                lemma_find_ph_from(t.children@, 0, i as int);
            }
            return Some(i);
        }
        i = i + 1;
    }
    proof {
        lemma_find_ph_none(t.children@, 0);
    }
    None
}

proof fn lemma_find_ph_props(cs: Seq<RouteTree>, k: int)
    requires
        0 <= k,
    ensures
        find_ph(cs, k) >= 0 ==> k <= find_ph(cs, k) < cs.len() && is_placeholder(
            cs[find_ph(cs, k)].path@,
        ),
    decreases cs.len() - k,
{
    if k < cs.len() && !is_placeholder(cs[k].path@) {
        lemma_find_ph_props(cs, k + 1);
    }
}

proof fn lemma_find_ph_from(cs: Seq<RouteTree>, k: int, i: int)
    requires
        0 <= k <= i < cs.len(),
        is_placeholder(cs[i].path@),
        forall|j: int| k <= j < i ==> !is_placeholder(#[trigger] cs[j].path@),
    ensures
        find_ph(cs, k) == i,
    decreases i - k,
{
    if k < i {
        lemma_find_ph_from(cs, k + 1, i);
    }
}

proof fn lemma_find_ph_none(cs: Seq<RouteTree>, k: int)
    requires
        0 <= k,
        forall|j: int| k <= j < cs.len() ==> !is_placeholder(#[trigger] cs[j].path@),
    ensures
        find_ph(cs, k) == -1,
    decreases cs.len() - k,
{
    if k < cs.len() {
        lemma_find_ph_none(cs, k + 1);
    }
}

/// Position of the first wildcard child.
fn wildcard_position(t: &RouteTree) -> (r: Option<usize>)
    ensures
        match r {
            Some(i) => i < t.children@.len() && find_wc(t.children@, 0) == i as int,
            None => find_wc(t.children@, 0) == -1,
        },
{
    proof {
        reveal_strlit("*");
        assert("*"@ =~= seq!['*']);
    }
    let n = t.children.len();
    let mut i: usize = 0;
    while i < n
        invariant
            i <= n,
            n == t.children@.len(),
            forall|j: int| 0 <= j < i ==> !is_wildcard(#[trigger] t.children@[j].path@),
        decreases n - i,
    {
        if str_eq(t.children[i].path.as_str(), "*") {
            proof {
                reveal_strlit("*");
                assert(is_wildcard(t.children@[i as int].path@));
                lemma_find_wc_from(t.children@, 0, i as int);
            }
            return Some(i);
        }
        proof {
            reveal_strlit("*");
            assert(!is_wildcard(t.children@[i as int].path@)) by {
                if is_wildcard(t.children@[i as int].path@) {
                    assert(t.children@[i as int].path@ =~= "*"@);
                }
            }
        }
        i = i + 1;
    }
    proof {
        lemma_find_wc_none(t.children@, 0);
    }
    None
}

proof fn lemma_find_wc_from(cs: Seq<RouteTree>, k: int, i: int)
    requires
        0 <= k <= i < cs.len(),
        is_wildcard(cs[i].path@),
        forall|j: int| k <= j < i ==> !is_wildcard(#[trigger] cs[j].path@),
    ensures
        find_wc(cs, k) == i,
    decreases i - k,
{
    if k < i {
        lemma_find_wc_from(cs, k + 1, i);
    }
}

proof fn lemma_find_wc_none(cs: Seq<RouteTree>, k: int)
    requires
        0 <= k,
        forall|j: int| k <= j < cs.len() ==> !is_wildcard(#[trigger] cs[j].path@),
    ensures
        find_wc(cs, k) == -1,
    decreases cs.len() - k,
{
    if k < cs.len() {
        lemma_find_wc_none(cs, k + 1);
    }
}

/// First registry entry for a name.
fn reg_find(rs: &Vec<(String, u64)>, x: &str) -> (r: Option<u64>)
    ensures
        r == reg_lookup(rs@, x@),
{
    broadcast use vstd::seq_lib::lemma_seq_skip_index;

    let n = rs.len();
    let mut i: usize = 0;
    assert(rs@.skip(0) =~= rs@);
    while i < n
        invariant
            i <= n,
            n == rs@.len(),
            reg_lookup(rs@, x@) == reg_lookup(rs@.skip(i as int), x@),
        decreases n - i,
    {
        proof {
            assert(rs@.skip(i as int)[0] == rs@[i as int]);
            assert(rs@.skip(i as int).skip(1) =~= rs@.skip(i + 1));
        }
        if str_eq(rs[i].0.as_str(), x) {
            return Some(rs[i].1);
        }
        i = i + 1;
    }
    assert(rs@.skip(n as int) =~= Seq::<(String, u64)>::empty());
    None
}

impl Router {
    /// Decide a request: walk the tree on the path's segments, bind the
    /// placeholders, fall back to a wildcard child when the matched node
    /// lacks a handler for the method, and resolve the matched node's
    /// middleware names in registry order, skipping unregistered names.
    /// The outcome is exactly `dispatch_spec` on the route tree.
    pub fn dispatch(&self, path: &str, method: HTTPMethod) -> (r: Dispatch)
        ensures
            match r {
                Dispatch::Found { handler, params, middlewares } => {
                    &&& dispatch_spec(self.routes, route_segs(path@), method) matches Some(d)
                        && handler == d.0 && params@ == pairs_to_map(d.1) && middlewares@
                        == resolve_spec(self.registered_middlewares@, d.2)
                    &&& params.wf()
                },
                Dispatch::NotFound => dispatch_spec(
                    self.routes,
                    route_segs(path@),
                    method,
                ) is None,
            },
    {
        broadcast use vstd::seq_lib::lemma_seq_skip_index;

        let segs = segs_of_path(path);
        let ghost all_ss = route_segs(path@);
        let n = segs.len();
        let mut cur: &RouteTree = &self.routes;
        let mut plist: Vec<(String, String)> = Vec::new();
        let mut i: usize = 0;
        let mut failed = false;
        let mut stopped = false;
        proof {
            assert(all_ss.skip(0) =~= all_ss);
            assert(entry_views(plist@) + Seq::<(Seq<char>, Seq<char>)>::empty() =~= entry_views(
                plist@,
            ));
        }
        while i < n && !failed && !stopped
            invariant
                i <= n,
                n == segs@.len(),
                views(segs@) == all_ss,
                !failed && !stopped ==> walk(self.routes, all_ss) == walk_extend(
                    entry_views(plist@),
                    walk(*cur, all_ss.skip(i as int)),
                ),
                stopped ==> walk(self.routes, all_ss) == Some(
                    (*cur, entry_views(plist@)),
                ),
                failed ==> walk(self.routes, all_ss) is None,
            decreases n - i, (if failed || stopped { 0int } else { 1int }),
        {
            let ghost sfx = all_ss.skip(i as int);
            proof {
                assert(sfx.len() == n - i);
                assert(sfx[0] == all_ss[i as int]);
                assert(all_ss[i as int] == segs@[i as int]@);
                assert(sfx.skip(1) =~= all_ss.skip(i + 1));
            }
            match cur.child_position(segs[i].as_str()) {
                Some(ci) => {
                    proof {
                        assert(walk(*cur, sfx) == walk(
                            cur.children@[ci as int],
                            sfx.skip(1),
                        ));
                    }
                    cur = &cur.children[ci];
                    i = i + 1;
                },
                None => {
                    match placeholder_position(cur) {
                        Some(pi) => {
                            let name = strip_braces(cur.children[pi].path.as_str());
                            let ghost pre = plist@;
                            let seg_val = segs[i].clone();
                            plist.push((name, seg_val));
                            proof {
                                let child = cur.children@[pi as int];
                                lemma_find_ph_props(cur.children@, 0);
                                assert(is_placeholder(child.path@));
                                assert(name@ == ph_name(child.path@));
                                assert(entry_views(plist@) =~= entry_views(pre) + seq![
                                    (ph_name(child.path@), sfx[0]),
                                ]);
                                lemma_walk_ph_step(
                                    self.routes,
                                    *cur,
                                    child,
                                    all_ss,
                                    sfx,
                                    pre,
                                    pi as int,
                                );
                            }
                            cur = &cur.children[pi];
                            i = i + 1;
                        },
                        None => {
                            match wildcard_position(cur) {
                                Some(wi) => {
                                    proof {
                                        assert(walk(*cur, sfx) == Some(
                                            (
                                                cur.children@[wi as int],
                                                Seq::<(Seq<char>, Seq<char>)>::empty(),
                                            ),
                                        ));
                                        assert(entry_views(plist@) + Seq::<
                                            (Seq<char>, Seq<char>),
                                        >::empty() =~= entry_views(plist@));
                                    }
                                    cur = &cur.children[wi];
                                    stopped = true;
                                },
                                None => {
                                    proof {
                                        assert(walk(*cur, sfx) is None);
                                    }
                                    failed = true;
                                },
                            }
                        },
                    }
                },
            }
        }
        if failed {
            return Dispatch::NotFound;
        }
        proof {
            if !stopped {
                assert(all_ss.skip(n as int) =~= Seq::<Seq<char>>::empty());
                assert(walk(*cur, all_ss.skip(n as int)) == Some(
                    (*cur, Seq::<(Seq<char>, Seq<char>)>::empty()),
                ));
                assert(entry_views(plist@) + Seq::<(Seq<char>, Seq<char>)>::empty()
                    =~= entry_views(plist@));
                assert(walk(self.routes, all_ss) == Some((*cur, entry_views(plist@))));
            }
        }
        let mut target: &RouteTree = cur;
        let mut handler_found: Option<u64> = cur.handlers.lookup(method);
        if handler_found.is_none() {
            match wildcard_position(cur) {
                Some(wi) => {
                    let wc = &cur.children[wi];
                    match wc.handlers.lookup(method) {
                        Some(h) => {
                            target = wc;
                            handler_found = Some(h);
                        },
                        None => {
                            return Dispatch::NotFound;
                        },
                    }
                },
                None => {
                    return Dispatch::NotFound;
                },
            }
        }
        let h = handler_found.unwrap();
        // bind the placeholder values, a later binding winning
        let mut params = Table::new();
        let ghost plist0 = plist@;
        let mut rest = plist;
        proof {
            assert(entry_views(rest@) =~= entry_views(plist0));
            assert(plist0.subrange(0, 0) =~= Seq::<(String, String)>::empty());
            assert(pairs_to_map(entry_views(plist0.subrange(0, 0))) =~= Map::<
                Seq<char>,
                Seq<char>,
            >::empty());
        }
        let ghost mut done: int = 0;
        while rest.len() > 0
            invariant
                0 <= done <= plist0.len(),
                rest@ == plist0.skip(done),
                params.wf(),
                params@ == pairs_to_map(entry_views(plist0.subrange(0, done))),
            decreases rest.len(),
        {
            let p = rest.remove(0);
            proof {
                assert(p == plist0[done]);
                assert(rest@ =~= plist0.skip(done + 1));
            }
            params.insert(p.0, p.1);
            proof {
                let prev = plist0.subrange(0, done);
                let nxt = plist0.subrange(0, done + 1);
                assert(entry_views(nxt).drop_last() =~= entry_views(prev));
                assert(entry_views(nxt).last() == (plist0[done].0@, plist0[done].1@));
                done = done + 1;
            }
        }
        proof {
            assert(plist0.subrange(0, plist0.len() as int) =~= plist0);
        }
        // resolve the matched node's middleware names
        let mut mids: Vec<u64> = Vec::new();
        let ghost names = target.middlewares@;
        let mn = target.middlewares.len();
        let mut j: usize = 0;
        proof {
            assert(names.skip(0) =~= names);
        }
        while j < mn
            invariant
                j <= mn,
                mn == names.len(),
                names == target.middlewares@,
                resolve_spec(self.registered_middlewares@, names) == mids@ + resolve_spec(
                    self.registered_middlewares@,
                    names.skip(j as int),
                ),
            decreases mn - j,
        {
            let ghost pre = mids@;
            proof {
                assert(names.skip(j as int)[0] == names[j as int]);
                assert(names.skip(j as int).skip(1) =~= names.skip(j + 1));
            }
            match reg_find(&self.registered_middlewares, target.middlewares[j].as_str()) {
                Some(id) => {
                    mids.push(id);
                    proof {
                        assert(mids@ =~= pre + seq![id]);
                        assert(pre + (seq![id] + resolve_spec(
                            self.registered_middlewares@,
                            names.skip(j + 1),
                        )) =~= mids@ + resolve_spec(
                            self.registered_middlewares@,
                            names.skip(j + 1),
                        ));
                    }
                },
                None => {},
            }
            j = j + 1;
        }
        proof {
            assert(names.skip(mn as int) =~= Seq::<String>::empty());
            assert(mids@ + Seq::<u64>::empty() =~= mids@);
        }
        Dispatch::Found { handler: h, params, middlewares: mids }
    }
}

/// How one placeholder step rewrites the walk-composition invariant.
proof fn lemma_walk_ph_step(
    root: RouteTree,
    cur: RouteTree,
    child: RouteTree,
    all_ss: Seq<Seq<char>>,
    sfx: Seq<Seq<char>>,
    pre: Seq<(String, String)>,
    pi: int,
)
    requires
        sfx.len() > 0,
        find_child(cur.children@, sfx[0], 0) == -1,
        find_ph(cur.children@, 0) == pi,
        0 <= pi < cur.children@.len(),
        cur.children@[pi] == child,
        walk(root, all_ss) == walk_extend(entry_views(pre), walk(cur, sfx)),
    ensures
        walk(root, all_ss) == walk_extend(
            entry_views(pre) + seq![(ph_name(child.path@), sfx[0])],
            walk(child, sfx.skip(1)),
        ),
{
    let binding = (ph_name(child.path@), sfx[0]);
    match walk(child, sfx.skip(1)) {
        Some((n, ps)) => {
            assert(walk(cur, sfx) == Some((n, seq![binding] + ps)));
            assert(entry_views(pre) + (seq![binding] + ps) =~= (entry_views(pre) + seq![
                binding,
            ]) + ps);
        },
        None => {
            assert(walk(cur, sfx) is None);
        },
    }
}

/// Compose accumulated bindings onto a walk outcome.
pub open spec fn walk_extend(
    acc: Seq<(Seq<char>, Seq<char>)>,
    r: Option<(RouteTree, Seq<(Seq<char>, Seq<char>)>)>,
) -> Option<(RouteTree, Seq<(Seq<char>, Seq<char>)>)> {
    match r {
        None => None,
        Some((n, ps)) => Some((n, acc + ps)),
    }
}

/// A statically registered spelling dispatches to exactly its handler: the
/// walk follows the exact chain, binds nothing, and hands back the
/// terminal node's middleware names.
pub proof fn lemma_static_dispatch(t: RouteTree, ss: Seq<Seq<char>>, m: HTTPMethod)
    requires
        handler_of(t, ss, m) is Some,
    ensures
        dispatch_spec(t, ss, m) matches Some(d) && d.0 == handler_of(t, ss, m)->0 && d.1
            == Seq::<(Seq<char>, Seq<char>)>::empty() && d.2 == mws_sel(t, ss),
{
    lemma_static_walk(t, ss);
}

/// A defined static spelling is walked exactly, with no bindings.
pub proof fn lemma_static_walk(t: RouteTree, ss: Seq<Seq<char>>)
    requires
        defined_at(t, ss),
    ensures
        walk(t, ss) == Some((node_at(t, ss)->0, Seq::<(Seq<char>, Seq<char>)>::empty())),
    decreases ss.len(),
{
    if ss.len() > 0 {
        let c = find_child(t.children@, ss[0], 0);
        assert(c >= 0);
        lemma_static_walk(t.children@[c], ss.skip(1));
    }
}

/// A registered route dispatches to exactly its handler: after a
/// registration whose effect is `registered_effect`, dispatching the
/// registered spelling with the registered method finds that handler, with
/// no placeholder bindings; and by the same effect every other
/// (path, method) pair answers as it did before the registration.
pub proof fn lemma_registered_route_dispatches(
    before: RouteTree,
    after: RouteTree,
    ss: Seq<Seq<char>>,
    m: HTTPMethod,
    h: u64,
    inherited: Seq<String>,
    route_mws: Seq<String>,
)
    requires
        registered_effect(before, after, ss, m, h, inherited, route_mws),
    ensures
        dispatch_spec(after, ss, m) matches Some(d) && d.0 == h && d.1 == Seq::<
            (Seq<char>, Seq<char>),
        >::empty(),
{
    assert(handler_of(after, ss, m) == Some(h));
    lemma_static_dispatch(after, ss, m);
}

/// A middleware name inherited from a route group reaches dispatch: if the
/// name's set at the group's node carried over into the merged tree (as
/// `merge_group` ensures), and the name is registered, its id stands in
/// the dispatch outcome of the route.
pub proof fn lemma_group_middleware_dispatched(
    r: Router,
    sub_tree: RouteTree,
    ss: Seq<Seq<char>>,
    m: HTTPMethod,
    x: Seq<char>,
    id: u64,
)
    requires
        handler_of(r.routes, ss, m) is Some,
        mws_set(mws_sel(sub_tree, ss)).contains(x),
        mws_set(mws_sel(sub_tree, ss)).subset_of(mws_set(mws_sel(r.routes, ss))),
        reg_lookup(r.registered_middlewares@, x) == Some(id),
    ensures
        dispatch_spec(r.routes, ss, m) matches Some(d) && resolve_spec(
            r.registered_middlewares@,
            d.2,
        ).contains(id),
{
    assert(mws_set(mws_sel(r.routes, ss)).contains(x));
    lemma_dispatch_carries_mws(r, ss, m, x, id);
}

/// A registered middleware name in the matched node's set reaches the
/// dispatch outcome: its id stands in the resolved list.
pub proof fn lemma_dispatch_carries_mws(
    r: Router,
    ss: Seq<Seq<char>>,
    m: HTTPMethod,
    x: Seq<char>,
    id: u64,
)
    requires
        handler_of(r.routes, ss, m) is Some,
        mws_set(mws_sel(r.routes, ss)).contains(x),
        reg_lookup(r.registered_middlewares@, x) == Some(id),
    ensures
        dispatch_spec(r.routes, ss, m) matches Some(d) && resolve_spec(
            r.registered_middlewares@,
            d.2,
        ).contains(id),
{
    lemma_static_dispatch(r.routes, ss, m);
    assert(str_in(mws_sel(r.routes, ss), x));
    lemma_resolve_contains(r.registered_middlewares@, mws_sel(r.routes, ss), x, id);
}

/// Resolution never invents an id: a middleware id reaches the outcome
/// only through some name in the matched node's set that the registry
/// binds to it.
pub proof fn lemma_resolve_absent(rs: Seq<(String, u64)>, names: Seq<String>, id: u64)
    requires
        forall|j: int| 0 <= j < names.len() ==> reg_lookup(rs, (#[trigger] names[j])@) != Some(
            id,
        ),
    ensures
        !resolve_spec(rs, names).contains(id),
    decreases names.len(),
{
    broadcast use vstd::seq_lib::lemma_seq_skip_index;

    if names.len() > 0 {
        assert forall|j: int| 0 <= j < names.skip(1).len() implies reg_lookup(
            rs,
            (#[trigger] names.skip(1)[j])@,
        ) != Some(id) by {
            assert(names.skip(1)[j] == names[j + 1]);
        }
        lemma_resolve_absent(rs, names.skip(1), id);
        let rest = resolve_spec(rs, names.skip(1));
        match reg_lookup(rs, names[0]@) {
            Some(id0) => {
                assert(id0 != id);
                let whole = seq![id0] + rest;
                assert forall|v: int| 0 <= v < whole.len() implies whole[v] != id by {
                    if v >= 1 {
                        assert(whole[v] == rest[v - 1]);
                    }
                }
            },
            None => {},
        }
    }
}

/// Resolution keeps every registered name that occurs in the list.
proof fn lemma_resolve_contains(rs: Seq<(String, u64)>, names: Seq<String>, x: Seq<char>, id: u64)
    requires
        str_in(names, x),
        reg_lookup(rs, x) == Some(id),
    ensures
        resolve_spec(rs, names).contains(id),
    decreases names.len(),
{
    broadcast use vstd::seq_lib::lemma_seq_skip_index;

    let w = choose|w: int| 0 <= w < names.len() && names[w]@ == x;
    if w == 0 {
        assert(resolve_spec(rs, names) == seq![id] + resolve_spec(rs, names.skip(1)));
        assert(resolve_spec(rs, names)[0] == id);
    } else {
        assert(names.skip(1)[w - 1]@ == x);
        assert(str_in(names.skip(1), x));
        lemma_resolve_contains(rs, names.skip(1), x, id);
        let rest = resolve_spec(rs, names.skip(1));
        let v = choose|v: int| 0 <= v < rest.len() && rest[v] == id;
        match reg_lookup(rs, names[0]@) {
            Some(id0) => {
                assert(resolve_spec(rs, names)[v + 1] == id);
            },
            None => {
                assert(resolve_spec(rs, names)[v] == id);
            },
        }
    }
}

} // verus!
