//! The route tree: a prefix tree over path segments. Each node carries a
//! segment spelling, one optional handler id per HTTP method, a deduplicated
//! middleware name list, and its children, at most one child per spelling.
//!
//! Handlers are identified by plain ids; the surrounding program maps ids to
//! code. Static addressing (`node_at`, `handler_of`, `mws_of`) walks children
//! by exact spelling and is the language of this module's contracts; dynamic
//! matching (placeholders and wildcards) lives in `router`.

use vstd::prelude::*;
use crate::http::HTTPMethod;
use crate::strutil::{clone_strs, str_eq, views};

verus! {

/// One optional handler id per method: the `method -> handler` mapping of a
/// node, with at most one handler per method by construction.
#[derive(Clone, Copy, PartialEq, Eq, Structural)]
pub struct MethodTable {
    pub get: Option<u64>,
    pub post: Option<u64>,
    pub put: Option<u64>,
    pub delete: Option<u64>,
    pub patch: Option<u64>,
}

impl MethodTable {
    pub open spec fn spec_get(self, m: HTTPMethod) -> Option<u64> {
        match m {
            HTTPMethod::GET => self.get,
            HTTPMethod::POST => self.post,
            HTTPMethod::PUT => self.put,
            HTTPMethod::DELETE => self.delete,
            HTTPMethod::PATCH => self.patch,
        }
    }

    pub open spec fn spec_empty() -> MethodTable {
        MethodTable { get: None, post: None, put: None, delete: None, patch: None }
    }

    pub fn empty() -> (r: MethodTable)
        ensures
            r == MethodTable::spec_empty(),
    {
        MethodTable { get: None, post: None, put: None, delete: None, patch: None }
    }

    pub fn lookup(&self, m: HTTPMethod) -> (r: Option<u64>)
        ensures
            r == self.spec_get(m),
    {
        match m {
            HTTPMethod::GET => self.get,
            HTTPMethod::POST => self.post,
            HTTPMethod::PUT => self.put,
            HTTPMethod::DELETE => self.delete,
            HTTPMethod::PATCH => self.patch,
        }
    }

    /// Set the handler for one method; the other methods keep theirs.
    pub fn set(&mut self, m: HTTPMethod, h: u64)
        ensures
            forall|m2: HTTPMethod| final(self).spec_get(m2) == if m2 == m {
                Some(h)
            } else {
                old(self).spec_get(m2)
            },
    {
        match m {
            HTTPMethod::GET => self.get = Some(h),
            HTTPMethod::POST => self.post = Some(h),
            HTTPMethod::PUT => self.put = Some(h),
            HTTPMethod::DELETE => self.delete = Some(h),
            HTTPMethod::PATCH => self.patch = Some(h),
        }
    }

    /// Merge another table in; where both sides have a handler for a method,
    /// the other table's wins. An empty other table changes nothing.
    pub fn merge_from(&mut self, other: &MethodTable)
        ensures
            forall|m2: HTTPMethod| final(self).spec_get(m2) == match other.spec_get(m2) {
                Some(h) => Some(h),
                None => old(self).spec_get(m2),
            },
            *other == MethodTable::spec_empty() ==> *final(self) == *old(self),
    {
        if let Some(h) = other.get {
            self.get = Some(h);
        }
        if let Some(h) = other.post {
            self.post = Some(h);
        }
        if let Some(h) = other.put {
            self.put = Some(h);
        }
        if let Some(h) = other.delete {
            self.delete = Some(h);
        }
        if let Some(h) = other.patch {
            self.patch = Some(h);
        }
    }
}

/// A node of the route tree. The root has the empty spelling and stands for
/// the path `/`.
pub struct RouteTree {
    pub path: String,
    pub handlers: MethodTable,
    pub middlewares: Vec<String>,
    pub children: Vec<RouteTree>,
}

/// `x` occurs in the string list `ms`.
pub open spec fn str_in(ms: Seq<String>, x: Seq<char>) -> bool {
    exists|i: int| 0 <= i < ms.len() && ms[i]@ == x
}

/// No two strings in the list are equal.
pub open spec fn distinct_strs(ms: Seq<String>) -> bool {
    forall|i: int, j: int| 0 <= i < j < ms.len() ==> ms[i]@ != ms[j]@
}

/// No two children share a spelling.
pub open spec fn distinct_segs(cs: Seq<RouteTree>) -> bool {
    forall|i: int, j: int| 0 <= i < j < cs.len() ==> cs[i].path@ != cs[j].path@
}

/// Index of the first child at or after `k` spelled `seg`, or `-1`.
pub open spec fn find_child(cs: Seq<RouteTree>, seg: Seq<char>, k: int) -> int
    decreases cs.len() - k,
{
    if k < 0 || k >= cs.len() {
        -1
    } else if cs[k].path@ == seg {
        k
    } else {
        find_child(cs, seg, k + 1)
    }
}

pub proof fn lemma_find_child(cs: Seq<RouteTree>, seg: Seq<char>, k: int)
    requires
        0 <= k,
    ensures
        find_child(cs, seg, k) == -1 ==> forall|i: int|
            k <= i < cs.len() ==> cs[i].path@ != seg,
        find_child(cs, seg, k) >= 0 ==> {
            &&& k <= find_child(cs, seg, k) < cs.len()
            &&& cs[find_child(cs, seg, k)].path@ == seg
            &&& forall|i: int| k <= i < find_child(cs, seg, k) ==> cs[i].path@ != seg
        },
        find_child(cs, seg, k) == -1 || find_child(cs, seg, k) >= k,
    decreases cs.len() - k,
{
    if k < cs.len() && cs[k].path@ != seg {
        lemma_find_child(cs, seg, k + 1);
    }
}

/// With distinct spellings, any child spelled `seg` is the one found.
pub proof fn lemma_find_child_unique(cs: Seq<RouteTree>, seg: Seq<char>, idx: int)
    requires
        distinct_segs(cs),
        0 <= idx < cs.len(),
        cs[idx].path@ == seg,
    ensures
        find_child(cs, seg, 0) == idx,
{
    lemma_find_child(cs, seg, 0);
    let f = find_child(cs, seg, 0);
    if f == -1 {
        assert(cs[idx].path@ != seg);
    } else if f != idx {
        assert(cs[f].path@ == seg);
    }
}

/// The node well-formedness: distinct child spellings, deduplicated
/// middleware names, recursively.
pub open spec fn node_wf(t: RouteTree) -> bool
    decreases t, 0int,
{
    &&& distinct_segs(t.children@)
    &&& distinct_strs(t.middlewares@)
    &&& children_wf(t.children@, 0)
}

pub open spec fn children_wf(cs: Seq<RouteTree>, k: int) -> bool
    decreases cs, cs.len() - k,
{
    if 0 <= k < cs.len() {
        node_wf(cs[k]) && children_wf(cs, k + 1)
    } else {
        true
    }
}

pub proof fn lemma_children_wf(cs: Seq<RouteTree>, k: int)
    requires
        0 <= k,
        children_wf(cs, k),
    ensures
        forall|i: int| k <= i < cs.len() ==> node_wf(#[trigger] cs[i]),
    decreases cs.len() - k,
{
    if k < cs.len() {
        lemma_children_wf(cs, k + 1);
    }
}

/// Conversely, pointwise well-formedness gives `children_wf`.
pub proof fn lemma_children_wf_intro(cs: Seq<RouteTree>, k: int)
    requires
        0 <= k,
        forall|i: int| 0 <= i < cs.len() ==> node_wf(#[trigger] cs[i]),
    ensures
        children_wf(cs, k),
    decreases cs.len() - k,
{
    if k < cs.len() {
        lemma_children_wf_intro(cs, k + 1);
    }
}

/// The node reached from `t` by following exact spellings along `ss`.
pub open spec fn node_at(t: RouteTree, ss: Seq<Seq<char>>) -> Option<RouteTree>
    decreases ss.len(),
{
    if ss.len() == 0 {
        Some(t)
    } else {
        let c = find_child(t.children@, ss[0], 0);
        if c < 0 {
            None
        } else {
            node_at(t.children@[c], ss.skip(1))
        }
    }
}

/// The handler registered for method `m` at the exact spelling path `ss`.
pub open spec fn handler_of(t: RouteTree, ss: Seq<Seq<char>>, m: HTTPMethod) -> Option<u64> {
    match node_at(t, ss) {
        None => None,
        Some(n) => n.handlers.spec_get(m),
    }
}

/// The middleware names at the exact spelling path `ss`.
pub open spec fn mws_of(t: RouteTree, ss: Seq<Seq<char>>) -> Option<Seq<String>> {
    match node_at(t, ss) {
        None => None,
        Some(n) => Some(n.middlewares@),
    }
}

/// `a` is a prefix of `b`.
pub open spec fn is_prefix_of(a: Seq<Seq<char>>, b: Seq<Seq<char>>) -> bool {
    a.len() <= b.len() && a == b.subrange(0, a.len() as int)
}

impl RouteTree {
    /// A leaf with no handlers and no children.
    pub fn leaf(path: String, middlewares: Vec<String>) -> (t: RouteTree)
        ensures
            t.path == path,
            t.handlers == MethodTable::spec_empty(),
            t.middlewares == middlewares,
            t.children@.len() == 0,
    {
        RouteTree { path, handlers: MethodTable::empty(), middlewares, children: Vec::new() }
    }

    /// The root of an empty tree.
    pub fn empty_root() -> (t: RouteTree)
        ensures
            node_wf(t),
            t.path@.len() == 0,
            t.handlers == MethodTable::spec_empty(),
            t.middlewares@.len() == 0,
            t.children@.len() == 0,
    {
        let t = RouteTree {
            path: String::new(),
            handlers: MethodTable::empty(),
            middlewares: Vec::new(),
            children: Vec::new(),
        };
        t
    }

    /// Position of the child spelled like `seg`, scanning in order.
    pub fn child_position(&self, seg: &str) -> (r: Option<usize>)
        ensures
            match r {
                Some(i) => i < self.children@.len() && find_child(self.children@, seg@, 0)
                    == i as int,
                None => find_child(self.children@, seg@, 0) == -1,
            },
    {
        let n = self.children.len();
        let mut i: usize = 0;
        while i < n
            invariant
                i <= n,
                n == self.children@.len(),
                forall|j: int| 0 <= j < i ==> self.children@[j].path@ != seg@,
            decreases n - i,
        {
            if str_eq(self.children[i].path.as_str(), seg) {
                proof {
                    lemma_find_child_from(self.children@, seg@, 0, i as int);
                }
                return Some(i);
            }
            i = i + 1;
        }
        proof {
            lemma_find_child(self.children@, seg@, 0);
            if find_child(self.children@, seg@, 0) >= 0 {
                assert(self.children@[find_child(self.children@, seg@, 0)].path@ == seg@);
            }
        }
        None
    }
}

/// The first match at or after 0 is at `i` when nothing before matches.
proof fn lemma_find_child_from(cs: Seq<RouteTree>, seg: Seq<char>, k: int, i: int)
    requires
        0 <= k <= i < cs.len(),
        cs[i].path@ == seg,
        forall|j: int| k <= j < i ==> cs[j].path@ != seg,
    ensures
        find_child(cs, seg, k) == i,
    decreases i - k,
{
    if k < i {
        lemma_find_child_from(cs, seg, k + 1, i);
    }
}

/// Extend `dst` with the names of `src` it does not yet hold, keeping the
/// first occurrence of every name. An empty `src` leaves `dst` untouched.
pub fn mw_extend(dst: &mut Vec<String>, src: &Vec<String>)
    requires
        distinct_strs(old(dst)@),
    ensures
        distinct_strs(final(dst)@),
        forall|x: Seq<char>|
            str_in(final(dst)@, x) <==> str_in(old(dst)@, x) || str_in(src@, x),
        src@.len() == 0 ==> *final(dst) == *old(dst),
        old(dst)@.len() <= final(dst)@.len(),
        forall|i: int| 0 <= i < old(dst)@.len() ==> final(dst)@[i] == old(dst)@[i],
{
    let n = src.len();
    let mut i: usize = 0;
    while i < n
        invariant
            i <= n,
            n == src@.len(),
            distinct_strs(dst@),
            forall|x: Seq<char>|
                str_in(dst@, x) <==> str_in(old(dst)@, x) || str_in(src@.subrange(0, i as int), x),
            i == 0 ==> *dst == *old(dst),
            old(dst)@.len() <= dst@.len(),
            forall|j: int| 0 <= j < old(dst)@.len() ==> dst@[j] == old(dst)@[j],
        decreases n - i,
    {
        let name = &src[i];
        let mut present = false;
        let dn = dst.len();
        let mut j: usize = 0;
        while j < dn
            invariant
                j <= dn,
                dn == dst@.len(),
                present == str_in(dst@.subrange(0, j as int), name@),
            decreases dn - j,
        {
            let ghost pre = dst@.subrange(0, j as int);
            if str_eq(dst[j].as_str(), name.as_str()) {
                present = true;
            }
            proof {
                let cur = dst@.subrange(0, j + 1int);
                assert(cur.drop_last() =~= pre);
                assert(cur[j as int] == dst@[j as int]);
                if str_in(cur, name@) {
                    let w = choose|w: int| 0 <= w < cur.len() && cur[w]@ == name@;
                    if w < j {
                        assert(pre[w]@ == name@);
                    }
                }
                if str_in(pre, name@) {
                    let w = choose|w: int| 0 <= w < pre.len() && pre[w]@ == name@;
                    assert(cur[w]@ == name@);
                }
            }
            j = j + 1;
        }
        proof {
            assert(dst@.subrange(0, dn as int) =~= dst@);
        }
        let ghost pre_dst = dst@;
        if !present {
            dst.push(name.clone());
            proof {
                assert forall|x: Seq<char>| str_in(dst@, x) implies str_in(pre_dst, x) || x
                    == name@ by {
                    let w = choose|w: int| 0 <= w < dst@.len() && dst@[w]@ == x;
                    if w < pre_dst.len() {
                        assert(pre_dst[w]@ == x);
                    }
                }
                assert forall|x: Seq<char>| str_in(pre_dst, x) implies str_in(dst@, x) by {
                    let w = choose|w: int| 0 <= w < pre_dst.len() && pre_dst[w]@ == x;
                    assert(dst@[w]@ == x);
                }
                assert(str_in(dst@, name@)) by {
                    assert(dst@[dst@.len() - 1]@ == name@);
                }
                assert(distinct_strs(dst@)) by {
                    assert forall|a: int, b: int| 0 <= a < b < dst@.len() implies dst@[a]@
                        != dst@[b]@ by {
                        if b == dst@.len() - 1 {
                            if dst@[a]@ == name@ {
                                assert(str_in(pre_dst, name@)) by {
                                    assert(pre_dst[a]@ == name@);
                                }
                            }
                        }
                    }
                }
            }
        }
        proof {
            let sub0 = src@.subrange(0, i as int);
            let sub1 = src@.subrange(0, i + 1int);
            assert(sub1.drop_last() =~= sub0);
            assert(sub1[i as int] == src@[i as int]);
            assert forall|x: Seq<char>| str_in(dst@, x) implies str_in(old(dst)@, x) || str_in(
                sub1,
                x,
            ) by {
                if str_in(pre_dst, x) {
                    if str_in(sub0, x) {
                        let w = choose|w: int| 0 <= w < sub0.len() && sub0[w]@ == x;
                        assert(sub1[w]@ == x);
                    }
                } else {
                    let w = choose|w: int| 0 <= w < dst@.len() && dst@[w]@ == x;
                    assert(w == dst@.len() - 1 && x == name@) by {
                        if w < pre_dst.len() {
                            assert(pre_dst[w]@ == x);
                        }
                    }
                    assert(sub1[i as int]@ == x);
                }
            }
            assert forall|x: Seq<char>| str_in(old(dst)@, x) || str_in(sub1, x) implies str_in(
                dst@,
                x,
            ) by {
                if str_in(old(dst)@, x) || str_in(sub0, x) {
                    assert(str_in(pre_dst, x));
                    let u = choose|u: int| 0 <= u < pre_dst.len() && pre_dst[u]@ == x;
                    assert(dst@[u]@ == x);
                } else {
                    let w = choose|w: int| 0 <= w < sub1.len() && sub1[w]@ == x;
                    assert(w == i && x == name@) by {
                        if w < i {
                            assert(sub0[w]@ == x);
                        }
                    }
                    if present {
                        let u = choose|u: int| 0 <= u < pre_dst.len() && pre_dst[u]@ == name@;
                        assert(dst@[u]@ == name@);
                    } else {
                        assert(dst@[dst@.len() - 1]@ == name@);
                    }
                }
            }
        }
        i = i + 1;
    }
    proof {
        assert(src@.subrange(0, n as int) =~= src@);
    }
}

/// The middleware names at `ss`, or nothing when no node stands there.
pub open spec fn mws_sel(t: RouteTree, ss: Seq<Seq<char>>) -> Seq<String> {
    match node_at(t, ss) {
        Some(n) => n.middlewares@,
        None => Seq::empty(),
    }
}

/// A node stands at the exact spelling path `ss`.
pub open spec fn defined_at(t: RouteTree, ss: Seq<Seq<char>>) -> bool {
    node_at(t, ss) is Some
}

/// The set of names a middleware list holds.
pub open spec fn mws_set(ms: Seq<String>) -> Set<Seq<char>> {
    Set::new(|x: Seq<char>| str_in(ms, x))
}

/// Replacing a child with one spelled the same leaves every search alone.
proof fn lemma_find_child_update(cs: Seq<RouteTree>, idx: int, c2: RouteTree, g: Seq<char>, k: int)
    requires
        0 <= idx < cs.len(),
        c2.path@ == cs[idx].path@,
        0 <= k,
    ensures
        find_child(cs.update(idx, c2), g, k) == find_child(cs, g, k),
    decreases cs.len() - k,
{
    if k < cs.len() {
        assert(cs.update(idx, c2)[k].path@ == cs[k].path@);
        if cs[k].path@ != g {
            lemma_find_child_update(cs, idx, c2, g, k + 1);
        }
    }
}

/// Appending a child only adds a hit for its own spelling, after the rest.
proof fn lemma_find_child_push(cs: Seq<RouteTree>, c2: RouteTree, g: Seq<char>, k: int)
    requires
        0 <= k,
    ensures
        find_child(cs.push(c2), g, k) == if find_child(cs, g, k) >= 0 {
            find_child(cs, g, k)
        } else if k <= cs.len() && c2.path@ == g {
            cs.len() as int
        } else {
            -1
        },
    decreases cs.len() + 1 - k,
{
    let ps = cs.push(c2);
    if k >= ps.len() {
    } else if k == cs.len() {
        assert(ps[k] == c2);
        if c2.path@ != g {
            assert(find_child(ps, g, k + 1) == -1);
        }
    } else {
        assert(ps[k] == cs[k]);
        if cs[k].path@ != g {
            lemma_find_child_push(cs, c2, g, k + 1);
        }
    }
}

/// Build the chain of nodes for `segs[i..]`: one node per segment, each new
/// node carrying the middleware set `all`, the terminal holding `m -> h`.
fn make_chain(segs: &Vec<String>, i: usize, m: HTTPMethod, h: u64, all: &Vec<String>) -> (t:
    RouteTree)
    requires
        i < segs@.len(),
        distinct_strs(all@),
    ensures
        node_wf(t),
        t.path@ == segs@[i as int]@,
        forall|ss: Seq<Seq<char>>, m2: HTTPMethod| #[trigger]
            handler_of(t, ss, m2) == if ss == views(segs@).skip(i + 1) && m2 == m {
                Some(h)
            } else {
                None::<u64>
            },
        forall|ss: Seq<Seq<char>>| #[trigger]
            defined_at(t, ss) <==> is_prefix_of(ss, views(segs@).skip(i + 1)),
        forall|ss: Seq<Seq<char>>|
            defined_at(t, ss) ==> forall|x: Seq<char>|
                str_in(#[trigger] mws_sel(t, ss), x) <==> str_in(all@, x),
    decreases segs@.len() - i,
{
    let ghost sfx = views(segs@).skip(i + 1);
    let seg: String = segs[i].clone();
    let mws = clone_strs(all);
    proof {
        assert(distinct_strs(mws@));
        assert(forall|x: Seq<char>| str_in(mws@, x) <==> str_in(all@, x)) by {
            assert forall|x: Seq<char>| str_in(mws@, x) implies str_in(all@, x) by {
                let w = choose|w: int| 0 <= w < mws@.len() && mws@[w]@ == x;
                assert(all@[w]@ == x);
            }
            assert forall|x: Seq<char>| str_in(all@, x) implies str_in(mws@, x) by {
                let w = choose|w: int| 0 <= w < all@.len() && all@[w]@ == x;
                assert(mws@[w]@ == x);
            }
        }
    }
    let n = segs.len();
    if i + 1 == n {
        let mut t = RouteTree::leaf(seg, mws);
        t.handlers.set(m, h);
        proof {
            assert(sfx =~= Seq::<Seq<char>>::empty());
            assert forall|ss: Seq<Seq<char>>, m2: HTTPMethod| #[trigger]
                handler_of(t, ss, m2) == (if ss == sfx && m2 == m {
                Some(h)
            } else {
                None::<u64>
            }) by {
                if ss.len() == 0 {
                    assert(ss =~= sfx);
                } else {
                    assert(find_child(t.children@, ss[0], 0) == -1);
                }
            }
            assert forall|ss: Seq<Seq<char>>| #[trigger]
                defined_at(t, ss) <==> is_prefix_of(ss, sfx) by {
                if ss.len() == 0 {
                    assert(ss =~= sfx);
                    assert(sfx.subrange(0, 0) =~= ss);
                    assert(is_prefix_of(ss, sfx));
                } else {
                    assert(find_child(t.children@, ss[0], 0) == -1);
                    assert(!is_prefix_of(ss, sfx));
                }
            }
            assert forall|ss: Seq<Seq<char>>| defined_at(t, ss) implies forall|x: Seq<char>|
                str_in(#[trigger] mws_sel(t, ss), x) <==> str_in(all@, x) by {
                assert(ss.len() == 0) by {
                    if ss.len() > 0 {
                        assert(find_child(t.children@, ss[0], 0) == -1);
                    }
                }
                assert(mws_sel(t, ss) == mws@);
            }
        }
        t
    } else {
        let child = make_chain(segs, i + 1, m, h, all);
        let mut t = RouteTree::leaf(seg, mws);
        t.children.push(child);
        proof {
            let ghost sfx2 = views(segs@).skip(i + 2);
            assert(t.children@ =~= seq![child]);
            assert(sfx.len() == segs@.len() - i - 1 >= 1);
            assert(sfx[0] == views(segs@)[i + 1]);
            assert(views(segs@)[i + 1] == segs@[i + 1]@);
            assert(child.path@ == sfx[0]);
            assert(sfx.skip(1) =~= sfx2);
            assert(node_wf(t)) by {
                assert(children_wf(t.children@, 1));
                assert(children_wf(t.children@, 0));
            }
            assert forall|ss: Seq<Seq<char>>, m2: HTTPMethod| #[trigger]
                handler_of(t, ss, m2) == (if ss == sfx && m2 == m {
                Some(h)
            } else {
                None::<u64>
            }) by {
                if ss.len() == 0 {
                    assert(handler_of(t, ss, m2) is None);
                    assert(ss != sfx);
                } else {
                    if ss[0] == child.path@ {
                        assert(find_child(t.children@, ss[0], 0) == 0);
                        assert(node_at(t, ss) == node_at(child, ss.skip(1)));
                        assert(handler_of(t, ss, m2) == handler_of(child, ss.skip(1), m2));
                        if ss == sfx {
                            assert(ss.skip(1) == sfx2);
                        } else {
                            assert(ss.skip(1) != sfx2) by {
                                if ss.skip(1) == sfx2 {
                                    assert(forall|q: int|
                                        1 <= q < ss.len() ==> ss[q] == ss.skip(1)[q - 1]);
                                    assert(forall|q: int|
                                        1 <= q < sfx.len() ==> sfx[q] == sfx.skip(1)[q - 1]);
                                    assert(ss =~= sfx);
                                }
                            }
                        }
                    } else {
                        assert(find_child(t.children@, ss[0], 1) == -1);
                        assert(find_child(t.children@, ss[0], 0) == -1);
                        assert(ss != sfx);
                    }
                }
            }
            assert forall|ss: Seq<Seq<char>>| #[trigger]
                defined_at(t, ss) <==> is_prefix_of(ss, sfx) by {
                if ss.len() == 0 {
                    assert(ss =~= sfx.subrange(0, 0));
                    assert(is_prefix_of(ss, sfx));
                } else {
                    if ss[0] == child.path@ {
                        assert(find_child(t.children@, ss[0], 0) == 0);
                        assert(node_at(t, ss) == node_at(child, ss.skip(1)));
                        assert(defined_at(t, ss) == defined_at(child, ss.skip(1)));
                        if is_prefix_of(ss.skip(1), sfx2) {
                            assert(is_prefix_of(ss, sfx)) by {
                                assert(ss =~= sfx.subrange(0, ss.len() as int)) by {
                                    assert(forall|q: int|
                                        1 <= q < ss.len() ==> ss[q] == ss.skip(1)[q - 1]);
                                }
                            }
                        }
                        if is_prefix_of(ss, sfx) {
                            assert(is_prefix_of(ss.skip(1), sfx2)) by {
                                assert(ss.skip(1) =~= sfx2.subrange(0, ss.len() - 1));
                            }
                        }
                    } else {
                        assert(find_child(t.children@, ss[0], 1) == -1);
                        assert(find_child(t.children@, ss[0], 0) == -1);
                        assert(!defined_at(t, ss));
                        assert(!is_prefix_of(ss, sfx)) by {
                            if is_prefix_of(ss, sfx) {
                                assert(ss[0] == sfx[0]);
                            }
                        }
                    }
                }
            }
            assert forall|ss: Seq<Seq<char>>| defined_at(t, ss) implies forall|x: Seq<char>|
                str_in(#[trigger] mws_sel(t, ss), x) <==> str_in(all@, x) by {
                if ss.len() == 0 {
                    assert(mws_sel(t, ss) == mws@);
                } else {
                    assert(ss[0] == child.path@) by {
                        if ss[0] != child.path@ {
                            assert(find_child(t.children@, ss[0], 1) == -1);
                            assert(find_child(t.children@, ss[0], 0) == -1);
                        }
                    }
                    assert(find_child(t.children@, ss[0], 0) == 0);
                    assert(node_at(t, ss) == node_at(child, ss.skip(1)));
                    assert(defined_at(child, ss.skip(1)));
                    assert(mws_sel(t, ss) == mws_sel(child, ss.skip(1)));
                }
            }
        }
        t
    }
}

/// Insert `m -> h` at the path `segs[i..]` below `t`. Existing nodes along
/// the path are reused; missing ones are created carrying the middleware
/// set `all`; at the terminal the handler entry is overwritten (a later
/// registration wins) and `all` is unioned into its middleware set.
#[verifier::rlimit(100)]
#[verifier::spinoff_prover]
pub fn insert_at(t: &mut RouteTree, segs: &Vec<String>, i: usize, m: HTTPMethod, h: u64, all: &Vec<
    String,
>)
    requires
        node_wf(*old(t)),
        i <= segs@.len(),
        distinct_strs(all@),
    ensures
        node_wf(*final(t)),
        final(t).path == old(t).path,
        forall|ss: Seq<Seq<char>>, m2: HTTPMethod| #[trigger]
            handler_of(*final(t), ss, m2) == if ss == views(segs@).skip(i as int) && m2 == m {
                Some(h)
            } else {
                handler_of(*old(t), ss, m2)
            },
        forall|ss: Seq<Seq<char>>| #[trigger]
            defined_at(*final(t), ss) <==> defined_at(*old(t), ss) || is_prefix_of(
                ss,
                views(segs@).skip(i as int),
            ),
        forall|ss: Seq<Seq<char>>|
            #[trigger] defined_at(*old(t), ss) && ss != views(segs@).skip(i as int)
                ==> mws_of(*final(t), ss) == mws_of(*old(t), ss),
        forall|ss: Seq<Seq<char>>|
            !defined_at(*old(t), ss) && is_prefix_of(ss, views(segs@).skip(i as int)) && ss
                != views(segs@).skip(i as int) ==> forall|x: Seq<char>|
                str_in(#[trigger] mws_sel(*final(t), ss), x) <==> str_in(all@, x),
        mws_set(mws_sel(*final(t), views(segs@).skip(i as int))) == (if defined_at(
            *old(t),
            views(segs@).skip(i as int),
        ) {
            mws_set(mws_sel(*old(t), views(segs@).skip(i as int)))
        } else {
            Set::<Seq<char>>::empty()
        }) + mws_set(all@),
    decreases segs@.len() - i,
{
    let ghost sfx = views(segs@).skip(i as int);
    let ghost told = *t;
    let n = segs.len();
    if i == n {
        proof {
            assert(sfx =~= Seq::<Seq<char>>::empty());
        }
        t.handlers.set(m, h);
        mw_extend(&mut t.middlewares, all);
        proof {
            assert(node_wf(*t)) by {
                assert(children_wf(t.children@, 0));
            }
            assert forall|ss: Seq<Seq<char>>|
                ss.len() > 0 implies node_at(*t, ss) == node_at(told, ss) by {
                assert(t.children@ == told.children@);
            }
            assert forall|ss: Seq<Seq<char>>, m2: HTTPMethod| #[trigger]
                handler_of(*t, ss, m2) == (if ss == sfx && m2 == m {
                Some(h)
            } else {
                handler_of(told, ss, m2)
            }) by {
                if ss.len() == 0 {
                    assert(ss =~= sfx);
                } else {
                    assert(ss != sfx);
                }
            }
            assert forall|ss: Seq<Seq<char>>| #[trigger]
                defined_at(*t, ss) <==> defined_at(told, ss) || is_prefix_of(ss, sfx) by {
                if ss.len() == 0 {
                    assert(defined_at(*t, ss));
                    assert(defined_at(told, ss));
                } else {
                    assert(!is_prefix_of(ss, sfx));
                }
            }
            assert forall|ss: Seq<Seq<char>>|
                #[trigger] defined_at(told, ss) && ss != sfx implies mws_of(*t, ss) == mws_of(
                told,
                ss,
            ) by {
                assert(ss.len() > 0) by {
                    if ss.len() == 0 {
                        assert(ss =~= sfx);
                    }
                }
            }
            assert forall|ss: Seq<Seq<char>>| is_prefix_of(ss, sfx) implies ss == sfx by {
                assert(ss.len() == 0);
                assert(ss =~= sfx);
            }
            assert(mws_sel(*t, sfx) == t.middlewares@);
            assert(defined_at(told, sfx));
            assert(mws_sel(told, sfx) == told.middlewares@);
            assert(mws_set(t.middlewares@) =~= mws_set(told.middlewares@) + mws_set(all@));
        }
    } else {
        let seg = &segs[i];
        proof {
            assert(sfx.len() >= 1);
            assert(sfx[0] == views(segs@)[i as int]);
            assert(sfx[0] == seg@);
            assert(sfx.skip(1) =~= views(segs@).skip(i + 1));
        }
        let ghost sfx2 = views(segs@).skip(i + 1);
        match t.child_position(seg.as_str()) {
            Some(idx) => {
                let ghost oc = told.children@;
                let ghost child0 = oc[idx as int];
                proof {
                    lemma_find_child(oc, seg@, 0);
                    assert(child0.path@ == seg@);
                    lemma_children_wf(oc, 0);
                    assert(node_wf(child0));
                }
                let mut child = t.children.remove(idx);
                insert_at(&mut child, segs, i + 1, m, h, all);
                let ghost child1 = child;
                t.children.insert(idx, child);
                proof {
                    assert(t.children@ =~= oc.update(idx as int, child1));
                    lemma_insert_child_updated_hd(
                        told,
                        *t,
                        child0,
                        child1,
                        idx as int,
                        seg@,
                        views(segs@).skip(i as int),
                        views(segs@).skip(i + 1),
                        m,
                        h,
                    );
                    lemma_insert_child_updated_mw(
                        told,
                        *t,
                        child0,
                        child1,
                        idx as int,
                        seg@,
                        views(segs@).skip(i as int),
                        views(segs@).skip(i + 1),
                        all@,
                    );
                }
            },
            None => {
                proof {
                    lemma_find_child(told.children@, seg@, 0);
                }
                let chain = make_chain(segs, i, m, h, all);
                let ghost chaing = chain;
                t.children.push(chain);
                proof {
                    lemma_insert_child_pushed(
                        told,
                        *t,
                        chaing,
                        seg@,
                        views(segs@).skip(i as int),
                        views(segs@).skip(i + 1),
                        m,
                        h,
                        all@,
                    );
                }
            },
        }
    }
}

/// Relate a spelling path to the suffix it may be a prefix of, one level
/// down: `sfx2` is `sfx` without its head, and `ss` shares that head.
proof fn shift_facts(ss: Seq<Seq<char>>, sfx: Seq<Seq<char>>, sfx2: Seq<Seq<char>>)
    requires
        ss.len() > 0,
        sfx.len() > 0,
        ss[0] == sfx[0],
        sfx2 == sfx.skip(1),
    ensures
        ss == sfx <==> ss.skip(1) == sfx2,
        is_prefix_of(ss, sfx) <==> is_prefix_of(ss.skip(1), sfx2),
{
    broadcast use vstd::seq_lib::lemma_seq_skip_index;

    assert(ss.skip(1).len() == ss.len() - 1);
    assert(sfx2.len() == sfx.len() - 1);
    assert forall|q: int| 1 <= q < ss.len() implies ss[q] == ss.skip(1)[q - 1] by {
        assert(ss.skip(1)[q - 1] == ss[q - 1 + 1]);
    }
    assert forall|q: int| 1 <= q < sfx.len() implies sfx[q] == sfx2[q - 1] by {
        assert(sfx.skip(1)[q - 1] == sfx[q - 1 + 1]);
    }
    if ss.skip(1) == sfx2 {
        assert forall|q: int| 0 <= q < ss.len() implies ss[q] == sfx[q] by {
            if q >= 1 {
                assert(ss[q] == ss.skip(1)[q - 1]);
                assert(sfx[q] == sfx2[q - 1]);
            }
        }
        assert(ss =~= sfx);
    }
    if ss == sfx {
        assert(ss.skip(1) =~= sfx2);
    }
    if is_prefix_of(ss, sfx) {
        assert(ss == sfx.subrange(0, ss.len() as int));
        assert forall|q: int| 0 <= q < ss.len() - 1 implies ss.skip(1)[q] == sfx2.subrange(
            0,
            ss.len() - 1,
        )[q] by {
            assert(ss.skip(1)[q] == ss[q + 1]);
            assert(sfx2.subrange(0, ss.len() - 1)[q] == sfx2[q]);
            assert(sfx2[q] == sfx[q + 1]);
            assert(ss[q + 1] == sfx.subrange(0, ss.len() as int)[q + 1]);
        }
        assert(ss.skip(1) =~= sfx2.subrange(0, ss.len() - 1));
        assert(is_prefix_of(ss.skip(1), sfx2));
    }
    if is_prefix_of(ss.skip(1), sfx2) {
        assert forall|q: int| 0 <= q < ss.len() implies ss[q] == sfx.subrange(
            0,
            ss.len() as int,
        )[q] by {
            if q >= 1 {
                assert(ss[q] == ss.skip(1)[q - 1]);
                assert(ss.skip(1)[q - 1] == sfx2.subrange(0, ss.len() - 1)[q - 1]);
                assert(sfx2[q - 1] == sfx[q]);
            }
        }
        assert(ss =~= sfx.subrange(0, ss.len() as int));
        assert(is_prefix_of(ss, sfx));
    }
}


/// How the children list relates, node by node, after replacing the child
/// spelled `seg` with an updated version of itself.
#[verifier::spinoff_prover]
proof fn lemma_update_children_rel(
    told: RouteTree,
    tnew: RouteTree,
    child0: RouteTree,
    child1: RouteTree,
    idx: int,
    seg: Seq<char>,
)
    requires
        node_wf(told),
        0 <= idx < told.children@.len(),
        told.children@[idx] == child0,
        child0.path@ == seg,
        child1.path@ == seg,
        node_wf(child1),
        tnew.children@ == told.children@.update(idx, child1),
    ensures
        node_wf(tnew) || !distinct_strs(tnew.middlewares@),
        forall|ss: Seq<Seq<char>>|
            ss.len() > 0 && ss[0] != seg ==> #[trigger] node_at(tnew, ss) == node_at(told, ss),
        forall|ss: Seq<Seq<char>>|
            ss.len() > 0 && ss[0] == seg ==> #[trigger] node_at(tnew, ss) == node_at(
                child1,
                ss.skip(1),
            ) && node_at(told, ss) == node_at(child0, ss.skip(1)),
{
    let oc = told.children@;
    let fc = tnew.children@;
    assert(distinct_segs(fc)) by {
        assert(forall|q: int| 0 <= q < oc.len() ==> fc[q].path@ == oc[q].path@);
    }
    assert(children_wf(fc, 0)) by {
        assert(forall|q: int| 0 <= q < fc.len() ==> node_wf(#[trigger] fc[q])) by {
            lemma_children_wf(oc, 0);
        }
        lemma_children_wf_intro(fc, 0);
    }
    assert forall|g: Seq<char>| true implies #[trigger] find_child(fc, g, 0) == find_child(
        oc,
        g,
        0,
    ) by {
        lemma_find_child_update(oc, idx, child1, g, 0);
    }
    assert forall|ss: Seq<Seq<char>>| ss.len() > 0 && ss[0] != seg implies #[trigger] node_at(
        tnew,
        ss,
    ) == node_at(told, ss) by {
        let c = find_child(oc, ss[0], 0);
        lemma_find_child(oc, ss[0], 0);
        if c >= 0 {
            assert(oc[c].path@ == ss[0]);
            assert(c != idx);
            assert(fc[c] == oc[c]);
        }
    }
    assert forall|ss: Seq<Seq<char>>| ss.len() > 0 && ss[0] == seg implies #[trigger] node_at(
        tnew,
        ss,
    ) == node_at(child1, ss.skip(1)) && node_at(told, ss) == node_at(child0, ss.skip(1)) by {
        lemma_find_child_unique(oc, seg, idx);
        assert(fc[idx] == child1);
    }
}

/// After replacing the child spelled `seg` with its updated version: the
/// handler map and node-existence clauses of an insertion.
#[verifier::rlimit(100)]
#[verifier::spinoff_prover]
proof fn lemma_insert_child_updated_hd(
    told: RouteTree,
    tnew: RouteTree,
    child0: RouteTree,
    child1: RouteTree,
    idx: int,
    seg: Seq<char>,
    sfx: Seq<Seq<char>>,
    sfx2: Seq<Seq<char>>,
    m: HTTPMethod,
    h: u64,
)
    requires
        node_wf(told),
        0 <= idx < told.children@.len(),
        told.children@[idx] == child0,
        child0.path@ == seg,
        child1.path@ == seg,
        node_wf(child1),
        tnew.path == told.path,
        tnew.handlers == told.handlers,
        tnew.middlewares == told.middlewares,
        tnew.children@ == told.children@.update(idx, child1),
        sfx.len() > 0,
        sfx[0] == seg,
        sfx2 == sfx.skip(1),
        forall|ss: Seq<Seq<char>>, m2: HTTPMethod| #[trigger]
            handler_of(child1, ss, m2) == if ss == sfx2 && m2 == m {
                Some(h)
            } else {
                handler_of(child0, ss, m2)
            },
        forall|ss: Seq<Seq<char>>| #[trigger]
            defined_at(child1, ss) <==> defined_at(child0, ss) || is_prefix_of(ss, sfx2),
    ensures
        node_wf(tnew),
        forall|ss: Seq<Seq<char>>, m2: HTTPMethod| #[trigger]
            handler_of(tnew, ss, m2) == if ss == sfx && m2 == m {
                Some(h)
            } else {
                handler_of(told, ss, m2)
            },
        forall|ss: Seq<Seq<char>>| #[trigger]
            defined_at(tnew, ss) <==> defined_at(told, ss) || is_prefix_of(ss, sfx),
{
    lemma_update_children_rel(told, tnew, child0, child1, idx, seg);
    assert forall|ss: Seq<Seq<char>>| ss.len() > 0 && ss[0] == seg implies (ss == sfx <==> ss.skip(
        1,
    ) == sfx2) && (is_prefix_of(ss, sfx) <==> is_prefix_of(ss.skip(1), sfx2)) by {
        shift_facts(ss, sfx, sfx2);
    }
    assert forall|ss: Seq<Seq<char>>| ss.len() > 0 && ss[0] != seg implies ss != sfx
        && !is_prefix_of(ss, sfx) by {
        if is_prefix_of(ss, sfx) {
            assert(ss[0] == sfx[0]);
        }
    }
    assert forall|ss: Seq<Seq<char>>, m2: HTTPMethod| #[trigger]
        handler_of(tnew, ss, m2) == (if ss == sfx && m2 == m {
        Some(h)
    } else {
        handler_of(told, ss, m2)
    }) by {
        if ss.len() == 0 {
            assert(ss != sfx);
            assert(handler_of(tnew, ss, m2) == tnew.handlers.spec_get(m2));
        } else if ss[0] == seg {
            assert(node_at(tnew, ss) == node_at(child1, ss.skip(1)));
            assert(handler_of(tnew, ss, m2) == handler_of(child1, ss.skip(1), m2));
            assert(handler_of(told, ss, m2) == handler_of(child0, ss.skip(1), m2));
        } else {
            assert(node_at(tnew, ss) == node_at(told, ss));
        }
    }
    assert forall|ss: Seq<Seq<char>>| #[trigger]
        defined_at(tnew, ss) <==> defined_at(told, ss) || is_prefix_of(ss, sfx) by {
        if ss.len() == 0 {
            assert(defined_at(tnew, ss));
            assert(defined_at(told, ss));
        } else if ss[0] == seg {
            assert(node_at(tnew, ss) == node_at(child1, ss.skip(1)));
            assert(defined_at(tnew, ss) == defined_at(child1, ss.skip(1)));
            assert(defined_at(told, ss) == defined_at(child0, ss.skip(1)));
        } else {
            assert(node_at(tnew, ss) == node_at(told, ss));
        }
    }
}

/// After replacing the child spelled `seg` with its updated version: the
/// middleware-set clauses of an insertion.
#[verifier::rlimit(100)]
#[verifier::spinoff_prover]
proof fn lemma_insert_child_updated_mw(
    told: RouteTree,
    tnew: RouteTree,
    child0: RouteTree,
    child1: RouteTree,
    idx: int,
    seg: Seq<char>,
    sfx: Seq<Seq<char>>,
    sfx2: Seq<Seq<char>>,
    all: Seq<String>,
)
    requires
        node_wf(told),
        0 <= idx < told.children@.len(),
        told.children@[idx] == child0,
        child0.path@ == seg,
        child1.path@ == seg,
        node_wf(child1),
        tnew.path == told.path,
        tnew.handlers == told.handlers,
        tnew.middlewares == told.middlewares,
        tnew.children@ == told.children@.update(idx, child1),
        sfx.len() > 0,
        sfx[0] == seg,
        sfx2 == sfx.skip(1),
        forall|ss: Seq<Seq<char>>| #[trigger]
            defined_at(child1, ss) <==> defined_at(child0, ss) || is_prefix_of(ss, sfx2),
        forall|ss: Seq<Seq<char>>|
            #[trigger] defined_at(child0, ss) && ss != sfx2 ==> mws_of(child1, ss) == mws_of(
                child0,
                ss,
            ),
        forall|ss: Seq<Seq<char>>|
            !defined_at(child0, ss) && is_prefix_of(ss, sfx2) && ss != sfx2 ==> forall|
                x: Seq<char>,
            |
                str_in(#[trigger] mws_sel(child1, ss), x) <==> str_in(all, x),
        mws_set(mws_sel(child1, sfx2)) == (if defined_at(child0, sfx2) {
            mws_set(mws_sel(child0, sfx2))
        } else {
            Set::<Seq<char>>::empty()
        }) + mws_set(all),
    ensures
        forall|ss: Seq<Seq<char>>|
            #[trigger] defined_at(told, ss) && ss != sfx ==> mws_of(tnew, ss) == mws_of(told, ss),
        forall|ss: Seq<Seq<char>>|
            !defined_at(told, ss) && is_prefix_of(ss, sfx) && ss != sfx ==> forall|x: Seq<char>|
                str_in(#[trigger] mws_sel(tnew, ss), x) <==> str_in(all, x),
        mws_set(mws_sel(tnew, sfx)) == (if defined_at(told, sfx) {
            mws_set(mws_sel(told, sfx))
        } else {
            Set::<Seq<char>>::empty()
        }) + mws_set(all),
{
    lemma_update_children_rel(told, tnew, child0, child1, idx, seg);
    assert forall|ss: Seq<Seq<char>>| ss.len() > 0 && ss[0] == seg implies (ss == sfx <==> ss.skip(
        1,
    ) == sfx2) && (is_prefix_of(ss, sfx) <==> is_prefix_of(ss.skip(1), sfx2)) by {
        shift_facts(ss, sfx, sfx2);
    }
    assert forall|ss: Seq<Seq<char>>| ss.len() > 0 && ss[0] != seg implies ss != sfx
        && !is_prefix_of(ss, sfx) by {
        if is_prefix_of(ss, sfx) {
            assert(ss[0] == sfx[0]);
        }
    }
    assert forall|ss: Seq<Seq<char>>| #[trigger] defined_at(told, ss) && ss != sfx implies mws_of(
        tnew,
        ss,
    ) == mws_of(told, ss) by {
        if ss.len() == 0 {
        } else if ss[0] == seg {
            assert(node_at(tnew, ss) == node_at(child1, ss.skip(1)));
            assert(node_at(told, ss) == node_at(child0, ss.skip(1)));
            assert(defined_at(child0, ss.skip(1)));
            assert(ss.skip(1) != sfx2);
            assert(mws_of(tnew, ss) == mws_of(child1, ss.skip(1)));
            assert(mws_of(told, ss) == mws_of(child0, ss.skip(1)));
        } else {
            assert(node_at(tnew, ss) == node_at(told, ss));
        }
    }
    assert forall|ss: Seq<Seq<char>>|
        !defined_at(told, ss) && is_prefix_of(ss, sfx) && ss != sfx implies forall|x: Seq<char>|
        str_in(#[trigger] mws_sel(tnew, ss), x) <==> str_in(all, x) by {
        assert(ss.len() > 0) by {
            if ss.len() == 0 {
                assert(defined_at(told, ss));
            }
        }
        assert(ss[0] == sfx[0]);
        assert(node_at(tnew, ss) == node_at(child1, ss.skip(1)));
        assert(node_at(told, ss) == node_at(child0, ss.skip(1)));
        assert(!defined_at(child0, ss.skip(1)));
        assert(is_prefix_of(ss.skip(1), sfx2));
        assert(ss.skip(1) != sfx2);
        assert(mws_sel(tnew, ss) == mws_sel(child1, ss.skip(1)));
    }
    assert(node_at(tnew, sfx) == node_at(child1, sfx.skip(1)));
    assert(node_at(told, sfx) == node_at(child0, sfx.skip(1)));
    assert(mws_sel(tnew, sfx) == mws_sel(child1, sfx2));
    assert(defined_at(told, sfx) == defined_at(child0, sfx2));
    assert(defined_at(told, sfx) ==> mws_sel(told, sfx) == mws_sel(child0, sfx2));
}

/// After appending a fresh chain for an unseen spelling, every static path
/// through the tree relates old to new as an insertion does.
#[verifier::rlimit(100)]
#[verifier::spinoff_prover]
proof fn lemma_insert_child_pushed(
    told: RouteTree,
    tnew: RouteTree,
    chaing: RouteTree,
    seg: Seq<char>,
    sfx: Seq<Seq<char>>,
    sfx2: Seq<Seq<char>>,
    m: HTTPMethod,
    h: u64,
    all: Seq<String>,
)
    requires
        node_wf(told),
        find_child(told.children@, seg, 0) == -1,
        chaing.path@ == seg,
        node_wf(chaing),
        tnew.path == told.path,
        tnew.handlers == told.handlers,
        tnew.middlewares == told.middlewares,
        tnew.children@ == told.children@.push(chaing),
        sfx.len() > 0,
        sfx[0] == seg,
        sfx2 == sfx.skip(1),
        forall|ss: Seq<Seq<char>>, m2: HTTPMethod| #[trigger]
            handler_of(chaing, ss, m2) == if ss == sfx2 && m2 == m {
                Some(h)
            } else {
                None::<u64>
            },
        forall|ss: Seq<Seq<char>>| #[trigger]
            defined_at(chaing, ss) <==> is_prefix_of(ss, sfx2),
        forall|ss: Seq<Seq<char>>|
            defined_at(chaing, ss) ==> forall|x: Seq<char>|
                str_in(#[trigger] mws_sel(chaing, ss), x) <==> str_in(all, x),
    ensures
        node_wf(tnew),
        forall|ss: Seq<Seq<char>>, m2: HTTPMethod| #[trigger]
            handler_of(tnew, ss, m2) == if ss == sfx && m2 == m {
                Some(h)
            } else {
                handler_of(told, ss, m2)
            },
        forall|ss: Seq<Seq<char>>| #[trigger]
            defined_at(tnew, ss) <==> defined_at(told, ss) || is_prefix_of(ss, sfx),
        forall|ss: Seq<Seq<char>>|
            #[trigger] defined_at(told, ss) && ss != sfx ==> mws_of(tnew, ss) == mws_of(told, ss),
        forall|ss: Seq<Seq<char>>|
            !defined_at(told, ss) && is_prefix_of(ss, sfx) && ss != sfx ==> forall|x: Seq<char>|
                str_in(#[trigger] mws_sel(tnew, ss), x) <==> str_in(all, x),
        mws_set(mws_sel(tnew, sfx)) == (if defined_at(told, sfx) {
            mws_set(mws_sel(told, sfx))
        } else {
            Set::<Seq<char>>::empty()
        }) + mws_set(all),
{
    let oc = told.children@;
    let fc = tnew.children@;
    lemma_find_child(oc, seg, 0);
    assert(node_wf(tnew)) by {
        assert(distinct_segs(fc)) by {
            assert(forall|q: int| 0 <= q < oc.len() ==> fc[q] == oc[q]);
            assert(forall|q: int| 0 <= q < oc.len() ==> oc[q].path@ != seg);
        }
        assert(forall|q: int| 0 <= q < fc.len() ==> node_wf(#[trigger] fc[q])) by {
            lemma_children_wf(oc, 0);
            assert(forall|q: int| 0 <= q < oc.len() ==> fc[q] == oc[q]);
        }
        lemma_children_wf_intro(fc, 0);
    }
    assert forall|ss: Seq<Seq<char>>| ss.len() > 0 && ss[0] != seg implies node_at(tnew, ss)
        == node_at(told, ss) by {
        lemma_find_child_push(oc, chaing, ss[0], 0);
        let c = find_child(oc, ss[0], 0);
        lemma_find_child(oc, ss[0], 0);
        if c >= 0 {
            assert(fc[c] == oc[c]);
        }
    }
    assert forall|ss: Seq<Seq<char>>| ss.len() > 0 && ss[0] == seg implies node_at(tnew, ss)
        == node_at(chaing, ss.skip(1)) && node_at(told, ss) is None by {
        lemma_find_child_push(oc, chaing, ss[0], 0);
        assert(find_child(oc, ss[0], 0) == -1);
        assert(find_child(fc, ss[0], 0) == oc.len());
        assert(fc[oc.len() as int] == chaing);
    }
    assert forall|ss: Seq<Seq<char>>| ss.len() > 0 && ss[0] == seg implies (ss == sfx <==> ss.skip(
        1,
    ) == sfx2) && (is_prefix_of(ss, sfx) <==> is_prefix_of(ss.skip(1), sfx2)) by {
        shift_facts(ss, sfx, sfx2);
    }
    assert forall|ss: Seq<Seq<char>>| ss.len() > 0 && ss[0] != seg implies ss != sfx
        && !is_prefix_of(ss, sfx) by {
        if is_prefix_of(ss, sfx) {
            assert(ss[0] == sfx[0]);
        }
    }
    assert forall|ss: Seq<Seq<char>>, m2: HTTPMethod| #[trigger]
        handler_of(tnew, ss, m2) == (if ss == sfx && m2 == m {
        Some(h)
    } else {
        handler_of(told, ss, m2)
    }) by {
        if ss.len() == 0 {
            assert(ss != sfx);
            assert(handler_of(tnew, ss, m2) == tnew.handlers.spec_get(m2));
        } else if ss[0] == seg {
            assert(handler_of(tnew, ss, m2) == handler_of(chaing, ss.skip(1), m2));
            assert(handler_of(told, ss, m2) is None);
        }
    }
    assert forall|ss: Seq<Seq<char>>| #[trigger]
        defined_at(tnew, ss) <==> defined_at(told, ss) || is_prefix_of(ss, sfx) by {
        if ss.len() == 0 {
            assert(defined_at(tnew, ss));
            assert(defined_at(told, ss));
        } else if ss[0] == seg {
            assert(defined_at(tnew, ss) == defined_at(chaing, ss.skip(1)));
            assert(!defined_at(told, ss));
        }
    }
    assert forall|ss: Seq<Seq<char>>| #[trigger] defined_at(told, ss) && ss != sfx implies mws_of(
        tnew,
        ss,
    ) == mws_of(told, ss) by {
        if ss.len() > 0 {
            assert(ss[0] != seg) by {
                if ss[0] == seg {
                    assert(!defined_at(told, ss));
                }
            }
        }
    }
    assert forall|ss: Seq<Seq<char>>|
        !defined_at(told, ss) && is_prefix_of(ss, sfx) && ss != sfx implies forall|x: Seq<char>|
        str_in(#[trigger] mws_sel(tnew, ss), x) <==> str_in(all, x) by {
        assert(ss.len() > 0) by {
            if ss.len() == 0 {
                assert(defined_at(told, ss));
            }
        }
        assert(ss[0] == sfx[0]);
        assert(mws_sel(tnew, ss) == mws_sel(chaing, ss.skip(1)));
        assert(defined_at(chaing, ss.skip(1)));
    }
    assert(!defined_at(told, sfx));
    assert(node_at(tnew, sfx) == node_at(chaing, sfx.skip(1)));
    assert(mws_sel(tnew, sfx) == mws_sel(chaing, sfx2));
    assert(is_prefix_of(sfx2, sfx2)) by {
        assert(sfx2.subrange(0, sfx2.len() as int) =~= sfx2);
    }
    assert(defined_at(chaing, sfx2));
    assert(mws_set(mws_sel(chaing, sfx2)) =~= Set::<Seq<char>>::empty() + mws_set(all));
}


/// A sub-tree with no handlers, no children and no middleware names: what a
/// group starts from.
pub open spec fn is_empty_node(s: RouteTree) -> bool {
    &&& s.children@.len() == 0
    &&& s.handlers == MethodTable::spec_empty()
    &&& s.middlewares@.len() == 0
}

/// How the children list relates, node by node, after appending a child
/// with a spelling no present child has.
#[verifier::spinoff_prover]
proof fn lemma_push_children_rel(told: RouteTree, tnew: RouteTree, c: RouteTree, seg: Seq<char>)
    requires
        node_wf(told),
        find_child(told.children@, seg, 0) == -1,
        c.path@ == seg,
        node_wf(c),
        tnew.children@ == told.children@.push(c),
    ensures
        distinct_segs(tnew.children@),
        children_wf(tnew.children@, 0),
        forall|ss: Seq<Seq<char>>|
            ss.len() > 0 && ss[0] != seg ==> #[trigger] node_at(tnew, ss) == node_at(told, ss),
        forall|ss: Seq<Seq<char>>|
            ss.len() > 0 && ss[0] == seg ==> #[trigger] node_at(tnew, ss) == node_at(
                c,
                ss.skip(1),
            ) && node_at(told, ss) is None,
{
    let oc = told.children@;
    let fc = tnew.children@;
    lemma_find_child(oc, seg, 0);
    assert(distinct_segs(fc)) by {
        assert(forall|q: int| 0 <= q < oc.len() ==> fc[q] == oc[q]);
        assert(forall|q: int| 0 <= q < oc.len() ==> oc[q].path@ != seg);
    }
    assert(children_wf(fc, 0)) by {
        assert(forall|q: int| 0 <= q < fc.len() ==> node_wf(#[trigger] fc[q])) by {
            lemma_children_wf(oc, 0);
            assert(forall|q: int| 0 <= q < oc.len() ==> fc[q] == oc[q]);
        }
        lemma_children_wf_intro(fc, 0);
    }
    assert forall|ss: Seq<Seq<char>>| ss.len() > 0 && ss[0] != seg implies #[trigger] node_at(
        tnew,
        ss,
    ) == node_at(told, ss) by {
        lemma_find_child_push(oc, c, ss[0], 0);
        let w = find_child(oc, ss[0], 0);
        lemma_find_child(oc, ss[0], 0);
        if w >= 0 {
            assert(fc[w] == oc[w]);
        }
    }
    assert forall|ss: Seq<Seq<char>>| ss.len() > 0 && ss[0] == seg implies #[trigger] node_at(
        tnew,
        ss,
    ) == node_at(c, ss.skip(1)) && node_at(told, ss) is None by {
        lemma_find_child_push(oc, c, ss[0], 0);
        assert(find_child(fc, ss[0], 0) == oc.len());
        assert(fc[oc.len() as int] == c);
    }
}

/// Fold the sub-tree `s` into `t`: recursively match children by identical
/// spelling, merge handler maps (`s` wins on a method collision), union
/// middleware sets, and attach unmatched sub-trees. The contract is exact:
/// at every spelling path, the merged handler is the source's where it has
/// one and the target's old handler otherwise; a node stands in the merged
/// tree exactly where one stood in either input; and a merged node's
/// middleware set is exactly the union of the two inputs' sets there.
/// Merging an empty sub-tree changes nothing at all.
#[verifier::rlimit(100)]
#[verifier::spinoff_prover]
pub fn merge_trees(t: &mut RouteTree, s: RouteTree)
    requires
        node_wf(*old(t)),
        node_wf(s),
    ensures
        node_wf(*final(t)),
        final(t).path == old(t).path,
        forall|ss: Seq<Seq<char>>, m2: HTTPMethod| #[trigger]
            handler_of(*final(t), ss, m2) == match handler_of(s, ss, m2) {
                Some(hh) => Some(hh),
                None => handler_of(*old(t), ss, m2),
            },
        forall|ss: Seq<Seq<char>>| #[trigger]
            defined_at(*final(t), ss) <==> defined_at(*old(t), ss) || defined_at(s, ss),
        forall|ss: Seq<Seq<char>>| #[trigger]
            mws_set(mws_sel(*final(t), ss)) == mws_set(mws_sel(*old(t), ss)) + mws_set(
                mws_sel(s, ss),
            ),
        is_empty_node(s) ==> *final(t) == *old(t),
{
    let mut source = s;
    merge_rec(t, &mut source);
}

impl RouteTree {
    /// Fold `tree` into this one, as `merge_trees` does: the source wins on
    /// a method collision, middleware sets union exactly, everything
    /// already in this tree survives.
    pub fn extend(&mut self, tree: RouteTree)
        requires
            node_wf(*old(self)),
            node_wf(tree),
        ensures
            node_wf(*final(self)),
            final(self).path == old(self).path,
            forall|ss: Seq<Seq<char>>, m2: HTTPMethod| #[trigger]
                handler_of(*final(self), ss, m2) == match handler_of(tree, ss, m2) {
                    Some(hh) => Some(hh),
                    None => handler_of(*old(self), ss, m2),
                },
            forall|ss: Seq<Seq<char>>| #[trigger]
                defined_at(*final(self), ss) <==> defined_at(*old(self), ss) || defined_at(
                    tree,
                    ss,
                ),
            forall|ss: Seq<Seq<char>>| #[trigger]
                mws_set(mws_sel(*final(self), ss)) == mws_set(mws_sel(*old(self), ss)) + mws_set(
                    mws_sel(tree, ss),
                ),
            is_empty_node(tree) ==> *final(self) == *old(self),
    {
        merge_trees(self, tree);
    }
}

/// The recursion behind `merge_trees`; it drains the source node.
#[verifier::rlimit(100)]
#[verifier::spinoff_prover]
fn merge_rec(t: &mut RouteTree, s: &mut RouteTree)
    requires
        node_wf(*old(t)),
        node_wf(*old(s)),
    ensures
        node_wf(*final(t)),
        final(t).path == old(t).path,
        forall|ss: Seq<Seq<char>>, m2: HTTPMethod| #[trigger]
            handler_of(*final(t), ss, m2) == match handler_of(*old(s), ss, m2) {
                Some(hh) => Some(hh),
                None => handler_of(*old(t), ss, m2),
            },
        forall|ss: Seq<Seq<char>>| #[trigger]
            defined_at(*final(t), ss) <==> defined_at(*old(t), ss) || defined_at(*old(s), ss),
        forall|ss: Seq<Seq<char>>| #[trigger]
            mws_set(mws_sel(*final(t), ss)) == mws_set(mws_sel(*old(t), ss)) + mws_set(
                mws_sel(*old(s), ss),
            ),
        is_empty_node(*old(s)) ==> *final(t) == *old(t),
    decreases *old(s),
{
    let ghost told = *old(t);
    let ghost s0 = *old(s);
    t.handlers.merge_from(&s.handlers);
    mw_extend(&mut t.middlewares, &s.middlewares);
    proof {
        assert(mws_set(t.middlewares@) =~= mws_set(told.middlewares@) + mws_set(
            s0.middlewares@,
        )) by {
            assert forall|x: Seq<char>|
                mws_set(t.middlewares@).contains(x) <==> (mws_set(told.middlewares@) + mws_set(
                    s0.middlewares@,
                )).contains(x) by {
                assert(str_in(t.middlewares@, x) <==> str_in(told.middlewares@, x) || str_in(
                    s0.middlewares@,
                    x,
                ));
            }
        }
    }
    let ghost n = s0.children@.len();
    let ghost mut k: int = 0;
    proof {
        assert(t.children@ == told.children@);
        assert forall|ss: Seq<Seq<char>>|
            ss.len() > 0 implies #[trigger] node_at(*t, ss) == node_at(told, ss) by {
        }
        assert forall|ss: Seq<Seq<char>>, m2: HTTPMethod| #[trigger]
            merge_inv_h(*t, told, s0, 0, ss, m2) by {
            if ss.len() == 0 {
            } else {
                assert(node_at(*t, ss) == node_at(told, ss));
            }
        }
        assert forall|ss: Seq<Seq<char>>| #[trigger] merge_inv_d(*t, told, s0, 0, ss) by {
            if ss.len() > 0 {
                assert(node_at(*t, ss) == node_at(told, ss));
            }
        }
        assert forall|ss: Seq<Seq<char>>| #[trigger] merge_inv_m(*t, told, s0, 0, ss) by {
            if ss.len() == 0 {
                assert(mws_sel(*t, ss) == t.middlewares@);
                assert(mws_sel(told, ss) == told.middlewares@);
                assert(mws_sel(s0, ss) == s0.middlewares@);
            } else {
                assert(node_at(*t, ss) == node_at(told, ss));
                assert(mws_set(mws_sel(told, ss)) + Set::<Seq<char>>::empty() =~= mws_set(
                    mws_sel(told, ss),
                ));
            }
        }
    }
    while s.children.len() > 0
        invariant
            node_wf(s0),
            node_wf(*t),
            0 <= k <= n,
            s0 == *old(s),
            told == *old(t),
            n == s0.children@.len(),
            s.children@ == s0.children@.skip(k),
            t.path == told.path,
            forall|ss: Seq<Seq<char>>, m2: HTTPMethod| #[trigger]
                merge_inv_h(*t, told, s0, k, ss, m2),
            forall|ss: Seq<Seq<char>>| #[trigger] merge_inv_d(*t, told, s0, k, ss),
            forall|ss: Seq<Seq<char>>| #[trigger] merge_inv_m(*t, told, s0, k, ss),
            is_empty_node(s0) ==> *t == told,
        decreases n - k,
    {
        let ghost tpre = *t;
        let mut c = s.children.remove(0);
        let ghost c0 = c;
        proof {
            assert(c0 == s0.children@[k]);
            lemma_children_wf(s0.children@, 0);
            assert(node_wf(c0));
            lemma_find_child_unique(s0.children@, c0.path@, k);
            assert(s.children@ =~= s0.children@.skip(k + 1));
        }
        let ghost g0 = c0.path@;
        match t.child_position(c.path.as_str()) {
            Some(idx) => {
                let ghost oc = tpre.children@;
                let ghost tc0 = oc[idx as int];
                proof {
                    lemma_find_child(oc, g0, 0);
                    assert(tc0.path@ == g0);
                    lemma_children_wf(oc, 0);
                    assert(node_wf(tc0));
                    assert(0 <= k < old(s).children@.len());
                    assert(old(s).children@[k] == c);
                    assert(decreases_to!(*old(s) => old(s).children));
                    assert(decreases_to!(old(s).children => old(s).children@));
                    assert(decreases_to!(old(s).children@ => old(s).children@[k]));
                    assert(decreases_to!(*old(s) => c));
                }
                let mut tc = t.children.remove(idx);
                merge_rec(&mut tc, &mut c);
                let ghost tc1 = tc;
                t.children.insert(idx, tc);
                proof {
                    assert(t.children@ =~= oc.update(idx as int, tc1));
                    assert(tc1.path@ == g0);
                    lemma_update_children_rel(tpre, *t, tc0, tc1, idx as int, g0);
                    assert(node_wf(*t));
                    lemma_merge_step_update(s0, told, tpre, *t, c0, tc0, tc1, k, g0);
                }
            },
            None => {
                let ghost oc = tpre.children@;
                proof {
                    lemma_find_child(oc, g0, 0);
                }
                t.children.push(c);
                proof {
                    assert(t.children@ == oc.push(c0));
                    lemma_push_children_rel(tpre, *t, c0, g0);
                    assert(node_wf(*t));
                    lemma_merge_step_push(s0, told, tpre, *t, c0, k, g0);
                }
            },
        }
        proof {
            k = k + 1;
        }
    }
    proof {
        assert(s0.children@.skip(n as int) =~= Seq::<RouteTree>::empty());
        assert(k == n);
        assert forall|ss: Seq<Seq<char>>, m2: HTTPMethod| #[trigger]
            handler_of(*t, ss, m2) == (match handler_of(s0, ss, m2) {
            Some(hh) => Some(hh),
            None => handler_of(told, ss, m2),
        }) by {
            assert(merge_inv_h(*t, told, s0, n as int, ss, m2));
            if ss.len() > 0 {
                let w = find_child(s0.children@, ss[0], 0);
                lemma_find_child(s0.children@, ss[0], 0);
                if w == -1 {
                    assert(node_at(s0, ss) is None);
                    assert(handler_of(s0, ss, m2) is None);
                }
            }
        }
        assert forall|ss: Seq<Seq<char>>| #[trigger]
            defined_at(*t, ss) <==> defined_at(told, ss) || defined_at(s0, ss) by {
            assert(merge_inv_d(*t, told, s0, n as int, ss));
            if ss.len() > 0 {
                let w = find_child(s0.children@, ss[0], 0);
                lemma_find_child(s0.children@, ss[0], 0);
                if w == -1 {
                    assert(node_at(s0, ss) is None);
                }
            }
        }
        assert forall|ss: Seq<Seq<char>>| #[trigger]
            mws_set(mws_sel(*t, ss)) == mws_set(mws_sel(told, ss)) + mws_set(
            mws_sel(s0, ss),
        ) by {
            assert(merge_inv_m(*t, told, s0, n as int, ss));
            if ss.len() > 0 {
                let w = find_child(s0.children@, ss[0], 0);
                lemma_find_child(s0.children@, ss[0], 0);
                if w == -1 {
                    assert(node_at(s0, ss) is None);
                    assert(mws_sel(s0, ss) == Seq::<String>::empty());
                    assert(mws_set(Seq::<String>::empty()) =~= Set::<Seq<char>>::empty());
                    assert(mws_set(mws_sel(told, ss)) + mws_set(mws_sel(s0, ss)) =~= mws_set(
                        mws_sel(told, ss),
                    ));
                }
            }
        }
    }
}

/// A spelling path's first segment names a source child already folded in.
pub open spec fn merged_so_far(s0: RouteTree, k: int, ss: Seq<Seq<char>>) -> bool {
    ss.len() == 0 || (0 <= find_child(s0.children@, ss[0], 0) < k)
}

/// The handler part of the merge loop's invariant: paths through folded-in
/// source children already answer with the merged handler, every other
/// path still answers as the old target did.
pub open spec fn merge_inv_h(
    t: RouteTree,
    told: RouteTree,
    s0: RouteTree,
    k: int,
    ss: Seq<Seq<char>>,
    m2: HTTPMethod,
) -> bool {
    handler_of(t, ss, m2) == if merged_so_far(s0, k, ss) {
        match handler_of(s0, ss, m2) {
            Some(hh) => Some(hh),
            None => handler_of(told, ss, m2),
        }
    } else {
        handler_of(told, ss, m2)
    }
}

/// The node-existence part of the merge loop's invariant.
pub open spec fn merge_inv_d(
    t: RouteTree,
    told: RouteTree,
    s0: RouteTree,
    k: int,
    ss: Seq<Seq<char>>,
) -> bool {
    defined_at(t, ss) <==> defined_at(told, ss) || (merged_so_far(s0, k, ss) && defined_at(
        s0,
        ss,
    ))
}

/// The middleware part of the merge loop's invariant.
pub open spec fn merge_inv_m(
    t: RouteTree,
    told: RouteTree,
    s0: RouteTree,
    k: int,
    ss: Seq<Seq<char>>,
) -> bool {
    mws_set(mws_sel(t, ss)) == mws_set(mws_sel(told, ss)) + (if merged_so_far(s0, k, ss) {
        mws_set(mws_sel(s0, ss))
    } else {
        Set::<Seq<char>>::empty()
    })
}

/// One merge step, matched case: the source child at position `k`, spelled
/// `g0`, was merged into the matching target child; the invariant clauses
/// advance from `k` to `k + 1`.
#[verifier::rlimit(100)]
#[verifier::spinoff_prover]
proof fn lemma_merge_step_update(
    s0: RouteTree,
    told: RouteTree,
    tpre: RouteTree,
    tnow: RouteTree,
    c0: RouteTree,
    tc0: RouteTree,
    tc1: RouteTree,
    k: int,
    g0: Seq<char>,
)
    requires
        node_wf(s0),
        0 <= k < s0.children@.len(),
        s0.children@[k] == c0,
        c0.path@ == g0,
        find_child(s0.children@, g0, 0) == k,
        forall|ss: Seq<Seq<char>>|
            ss.len() > 0 && ss[0] != g0 ==> #[trigger] node_at(tnow, ss) == node_at(tpre, ss),
        forall|ss: Seq<Seq<char>>|
            ss.len() > 0 && ss[0] == g0 ==> #[trigger] node_at(tnow, ss) == node_at(
                tc1,
                ss.skip(1),
            ) && node_at(tpre, ss) == node_at(tc0, ss.skip(1)),
        tnow.handlers == tpre.handlers,
        tnow.middlewares == tpre.middlewares,
        forall|ss: Seq<Seq<char>>, m2: HTTPMethod| #[trigger]
            handler_of(tc1, ss, m2) == match handler_of(c0, ss, m2) {
                Some(hh) => Some(hh),
                None => handler_of(tc0, ss, m2),
            },
        forall|ss: Seq<Seq<char>>| #[trigger]
            defined_at(tc1, ss) <==> defined_at(tc0, ss) || defined_at(c0, ss),
        forall|ss: Seq<Seq<char>>| #[trigger]
            mws_set(mws_sel(tc1, ss)) == mws_set(mws_sel(tc0, ss)) + mws_set(mws_sel(c0, ss)),
        forall|ss: Seq<Seq<char>>, m2: HTTPMethod| #[trigger]
            merge_inv_h(tpre, told, s0, k, ss, m2),
        forall|ss: Seq<Seq<char>>| #[trigger] merge_inv_d(tpre, told, s0, k, ss),
        forall|ss: Seq<Seq<char>>| #[trigger] merge_inv_m(tpre, told, s0, k, ss),
    ensures
        forall|ss: Seq<Seq<char>>, m2: HTTPMethod| #[trigger]
            merge_inv_h(tnow, told, s0, k + 1, ss, m2),
        forall|ss: Seq<Seq<char>>| #[trigger] merge_inv_d(tnow, told, s0, k + 1, ss),
        forall|ss: Seq<Seq<char>>| #[trigger] merge_inv_m(tnow, told, s0, k + 1, ss),
{
    assert forall|ss: Seq<Seq<char>>|
        ss.len() > 0 implies (find_child(s0.children@, ss[0], 0) == k <==> ss[0] == g0) by {
        lemma_find_child(s0.children@, ss[0], 0);
        if find_child(s0.children@, ss[0], 0) == k {
            assert(s0.children@[k].path@ == ss[0]);
        }
    }
    assert forall|ss: Seq<Seq<char>>, m2: HTTPMethod| #[trigger]
        merge_inv_h(tnow, told, s0, k + 1, ss, m2) by {
        assert(merge_inv_h(tpre, told, s0, k, ss, m2));
        if ss.len() == 0 {
            assert(handler_of(tnow, ss, m2) == tnow.handlers.spec_get(m2));
            assert(handler_of(tpre, ss, m2) == tpre.handlers.spec_get(m2));
        } else if ss[0] == g0 {
            assert(node_at(tnow, ss) == node_at(tc1, ss.skip(1)));
            assert(node_at(tpre, ss) == node_at(tc0, ss.skip(1)));
            assert(handler_of(tnow, ss, m2) == handler_of(tc1, ss.skip(1), m2));
            assert(handler_of(tpre, ss, m2) == handler_of(tc0, ss.skip(1), m2));
            assert(node_at(s0, ss) == node_at(c0, ss.skip(1)));
            assert(handler_of(s0, ss, m2) == handler_of(c0, ss.skip(1), m2));
            assert(!merged_so_far(s0, k, ss));
            assert(handler_of(tc0, ss.skip(1), m2) == handler_of(told, ss, m2));
        } else {
            assert(node_at(tnow, ss) == node_at(tpre, ss));
            assert(handler_of(tnow, ss, m2) == handler_of(tpre, ss, m2));
            assert(merged_so_far(s0, k + 1, ss) == merged_so_far(s0, k, ss));
        }
    }
    assert forall|ss: Seq<Seq<char>>| #[trigger] merge_inv_d(tnow, told, s0, k + 1, ss) by {
        assert(merge_inv_d(tpre, told, s0, k, ss));
        if ss.len() == 0 {
        } else if ss[0] == g0 {
            assert(node_at(tnow, ss) == node_at(tc1, ss.skip(1)));
            assert(node_at(tpre, ss) == node_at(tc0, ss.skip(1)));
            assert(node_at(s0, ss) == node_at(c0, ss.skip(1)));
            assert(defined_at(tnow, ss) == defined_at(tc1, ss.skip(1)));
            assert(defined_at(tpre, ss) == defined_at(tc0, ss.skip(1)));
            assert(defined_at(s0, ss) == defined_at(c0, ss.skip(1)));
            assert(!merged_so_far(s0, k, ss));
            assert(defined_at(tc0, ss.skip(1)) == defined_at(told, ss));
        } else {
            assert(node_at(tnow, ss) == node_at(tpre, ss));
            assert(merged_so_far(s0, k + 1, ss) == merged_so_far(s0, k, ss));
        }
    }
    assert forall|ss: Seq<Seq<char>>| #[trigger] merge_inv_m(tnow, told, s0, k + 1, ss) by {
        assert(merge_inv_m(tpre, told, s0, k, ss));
        if ss.len() == 0 {
            assert(mws_sel(tnow, ss) == tnow.middlewares@);
            assert(mws_sel(tpre, ss) == tpre.middlewares@);
        } else if ss[0] == g0 {
            assert(node_at(tnow, ss) == node_at(tc1, ss.skip(1)));
            assert(node_at(tpre, ss) == node_at(tc0, ss.skip(1)));
            assert(node_at(s0, ss) == node_at(c0, ss.skip(1)));
            assert(mws_sel(tnow, ss) == mws_sel(tc1, ss.skip(1)));
            assert(mws_sel(tpre, ss) == mws_sel(tc0, ss.skip(1)));
            assert(mws_sel(s0, ss) == mws_sel(c0, ss.skip(1)));
            assert(mws_set(mws_sel(tc1, ss.skip(1))) == mws_set(mws_sel(tc0, ss.skip(1)))
                + mws_set(mws_sel(c0, ss.skip(1))));
            assert(!merged_so_far(s0, k, ss));
            assert(mws_set(mws_sel(tpre, ss)) == mws_set(mws_sel(told, ss)) + Set::<
                Seq<char>,
            >::empty());
            assert(mws_set(mws_sel(told, ss)) + Set::<Seq<char>>::empty() =~= mws_set(
                mws_sel(told, ss),
            ));
        } else {
            assert(node_at(tnow, ss) == node_at(tpre, ss));
            assert(merged_so_far(s0, k + 1, ss) == merged_so_far(s0, k, ss));
        }
    }
}

/// One merge step, unmatched case: the source child at position `k`,
/// spelled `g0`, was attached whole; the invariant clauses advance from
/// `k` to `k + 1`.
#[verifier::rlimit(100)]
#[verifier::spinoff_prover]
proof fn lemma_merge_step_push(
    s0: RouteTree,
    told: RouteTree,
    tpre: RouteTree,
    tnow: RouteTree,
    c0: RouteTree,
    k: int,
    g0: Seq<char>,
)
    requires
        node_wf(s0),
        0 <= k < s0.children@.len(),
        s0.children@[k] == c0,
        c0.path@ == g0,
        find_child(s0.children@, g0, 0) == k,
        forall|ss: Seq<Seq<char>>|
            ss.len() > 0 && ss[0] != g0 ==> #[trigger] node_at(tnow, ss) == node_at(tpre, ss),
        forall|ss: Seq<Seq<char>>|
            ss.len() > 0 && ss[0] == g0 ==> #[trigger] node_at(tnow, ss) == node_at(
                c0,
                ss.skip(1),
            ) && node_at(tpre, ss) is None,
        tnow.handlers == tpre.handlers,
        tnow.middlewares == tpre.middlewares,
        forall|ss: Seq<Seq<char>>, m2: HTTPMethod| #[trigger]
            merge_inv_h(tpre, told, s0, k, ss, m2),
        forall|ss: Seq<Seq<char>>| #[trigger] merge_inv_d(tpre, told, s0, k, ss),
        forall|ss: Seq<Seq<char>>| #[trigger] merge_inv_m(tpre, told, s0, k, ss),
    ensures
        forall|ss: Seq<Seq<char>>, m2: HTTPMethod| #[trigger]
            merge_inv_h(tnow, told, s0, k + 1, ss, m2),
        forall|ss: Seq<Seq<char>>| #[trigger] merge_inv_d(tnow, told, s0, k + 1, ss),
        forall|ss: Seq<Seq<char>>| #[trigger] merge_inv_m(tnow, told, s0, k + 1, ss),
{
    assert forall|ss: Seq<Seq<char>>|
        ss.len() > 0 implies (find_child(s0.children@, ss[0], 0) == k <==> ss[0] == g0) by {
        lemma_find_child(s0.children@, ss[0], 0);
        if find_child(s0.children@, ss[0], 0) == k {
            assert(s0.children@[k].path@ == ss[0]);
        }
    }
    assert forall|ss: Seq<Seq<char>>, m2: HTTPMethod| #[trigger]
        merge_inv_h(tnow, told, s0, k + 1, ss, m2) by {
        assert(merge_inv_h(tpre, told, s0, k, ss, m2));
        if ss.len() == 0 {
            assert(handler_of(tnow, ss, m2) == tnow.handlers.spec_get(m2));
            assert(handler_of(tpre, ss, m2) == tpre.handlers.spec_get(m2));
        } else if ss[0] == g0 {
            assert(node_at(tnow, ss) == node_at(c0, ss.skip(1)));
            assert(node_at(tpre, ss) is None);
            assert(node_at(s0, ss) == node_at(c0, ss.skip(1)));
            assert(handler_of(tnow, ss, m2) == handler_of(s0, ss, m2));
            assert(!merged_so_far(s0, k, ss));
            assert(handler_of(tpre, ss, m2) is None);
            assert(handler_of(told, ss, m2) is None);
        } else {
            assert(node_at(tnow, ss) == node_at(tpre, ss));
            assert(handler_of(tnow, ss, m2) == handler_of(tpre, ss, m2));
            assert(merged_so_far(s0, k + 1, ss) == merged_so_far(s0, k, ss));
        }
    }
    assert forall|ss: Seq<Seq<char>>| #[trigger] merge_inv_d(tnow, told, s0, k + 1, ss) by {
        assert(merge_inv_d(tpre, told, s0, k, ss));
        if ss.len() == 0 {
        } else if ss[0] == g0 {
            assert(node_at(tnow, ss) == node_at(c0, ss.skip(1)));
            assert(node_at(tpre, ss) is None);
            assert(node_at(s0, ss) == node_at(c0, ss.skip(1)));
            assert(!merged_so_far(s0, k, ss));
            assert(!defined_at(tpre, ss));
            assert(!defined_at(told, ss));
        } else {
            assert(node_at(tnow, ss) == node_at(tpre, ss));
            assert(merged_so_far(s0, k + 1, ss) == merged_so_far(s0, k, ss));
        }
    }
    assert forall|ss: Seq<Seq<char>>| #[trigger] merge_inv_m(tnow, told, s0, k + 1, ss) by {
        assert(merge_inv_m(tpre, told, s0, k, ss));
        if ss.len() == 0 {
            assert(mws_sel(tnow, ss) == tnow.middlewares@);
            assert(mws_sel(tpre, ss) == tpre.middlewares@);
        } else if ss[0] == g0 {
            assert(node_at(tnow, ss) == node_at(c0, ss.skip(1)));
            assert(node_at(tpre, ss) is None);
            assert(node_at(s0, ss) == node_at(c0, ss.skip(1)));
            assert(mws_sel(tnow, ss) == mws_sel(s0, ss));
            assert(!merged_so_far(s0, k, ss));
            assert(mws_sel(tpre, ss) == Seq::<String>::empty());
            assert(!defined_at(told, ss)) by {
                assert(merge_inv_d(tpre, told, s0, k, ss));
            }
            assert(mws_sel(told, ss) == Seq::<String>::empty());
            assert(mws_set(mws_sel(told, ss)) + mws_set(mws_sel(s0, ss)) =~= mws_set(
                mws_sel(s0, ss),
            ));
        } else {
            assert(node_at(tnow, ss) == node_at(tpre, ss));
            assert(merged_so_far(s0, k + 1, ss) == merged_so_far(s0, k, ss));
        }
    }
}

} // verus!
