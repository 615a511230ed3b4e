//! A region quadtree over objects whose position is given by a [`Route`]:
//! the chain of quadrants the object falls into, level after level.
//!
//! A node keeps at most [`MAX_OBJECTS`] objects until it splits into four
//! quadrants; nodes at level [`MAX_LEVEL`] never split. Quadrants are numbered
//! anticlockwise from the upper right:
//!
//! ```text
//! ┌───┬───┐
//! │ 1 │ 0 │
//! ├───┼───┤
//! │ 2 │ 3 │
//! └───┴───┘
//! ```
use vstd::multiset::Multiset;
use vstd::prelude::*;

verus! {

/// Objects a leaf holds before it splits.
pub const MAX_OBJECTS: usize = 10;

/// Level at which nodes stop splitting.
pub const MAX_LEVEL: u8 = 5;

/// Longest route a quadtree rooted at level zero can follow.
pub const MAX_DEPTH: usize = 5;

/// A route is a sequence of quadrant indices no longer than `MAX_DEPTH`.
pub open spec fn valid_route(s: Seq<u8>) -> bool {
    &&& s.len() <= MAX_DEPTH
    &&& forall|i: int| 0 <= i < s.len() ==> #[trigger] s[i] < 4
}

/// `p` is a prefix of `s`.
pub open spec fn is_prefix(p: Seq<u8>, s: Seq<u8>) -> bool {
    &&& p.len() <= s.len()
    &&& forall|i: int| 0 <= i < p.len() ==> #[trigger] p[i] == s[i]
}

/// The chain of quadrants an object falls into, from the root downwards.
/// The route stops at the first node whose midlines the object straddles.
#[derive(Clone, Copy)]
pub struct Route {
    quads: [u8; 5],
    len: u8,
}

impl Route {
    #[verifier::type_invariant]
    spec fn inv(self) -> bool {
        &&& self.len <= 5
        &&& forall|i: int| 0 <= i < self.len ==> #[trigger] self.quads@[i] < 4
    }

    pub closed spec fn view(&self) -> Seq<u8> {
        self.quads@.take(self.len as int)
    }

    /// The route made of `qs`, if it is a valid route.
    pub fn from_quadrants(qs: &[u8]) -> (r: Option<Route>)
        ensures
            r is Some <==> valid_route(qs@),
            r matches Some(r) ==> r@ == qs@,
    {
        if qs.len() > MAX_DEPTH {
            return None;
        }
        let mut quads = [0u8; 5];
        let mut i: usize = 0;
        while i < qs.len()
            invariant
                qs@.len() <= MAX_DEPTH,
                i <= qs@.len(),
                forall|t: int| 0 <= t < i ==> #[trigger] quads@[t] == qs@[t],
                forall|t: int| 0 <= t < i ==> #[trigger] quads@[t] < 4,
            decreases qs.len() - i,
        {
            if qs[i] >= 4 {
                return None;
            }
            quads[i] = qs[i];
            i = i + 1;
        }
        let r = Route { quads, len: qs.len() as u8 };
        assert(r@ =~= qs@);
        Some(r)
    }

    /// The quadrant at `depth`, if the route reaches that deep.
    pub fn quadrant(&self, depth: usize) -> (q: Option<u8>)
        ensures
            valid_route(self@),
            q == (if depth < self@.len() { Some(self@[depth as int]) } else { None::<u8> }),
    {
        proof {
            use_type_invariant(self);
        }
        if depth < self.len as usize {
            Some(self.quads[depth])
        } else {
            None
        }
    }
}

/// Objects whose route ends at depth `d` or above.
pub open spec fn exhausted_at<T>(d: int) -> spec_fn((T, Route)) -> bool {
    |o: (T, Route)| o.1@.len() <= d
}

/// Objects whose route enters quadrant `k` at depth `d`.
pub open spec fn heading_at<T>(d: int, k: int) -> spec_fn((T, Route)) -> bool {
    |o: (T, Route)| d < o.1@.len() && o.1@[d] as int == k
}

/// Abstract value of a quadtree node: its level, the objects it holds
/// (in insertion order, each with its route) and its quadrants.
pub ghost struct QuadNode<T> {
    pub level: int,
    pub objects: Seq<(T, Route)>,
    pub children: Seq<QuadNode<T>>,
}

/// An empty node without quadrants.
pub open spec fn leaf<T>(level: int) -> QuadNode<T> {
    QuadNode { level, objects: Seq::empty(), children: Seq::empty() }
}

/// The node that a leaf at `level`, on a path of length `d`, becomes when it
/// receives `items` in order: a leaf while it may hold them, otherwise a node
/// that keeps the objects whose route ends here and grows each quadrant from
/// the objects heading into it.
pub open spec fn grown<T>(level: int, items: Seq<(T, Route)>, d: int) -> QuadNode<T>
    decreases MAX_LEVEL - level,
{
    if items.len() <= MAX_OBJECTS || level >= MAX_LEVEL {
        QuadNode { level, objects: items, children: Seq::empty() }
    } else {
        QuadNode {
            level,
            objects: items.filter(exhausted_at(d)),
            children: Seq::new(
                4,
                |k: int|
                    if level < MAX_LEVEL {
                        grown(level + 1, items.filter(heading_at(d, k)), d + 1)
                    } else {
                        arbitrary()
                    },
            ),
        }
    }
}

impl<T> QuadNode<T> {
    /// Well-formedness of a node reached by path `p`:
    /// every node has no quadrant or four; every object has a valid route
    /// that passes through this node; a node with quadrants keeps only the
    /// objects whose route ends there; a leaf below `MAX_LEVEL` holds at most
    /// `MAX_OBJECTS` objects; quadrants sit one level below their parent, and
    /// only nodes above `MAX_LEVEL` have them.
    pub open spec fn wf_at(self, p: Seq<u8>) -> bool
        decreases self,
    {
        &&& self.children.len() == 0 || self.children.len() == 4
        &&& forall|i: int|
            0 <= i < self.objects.len() ==> valid_route(#[trigger] self.objects[i].1@)
                && is_prefix(p, self.objects[i].1@)
        &&& self.children.len() == 4 ==> self.level < MAX_LEVEL
        &&& self.children.len() == 4 ==> forall|i: int|
            0 <= i < self.objects.len() ==> #[trigger] self.objects[i].1@.len() == p.len()
        &&& self.children.len() == 0 && self.level < MAX_LEVEL ==> self.objects.len() <= MAX_OBJECTS
        &&& forall|k: int|
            0 <= k < self.children.len() ==> (#[trigger] self.children[k]).level == self.level + 1
                && self.children[k].wf_at(p.push(k as u8))
    }

    /// All objects held by this node and its descendants.
    pub open spec fn content(self) -> Multiset<(T, Route)>
        decreases self,
    {
        if self.children.len() == 4 {
            self.objects.to_multiset().add(self.children[0].content()).add(
                self.children[1].content(),
            ).add(self.children[2].content()).add(self.children[3].content())
        } else {
            self.objects.to_multiset()
        }
    }

    /// The values of all objects held by this node and its descendants, one
    /// per stored object.
    pub open spec fn values(self) -> Multiset<T>
        decreases self,
    {
        let here = value_seq(self.objects).to_multiset();
        if self.children.len() == 4 {
            here.add(self.children[0].values()).add(self.children[1].values()).add(
                self.children[2].values(),
            ).add(self.children[3].values())
        } else {
            here
        }
    }

    /// What a query with route `q` collects from this node, reached at depth
    /// `d`: first what the quadrant it heads into collects, then the objects
    /// held here.
    pub open spec fn gather(self, q: Seq<u8>, d: int) -> Seq<T>
        decreases self,
    {
        let below = if self.children.len() == 4 && 0 <= d < q.len() && q[d] < 4 {
            self.children[q[d] as int].gather(q, d + 1)
        } else {
            Seq::empty()
        };
        below + self.objects.map_values(|o: (T, Route)| o.0)
    }

    /// The node reached from this one by following the quadrants of `p` exists.
    pub open spec fn has_node(self, p: Seq<u8>) -> bool
        decreases p.len(),
    {
        if p.len() == 0 {
            true
        } else {
            &&& self.children.len() == 4
            &&& p[0] < 4
            &&& self.children[p[0] as int].has_node(p.drop_first())
        }
    }

    /// The node reached from this one by following the quadrants of `p`.
    pub open spec fn node_at(self, p: Seq<u8>) -> QuadNode<T>
        decreases p.len(),
    {
        if p.len() == 0 || self.children.len() != 4 || p[0] >= 4 {
            self
        } else {
            self.children[p[0] as int].node_at(p.drop_first())
        }
    }

    /// Some object held in this node or below carries the value `v`.
    pub open spec fn holds_value(self, v: T) -> bool {
        exists|x: (T, Route)| #[trigger] self.content().count(x) > 0 && x.0 == v
    }

    /// The node after `item` is inserted at depth `d`: it descends through
    /// existing quadrants as far as its route goes; a node with quadrants
    /// appends it, and a leaf grows from its objects followed by the item.
    pub open spec fn inserted(self, item: (T, Route), d: int) -> QuadNode<T>
        decreases self,
    {
        let r = item.1@;
        if self.children.len() == 4 && 0 <= d < r.len() && r[d] < 4 {
            QuadNode {
                level: self.level,
                objects: self.objects,
                children: self.children.update(
                    r[d] as int,
                    self.children[r[d] as int].inserted(item, d + 1),
                ),
            }
        } else if self.children.len() == 4 {
            QuadNode { level: self.level, objects: self.objects.push(item), children: self.children }
        } else {
            grown(self.level, self.objects.push(item), d)
        }
    }

    /// The node with every object removed and every quadrant kept.
    pub open spec fn cleared(self) -> QuadNode<T>
        decreases self,
    {
        QuadNode {
            level: self.level,
            objects: Seq::empty(),
            children: Seq::new(
                self.children.len(),
                |k: int|
                    if 0 <= k < self.children.len() {
                        self.children[k].cleared()
                    } else {
                        arbitrary()
                    },
            ),
        }
    }

    /// The node after `items` are inserted one after another.
    spec fn inserted_all(self, items: Seq<(T, Route)>, d: int) -> QuadNode<T>
        decreases items.len(),
    {
        if items.len() == 0 {
            self
        } else {
            self.inserted_all(items.drop_last(), d).inserted(items.last(), d)
        }
    }
}

} // verus!

verus! {

proof fn lemma_filter_push<A>(s: Seq<A>, x: A, f: spec_fn(A) -> bool)
    ensures
        s.push(x).filter(f) == (if f(x) { s.filter(f).push(x) } else { s.filter(f) }),
{
    reveal(Seq::filter);
    assert(s.push(x).drop_last() =~= s);
}

proof fn lemma_filter_all<A>(s: Seq<A>, f: spec_fn(A) -> bool)
    requires
        forall|i: int| 0 <= i < s.len() ==> f(#[trigger] s[i]),
    ensures
        s.filter(f) == s,
    decreases s.len(),
{
    reveal(Seq::filter);
    if s.len() > 0 {
        lemma_filter_all(s.drop_last(), f);
        assert(s.drop_last().push(s.last()) =~= s);
    }
}

proof fn lemma_filter_none<A>(s: Seq<A>, f: spec_fn(A) -> bool)
    requires
        forall|i: int| 0 <= i < s.len() ==> !f(#[trigger] s[i]),
    ensures
        s.filter(f) == Seq::<A>::empty(),
    decreases s.len(),
{
    reveal(Seq::filter);
    if s.len() > 0 {
        lemma_filter_none(s.drop_last(), f);
    }
}

/// Every element of a filtered sequence satisfies the filter and comes from
/// the sequence.
proof fn lemma_filter_members<A>(s: Seq<A>, f: spec_fn(A) -> bool)
    ensures
        forall|i: int|
            0 <= i < s.filter(f).len() ==> f(#[trigger] s.filter(f)[i]) && s.contains(
                s.filter(f)[i],
            ),
    decreases s.len(),
{
    reveal(Seq::filter);
    if s.len() > 0 {
        lemma_filter_members(s.drop_last(), f);
        let t = s.drop_last().filter(f);
        assert forall|i: int| 0 <= i < s.filter(f).len() implies f(#[trigger] s.filter(f)[i])
            && s.contains(s.filter(f)[i]) by {
            if i < t.len() {
                let j = choose|j: int| 0 <= j < s.drop_last().len() && s.drop_last()[j] == t[i];
                assert(s[j] == t[i]);
            } else {
                assert(s[s.len() - 1] == s.last());
            }
        }
    }
}

} // verus!

verus! {

proof fn lemma_grown_inserted<T>(level: int, s: Seq<(T, Route)>, x: (T, Route), d: int)
    requires
        0 <= d,
        valid_route(x.1@),
    ensures
        grown(level, s, d).inserted(x, d) == grown(level, s.push(x), d),
    decreases MAX_LEVEL - level,
{
    let g = grown(level, s, d);
    let g2 = grown(level, s.push(x), d);
    let r = x.1@;
    if s.len() <= MAX_OBJECTS || level >= MAX_LEVEL {
    } else {
        lemma_filter_push(s, x, exhausted_at::<T>(d));
        assert forall|k: int| 0 <= k < 4 implies #[trigger] s.push(x).filter(heading_at(d, k))
            == (if heading_at::<T>(d, k)(x) { s.filter(heading_at(d, k)).push(x) } else {
            s.filter(heading_at(d, k))
        }) by {
            lemma_filter_push(s, x, heading_at::<T>(d, k));
        }
        if d < r.len() {
            let q = r[d] as int;
            lemma_grown_inserted(level + 1, s.filter(heading_at(d, q)), x, d + 1);
            let lhs = g.inserted(x, d);
            assert forall|k: int| 0 <= k < 4 implies lhs.children[k] == g2.children[k] by {
                if k != q {
                    assert(!heading_at::<T>(d, k)(x));
                }
            }
            assert(lhs.children =~= g2.children);
            assert(lhs.objects =~= g2.objects);
        } else {
            let lhs = g.inserted(x, d);
            assert forall|k: int| 0 <= k < 4 implies lhs.children[k] == g2.children[k] by {
                assert(!heading_at::<T>(d, k)(x));
            }
            assert(lhs.children =~= g2.children);
            assert(lhs.objects =~= g2.objects);
        }
    }
}

} // verus!

verus! {

proof fn lemma_inserted_all_push<T>(n: QuadNode<T>, s: Seq<(T, Route)>, x: (T, Route), d: int)
    ensures
        n.inserted_all(s.push(x), d) == n.inserted_all(s, d).inserted(x, d),
{
    assert(s.push(x).drop_last() =~= s);
}

/// Inserting items one by one into an empty leaf grows it.
proof fn lemma_leaf_inserted_all<T>(level: int, s: Seq<(T, Route)>, d: int)
    requires
        0 <= d,
        forall|i: int| 0 <= i < s.len() ==> valid_route(#[trigger] s[i].1@),
    ensures
        leaf::<T>(level).inserted_all(s, d) == grown(level, s, d),
    decreases s.len(),
{
    if s.len() == 0 {
        assert(leaf::<T>(level).objects =~= s);
    } else {
        let s0 = s.drop_last();
        lemma_leaf_inserted_all(level, s0, d);
        lemma_grown_inserted(level, s0, s.last(), d);
        assert(s0.push(s.last()) =~= s);
    }
}

} // verus!

verus! {

proof fn lemma_grown_wf<T>(level: int, s: Seq<(T, Route)>, p: Seq<u8>)
    requires
        forall|i: int|
            0 <= i < s.len() ==> valid_route(#[trigger] s[i].1@) && is_prefix(p, s[i].1@),
    ensures
        grown(level, s, p.len() as int).wf_at(p),
    decreases MAX_LEVEL - level,
{
    let d = p.len() as int;
    let g = grown(level, s, d);
    if s.len() <= MAX_OBJECTS || level >= MAX_LEVEL {
    } else {
        lemma_filter_members(s, exhausted_at::<T>(d));
        let e = s.filter(exhausted_at::<T>(d));
        assert forall|i: int| 0 <= i < e.len() implies valid_route(#[trigger] e[i].1@)
            && is_prefix(p, e[i].1@) && e[i].1@.len() == p.len() by {
            let j = choose|j: int| 0 <= j < s.len() && s[j] == e[i];
        }
        assert forall|k: int| 0 <= k < 4 implies (#[trigger] g.children[k]).level == level + 1
            && g.children[k].wf_at(p.push(k as u8)) by {
            let h = heading_at::<T>(d, k);
            let sk = s.filter(h);
            lemma_filter_members(s, h);
            assert forall|i: int| 0 <= i < sk.len() implies valid_route(#[trigger] sk[i].1@)
                && is_prefix(p.push(k as u8), sk[i].1@) by {
                let j = choose|j: int| 0 <= j < s.len() && s[j] == sk[i];
                assert(h(sk[i]));
                let r = sk[i].1@;
                assert forall|t: int| 0 <= t < p.push(k as u8).len() implies #[trigger] p.push(
                    k as u8,
                )[t] == r[t] by {
                    if t < p.len() {
                        assert(p[t] == r[t]);
                    }
                }
            }
            lemma_grown_wf(level + 1, sk, p.push(k as u8));
        }
    }
}

proof fn lemma_inserted_wf<T>(n: QuadNode<T>, x: (T, Route), p: Seq<u8>)
    requires
        n.wf_at(p),
        valid_route(x.1@),
        is_prefix(p, x.1@),
    ensures
        n.inserted(x, p.len() as int).wf_at(p),
        n.inserted(x, p.len() as int).level == n.level,
    decreases n,
{
    let d = p.len() as int;
    let r = x.1@;
    let m = n.inserted(x, d);
    if n.children.len() == 4 && d < r.len() {
        let q = r[d] as int;
        let pq = p.push(q as u8);
        assert(n.children[q].wf_at(pq));
        assert forall|t: int| 0 <= t < pq.len() implies #[trigger] pq[t] == r[t] by {
            if t < p.len() {
                assert(p[t] == r[t]);
            }
        }
        lemma_inserted_wf(n.children[q], x, pq);
        assert forall|k: int| 0 <= k < m.children.len() implies (#[trigger] m.children[k]).level
            == m.level + 1 && m.children[k].wf_at(p.push(k as u8)) by {
            if k != q {
                assert(m.children[k] == n.children[k]);
            }
        }
    } else if n.children.len() == 4 {
        assert forall|i: int| 0 <= i < m.objects.len() implies valid_route(
            #[trigger] m.objects[i].1@,
        ) && is_prefix(p, m.objects[i].1@) && m.objects[i].1@.len() == p.len() by {
            if i < n.objects.len() {
                assert(m.objects[i] == n.objects[i]);
            }
        }
        assert forall|k: int| 0 <= k < m.children.len() implies (#[trigger] m.children[k]).level
            == m.level + 1 && m.children[k].wf_at(p.push(k as u8)) by {
            assert(m.children[k] == n.children[k]);
        }
    } else {
        let s = n.objects.push(x);
        assert forall|i: int| 0 <= i < s.len() implies valid_route(#[trigger] s[i].1@)
            && is_prefix(p, s[i].1@) by {
            if i < n.objects.len() {
                assert(s[i] == n.objects[i]);
            }
        }
        lemma_grown_wf(n.level, s, p);
    }
}

} // verus!

verus! {

/// The objects of `s` split by where their route goes at depth `d`.
spec fn parted<T>(s: Seq<(T, Route)>, d: int) -> Multiset<(T, Route)> {
    s.filter(exhausted_at(d)).to_multiset().add(s.filter(heading_at(d, 0)).to_multiset()).add(
        s.filter(heading_at(d, 1)).to_multiset(),
    ).add(s.filter(heading_at(d, 2)).to_multiset()).add(s.filter(heading_at(d, 3)).to_multiset())
}

proof fn lemma_partition<T>(s: Seq<(T, Route)>, d: int)
    requires
        0 <= d,
        forall|i: int| 0 <= i < s.len() ==> valid_route(#[trigger] s[i].1@),
    ensures
        s.to_multiset() == parted(s, d),
    decreases s.len(),
{
    broadcast use vstd::seq_lib::group_to_multiset_ensures;

    if s.len() == 0 {
        lemma_filter_none(s, exhausted_at::<T>(d));
        lemma_filter_none(s, heading_at::<T>(d, 0));
        lemma_filter_none(s, heading_at::<T>(d, 1));
        lemma_filter_none(s, heading_at::<T>(d, 2));
        lemma_filter_none(s, heading_at::<T>(d, 3));
        assert(s =~= Seq::<(T, Route)>::empty());
        assert(s.to_multiset() =~= Multiset::empty());
        assert(parted(s, d) =~= Multiset::empty());
    } else {
        let s0 = s.drop_last();
        let x = s.last();
        lemma_partition(s0, d);
        assert(s0.push(x) =~= s);
        lemma_filter_push(s0, x, exhausted_at::<T>(d));
        lemma_filter_push(s0, x, heading_at::<T>(d, 0));
        lemma_filter_push(s0, x, heading_at::<T>(d, 1));
        lemma_filter_push(s0, x, heading_at::<T>(d, 2));
        lemma_filter_push(s0, x, heading_at::<T>(d, 3));
        assert(x == s[s.len() - 1]);
        assert(valid_route(x.1@));
        assert(s.to_multiset() =~= s0.to_multiset().insert(x));
        let r = x.1@;
        let e0 = s0.filter(exhausted_at::<T>(d));
        let h0 = s0.filter(heading_at::<T>(d, 0));
        let h1 = s0.filter(heading_at::<T>(d, 1));
        let h2 = s0.filter(heading_at::<T>(d, 2));
        let h3 = s0.filter(heading_at::<T>(d, 3));
        if r.len() <= d {
            assert(parted(s, d) == e0.push(x).to_multiset().add(h0.to_multiset()).add(
                h1.to_multiset(),
            ).add(h2.to_multiset()).add(h3.to_multiset()));
        } else if r[d] == 0 {
            assert(parted(s, d) == e0.to_multiset().add(h0.push(x).to_multiset()).add(
                h1.to_multiset(),
            ).add(h2.to_multiset()).add(h3.to_multiset()));
        } else if r[d] == 1 {
            assert(parted(s, d) == e0.to_multiset().add(h0.to_multiset()).add(
                h1.push(x).to_multiset(),
            ).add(h2.to_multiset()).add(h3.to_multiset()));
        } else if r[d] == 2 {
            assert(parted(s, d) == e0.to_multiset().add(h0.to_multiset()).add(
                h1.to_multiset(),
            ).add(h2.push(x).to_multiset()).add(h3.to_multiset()));
        } else {
            assert(r[d] < 4);
            assert(parted(s, d) == e0.to_multiset().add(h0.to_multiset()).add(
                h1.to_multiset(),
            ).add(h2.to_multiset()).add(h3.push(x).to_multiset()));
        }
        assert(parted(s, d) =~= parted(s0, d).insert(x));
    }
}

/// The values of a sequence of stored objects.
pub open spec fn value_seq<T>(s: Seq<(T, Route)>) -> Seq<T> {
    s.map_values(|o: (T, Route)| o.0)
}

/// The values of `s` split by where their route goes at depth `d`.
spec fn parted_values<T>(s: Seq<(T, Route)>, d: int) -> Multiset<T> {
    value_seq(s.filter(exhausted_at(d))).to_multiset().add(value_seq(s.filter(heading_at(d, 0))).to_multiset()).add(
        value_seq(s.filter(heading_at(d, 1))).to_multiset(),
    ).add(value_seq(s.filter(heading_at(d, 2))).to_multiset()).add(value_seq(s.filter(heading_at(d, 3))).to_multiset())
}

proof fn lemma_partition_values<T>(s: Seq<(T, Route)>, d: int)
    requires
        0 <= d,
        forall|i: int| 0 <= i < s.len() ==> valid_route(#[trigger] s[i].1@),
    ensures
        value_seq(s).to_multiset() == parted_values(s, d),
    decreases s.len(),
{
    broadcast use vstd::seq_lib::group_to_multiset_ensures;

    if s.len() == 0 {
        lemma_filter_none(s, exhausted_at::<T>(d));
        lemma_filter_none(s, heading_at::<T>(d, 0));
        lemma_filter_none(s, heading_at::<T>(d, 1));
        lemma_filter_none(s, heading_at::<T>(d, 2));
        lemma_filter_none(s, heading_at::<T>(d, 3));
        assert(s =~= Seq::<(T, Route)>::empty());
        assert(value_seq(s).to_multiset() =~= Multiset::empty());
        assert(parted_values(s, d) =~= Multiset::empty());
    } else {
        let s0 = s.drop_last();
        let x = s.last();
        lemma_partition_values(s0, d);
        assert(s0.push(x) =~= s);
        lemma_filter_push(s0, x, exhausted_at::<T>(d));
        lemma_filter_push(s0, x, heading_at::<T>(d, 0));
        lemma_filter_push(s0, x, heading_at::<T>(d, 1));
        lemma_filter_push(s0, x, heading_at::<T>(d, 2));
        lemma_filter_push(s0, x, heading_at::<T>(d, 3));
        assert(x == s[s.len() - 1]);
        assert(valid_route(x.1@));
        assert(value_seq(s) =~= value_seq(s0).push(x.0));
        assert(value_seq(s).to_multiset() =~= value_seq(s0).to_multiset().insert(x.0));
        let r = x.1@;
        let e0 = s0.filter(exhausted_at::<T>(d));
        let h0 = s0.filter(heading_at::<T>(d, 0));
        let h1 = s0.filter(heading_at::<T>(d, 1));
        let h2 = s0.filter(heading_at::<T>(d, 2));
        let h3 = s0.filter(heading_at::<T>(d, 3));
        assert(value_seq(e0.push(x)) =~= value_seq(e0).push(x.0));
        assert(value_seq(h0.push(x)) =~= value_seq(h0).push(x.0));
        assert(value_seq(h1.push(x)) =~= value_seq(h1).push(x.0));
        assert(value_seq(h2.push(x)) =~= value_seq(h2).push(x.0));
        assert(value_seq(h3.push(x)) =~= value_seq(h3).push(x.0));
        if r.len() <= d {
            assert(parted_values(s, d) == value_seq(e0.push(x)).to_multiset().add(value_seq(h0).to_multiset()).add(
                value_seq(h1).to_multiset(),
            ).add(value_seq(h2).to_multiset()).add(value_seq(h3).to_multiset()));
        } else if r[d] == 0 {
            assert(parted_values(s, d) == value_seq(e0).to_multiset().add(value_seq(h0.push(x)).to_multiset()).add(
                value_seq(h1).to_multiset(),
            ).add(value_seq(h2).to_multiset()).add(value_seq(h3).to_multiset()));
        } else if r[d] == 1 {
            assert(parted_values(s, d) == value_seq(e0).to_multiset().add(value_seq(h0).to_multiset()).add(
                value_seq(h1.push(x)).to_multiset(),
            ).add(value_seq(h2).to_multiset()).add(value_seq(h3).to_multiset()));
        } else if r[d] == 2 {
            assert(parted_values(s, d) == value_seq(e0).to_multiset().add(value_seq(h0).to_multiset()).add(
                value_seq(h1).to_multiset(),
            ).add(value_seq(h2.push(x)).to_multiset()).add(value_seq(h3).to_multiset()));
        } else {
            assert(r[d] < 4);
            assert(parted_values(s, d) == value_seq(e0).to_multiset().add(value_seq(h0).to_multiset()).add(
                value_seq(h1).to_multiset(),
            ).add(value_seq(h2).to_multiset()).add(value_seq(h3.push(x)).to_multiset()));
        }
        assert(parted_values(s, d) =~= parted_values(s0, d).insert(x.0));
    }
}

proof fn lemma_grown_values<T>(level: int, s: Seq<(T, Route)>, d: int)
    requires
        0 <= d,
        forall|i: int| 0 <= i < s.len() ==> valid_route(#[trigger] s[i].1@),
    ensures
        grown(level, s, d).values() == value_seq(s).to_multiset(),
    decreases MAX_LEVEL - level,
{
    let g = grown(level, s, d);
    if s.len() <= MAX_OBJECTS || level >= MAX_LEVEL {
    } else {
        assert forall|k: int| 0 <= k < 4 implies (#[trigger] g.children[k]).values()
            == value_seq(s.filter(heading_at(d, k))).to_multiset() by {
            let sk = s.filter(heading_at::<T>(d, k));
            lemma_filter_members(s, heading_at::<T>(d, k));
            assert forall|i: int| 0 <= i < sk.len() implies valid_route(#[trigger] sk[i].1@) by {
                let j = choose|j: int| 0 <= j < s.len() && s[j] == sk[i];
            }
            lemma_grown_values(level + 1, sk, d + 1);
        }
        lemma_partition_values(s, d);
        assert(g.values() =~= value_seq(s).to_multiset());
    }
}

proof fn lemma_grown_content<T>(level: int, s: Seq<(T, Route)>, d: int)
    requires
        0 <= d,
        forall|i: int| 0 <= i < s.len() ==> valid_route(#[trigger] s[i].1@),
    ensures
        grown(level, s, d).content() == s.to_multiset(),
    decreases MAX_LEVEL - level,
{
    let g = grown(level, s, d);
    if s.len() <= MAX_OBJECTS || level >= MAX_LEVEL {
    } else {
        assert forall|k: int| 0 <= k < 4 implies (#[trigger] g.children[k]).content()
            == s.filter(heading_at(d, k)).to_multiset() by {
            let sk = s.filter(heading_at::<T>(d, k));
            lemma_filter_members(s, heading_at::<T>(d, k));
            assert forall|i: int| 0 <= i < sk.len() implies valid_route(#[trigger] sk[i].1@) by {
                let j = choose|j: int| 0 <= j < s.len() && s[j] == sk[i];
            }
            lemma_grown_content(level + 1, sk, d + 1);
        }
        lemma_partition(s, d);
        assert(g.content() =~= s.to_multiset());
    }
}

proof fn lemma_inserted_content<T>(n: QuadNode<T>, x: (T, Route), p: Seq<u8>)
    requires
        n.wf_at(p),
        valid_route(x.1@),
        is_prefix(p, x.1@),
    ensures
        n.inserted(x, p.len() as int).content() == n.content().insert(x),
    decreases n,
{
    let d = p.len() as int;
    let r = x.1@;
    let m = n.inserted(x, d);
    if n.children.len() == 4 && d < r.len() {
        let q = r[d] as int;
        let pq = p.push(q as u8);
        assert(n.children[q].wf_at(pq));
        assert forall|t: int| 0 <= t < pq.len() implies #[trigger] pq[t] == r[t] by {
            if t < p.len() {
                assert(p[t] == r[t]);
            }
        }
        lemma_inserted_content(n.children[q], x, pq);
        assert(m.content() =~= n.content().insert(x));
    } else if n.children.len() == 4 {
        n.objects.to_multiset_ensures();
        assert(m.content() =~= n.content().insert(x));
    } else {
        let s = n.objects.push(x);
        assert forall|i: int| 0 <= i < s.len() implies valid_route(#[trigger] s[i].1@) by {
            if i < n.objects.len() {
                assert(s[i] == n.objects[i]);
            }
        }
        lemma_grown_content(n.level, s, d);
        n.objects.to_multiset_ensures();
    }
}


proof fn lemma_inserted_values<T>(n: QuadNode<T>, x: (T, Route), p: Seq<u8>)
    requires
        n.wf_at(p),
        valid_route(x.1@),
        is_prefix(p, x.1@),
    ensures
        n.inserted(x, p.len() as int).values() == n.values().insert(x.0),
    decreases n,
{
    let d = p.len() as int;
    let r = x.1@;
    let m = n.inserted(x, d);
    if n.children.len() == 4 && d < r.len() {
        let q = r[d] as int;
        let pq = p.push(q as u8);
        assert(n.children[q].wf_at(pq));
        assert forall|t: int| 0 <= t < pq.len() implies #[trigger] pq[t] == r[t] by {
            if t < p.len() {
                assert(p[t] == r[t]);
            }
        }
        lemma_inserted_values(n.children[q], x, pq);
        assert(m.values() =~= n.values().insert(x.0));
    } else if n.children.len() == 4 {
        value_seq(n.objects).to_multiset_ensures();
        assert(value_seq(n.objects.push(x)) =~= value_seq(n.objects).push(x.0));
        assert(m.values() =~= n.values().insert(x.0));
    } else {
        let s = n.objects.push(x);
        assert forall|i: int| 0 <= i < s.len() implies valid_route(#[trigger] s[i].1@) by {
            if i < n.objects.len() {
                assert(s[i] == n.objects[i]);
            }
        }
        lemma_grown_values(n.level, s, d);
        value_seq(n.objects).to_multiset_ensures();
        assert(value_seq(n.objects.push(x)) =~= value_seq(n.objects).push(x.0));
    }
}

} // verus!

verus! {

proof fn lemma_content_routes<T>(n: QuadNode<T>, p: Seq<u8>, x: (T, Route))
    requires
        n.wf_at(p),
        n.content().count(x) > 0,
    ensures
        valid_route(x.1@),
        is_prefix(p, x.1@),
    decreases n,
{
    broadcast use vstd::seq_lib::group_to_multiset_ensures;

    if n.objects.contains(x) {
        let i = choose|i: int| 0 <= i < n.objects.len() && n.objects[i] == x;
    } else {
        assert(n.children.len() == 4);
        let k = if n.children[0].content().count(x) > 0 {
            0
        } else if n.children[1].content().count(x) > 0 {
            1
        } else if n.children[2].content().count(x) > 0 {
            2
        } else {
            3int
        };
        assert(n.children[k].content().count(x) > 0);
        let pk = p.push(k as u8);
        lemma_content_routes(n.children[k], pk, x);
        assert forall|t: int| 0 <= t < p.len() implies #[trigger] p[t] == x.1@[t] by {
            assert(pk[t] == p[t]);
        }
    }
}

proof fn lemma_stored_is_gathered<T>(n: QuadNode<T>, p: Seq<u8>, x: (T, Route), q: Seq<u8>)
    requires
        n.wf_at(p),
        n.content().count(x) > 0,
        is_prefix(x.1@, q),
    ensures
        n.gather(q, p.len() as int).contains(x.0),
    decreases n,
{
    broadcast use vstd::seq_lib::group_to_multiset_ensures;

    let d = p.len() as int;
    let g = n.gather(q, d);
    let vals = n.objects.map_values(|o: (T, Route)| o.0);
    let below = g.subrange(0, g.len() - vals.len());
    assert(g.subrange(g.len() - vals.len(), g.len() as int) =~= vals);
    if n.objects.contains(x) {
        let i = choose|i: int| 0 <= i < n.objects.len() && n.objects[i] == x;
        assert(g[g.len() - vals.len() + i] == x.0);
    } else {
        assert(n.children.len() == 4);
        let k = if n.children[0].content().count(x) > 0 {
            0
        } else if n.children[1].content().count(x) > 0 {
            1
        } else if n.children[2].content().count(x) > 0 {
            2
        } else {
            3int
        };
        assert(n.children[k].content().count(x) > 0);
        let pk = p.push(k as u8);
        lemma_content_routes(n.children[k], pk, x);
        assert(pk[d] == x.1@[d]);
        assert(q[d] == x.1@[d]);
        lemma_stored_is_gathered(n.children[k], pk, x, q);
        let cg = n.children[k].gather(q, d + 1);
        let j = choose|j: int| 0 <= j < cg.len() && cg[j] == x.0;
        assert(g[j] == x.0);
    }
}

proof fn lemma_gathered_is_stored<T>(n: QuadNode<T>, q: Seq<u8>, d: int)
    ensures
        forall|i: int| 0 <= i < n.gather(q, d).len() ==> n.holds_value(#[trigger] n.gather(q, d)[i]),
    decreases n,
{
    broadcast use vstd::seq_lib::group_to_multiset_ensures;

    let g = n.gather(q, d);
    let vals = n.objects.map_values(|o: (T, Route)| o.0);
    assert forall|i: int| 0 <= i < g.len() implies n.holds_value(#[trigger] g[i]) by {
        if i >= g.len() - vals.len() {
            let j = i - (g.len() - vals.len());
            let x = n.objects[j];
            assert(n.objects.contains(x));
            assert(n.objects.to_multiset().count(x) > 0);
            assert(n.content().count(x) > 0);
            assert(x.0 == g[i]);
        } else {
            assert(n.children.len() == 4 && 0 <= d < q.len() && q[d] < 4);
            let k = q[d] as int;
            let c = n.children[k];
            lemma_gathered_is_stored(c, q, d + 1);
            assert(c.gather(q, d + 1)[i] == g[i]);
            assert(c.holds_value(g[i]));
            let x = choose|x: (T, Route)| c.content().count(x) > 0 && x.0 == g[i];
            assert(n.content().count(x) > 0);
        }
    }
}

proof fn lemma_cleared<T>(n: QuadNode<T>, p: Seq<u8>)
    requires
        n.wf_at(p),
    ensures
        n.cleared().wf_at(p),
        n.cleared().content() == Multiset::<(T, Route)>::empty(),
        n.cleared().values() == Multiset::<T>::empty(),
    decreases n,
{
    broadcast use vstd::seq_lib::group_to_multiset_ensures;

    let c = n.cleared();
    assert forall|k: int| 0 <= k < c.children.len() implies (#[trigger] c.children[k]).level
        == c.level + 1 && c.children[k].wf_at(p.push(k as u8)) && c.children[k].content()
        == Multiset::<(T, Route)>::empty() && c.children[k].values() == Multiset::<T>::empty() by {
        lemma_cleared(n.children[k], p.push(k as u8));
    }
    assert(c.objects.to_multiset() =~= Multiset::<(T, Route)>::empty());
    assert(c.content() =~= Multiset::<(T, Route)>::empty());
    assert(value_seq(c.objects) =~= Seq::<T>::empty());
    assert(value_seq(c.objects).to_multiset() =~= Multiset::<T>::empty());
    assert(c.values() =~= Multiset::<T>::empty());
}

} // verus!

verus! {

/// A quadtree of values of type `T`, each stored with its route.
pub struct QuadTree<T> {
    level: u8,
    objects: Vec<(T, Route)>,
    nodes: Vec<QuadTree<T>>,
}

impl<T> QuadTree<T> {
    /// Abstract value of the tree.
    pub closed spec fn model(&self) -> QuadNode<T>
        decreases self,
    {
        QuadNode {
            level: self.level as int,
            objects: self.objects@,
            children: Seq::new(
                self.nodes@.len(),
                |k: int|
                    if 0 <= k < self.nodes@.len() {
                        self.nodes@[k].model()
                    } else {
                        arbitrary()
                    },
            ),
        }
    }

    /// Well-formedness of a tree used as a root.
    pub open spec fn wf(&self) -> bool {
        self.model().wf_at(Seq::empty())
    }

    /// Every object stored in the tree, with its route.
    pub open spec fn content(&self) -> Multiset<(T, Route)> {
        self.model().content()
    }
}

impl<T: Copy> QuadTree<T> {
    /// An empty tree whose root sits at `level`.
    pub fn new(level: u8) -> (t: QuadTree<T>)
        ensures
            t.model() == leaf::<T>(level as int),
            t.wf(),
            t.model().values() == Multiset::<T>::empty(),
    {
        let t = QuadTree { level, objects: Vec::new(), nodes: Vec::new() };
        assert(t.model().children =~= Seq::<QuadNode<T>>::empty());
        assert(t.model().objects =~= Seq::<(T, Route)>::empty());
        proof {
            broadcast use vstd::seq_lib::group_to_multiset_ensures;

            assert(value_seq(t.model().objects) =~= Seq::<T>::empty());
            assert(value_seq(t.model().objects).to_multiset() =~= Multiset::<T>::empty());
        }
        t
    }

    /// Gives a leaf its four quadrants, each an empty leaf one level down.
    fn split(&mut self)
        requires
            old(self).nodes@.len() == 0,
            old(self).level < 255,
        ensures
            final(self).level == old(self).level,
            final(self).objects@ == old(self).objects@,
            final(self).nodes@.len() == 4,
            forall|k: int|
                0 <= k < 4 ==> (#[trigger] final(self).nodes@[k]).model() == leaf::<T>(
                    old(self).level + 1,
                ) && final(self).nodes@[k].level == old(self).level + 1,
    {
        let lev = self.level + 1;
        self.nodes = vec![
            QuadTree::new(lev),
            QuadTree::new(lev),
            QuadTree::new(lev),
            QuadTree::new(lev),
        ];
    }

    /// Stores a copy of `item`, whose position is given by `route`.
    /// The item descends through existing quadrants as far as its route goes;
    /// a leaf that then holds more than `MAX_OBJECTS` objects below
    /// `MAX_LEVEL` splits and pushes its objects down.
    pub fn insert(&mut self, item: &T, route: &Route)
        requires
            old(self).wf(),
        ensures
            final(self).model() == old(self).model().inserted((*item, *route), 0),
            final(self).wf(),
            final(self).content() == old(self).content().insert((*item, *route)),
            final(self).model().values() == old(self).model().values().insert(*item),
    {
        proof {
            use_type_invariant(route);
            assert(route@.len() <= MAX_DEPTH);
            lemma_inserted_content(self.model(), (*item, *route), Seq::empty());
            lemma_inserted_values(self.model(), (*item, *route), Seq::empty());
        }
        self.insert_at(*item, *route, 0, Ghost(Seq::empty()));
    }

    /// Removes every object; the quadrants stay in place.
    pub fn clear(&mut self)
        ensures
            final(self).model() == old(self).model().cleared(),
            old(self).wf() ==> final(self).wf(),
            old(self).wf() ==> final(self).model().values() == Multiset::<T>::empty(),
        decreases *old(self),
    {
        let ghost old_model = self.model();
        self.objects = Vec::new();
        let n = self.nodes.len();
        let mut k: usize = 0;
        while k < n
            invariant
                n == self.nodes@.len(),
                n == old(self).nodes@.len(),
                k <= n,
                self.level == old(self).level,
                self.objects@ == Seq::<(T, Route)>::empty(),
                forall|t: int| 0 <= t < k ==> (#[trigger] self.nodes@[t]).model() == old(self).nodes@[t].model().cleared(),
                forall|t: int| k <= t < n ==> #[trigger] self.nodes@[t] == old(self).nodes@[t],
            decreases n - k,
        {
            self.nodes[k].clear();
            k = k + 1;
        }
        proof {
            assert(self.model().children =~= old_model.cleared().children);
            assert(self.model().objects =~= old_model.cleared().objects);
            if old_model.wf_at(Seq::empty()) {
                lemma_cleared(old_model, Seq::empty());
            }
        }
    }

    /// Appends to `return_objects` the objects that may meet an object with
    /// route `query`: those held in the quadrants the query descends into,
    /// deepest first.
    pub fn retrieve(&self, return_objects: &mut Vec<T>, query: &Route)
        requires
            self.wf(),
        ensures
            final(return_objects)@ == old(return_objects)@ + self.model().gather(query@, 0),
    {
        self.retrieve_at(return_objects, query, 0, Ghost(Seq::empty()));
    }

    fn retrieve_at(&self, out: &mut Vec<T>, query: &Route, depth: usize, Ghost(path): Ghost<Seq<u8>>)
        requires
            self.model().wf_at(path),
        ensures
            final(out)@ == old(out)@ + self.model().gather(query@, depth as int),
        decreases self,
    {
        let ghost m = self.model();
        if let Some(q) = query.quadrant(depth) {
            if self.nodes.len() > 0 {
                proof {
                    assert(m.children[q as int] == self.nodes@[q as int].model());
                }
                self.nodes[q as usize].retrieve_at(out, query, depth + 1, Ghost(path.push(q)));
            }
        }
        let ghost mid = out@;
        let ghost vals = m.objects.map_values(|o: (T, Route)| o.0);
        proof {
            assert(mid == old(out)@ + m.gather(query@, depth as int).subrange(0, m.gather(query@, depth as int).len() - vals.len()));
        }
        let mut i: usize = 0;
        while i < self.objects.len()
            invariant
                i <= self.objects@.len(),
                vals.len() == self.objects@.len(),
                forall|t: int| 0 <= t < vals.len() ==> #[trigger] vals[t] == self.objects@[t].0,
                out@ == mid + vals.take(i as int),
            decreases self.objects.len() - i,
        {
            out.push(self.objects[i].0);
            proof {
                assert(vals.take(i + 1) =~= vals.take(i as int).push(vals[i as int]));
            }
            i = i + 1;
        }
        proof {
            assert(vals.take(i as int) =~= vals);
            assert(out@ =~= old(out)@ + m.gather(query@, depth as int));
        }
    }

    /// Inserts `item` with its route into the node reached by `path`.
    fn insert_at(&mut self, item: T, route: Route, depth: usize, Ghost(path): Ghost<Seq<u8>>)
        requires
            old(self).model().wf_at(path),
            depth == path.len(),
            valid_route(route@),
            is_prefix(path, route@),
        ensures
            final(self).model() == old(self).model().inserted((item, route), depth as int),
            final(self).model().wf_at(path),
            final(self).level == old(self).level,
        decreases MAX_LEVEL - old(self).level,
    {
        let ghost old_model = self.model();
        let ghost x = (item, route);
        let ghost d = depth as int;
        proof {
            lemma_inserted_wf(old_model, x, path);
        }
        if self.nodes.len() > 0 {
            if let Some(q) = route.quadrant(depth) {
                let ghost pq = path.push(q);
                proof {
                    assert(old_model.children[q as int] == self.nodes@[q as int].model());
                    assert(old_model.children[q as int].wf_at(pq));
                    assert forall|t: int| 0 <= t < pq.len() implies #[trigger] pq[t] == route@[t] by {
                        if t < path.len() {
                            assert(path[t] == route@[t]);
                        }
                    }
                }
                self.nodes[q as usize].insert_at(item, route, depth + 1, Ghost(pq));
                proof {
                    assert(self.model().children =~= old_model.inserted(x, d).children);
                }
                return;
            }
        }
        self.objects.push((item, route));
        if self.objects.len() > MAX_OBJECTS && self.level < MAX_LEVEL {
            let ghost had_children = self.nodes@.len() == 4;
            if self.nodes.len() == 0 {
                self.split();
            }
            let ghost s = self.objects@;
            let ghost lev = self.level as int;
            let ghost base: Seq<QuadNode<T>> = if had_children {
                old_model.children
            } else {
                Seq::new(4, |k: int| leaf::<T>(lev + 1))
            };
            proof {
                assert forall|t: int| 0 <= t < s.len() implies valid_route(#[trigger] s[t].1@)
                    && is_prefix(path, s[t].1@) by {
                    if t < old_model.objects.len() {
                        assert(s[t] == old_model.objects[t]);
                    }
                }
                assert(s.take(0) =~= Seq::<(T, Route)>::empty());
                lemma_filter_none(s.take(0), exhausted_at::<T>(d));
                assert(s.skip(0) =~= s);
                assert forall|k: int| 0 <= k < 4 implies (#[trigger] self.nodes@[k]).model()
                    == base[k].inserted_all(s.take(0).filter(heading_at(d, k)), d + 1)
                    && self.nodes@[k].level == self.level + 1
                    && self.nodes@[k].model().wf_at(path.push(k as u8)) by {
                    lemma_filter_none(s.take(0), heading_at::<T>(d, k));
                    if !had_children {
                        lemma_grown_wf(lev + 1, Seq::<(T, Route)>::empty(), path.push(k as u8));
                        assert(grown(lev + 1, Seq::<(T, Route)>::empty(), d + 1) == leaf::<T>(lev + 1));
                    } else {
                        assert(old_model.children[k] == self.nodes@[k].model());
                    }
                }
            }
            let mut i: usize = 0;
            let ghost mut j: int = 0;
            while i < self.objects.len()
                invariant
                    self.level == old(self).level,
                    self.level < MAX_LEVEL,
                    lev == self.level,
                    self.nodes@.len() == 4,
                    depth == path.len(),
                    d == depth,
                    0 <= j <= s.len(),
                    self.objects@ == s.take(j).filter(exhausted_at(d)) + s.skip(j),
                    i == s.take(j).filter(exhausted_at(d)).len(),
                    forall|t: int|
                        0 <= t < s.len() ==> valid_route(#[trigger] s[t].1@) && is_prefix(
                            path,
                            s[t].1@,
                        ),
                    forall|k: int|
                        0 <= k < 4 ==> (#[trigger] self.nodes@[k]).model()
                            == base[k].inserted_all(s.take(j).filter(heading_at(d, k)), d + 1)
                            && self.nodes@[k].level == self.level + 1
                            && self.nodes@[k].model().wf_at(path.push(k as u8)),
                decreases self.objects.len() - i,
            {
                let ghost kept = s.take(j).filter(exhausted_at::<T>(d));
                proof {
                    assert(self.objects@[i as int] == s[j]);
                    assert(s.take(j + 1) =~= s.take(j).push(s[j]));
                    lemma_filter_push(s.take(j), s[j], exhausted_at::<T>(d));
                    assert forall|k: int| 0 <= k < 4 implies #[trigger] s.take(j + 1).filter(
                        heading_at(d, k),
                    ) == (if heading_at::<T>(d, k)(s[j]) {
                        s.take(j).filter(heading_at(d, k)).push(s[j])
                    } else {
                        s.take(j).filter(heading_at(d, k))
                    }) by {
                        lemma_filter_push(s.take(j), s[j], heading_at::<T>(d, k));
                    }
                }
                match self.objects[i].1.quadrant(depth) {
                    Some(q) => {
                        let moved = self.objects.remove(i);
                        let ghost pq = path.push(q);
                        proof {
                            assert(moved == s[j]);
                            let r = moved.1@;
                            assert(is_prefix(path, r));
                            assert forall|t: int| 0 <= t < pq.len() implies #[trigger] pq[t]
                                == r[t] by {
                                if t < path.len() {
                                    assert(path[t] == r[t]);
                                }
                            }
                            assert(self.objects@ =~= kept + s.skip(j + 1));
                            lemma_inserted_all_push(
                                base[q as int],
                                s.take(j).filter(heading_at::<T>(d, q as int)),
                                s[j],
                                d + 1,
                            );
                        }
                        self.nodes[q as usize].insert_at(moved.0, moved.1, depth + 1, Ghost(pq));
                        proof {
                            assert forall|k: int| 0 <= k < 4 implies (#[trigger] self.nodes@[k]).model()
                                == base[k].inserted_all(s.take(j + 1).filter(heading_at(d, k)), d + 1)
                                && self.nodes@[k].level == self.level + 1
                                && self.nodes@[k].model().wf_at(path.push(k as u8)) by {
                                if k != q as int {
                                    assert(!heading_at::<T>(d, k)(s[j]));
                                }
                            }
                        }
                    },
                    None => {
                        proof {
                            assert(self.objects@ =~= kept.push(s[j]) + s.skip(j + 1));
                            assert forall|k: int| 0 <= k < 4 implies !heading_at::<T>(d, k)(s[j]) by {}
                        }
                        i = i + 1;
                    },
                }
                proof {
                    j = j + 1;
                }
            }
            proof {
                assert(s.skip(j).len() == 0);
                assert(j == s.len());
                assert(s.take(j) =~= s);
                let target = old_model.inserted(x, d);
                if had_children {
                    assert forall|t: int| 0 <= t < s.len() implies exhausted_at::<T>(d)(#[trigger] s[t]) by {
                        if t < old_model.objects.len() {
                            assert(s[t] == old_model.objects[t]);
                        }
                    }
                    lemma_filter_all(s, exhausted_at::<T>(d));
                    assert forall|k: int| 0 <= k < 4 implies (#[trigger] self.nodes@[k]).model()
                        == base[k] by {
                        lemma_filter_none(s, heading_at::<T>(d, k));
                    }
                    assert(self.model().objects =~= target.objects);
                    assert(self.model().children =~= target.children);
                } else {
                    assert forall|k: int| 0 <= k < 4 implies (#[trigger] self.nodes@[k]).model()
                        == target.children[k] by {
                        let sk = s.filter(heading_at::<T>(d, k));
                        lemma_filter_members(s, heading_at::<T>(d, k));
                        assert forall|t: int| 0 <= t < sk.len() implies valid_route(#[trigger] sk[t].1@) by {
                            let u = choose|u: int| 0 <= u < s.len() && s[u] == sk[t];
                        }
                        lemma_leaf_inserted_all(lev + 1, sk, d + 1);
                    }
                    assert(self.model().objects =~= target.objects);
                    assert(self.model().children =~= target.children);
                }
            }
        } else {
            proof {
                let target = old_model.inserted(x, d);
                assert(self.model().objects =~= target.objects);
                assert(self.model().children =~= target.children);
            }
        }
    }
}

} // verus!

verus! {

/// A query returns every stored object whose route the query's route
/// extends: such an object sits on the path the query descends.
pub proof fn law_retrieve_finds_stored<T>(tree: QuadTree<T>, item: (T, Route), query: Route)
    requires
        tree.wf(),
        tree.content().count(item) > 0,
        is_prefix(item.1@, query@),
    ensures
        tree.model().gather(query@, 0).contains(item.0),
{
    lemma_stored_is_gathered(tree.model(), Seq::empty(), item, query@);
}

/// A query returns only values of objects stored in the tree.
pub proof fn law_retrieve_returns_stored<T>(tree: QuadTree<T>, query: Route)
    ensures
        forall|i: int|
            0 <= i < tree.model().gather(query@, 0).len() ==> tree.model().holds_value(
                #[trigger] tree.model().gather(query@, 0)[i],
            ),
{
    lemma_gathered_is_stored(tree.model(), query@, 0);
}

/// After an object is inserted, a query along the object's own route
/// returns it.
pub proof fn law_retrieve_after_insert<T>(tree: QuadTree<T>, item: T, route: Route)
    requires
        tree.wf(),
        valid_route(route@),
    ensures
        tree.model().inserted((item, route), 0).gather(route@, 0).contains(item),
{
    let m = tree.model();
    let x = (item, route);
    let p = Seq::<u8>::empty();
    lemma_inserted_wf(m, x, p);
    lemma_inserted_content(m, x, p);
    assert(m.inserted(x, 0).content().count(x) > 0);
    assert(is_prefix(route@, route@));
    lemma_stored_is_gathered(m.inserted(x, 0), p, x, route@);
}

/// Clearing keeps the tree well formed, leaves no object in it, and every
/// query on the cleared tree returns nothing.
pub proof fn law_clear_empties<T>(tree: QuadTree<T>, query: Route)
    requires
        tree.wf(),
    ensures
        tree.model().cleared().wf_at(Seq::empty()),
        tree.model().cleared().content() == Multiset::<(T, Route)>::empty(),
        tree.model().cleared().values() == Multiset::<T>::empty(),
        tree.model().cleared().gather(query@, 0) == Seq::<T>::empty(),
{
    let c = tree.model().cleared();
    lemma_cleared(tree.model(), Seq::empty());
    lemma_gathered_is_stored(c, query@, 0);
    let g = c.gather(query@, 0);
    if g.len() > 0 {
        assert(c.holds_value(g[0]));
    }
    assert(g =~= Seq::<T>::empty());
}

} // verus!

verus! {

proof fn lemma_inserted_keeps_nodes<T>(n: QuadNode<T>, x: (T, Route), d: int, p: Seq<u8>)
    requires
        n.has_node(p),
    ensures
        n.inserted(x, d).has_node(p),
    decreases n,
{
    let r = x.1@;
    if p.len() > 0 && n.children.len() == 4 && 0 <= d < r.len() && r[d] < 4 && p[0] == r[d] {
        lemma_inserted_keeps_nodes(n.children[p[0] as int], x, d + 1, p.drop_first());
    }
}

/// Inserting never removes a node: every quadrant of the tree is still
/// there afterwards.
pub proof fn law_insert_keeps_nodes<T>(tree: QuadTree<T>, item: T, route: Route, p: Seq<u8>)
    requires
        tree.model().has_node(p),
    ensures
        tree.model().inserted((item, route), 0).has_node(p),
{
    lemma_inserted_keeps_nodes(tree.model(), (item, route), 0, p);
}

} // verus!

verus! {

proof fn lemma_gathered_within_values<T>(n: QuadNode<T>, q: Seq<u8>, d: int)
    ensures
        n.gather(q, d).to_multiset().subset_of(n.values()),
    decreases n,
{
    broadcast use vstd::multiset::group_multiset_axioms;

    let vals = n.objects.map_values(|o: (T, Route)| o.0);
    if n.children.len() == 4 && 0 <= d < q.len() && q[d] < 4 {
        let c = n.children[q[d] as int];
        let below = c.gather(q, d + 1);
        lemma_gathered_within_values(c, q, d + 1);
        vstd::seq_lib::lemma_multiset_commutative(below, vals);
        assert forall|v: T| #[trigger] n.gather(q, d).to_multiset().count(v) <= n.values().count(v) by {
            assert(below.to_multiset().count(v) <= c.values().count(v));
        }
    } else {
        assert(n.gather(q, d) =~= vals);
        assert forall|v: T| #[trigger] n.gather(q, d).to_multiset().count(v) <= n.values().count(v) by {
        }
    }
}

/// A query appends each stored object's value at most once: what it
/// returns, counted with multiplicity, is contained in the values stored in
/// the tree.
pub proof fn law_retrieve_within_stored<T>(tree: QuadTree<T>, query: Route)
    ensures
        tree.model().gather(query@, 0).to_multiset().subset_of(tree.model().values()),
{
    lemma_gathered_within_values(tree.model(), query@, 0);
}

} // verus!

verus! {

/// `p` continues `q` from depth `d` on.
spec fn follows(q: Seq<u8>, d: int, p: Seq<u8>) -> bool {
    &&& 0 <= d
    &&& d + p.len() <= q.len()
    &&& forall|i: int| 0 <= i < p.len() ==> #[trigger] p[i] == q[d + i]
}

proof fn lemma_path_objects_gathered<T>(n: QuadNode<T>, q: Seq<u8>, d: int, p: Seq<u8>, i: int)
    requires
        n.has_node(p),
        follows(q, d, p),
        0 <= i < n.node_at(p).objects.len(),
    ensures
        n.gather(q, d).contains(n.node_at(p).objects[i].0),
    decreases p.len(),
{
    let g = n.gather(q, d);
    let vals = n.objects.map_values(|o: (T, Route)| o.0);
    if p.len() == 0 {
        assert(g[g.len() - vals.len() + i] == n.objects[i].0);
    } else {
        let c = n.children[p[0] as int];
        let p1 = p.drop_first();
        assert(q[d] == p[0]);
        assert forall|j: int| 0 <= j < p1.len() implies #[trigger] p1[j] == q[d + 1 + j] by {
            assert(p1[j] == p[j + 1]);
        }
        lemma_path_objects_gathered(c, q, d + 1, p1, i);
        let cg = c.gather(q, d + 1);
        let j = choose|j: int| 0 <= j < cg.len() && cg[j] == c.node_at(p1).objects[i].0;
        assert(g[j] == cg[j]);
    }
}

/// A query collects every object held in every node on its path, whatever
/// the object's own route below that node: for each node the query's route
/// passes through, the value of each object held there is returned.
pub proof fn law_retrieve_collects_path_nodes<T>(tree: QuadTree<T>, query: Route, p: Seq<u8>, i: int)
    requires
        tree.model().has_node(p),
        is_prefix(p, query@),
        0 <= i < tree.model().node_at(p).objects.len(),
    ensures
        tree.model().gather(query@, 0).contains(tree.model().node_at(p).objects[i].0),
{
    assert forall|j: int| 0 <= j < p.len() implies #[trigger] p[j] == query@[0 + j] by {
        assert(p[j] == query@[j]);
    }
    lemma_path_objects_gathered(tree.model(), query@, 0, p, i);
}

proof fn lemma_inserted_at_leaf<T>(n: QuadNode<T>, x: (T, Route), d: int, p: Seq<u8>)
    requires
        n.has_node(p),
        n.node_at(p).children.len() == 0,
        follows(x.1@, d, p),
    ensures
        n.inserted(x, d).has_node(p),
        n.inserted(x, d).node_at(p) == grown(
            n.node_at(p).level,
            n.node_at(p).objects.push(x),
            d + p.len(),
        ),
    decreases p.len(),
{
    if p.len() > 0 {
        let r = x.1@;
        let p1 = p.drop_first();
        assert(r[d] == p[0]);
        assert forall|j: int| 0 <= j < p1.len() implies #[trigger] p1[j] == r[d + 1 + j] by {
            assert(p1[j] == p[j + 1]);
        }
        lemma_inserted_at_leaf(n.children[p[0] as int], x, d + 1, p1);
    }
}

/// Inserting into the leaf that an object's route reaches appends the object
/// there; the leaf splits exactly when it then holds more than `MAX_OBJECTS`
/// objects and sits above `MAX_LEVEL`, and otherwise stays a leaf. When it
/// splits, it keeps, in order, the objects whose route ends there, and each
/// quadrant receives exactly the objects heading into it; a quadrant that
/// receives no more than `MAX_OBJECTS` of them (or sits at `MAX_LEVEL`) is a
/// leaf holding them in their order.
pub proof fn law_insert_into_leaf<T>(tree: QuadTree<T>, item: T, route: Route, p: Seq<u8>)
    requires
        tree.wf(),
        valid_route(route@),
        tree.model().has_node(p),
        tree.model().node_at(p).children.len() == 0,
        is_prefix(p, route@),
    ensures
        ({
            let before = tree.model().node_at(p);
            let after = tree.model().inserted((item, route), 0).node_at(p);
            let s = before.objects.push((item, route));
            let d = p.len() as int;
            &&& tree.model().inserted((item, route), 0).has_node(p)
            &&& after.level == before.level
            &&& (after.children.len() == 0 <==> (s.len() <= MAX_OBJECTS || before.level
                >= MAX_LEVEL))
            &&& after.children.len() == 0 ==> after.objects == s
            &&& after.children.len() != 0 ==> {
                &&& after.children.len() == 4
                &&& after.objects == s.filter(exhausted_at(d))
                &&& forall|k: int|
                    0 <= k < 4 ==> {
                        &&& (#[trigger] after.children[k]).content() == s.filter(
                            heading_at(d, k),
                        ).to_multiset()
                        &&& after.children[k].level == before.level + 1
                        &&& (s.filter(heading_at(d, k)).len() <= MAX_OBJECTS || before.level + 1
                            >= MAX_LEVEL) ==> after.children[k].children.len() == 0
                            && after.children[k].objects == s.filter(heading_at(d, k))
                    }
            }
        }),
{
    let x = (item, route);
    let m = tree.model();
    let d = p.len() as int;
    assert forall|j: int| 0 <= j < p.len() implies #[trigger] p[j] == route@[0 + j] by {
        assert(p[j] == route@[j]);
    }
    lemma_inserted_at_leaf(m, x, 0, p);
    let before = m.node_at(p);
    let s = before.objects.push(x);
    lemma_node_at_wf(m, Seq::empty(), p);
    assert(Seq::<u8>::empty() + p =~= p);
    assert forall|i: int| 0 <= i < s.len() implies valid_route(#[trigger] s[i].1@) by {
        if i < before.objects.len() {
            assert(s[i] == before.objects[i]);
        }
    }
    if !(s.len() <= MAX_OBJECTS || before.level >= MAX_LEVEL) {
        let g = grown(before.level, s, d);
        assert forall|k: int| 0 <= k < 4 implies (#[trigger] g.children[k]).content() == s.filter(
            heading_at(d, k),
        ).to_multiset() by {
            let sk = s.filter(heading_at::<T>(d, k));
            lemma_filter_members(s, heading_at::<T>(d, k));
            assert forall|i: int| 0 <= i < sk.len() implies valid_route(#[trigger] sk[i].1@) by {
                let j = choose|j: int| 0 <= j < s.len() && s[j] == sk[i];
            }
            lemma_grown_content(before.level + 1, sk, d + 1);
        }
        assert forall|k: int| 0 <= k < 4 implies {
            &&& (#[trigger] g.children[k]).level == before.level + 1
            &&& (s.filter(heading_at(d, k)).len() <= MAX_OBJECTS || before.level + 1
                >= MAX_LEVEL) ==> g.children[k].children.len() == 0
                && g.children[k].objects == s.filter(heading_at(d, k))
        } by {
            assert(g.children[k] == grown(before.level + 1, s.filter(heading_at::<T>(d, k)), d + 1));
        }
        assert(m.inserted(x, 0).node_at(p) == g);
    } else {
        assert(m.inserted(x, 0).node_at(p) == grown(before.level, s, d));
    }
}

proof fn lemma_node_at_wf<T>(n: QuadNode<T>, base: Seq<u8>, p: Seq<u8>)
    requires
        n.wf_at(base),
        n.has_node(p),
    ensures
        n.node_at(p).wf_at(base + p),
    decreases p.len(),
{
    if p.len() == 0 {
        assert(base + p =~= base);
    } else {
        let k = p[0];
        let p1 = p.drop_first();
        lemma_node_at_wf(n.children[k as int], base.push(k), p1);
        assert(base.push(k) + p1 =~= base + p);
    }
}

proof fn lemma_cleared_shape<T>(n: QuadNode<T>, p: Seq<u8>)
    requires
        n.has_node(p),
    ensures
        n.cleared().has_node(p),
        n.cleared().node_at(p).level == n.node_at(p).level,
        n.cleared().node_at(p).children.len() == n.node_at(p).children.len(),
        n.cleared().node_at(p).objects.len() == 0,
    decreases p.len(),
{
    if p.len() > 0 {
        lemma_cleared_shape(n.children[p[0] as int], p.drop_first());
    }
}

proof fn lemma_cleared_shape_back<T>(n: QuadNode<T>, p: Seq<u8>)
    requires
        n.cleared().has_node(p),
    ensures
        n.has_node(p),
    decreases p.len(),
{
    if p.len() > 0 {
        lemma_cleared_shape_back(n.children[p[0] as int], p.drop_first());
    }
}

/// Clearing keeps every node: the cleared tree has exactly the nodes of the
/// tree before, each at the same level and with as many quadrants, and none
/// of them holds an object.
pub proof fn law_clear_keeps_shape<T>(tree: QuadTree<T>, p: Seq<u8>)
    ensures
        tree.model().cleared().has_node(p) == tree.model().has_node(p),
        tree.model().has_node(p) ==> tree.model().cleared().node_at(p).level == tree.model().node_at(
            p,
        ).level,
        tree.model().has_node(p) ==> tree.model().cleared().node_at(p).children.len()
            == tree.model().node_at(p).children.len(),
        tree.model().has_node(p) ==> tree.model().cleared().node_at(p).objects.len() == 0,
{
    if tree.model().has_node(p) {
        lemma_cleared_shape(tree.model(), p);
    }
    if tree.model().cleared().has_node(p) {
        lemma_cleared_shape_back(tree.model(), p);
    }
}

} // verus!

verus! {

proof fn lemma_subtree_first<T>(n: QuadNode<T>, q: Seq<u8>, d: int, p: Seq<u8>)
    requires
        n.has_node(p),
        follows(q, d, p),
    ensures
        n.node_at(p).gather(q, d + p.len()).len() <= n.gather(q, d).len(),
        n.gather(q, d).take(n.node_at(p).gather(q, d + p.len()).len() as int) == n.node_at(
            p,
        ).gather(q, d + p.len()),
    decreases p.len(),
{
    let g = n.gather(q, d);
    if p.len() == 0 {
        assert(g.take(g.len() as int) =~= g);
    } else {
        let c = n.children[p[0] as int];
        let p1 = p.drop_first();
        assert(q[d] == p[0]);
        assert forall|j: int| 0 <= j < p1.len() implies #[trigger] p1[j] == q[d + 1 + j] by {
            assert(p1[j] == p[j + 1]);
        }
        lemma_subtree_first(c, q, d + 1, p1);
        let sub = c.node_at(p1).gather(q, d + 1 + p1.len());
        let cg = c.gather(q, d + 1);
        assert(g.take(sub.len() as int) =~= cg.take(sub.len() as int));
    }
}

/// A query collects deepest first: what it collects in the subtree of any
/// node on its path comes first in the result, and within a node's subtree
/// the node's own objects come last, in the order they are held.
pub proof fn law_retrieve_deepest_first<T>(tree: QuadTree<T>, query: Route, p: Seq<u8>)
    requires
        tree.model().has_node(p),
        is_prefix(p, query@),
    ensures
        ({
            let node = tree.model().node_at(p);
            let sub = node.gather(query@, p.len() as int);
            let all = tree.model().gather(query@, 0);
            let own = node.objects.map_values(|o: (T, Route)| o.0);
            &&& sub.len() <= all.len()
            &&& all.take(sub.len() as int) == sub
            &&& own.len() <= sub.len()
            &&& sub.skip(sub.len() - own.len()) == own
        }),
{
    assert forall|j: int| 0 <= j < p.len() implies #[trigger] p[j] == query@[0 + j] by {
        assert(p[j] == query@[j]);
    }
    lemma_subtree_first(tree.model(), query@, 0, p);
    let node = tree.model().node_at(p);
    let sub = node.gather(query@, p.len() as int);
    let own = node.objects.map_values(|o: (T, Route)| o.0);
    assert(sub.skip(sub.len() - own.len()) =~= own);
}

} // verus!

verus! {

proof fn lemma_inserted_at_inner<T>(n: QuadNode<T>, x: (T, Route), d: int, p: Seq<u8>)
    requires
        n.has_node(p),
        n.node_at(p).children.len() == 4,
        follows(x.1@, d, p),
        x.1@.len() == d + p.len(),
    ensures
        n.inserted(x, d).has_node(p),
        n.inserted(x, d).node_at(p) == (QuadNode {
            level: n.node_at(p).level,
            objects: n.node_at(p).objects.push(x),
            children: n.node_at(p).children,
        }),
    decreases p.len(),
{
    if p.len() > 0 {
        let r = x.1@;
        let p1 = p.drop_first();
        assert(r[d] == p[0]);
        assert forall|j: int| 0 <= j < p1.len() implies #[trigger] p1[j] == r[d + 1 + j] by {
            assert(p1[j] == p[j + 1]);
        }
        lemma_inserted_at_inner(n.children[p[0] as int], x, d + 1, p1);
    }
}

/// An object whose route ends at a node that already has quadrants is
/// appended to that node's objects; its quadrants are left as they were.
pub proof fn law_insert_at_inner_node<T>(tree: QuadTree<T>, item: T, route: Route, p: Seq<u8>)
    requires
        tree.model().has_node(p),
        tree.model().node_at(p).children.len() == 4,
        p == route@,
    ensures
        tree.model().inserted((item, route), 0).has_node(p),
        tree.model().inserted((item, route), 0).node_at(p).objects == tree.model().node_at(
            p,
        ).objects.push((item, route)),
        tree.model().inserted((item, route), 0).node_at(p).children == tree.model().node_at(
            p,
        ).children,
{
    assert forall|j: int| 0 <= j < p.len() implies #[trigger] p[j] == route@[0 + j] by {}
    lemma_inserted_at_inner(tree.model(), (item, route), 0, p);
}

} // verus!
