//! An arena-backed directed/undirected graph store.
//!
//! Nodes and edges live in two growable arrays; an element's index is
//! its position in its array.  Adjacency is intrusive: every node
//! holds the head of a list of its outgoing edges and the head of a
//! list of its incoming edges, and every edge holds the two "next"
//! indices that continue those lists.  A reserved sentinel index
//! ([`NIL`]) means "no link".  Removal compacts the arrays by moving
//! the last element into the freed slot and repairing every link that
//! pointed at either index, so indices are not stable across removals.
//!
//! The verified model keeps, for every node, the ghost sequence of
//! edge indices of its outgoing and its incoming list; the invariant
//! [`Net::wf`] ties those sequences to the stored link fields.
use vstd::multiset::Multiset;
use vstd::prelude::*;

verus! {

pub type NodeIx = usize;

pub type EdgeIx = usize;

/// Reserved index meaning "no link"; distinct from every valid index.
pub const NIL: usize = usize::MAX;

/// The two roles an edge plays: leaving its source node (outgoing) or
/// entering its destination node (incoming).
#[derive(Debug, Clone, Copy)]
pub enum Direction {
    Outgoing,
    Incoming,
}

impl Direction {
    /// The first direction of a two-direction sweep.
    pub fn iter() -> (r: Direction)
        ensures
            r is Outgoing,
    {
        Direction::Outgoing
    }
}

/// A pair of edge indices, one per direction.  In a node it holds the
/// heads of the two adjacency lists; in an edge it holds the two
/// "next" links.
#[derive(Debug, Clone, Copy)]
pub struct EdgeLink {
    outgoing: EdgeIx,
    incoming: EdgeIx,
}

/// A pair of node indices: an edge's source and destination.
#[derive(Debug, Clone, Copy)]
pub struct NodeLink {
    src: NodeIx,
    dest: NodeIx,
}

impl EdgeLink {
    /// The outgoing link.
    pub closed spec fn out_ix(self) -> usize {
        self.outgoing
    }

    /// The incoming link.
    pub closed spec fn in_ix(self) -> usize {
        self.incoming
    }

    /// The field selected by `d`.
    pub(crate) closed spec fn get(self, d: Direction) -> usize {
        match d {
            Direction::Outgoing => self.outgoing,
            Direction::Incoming => self.incoming,
        }
    }

    /// `self` with the field selected by `d` replaced by `v`.
    pub(crate) closed spec fn with(self, d: Direction, v: usize) -> EdgeLink {
        match d {
            Direction::Outgoing => EdgeLink { outgoing: v, incoming: self.incoming },
            Direction::Incoming => EdgeLink { outgoing: self.outgoing, incoming: v },
        }
    }

    fn new(out: EdgeIx, inc: EdgeIx) -> (r: Self)
        ensures
            r.outgoing == out,
            r.incoming == inc,
    {
        EdgeLink { outgoing: out, incoming: inc }
    }

    fn none() -> (r: Self)
        ensures
            r.outgoing == NIL,
            r.incoming == NIL,
    {
        EdgeLink { outgoing: NIL, incoming: NIL }
    }

    fn out(&self) -> (r: EdgeIx)
        ensures
            r == self.outgoing,
    {
        self.outgoing
    }

    fn inc(&self) -> (r: EdgeIx)
        ensures
            r == self.incoming,
    {
        self.incoming
    }

    fn set_outgoing(&mut self, outgoing: EdgeIx)
        ensures
            *final(self) == old(self).with(Direction::Outgoing, outgoing),
    {
        self.outgoing = outgoing;
    }

    fn set_incoming(&mut self, inc: EdgeIx)
        ensures
            *final(self) == old(self).with(Direction::Incoming, inc),
    {
        self.incoming = inc;
    }

    fn set_both(&mut self, e: EdgeIx)
        ensures
            final(self).outgoing == e,
            final(self).incoming == e,
    {
        self.outgoing = e;
        self.incoming = e;
    }

    fn reset_both(&mut self)
        ensures
            final(self).outgoing == NIL,
            final(self).incoming == NIL,
    {
        self.outgoing = NIL;
        self.incoming = NIL;
    }

    fn next(&self, dir: &Direction) -> (r: EdgeIx)
        ensures
            r == self.get(*dir),
    {
        match dir {
            Direction::Outgoing => self.outgoing,
            Direction::Incoming => self.incoming,
        }
    }

    fn set_dir(&mut self, dir: &Direction, v: EdgeIx)
        ensures
            *final(self) == old(self).with(*dir, v),
    {
        match dir {
            Direction::Outgoing => self.outgoing = v,
            Direction::Incoming => self.incoming = v,
        }
    }

    fn next_mut(&mut self, dir: &Direction) -> (r: &mut EdgeIx)
        ensures
            *r == old(self).get(*dir),
            *final(self) == old(self).with(*dir, *final(r)),
    {
        match dir {
            Direction::Outgoing => &mut self.outgoing,
            Direction::Incoming => &mut self.incoming,
        }
    }
}

impl Default for EdgeLink {
    /// Both links at the sentinel: no list entered yet.
    fn default() -> (r: Self)
        ensures
            r.out_ix() == NIL,
            r.in_ix() == NIL,
    {
        EdgeLink { outgoing: NIL, incoming: NIL }
    }
}

impl Default for NodeLink {
    /// Both endpoints at the sentinel.
    fn default() -> (r: Self)
        ensures
            r.src_ix() == NIL,
            r.dst_ix() == NIL,
    {
        NodeLink { src: NIL, dest: NIL }
    }
}

impl NodeLink {
    /// The stored source index.
    pub closed spec fn src_ix(self) -> usize {
        self.src
    }

    /// The stored destination index.
    pub closed spec fn dst_ix(self) -> usize {
        self.dest
    }

    /// The endpoint selected by `d`: the source for outgoing, the
    /// destination for incoming.
    pub(crate) closed spec fn get(self, d: Direction) -> usize {
        match d {
            Direction::Outgoing => self.src,
            Direction::Incoming => self.dest,
        }
    }

    /// `self` with the endpoint selected by `d` replaced by `v`.
    pub(crate) closed spec fn with(self, d: Direction, v: usize) -> NodeLink {
        match d {
            Direction::Outgoing => NodeLink { src: v, dest: self.dest },
            Direction::Incoming => NodeLink { src: self.src, dest: v },
        }
    }

    fn new(src: NodeIx, dest: NodeIx) -> (r: Self)
        ensures
            r.src == src,
            r.dest == dest,
    {
        NodeLink { src, dest }
    }

    fn src(&self) -> (r: NodeIx)
        ensures
            r == self.src,
    {
        self.src
    }

    fn dest(&self) -> (r: NodeIx)
        ensures
            r == self.dest,
    {
        self.dest
    }

    fn set_dir(&mut self, dir: &Direction, v: NodeIx)
        ensures
            *final(self) == old(self).with(*dir, v),
    {
        match dir {
            Direction::Outgoing => self.src = v,
            Direction::Incoming => self.dest = v,
        }
    }

    fn set_src(&mut self, src: NodeIx)
        ensures
            *final(self) == old(self).with(Direction::Outgoing, src),
    {
        self.src = src;
    }

    fn set_dest(&mut self, dest: NodeIx)
        ensures
            *final(self) == old(self).with(Direction::Incoming, dest),
    {
        self.dest = dest;
    }

    fn set_both(&mut self, n: NodeIx)
        ensures
            final(self).src == n,
            final(self).dest == n,
    {
        self.src = n;
        self.dest = n;
    }

    fn reset_both(&mut self)
        ensures
            final(self).src == NIL,
            final(self).dest == NIL,
    {
        self.src = NIL;
        self.dest = NIL;
    }

    fn next(&self, dir: &Direction) -> (r: NodeIx)
        ensures
            r == self.get(*dir),
    {
        match dir {
            Direction::Outgoing => self.src,
            Direction::Incoming => self.dest,
        }
    }

    fn next_mut(&mut self, dir: &Direction) -> (r: &mut NodeIx)
        ensures
            *r == old(self).get(*dir),
            *final(self) == old(self).with(*dir, *final(r)),
    {
        match dir {
            Direction::Outgoing => &mut self.src,
            Direction::Incoming => &mut self.dest,
        }
    }
}

/// A node: a caller-supplied weight plus the heads of its outgoing
/// and incoming adjacency lists.
#[derive(Clone)]
pub struct Node<N> {
    pub weight: N,
    edges: EdgeLink,
}

impl<N> Node<N> {
    /// The stored weight.
    pub closed spec fn wt(self) -> N {
        self.weight
    }

    /// Head of the outgoing list ([`NIL`] when empty).
    pub closed spec fn head_out(self) -> usize {
        self.edges.outgoing
    }

    /// Head of the incoming list ([`NIL`] when empty).
    pub closed spec fn head_in(self) -> usize {
        self.edges.incoming
    }

    /// A fresh node with no incident edges.
    pub fn init(weight: N) -> (n: Self)
        ensures
            n.wt() == weight,
            n.head_out() == NIL,
            n.head_in() == NIL,
    {
        Node { weight, edges: EdgeLink::none() }
    }

    /// A node with explicit list heads.
    pub fn new(weight: N, outgoing: EdgeIx, incoming: EdgeIx) -> (n: Self)
        ensures
            n.wt() == weight,
            n.head_out() == outgoing,
            n.head_in() == incoming,
    {
        Node { weight, edges: EdgeLink::new(outgoing, incoming) }
    }
}

/// An edge: a caller-supplied weight, its two endpoint node indices,
/// and the two "next" links continuing the source's outgoing list and
/// the destination's incoming list.
#[derive(Clone)]
pub struct Edge<E> {
    pub weight: E,
    node: NodeLink,
    next: EdgeLink,
}

impl<E> Edge<E> {
    /// The stored weight.
    pub closed spec fn wt(self) -> E {
        self.weight
    }

    /// The source node index.
    pub closed spec fn src(self) -> usize {
        self.node.src
    }

    /// The destination node index.
    pub closed spec fn dst(self) -> usize {
        self.node.dest
    }

    /// The next edge in the source's outgoing list.
    pub closed spec fn nxt_out(self) -> usize {
        self.next.outgoing
    }

    /// The next edge in the destination's incoming list.
    pub closed spec fn nxt_in(self) -> usize {
        self.next.incoming
    }

    /// An edge with endpoints `a -> b` and no links yet.
    pub fn init(weight: E, a: NodeIx, b: NodeIx) -> (e: Self)
        ensures
            e.wt() == weight,
            e.src() == a,
            e.dst() == b,
            e.nxt_out() == NIL,
            e.nxt_in() == NIL,
    {
        Edge { weight, node: NodeLink::new(a, b), next: EdgeLink::none() }
    }

    /// An edge with endpoints and links all given.
    pub fn new(weight: E, a: NodeIx, b: NodeIx, next_outgoing: EdgeIx, next_incoming: EdgeIx) -> (e:
        Self)
        ensures
            e.wt() == weight,
            e.src() == a,
            e.dst() == b,
            e.nxt_out() == next_outgoing,
            e.nxt_in() == next_incoming,
    {
        Edge { weight, node: NodeLink::new(a, b), next: EdgeLink::new(next_outgoing, next_incoming) }
    }

    /// The source node index.
    pub fn a(self) -> (r: NodeIx)
        ensures
            r == self.src(),
    {
        self.node.src
    }

    /// The destination node index.
    pub fn b(self) -> (r: NodeIx)
        ensures
            r == self.dst(),
    {
        self.node.dest
    }

    /// The endpoint that plays the role `dir`: the source for
    /// outgoing, the destination for incoming.
    pub fn node(&self, dir: &Direction) -> (r: NodeIx)
        ensures
            r == (match *dir {
                Direction::Outgoing => self.src(),
                Direction::Incoming => self.dst(),
            }),
    {
        match dir {
            Direction::Outgoing => self.node.src(),
            Direction::Incoming => self.node.dest(),
        }
    }
}

/// The "next" link of edge `e` in direction `d`, as a mathematical
/// integer.
pub(crate) closed spec fn next_of<E>(e: Edge<E>, d: Direction) -> int {
    e.next.get(d) as int
}

/// The endpoint of edge `e` that owns the `d` list: its source for
/// outgoing, its destination for incoming.
pub(crate) closed spec fn end_of<E>(e: Edge<E>, d: Direction) -> int {
    e.node.get(d) as int
}

/// The head link of node `n`'s `d` list.
pub(crate) closed spec fn head_of<N>(n: Node<N>, d: Direction) -> int {
    n.edges.get(d) as int
}

/// `e` with its `d`-direction "next" link replaced by `v`.
pub(crate) closed spec fn edge_set_next<E>(e: Edge<E>, d: Direction, v: int) -> Edge<E> {
    Edge { weight: e.weight, node: e.node, next: e.next.with(d, v as usize) }
}

/// `e` with its weight replaced by `v`.
pub closed spec fn with_weight<E>(e: Edge<E>, v: E) -> Edge<E> {
    Edge { weight: v, node: e.node, next: e.next }
}

/// `e` with its `d`-role endpoint replaced by `v`.
pub(crate) closed spec fn edge_set_end<E>(e: Edge<E>, d: Direction, v: int) -> Edge<E> {
    Edge { weight: e.weight, node: e.node.with(d, v as usize), next: e.next }
}

/// `n` with the head of its `d` list replaced by `v`.
pub(crate) closed spec fn node_set_head<N>(n: Node<N>, d: Direction, v: int) -> Node<N> {
    Node { weight: n.weight, edges: n.edges.with(d, v as usize) }
}

/// `l` is exactly the chain of edge indices obtained by starting at
/// the link value `head` and following the `d`-direction "next" links
/// until the sentinel.
pub(crate) closed spec fn chain_ok<E>(es: Seq<Edge<E>>, head: int, l: Seq<int>, d: Direction) -> bool {
    &&& (l.len() == 0 ==> head == NIL as int)
    &&& (l.len() > 0 ==> head == l[0])
    &&& (forall|i: int| 0 <= i < l.len() ==> 0 <= #[trigger] l[i] < es.len())
    &&& (forall|i: int|
        0 <= i < l.len() ==> #[trigger] next_of(es[l[i]], d) == (if i == l.len() - 1 {
            NIL as int
        } else {
            l[i + 1]
        }))
}

/// Every edge endpoint stored in `es` refers to a live node of `ns`.
pub(crate) closed spec fn ends_in_range<N, E>(ns: Seq<Node<N>>, es: Seq<Edge<E>>) -> bool {
    forall|e: int|
        0 <= e < es.len() ==> 0 <= (#[trigger] es[e]).node.src < ns.len() && 0 <= es[e].node.dest
            < ns.len()
}

/// Structural soundness of the `d`-direction lists `ls` (one list per
/// node): each is the chain rooted at its node's head link, each
/// listed edge has that node as its `d`-role endpoint, and no list
/// repeats an edge.
pub(crate) closed spec fn chains_ok<N, E>(
    ns: Seq<Node<N>>,
    es: Seq<Edge<E>>,
    ls: Seq<Seq<int>>,
    d: Direction,
) -> bool {
    &&& ls.len() == ns.len()
    &&& (forall|n: int| 0 <= n < ns.len() ==> chain_ok(es, head_of(ns[n], d), #[trigger] ls[n], d))
    &&& (forall|n: int, i: int|
        0 <= n < ns.len() && 0 <= i < ls[n].len() ==> end_of(es[#[trigger] ls[n][i]], d) == n)
    &&& (forall|n: int| 0 <= n < ns.len() ==> (#[trigger] ls[n]).no_duplicates())
}

/// Completeness of the `d`-direction lists: every live edge is on the
/// list of its `d`-role endpoint.
pub(crate) closed spec fn member_ok<E>(es: Seq<Edge<E>>, ls: Seq<Seq<int>>, d: Direction) -> bool {
    forall|e: int| 0 <= e < es.len() ==> ls[#[trigger] end_of(es[e], d)].contains(e)
}

/// Completeness of the `d`-direction lists for every live edge except
/// `ex`, which in addition is on no list at all.  This is the shape of
/// the store midway through a removal, after the doomed edge has been
/// unlinked but before the array is compacted.
pub(crate) closed spec fn member_ok_except<E>(
    es: Seq<Edge<E>>,
    ls: Seq<Seq<int>>,
    d: Direction,
    ex: int,
) -> bool {
    &&& (forall|e: int|
        0 <= e < es.len() && e != ex ==> ls[#[trigger] end_of(es[e], d)].contains(e))
    &&& (forall|n: int| 0 <= n < ls.len() ==> !(#[trigger] ls[n]).contains(ex))
}

/// There is a walk along `d`-direction links of `path` edges, starting
/// at node `n0`'s head link, whose final link slot holds `needle`:
/// with an empty path the node's head itself holds `needle`, otherwise
/// the last path edge's "next" does.  No earlier slot on the walk
/// holds `needle`, so the first hit is the right one.
pub(crate) closed spec fn path_to_slot<N, E>(
    ns: Seq<Node<N>>,
    es: Seq<Edge<E>>,
    n0: int,
    d: Direction,
    path: Seq<int>,
    needle: int,
) -> bool {
    &&& 0 <= n0 < ns.len()
    &&& (forall|i: int| 0 <= i < path.len() ==> 0 <= #[trigger] path[i] < es.len())
    &&& (forall|i: int| 0 <= i < path.len() ==> #[trigger] path[i] != needle)
    &&& (path.len() == 0 ==> head_of(ns[n0], d) == needle)
    &&& (path.len() > 0 ==> head_of(ns[n0], d) == path[0])
    &&& (forall|i: int|
        0 <= i < path.len() ==> #[trigger] next_of(es[path[i]], d) == (if i == path.len() - 1 {
            needle
        } else {
            path[i + 1]
        }))
}

/// Read access to the two "next" links of an element that takes part
/// in the intrusive lists: nodes (their list heads) and edges (their
/// continuation links).
pub trait Linked {
    /// The outgoing-role link.
    spec fn next_out_spec(&self) -> usize;

    /// The incoming-role link.
    spec fn next_in_spec(&self) -> usize;

    /// The outgoing-role link.
    fn next_out(&self) -> (r: usize)
        ensures
            r == self.next_out_spec(),
    ;

    /// The incoming-role link.
    fn next_in(&self) -> (r: usize)
        ensures
            r == self.next_in_spec(),
    ;

    /// The link selected by `dir`.
    fn next(&self, dir: &Direction) -> (r: usize)
        ensures
            r == (match *dir {
                Direction::Outgoing => self.next_out_spec(),
                Direction::Incoming => self.next_in_spec(),
            }),
    ;
}

impl<E> Linked for Edge<E> {
    open spec fn next_out_spec(&self) -> usize {
        self.nxt_out()
    }

    open spec fn next_in_spec(&self) -> usize {
        self.nxt_in()
    }

    fn next_out(&self) -> (r: usize) {
        self.next.out()
    }

    fn next_in(&self) -> (r: usize) {
        self.next.inc()
    }

    fn next(&self, dir: &Direction) -> (r: usize) {
        self.next.next(dir)
    }
}

impl<N> Linked for Node<N> {
    open spec fn next_out_spec(&self) -> usize {
        self.head_out()
    }

    open spec fn next_in_spec(&self) -> usize {
        self.head_in()
    }

    fn next_out(&self) -> (r: usize) {
        self.edges.out()
    }

    fn next_in(&self) -> (r: usize) {
        self.edges.inc()
    }

    fn next(&self, dir: &Direction) -> (r: usize) {
        self.edges.next(dir)
    }
}

/// The opposite direction.
pub(crate) closed spec fn opp(d: Direction) -> Direction {
    match d {
        Direction::Outgoing => Direction::Incoming,
        Direction::Incoming => Direction::Outgoing,
    }
}

/// The two edge values agree on everything the `d`-direction lists
/// read: weight, endpoints, and the `d` "next" link.  (Only the
/// opposite link may differ.)
pub(crate) closed spec fn agrees<E>(e1: Edge<E>, e2: Edge<E>, d: Direction) -> bool {
    &&& e1.weight == e2.weight
    &&& e1.node == e2.node
    &&& next_of(e1, d) == next_of(e2, d)
}

/// How many endpoint pairs of `s` touch node `a` (as source,
/// destination, or both - a self-loop counts once).
pub open spec fn count_incident(s: Seq<(int, int)>, a: int) -> nat
    decreases s.len(),
{
    if s.len() == 0 {
        0
    } else {
        count_incident(s.drop_last(), a) + (if s.last().0 == a || s.last().1 == a {
            1nat
        } else {
            0nat
        })
    }
}

/// Replacing one pair changes the incident count by the status of the
/// two pairs swapped.
pub(crate) proof fn lemma_count_incident_update(s: Seq<(int, int)>, a: int, i: int, v: (int, int))
    requires
        0 <= i < s.len(),
    ensures
        count_incident(s.update(i, v), a) + (if s[i].0 == a || s[i].1 == a {
            1nat
        } else {
            0nat
        }) == count_incident(s, a) + (if v.0 == a || v.1 == a {
            1nat
        } else {
            0nat
        }),
    decreases s.len(),
{
    let s2 = s.update(i, v);
    if i == s.len() - 1 {
        assert(s2.drop_last() =~= s.drop_last());
        assert(s2.last() == v);
    } else {
        assert(s2.drop_last() =~= s.drop_last().update(i, v));
        assert(s2.last() == s.last());
        lemma_count_incident_update(s.drop_last(), a, i, v);
    }
}

/// A swap-removal lowers the incident count by the status of the
/// removed pair.
pub(crate) proof fn lemma_count_incident_swap_remove(s: Seq<(int, int)>, a: int, i: int)
    requires
        0 <= i < s.len(),
    ensures
        count_incident(s.update(i, s.last()).drop_last(), a) + (if s[i].0 == a || s[i].1 == a {
            1nat
        } else {
            0nat
        }) == count_incident(s, a),
    decreases s.len(),
{
    let s2 = s.update(i, s.last());
    lemma_count_incident_update(s, a, i, s.last());
    assert(s2.last() == s.last());
    assert(count_incident(s2, a) == count_incident(s2.drop_last(), a) + (if s2.last().0 == a
        || s2.last().1 == a {
        1nat
    } else {
        0nat
    }));
}

/// With no pair touching `a`, the incident count is zero.
pub(crate) proof fn lemma_count_incident_zero(s: Seq<(int, int)>, a: int)
    requires
        forall|e: int| 0 <= e < s.len() ==> (#[trigger] s[e]).0 != a && s[e].1 != a,
    ensures
        count_incident(s, a) == 0,
    decreases s.len(),
{
    if s.len() > 0 {
        assert(s.last() == s[s.len() - 1]);
        lemma_count_incident_zero(s.drop_last(), a);
    }
}

/// How many pairs of `s` have `a` as their source.
pub open spec fn count_from(s: Seq<(int, int)>, a: int) -> nat
    decreases s.len(),
{
    if s.len() == 0 {
        0
    } else {
        count_from(s.drop_last(), a) + (if s.last().0 == a {
            1nat
        } else {
            0nat
        })
    }
}

/// How many pairs of `s` have `a` as their destination.
pub open spec fn count_to(s: Seq<(int, int)>, a: int) -> nat
    decreases s.len(),
{
    if s.len() == 0 {
        0
    } else {
        count_to(s.drop_last(), a) + (if s.last().1 == a {
            1nat
        } else {
            0nat
        })
    }
}

/// How many pairs of `s` are self-loops at `a`.
pub open spec fn count_loops(s: Seq<(int, int)>, a: int) -> nat
    decreases s.len(),
{
    if s.len() == 0 {
        0
    } else {
        count_loops(s.drop_last(), a) + (if s.last().0 == a && s.last().1 == a {
            1nat
        } else {
            0nat
        })
    }
}

/// `t` with every endpoint equal to `from_ix` renamed to `to_ix`.
pub open spec fn rename_pair(t: (int, int), from_ix: int, to_ix: int) -> (int, int) {
    (
        if t.0 == from_ix {
            to_ix
        } else {
            t.0
        },
        if t.1 == from_ix {
            to_ix
        } else {
            t.1
        },
    )
}

/// The edge record (endpoint pair and weight) with its endpoints
/// renamed from `from_ix` to `to_ix`.
pub open spec fn rename_rec<E>(from_ix: int, to_ix: int) -> spec_fn(((int, int), E)) -> (
    (int, int),
    E,
) {
    |t: ((int, int), E)| (rename_pair(t.0, from_ix, to_ix), t.1)
}

/// Every pair of `s` with endpoints renamed from `from_ix` to `to_ix`.
pub open spec fn rename_pairs(s: Seq<(int, int)>, from_ix: int, to_ix: int) -> Seq<(int, int)> {
    s.map_values(|t: (int, int)| rename_pair(t, from_ix, to_ix))
}

/// Whether an edge record does not touch node `a`.
pub open spec fn survives<E>(a: int) -> spec_fn(((int, int), E)) -> bool {
    |t: ((int, int), E)| t.0.0 != a && t.0.1 != a
}

/// `x` as a multiset member, when it passes `q`.
spec fn msel<T>(q: spec_fn(T) -> bool, x: T) -> Multiset<T> {
    if q(x) {
        Multiset::singleton(x)
    } else {
        Multiset::empty()
    }
}

/// Replacing one element exchanges its contribution to the filtered
/// multiset for the new element's.
proof fn lemma_filter_update_ms<T>(s: Seq<T>, q: spec_fn(T) -> bool, i: int, v: T)
    requires
        0 <= i < s.len(),
    ensures
        s.update(i, v).filter(q).to_multiset().add(msel(q, s[i])) == s.filter(q).to_multiset().add(
            msel(q, v),
        ),
    decreases s.len(),
{
    reveal(Seq::filter);
    let u = s.update(i, v);
    let n = s.len() - 1;
    if i == n {
        assert(u.drop_last() =~= s.drop_last());
        let fd = s.drop_last().filter(q);
        assert(u.filter(q) == (if q(v) {
            fd.push(v)
        } else {
            fd
        }));
        assert(s.filter(q) == (if q(s[n]) {
            fd.push(s[n])
        } else {
            fd
        }));
        fd.to_multiset_ensures();
        if q(v) {
            assert(u.filter(q).to_multiset() == fd.to_multiset().insert(v));
        }
        if q(s[n]) {
            assert(s.filter(q).to_multiset() == fd.to_multiset().insert(s[n]));
        }
        assert(u.filter(q).to_multiset().add(msel(q, s[i])) =~= s.filter(q).to_multiset().add(
            msel(q, v),
        ));
    } else {
        let sd = s.drop_last();
        let ud = u.drop_last();
        assert(ud =~= sd.update(i, v));
        assert(u.last() == s.last());
        assert(sd[i] == s[i]);
        lemma_filter_update_ms(sd, q, i, v);
        let a1 = sd.filter(q);
        let b1 = sd.update(i, v).filter(q);
        a1.to_multiset_ensures();
        b1.to_multiset_ensures();
        assert(u.filter(q) == (if q(s.last()) {
            b1.push(s.last())
        } else {
            b1
        }));
        assert(s.filter(q) == (if q(s.last()) {
            a1.push(s.last())
        } else {
            a1
        }));
        if q(s.last()) {
            assert(u.filter(q).to_multiset() == b1.to_multiset().insert(s.last()));
            assert(s.filter(q).to_multiset() == a1.to_multiset().insert(s.last()));
        }
        let lhs = u.filter(q).to_multiset().add(msel(q, s[i]));
        let rhs = s.filter(q).to_multiset().add(msel(q, v));
        assert forall|y: T| lhs.count(y) == rhs.count(y) by {
            assert(b1.to_multiset().add(msel(q, s[i])).count(y) == b1.to_multiset().count(y)
                + msel(q, s[i]).count(y));
            assert(a1.to_multiset().add(msel(q, v)).count(y) == a1.to_multiset().count(y) + msel(
                q,
                v,
            ).count(y));
            assert(b1.to_multiset().count(y) + msel(q, s[i]).count(y) == a1.to_multiset().count(y)
                + msel(q, v).count(y));
            if q(s.last()) {
                assert(u.filter(q).to_multiset().count(y) == b1.to_multiset().count(y)
                    + Multiset::singleton(s.last()).count(y));
                assert(s.filter(q).to_multiset().count(y) == a1.to_multiset().count(y)
                    + Multiset::singleton(s.last()).count(y));
            }
            assert(lhs.count(y) == u.filter(q).to_multiset().count(y) + msel(q, s[i]).count(y));
            assert(rhs.count(y) == s.filter(q).to_multiset().count(y) + msel(q, v).count(y));
        }
        assert(lhs =~= rhs);
    }
}

/// A swap-removal of an element that the filter drops anyway leaves
/// the filtered multiset unchanged.
proof fn lemma_filter_swap_remove_ms<T>(s: Seq<T>, q: spec_fn(T) -> bool, i: int)
    requires
        0 <= i < s.len(),
        !q(s[i]),
    ensures
        s.update(i, s.last()).drop_last().filter(q).to_multiset() == s.filter(q).to_multiset(),
{
    reveal(Seq::filter);
    let u = s.update(i, s.last());
    let sr = u.drop_last();
    lemma_filter_update_ms(s, q, i, s.last());
    assert(u.last() == s.last());
    assert(u.len() == s.len());
    let lm = sr.filter(q).to_multiset();
    let rm = s.filter(q).to_multiset();
    assert(u.filter(q) == (if q(s.last()) {
        sr.filter(q).push(s.last())
    } else {
        sr.filter(q)
    }));
    sr.filter(q).to_multiset_ensures();
    if q(s.last()) {
        assert(u.filter(q).to_multiset() == lm.insert(s.last()));
    }
    assert(u.filter(q).to_multiset() =~= lm.add(msel(q, s.last())));
    assert(msel(q, s[i]) =~= Multiset::<T>::empty());
    assert(u.filter(q).to_multiset().add(msel(q, s[i])) =~= u.filter(q).to_multiset());
    assert(lm.add(msel(q, s.last())) =~= rm.add(msel(q, s.last())));
    assert forall|y: T| lm.count(y) == rm.count(y) by {
        assert(lm.add(msel(q, s.last())).count(y) == lm.count(y) + msel(q, s.last()).count(y));
        assert(rm.add(msel(q, s.last())).count(y) == rm.count(y) + msel(q, s.last()).count(y));
    }
    assert(lm =~= rm);
}

/// A filter that keeps every element returns the sequence itself.
proof fn lemma_filter_all<T>(s: Seq<T>, q: spec_fn(T) -> bool)
    requires
        forall|i: int| 0 <= i < s.len() ==> q(#[trigger] s[i]),
    ensures
        s.filter(q) == s,
    decreases s.len(),
{
    reveal(Seq::filter);
    if s.len() > 0 {
        assert forall|i: int| 0 <= i < s.drop_last().len() implies q(
            #[trigger] s.drop_last()[i],
        ) by {
            assert(s.drop_last()[i] == s[i]);
        }
        lemma_filter_all(s.drop_last(), q);
        assert(q(s[s.len() - 1]));
        assert(s.filter(q) =~= s);
    }
}

/// Mapping two sequences with equal multisets gives equal multisets.
proof fn lemma_map_values_ms<A, B>(s1: Seq<A>, s2: Seq<A>, f: spec_fn(A) -> B)
    requires
        s1.to_multiset() == s2.to_multiset(),
    ensures
        s1.map_values(f).to_multiset() == s2.map_values(f).to_multiset(),
    decreases s1.len(),
{
    s1.to_multiset_ensures();
    s2.to_multiset_ensures();
    if s1.len() == 0 {
        assert(s2.to_multiset().len() == 0);
        assert(s2.len() == 0);
        assert(s1.map_values(f) =~= Seq::<B>::empty());
        assert(s2.map_values(f) =~= Seq::<B>::empty());
        assert(s1.map_values(f).to_multiset() =~= s2.map_values(f).to_multiset());
    } else {
        let x = s1.last();
        assert(s1[s1.len() - 1] == x);
        assert(s1.contains(x));
        assert(s1.to_multiset().count(x) > 0);
        assert(s2.contains(x));
        let i = choose|i: int| 0 <= i < s2.len() && s2[i] == x;
        let t1 = s1.drop_last();
        let t2 = s2.remove(i);
        t1.to_multiset_ensures();
        assert(s1 =~= t1.push(x));
        assert(s1.to_multiset() =~= t1.to_multiset().insert(x));
        assert(t2.to_multiset() =~= s2.to_multiset().remove(x));
        assert(t1.to_multiset() =~= t2.to_multiset());
        lemma_map_values_ms(t1, t2, f);
        let m1 = s1.map_values(f);
        let m2 = s2.map_values(f);
        assert(m1 =~= t1.map_values(f).push(f(x)));
        t1.map_values(f).to_multiset_ensures();
        assert(m1.to_multiset() =~= t1.map_values(f).to_multiset().insert(f(x)));
        assert(m2.remove(i) =~= t2.map_values(f));
        m2.to_multiset_ensures();
        assert(m2[i] == f(x));
        assert(m2.remove(i).to_multiset() =~= m2.to_multiset().remove(f(x)));
        assert(m2.contains(f(x)));
        assert(m2.to_multiset().count(f(x)) > 0);
        assert(m1.to_multiset() =~= m2.to_multiset());
    }
}

/// Removing one pair lowers the incident count by that pair's status.
pub(crate) proof fn lemma_count_incident_remove(s: Seq<(int, int)>, a: int, i: int)
    requires
        0 <= i < s.len(),
    ensures
        count_incident(s.remove(i), a) + (if s[i].0 == a || s[i].1 == a {
            1nat
        } else {
            0nat
        }) == count_incident(s, a),
    decreases s.len(),
{
    if i == s.len() - 1 {
        assert(s.remove(i) =~= s.drop_last());
        assert(s.last() == s[i]);
    } else {
        assert(s.remove(i).drop_last() =~= s.drop_last().remove(i));
        assert(s.remove(i).last() == s.last());
        assert(s.drop_last()[i] == s[i]);
        lemma_count_incident_remove(s.drop_last(), a, i);
    }
}

/// Law: the number of pairs touching a node depends only on which
/// pairs there are, not on their order - two sequences with equal
/// multisets have equal incident counts at every node.
pub proof fn lemma_count_incident_same_multiset(s1: Seq<(int, int)>, s2: Seq<(int, int)>, a: int)
    requires
        s1.to_multiset() == s2.to_multiset(),
    ensures
        count_incident(s1, a) == count_incident(s2, a),
    decreases s1.len(),
{
    s1.to_multiset_ensures();
    s2.to_multiset_ensures();
    if s1.len() == 0 {
        assert(s2.to_multiset().len() == 0);
        assert(s2.len() == 0);
    } else {
        let x = s1.last();
        assert(s1[s1.len() - 1] == x);
        assert(s1.contains(x));
        assert(s1.to_multiset().count(x) > 0);
        assert(s2.contains(x));
        let i = choose|i: int| 0 <= i < s2.len() && s2[i] == x;
        let t1 = s1.drop_last();
        let t2 = s2.remove(i);
        t1.to_multiset_ensures();
        assert(s1 =~= t1.push(x));
        assert(s1.to_multiset() =~= t1.to_multiset().insert(x));
        assert(t2.to_multiset() =~= s2.to_multiset().remove(x));
        assert(t1.to_multiset() =~= t2.to_multiset());
        lemma_count_incident_same_multiset(t1, t2, a);
        lemma_count_incident_remove(s2, a, i);
    }
}

/// The first edge index on list `l` whose endpoint pair in `s` shows
/// `b` on the chosen side: the destination when `by_dst`, the source
/// otherwise.
pub open spec fn first_match(l: Seq<int>, s: Seq<(int, int)>, b: int, by_dst: bool) -> Option<int>
    decreases l.len(),
{
    if l.len() == 0 {
        None
    } else if (if by_dst {
        s[l[0]].1
    } else {
        s[l[0]].0
    }) == b {
        Some(l[0])
    } else {
        first_match(l.drop_first(), s, b, by_dst)
    }
}

/// A clean prefix determines the first match: the entry at `j` when
/// that entry matches, none when the whole list is clean.
pub(crate) proof fn lemma_first_match(
    l: Seq<int>,
    s: Seq<(int, int)>,
    b: int,
    by_dst: bool,
    j: int,
)
    requires
        0 <= j <= l.len(),
        forall|m: int|
            0 <= m < j ==> (if by_dst {
                s[#[trigger] l[m]].1
            } else {
                s[l[m]].0
            }) != b,
        j < l.len() ==> (if by_dst {
            s[l[j]].1
        } else {
            s[l[j]].0
        }) == b,
    ensures
        j < l.len() ==> first_match(l, s, b, by_dst) == Some(l[j]),
        j == l.len() ==> first_match(l, s, b, by_dst) is None,
    decreases l.len(),
{
    if l.len() == 0 {
    } else if j == 0 {
    } else {
        let l2 = l.drop_first();
        assert(l[0] == l[0]);
        assert forall|m: int|
            0 <= m < j - 1 implies (if by_dst {
            s[#[trigger] l2[m]].1
        } else {
            s[l2[m]].0
        }) != b by {
            assert(l2[m] == l[m + 1]);
        }
        if j - 1 < l2.len() {
            assert(l2[j - 1] == l[j]);
        }
        lemma_first_match(l2, s, b, by_dst, j - 1);
    }
}

/// Inclusion-exclusion over one node: pairs touching `a` plus the
/// self-loops at `a` equal the sources at `a` plus the destinations
/// at `a`.
pub(crate) proof fn lemma_count_split(s: Seq<(int, int)>, a: int)
    ensures
        count_incident(s, a) + count_loops(s, a) == count_from(s, a) + count_to(s, a),
    decreases s.len(),
{
    if s.len() > 0 {
        lemma_count_split(s.drop_last(), a);
    }
}

/// The source count is the cardinality of the set of positions whose
/// source is `a`.
pub(crate) proof fn lemma_count_from_card(s: Seq<(int, int)>, a: int)
    ensures
        ({
            let st = Set::new(|e: int| 0 <= e < s.len() && s[e].0 == a);
            st.finite() && st.len() == count_from(s, a)
        }),
    decreases s.len(),
{
    let st = Set::new(|e: int| 0 <= e < s.len() && s[e].0 == a);
    if s.len() == 0 {
        assert(st =~= Set::<int>::empty());
    } else {
        let n = s.len() - 1;
        let prev = Set::new(|e: int| 0 <= e < n && s.drop_last()[e].0 == a);
        lemma_count_from_card(s.drop_last(), a);
        assert(s.last() == s[n]);
        if s.last().0 == a {
            assert(st =~= prev.insert(n));
            assert(!prev.contains(n));
        } else {
            assert(st =~= prev);
        }
    }
}

/// The destination count is the cardinality of the set of positions
/// whose destination is `a`.
pub(crate) proof fn lemma_count_to_card(s: Seq<(int, int)>, a: int)
    ensures
        ({
            let st = Set::new(|e: int| 0 <= e < s.len() && s[e].1 == a);
            st.finite() && st.len() == count_to(s, a)
        }),
    decreases s.len(),
{
    let st = Set::new(|e: int| 0 <= e < s.len() && s[e].1 == a);
    if s.len() == 0 {
        assert(st =~= Set::<int>::empty());
    } else {
        let n = s.len() - 1;
        let prev = Set::new(|e: int| 0 <= e < n && s.drop_last()[e].1 == a);
        lemma_count_to_card(s.drop_last(), a);
        assert(s.last() == s[n]);
        if s.last().1 == a {
            assert(st =~= prev.insert(n));
            assert(!prev.contains(n));
        } else {
            assert(st =~= prev);
        }
    }
}

/// The graph store: a directedness flag fixed at construction, the two
/// element arrays, and (ghost) the per-node adjacency lists that the
/// intrusive links encode.
pub struct Net<N, E> {
    edges: Vec<Edge<E>>,
    nodes: Vec<Node<N>>,
    directed: bool,
    out_lists: Ghost<Seq<Seq<int>>>,
    in_lists: Ghost<Seq<Seq<int>>>,
}

impl<N, E> Net<N, E> {
    /// The stored nodes, in index order.
    pub closed spec fn nodes_seq(self) -> Seq<Node<N>> {
        self.nodes@
    }

    /// The stored edges, in index order.
    pub closed spec fn edges_seq(self) -> Seq<Edge<E>> {
        self.edges@
    }

    /// The node weights, in index order.
    pub open spec fn node_weights(self) -> Seq<N> {
        self.nodes_seq().map_values(|n: Node<N>| n.wt())
    }

    /// The edge endpoint pairs `(source, destination)`, in index order.
    pub open spec fn ends(self) -> Seq<(int, int)> {
        self.edges_seq().map_values(|e: Edge<E>| (e.src() as int, e.dst() as int))
    }

    /// The edge weights, in index order.
    pub open spec fn edge_weights(self) -> Seq<E> {
        self.edges_seq().map_values(|e: Edge<E>| e.wt())
    }

    /// The edges as records - endpoint pair and weight - in index
    /// order.
    pub open spec fn edge_recs(self) -> Seq<((int, int), E)> {
        self.ends().zip_with(self.edge_weights())
    }

    /// Number of live nodes.
    pub open spec fn n_nodes(self) -> nat {
        self.nodes_seq().len()
    }

    /// Number of live edges.
    pub open spec fn n_edges(self) -> nat {
        self.edges_seq().len()
    }

    /// Whether the store was built directed.
    pub closed spec fn is_directed(self) -> bool {
        self.directed
    }

    /// The outgoing adjacency list of node `n`: the edge indices found
    /// by following "next outgoing" links from `n`'s head, in order.
    pub closed spec fn out_adj(self, n: int) -> Seq<int> {
        self.out_lists@[n]
    }

    /// The incoming adjacency list of node `n`.
    pub closed spec fn in_adj(self, n: int) -> Seq<int> {
        self.in_lists@[n]
    }

    /// The ghost adjacency lists of direction `d`.
    pub(crate) closed spec fn dir_lists(self, d: Direction) -> Seq<Seq<int>> {
        match d {
            Direction::Outgoing => self.out_lists@,
            Direction::Incoming => self.in_lists@,
        }
    }

    /// How many steps a walk along incoming links can still take from
    /// position `e`: the distance to the end of the list that `e`
    /// sits on.  Zero for a dead position.
    pub(crate) closed spec fn in_rank(self, e: int) -> int {
        if 0 <= e < self.edges@.len() {
            let n = end_of(self.edges@[e], Direction::Incoming);
            let l = self.in_lists@[n];
            l.len() - l.index_of(e)
        } else {
            0
        }
    }

    /// The number of edges leaving node `n`: the length of its
    /// outgoing list.
    pub open spec fn out_degree(self, n: int) -> nat {
        self.out_adj(n).len()
    }

    /// The number of edges entering node `n`: the length of its
    /// incoming list.
    pub open spec fn in_degree(self, n: int) -> nat {
        self.in_adj(n).len()
    }

    /// Law: no dangling links.  In a well-formed store every entry of
    /// a node's adjacency lists is a live edge index with that node
    /// as the matching endpoint; conversely every live edge appears
    /// on both of its endpoints' lists; and no list repeats an edge.
    pub proof fn lemma_adjacency_sound(self, n: int)
        requires
            self.wf(),
            0 <= n < self.n_nodes(),
        ensures
            forall|i: int|
                0 <= i < self.out_adj(n).len() ==> 0 <= #[trigger] self.out_adj(n)[i]
                    < self.n_edges() && self.ends()[self.out_adj(n)[i]].0 == n,
            forall|i: int|
                0 <= i < self.in_adj(n).len() ==> 0 <= #[trigger] self.in_adj(n)[i]
                    < self.n_edges() && self.ends()[self.in_adj(n)[i]].1 == n,
            forall|e: int|
                0 <= e < self.n_edges() && self.ends()[e].0 == n ==> self.out_adj(n).contains(e),
            forall|e: int|
                0 <= e < self.n_edges() && self.ends()[e].1 == n ==> self.in_adj(n).contains(e),
            self.out_adj(n).no_duplicates(),
            self.in_adj(n).no_duplicates(),
    {
        assert forall|e: int| 0 <= e < self.n_edges() implies #[trigger] self.ends()[e] == (
            end_of(self.edges@[e], Direction::Outgoing),
            end_of(self.edges@[e], Direction::Incoming),
        ) by {}
        assert(chain_ok(
            self.edges@,
            head_of(self.nodes@[n], Direction::Outgoing),
            self.out_lists@[n],
            Direction::Outgoing,
        ));
        assert(chain_ok(
            self.edges@,
            head_of(self.nodes@[n], Direction::Incoming),
            self.in_lists@[n],
            Direction::Incoming,
        ));
        assert forall|e: int| 0 <= e < self.n_edges() && self.ends()[e].0 == n implies self.out_adj(
            n,
        ).contains(e) by {
            assert(end_of(self.edges@[e], Direction::Outgoing) == n);
        }
        assert forall|e: int| 0 <= e < self.n_edges() && self.ends()[e].1 == n implies self.in_adj(
            n,
        ).contains(e) by {
            assert(end_of(self.edges@[e], Direction::Incoming) == n);
        }
    }

    /// Law: in an undirected store, edge lookup between two nodes is
    /// symmetric - an edge connects `a` and `b` exactly when one
    /// connects `b` and `a`.
    pub proof fn lemma_undirected_symmetry(self, a: int, b: int)
        requires
            !self.is_directed(),
        ensures
            self.has_edge(a, b) == self.has_edge(b, a),
    {
    }

    /// Law: how many edges a node removal takes away.  For a
    /// well-formed store the edges touching node `a` - what
    /// [`Net::remove`] deletes - number exactly the node's out-degree
    /// plus its in-degree, counting each self-loop once instead of
    /// twice.
    pub proof fn lemma_removal_count(self, a: int)
        requires
            self.wf(),
            0 <= a < self.n_nodes(),
        ensures
            count_from(self.ends(), a) == self.out_degree(a),
            count_to(self.ends(), a) == self.in_degree(a),
            count_incident(self.ends(), a) + count_loops(self.ends(), a) == self.out_degree(a)
                + self.in_degree(a),
    {
        let s = self.ends();
        lemma_count_split(s, a);
        lemma_count_from_card(s, a);
        lemma_count_to_card(s, a);
        assert forall|e: int| 0 <= e < self.n_edges() implies #[trigger] self.ends()[e] == (
            end_of(self.edges@[e], Direction::Outgoing),
            end_of(self.edges@[e], Direction::Incoming),
        ) by {}
        let stf = Set::new(|e: int| 0 <= e < s.len() && s[e].0 == a);
        let lo = self.out_adj(a);
        assert(lo.no_duplicates());
        lo.unique_seq_to_set();
        assert(lo.to_set() =~= stf) by {
            assert forall|e: int| lo.to_set().contains(e) implies stf.contains(e) by {
                let i = choose|i: int| 0 <= i < lo.len() && lo[i] == e;
                assert(chain_ok(
                    self.edges@,
                    head_of(self.nodes@[a], Direction::Outgoing),
                    lo,
                    Direction::Outgoing,
                ));
                assert(end_of(self.edges@[e], Direction::Outgoing) == a);
            }
            assert forall|e: int| stf.contains(e) implies lo.to_set().contains(e) by {
                assert(end_of(self.edges@[e], Direction::Outgoing) == a);
                assert(self.out_lists@[a].contains(e));
            }
        }
        assert(lo.len() == stf.len());
        let stt = Set::new(|e: int| 0 <= e < s.len() && s[e].1 == a);
        let li = self.in_adj(a);
        assert(li.no_duplicates());
        li.unique_seq_to_set();
        assert(li.to_set() =~= stt) by {
            assert forall|e: int| li.to_set().contains(e) implies stt.contains(e) by {
                let i = choose|i: int| 0 <= i < li.len() && li[i] == e;
                assert(chain_ok(
                    self.edges@,
                    head_of(self.nodes@[a], Direction::Incoming),
                    li,
                    Direction::Incoming,
                ));
                assert(end_of(self.edges@[e], Direction::Incoming) == a);
            }
            assert forall|e: int| stt.contains(e) implies li.to_set().contains(e) by {
                assert(end_of(self.edges@[e], Direction::Incoming) == a);
                assert(self.in_lists@[a].contains(e));
            }
        }
        assert(li.len() == stt.len());
    }

    /// Some live edge runs `a -> b`.
    pub open spec fn has_edge_from_to(self, a: int, b: int) -> bool {
        exists|e: int| 0 <= e < self.ends().len() && self.ends()[e] == (a, b)
    }

    /// An edge connects `a` and `b` under the store's own notion: with
    /// direction `a -> b` when directed, in either orientation when
    /// undirected.
    pub open spec fn has_edge(self, a: int, b: int) -> bool {
        if self.is_directed() {
            self.has_edge_from_to(a, b)
        } else {
            self.has_edge_from_to(a, b) || self.has_edge_from_to(b, a)
        }
    }

    /// Well-formedness: arrays small enough that [`NIL`] is free, all
    /// endpoints live, and the ghost adjacency lists exactly match the
    /// intrusive links, in both directions, for every node and edge.
    pub closed spec fn wf(self) -> bool {
        &&& self.nodes@.len() < usize::MAX
        &&& self.edges@.len() < usize::MAX
        &&& ends_in_range(self.nodes@, self.edges@)
        &&& chains_ok(self.nodes@, self.edges@, self.out_lists@, Direction::Outgoing)
        &&& chains_ok(self.nodes@, self.edges@, self.in_lists@, Direction::Incoming)
        &&& member_ok(self.edges@, self.out_lists@, Direction::Outgoing)
        &&& member_ok(self.edges@, self.in_lists@, Direction::Incoming)
    }

    /// An empty directed store.
    pub fn new_directed() -> (g: Self)
        ensures
            g.wf(),
            g.is_directed(),
            g.n_nodes() == 0,
            g.n_edges() == 0,
    {
        Net {
            edges: Vec::new(),
            nodes: Vec::new(),
            directed: true,
            out_lists: Ghost(Seq::empty()),
            in_lists: Ghost(Seq::empty()),
        }
    }

    /// An empty undirected store.
    pub fn new_undirected() -> (g: Self)
        ensures
            g.wf(),
            !g.is_directed(),
            g.n_nodes() == 0,
            g.n_edges() == 0,
    {
        Net {
            edges: Vec::new(),
            nodes: Vec::new(),
            directed: false,
            out_lists: Ghost(Seq::empty()),
            in_lists: Ghost(Seq::empty()),
        }
    }

    /// Number of live nodes.
    pub fn node_count(&self) -> (r: usize)
        ensures
            r == self.n_nodes(),
    {
        self.nodes.len()
    }

    /// Number of live edges.
    pub fn edge_count(&self) -> (r: usize)
        ensures
            r == self.n_edges(),
    {
        self.edges.len()
    }

    /// Append a node with the given weight; both its lists start
    /// empty.  Returns its index, the array length before the push.
    pub fn add(&mut self, weight: N) -> (ix: NodeIx)
        requires
            old(self).wf(),
            old(self).n_nodes() + 1 < usize::MAX,
        ensures
            final(self).wf(),
            ix == old(self).n_nodes(),
            final(self).n_nodes() == old(self).n_nodes() + 1,
            final(self).n_edges() == old(self).n_edges(),
            final(self).node_weights() == old(self).node_weights().push(weight),
            final(self).ends() == old(self).ends(),
            final(self).edge_weights() == old(self).edge_weights(),
            final(self).is_directed() == old(self).is_directed(),
            final(self).out_adj(ix as int) == Seq::<int>::empty(),
            final(self).in_adj(ix as int) == Seq::<int>::empty(),
            forall|n: int|
                0 <= n < old(self).n_nodes() ==> final(self).out_adj(n) == old(self).out_adj(n)
                    && final(self).in_adj(n) == old(self).in_adj(n),
    {
        let ix = self.nodes.len();
        self.nodes.push(Node::init(weight));
        self.out_lists = Ghost(self.out_lists@.push(Seq::empty()));
        self.in_lists = Ghost(self.in_lists@.push(Seq::empty()));
        proof {
            lemma_lists_push_node(
                old(self).nodes@,
                old(self).edges@,
                old(self).out_lists@,
                Direction::Outgoing,
                self.nodes@.last(),
            );
            lemma_lists_push_node(
                old(self).nodes@,
                old(self).edges@,
                old(self).in_lists@,
                Direction::Incoming,
                self.nodes@.last(),
            );
            assert(self.node_weights() =~= old(self).node_weights().push(weight));
            assert(self.ends() =~= old(self).ends());
            assert(self.edge_weights() =~= old(self).edge_weights());
        }
        ix
    }

    /// Append an edge `a -> b` and splice it onto the head of `a`'s
    /// outgoing list and of `b`'s incoming list (LIFO adjacency: the
    /// newest edge is found first).  For a self-loop both of the
    /// node's heads move to the new edge.  Endpoints must be live
    /// indices of this store.  Returns the new edge's index.
    #[verifier::rlimit(100)]
    #[verifier::spinoff_prover]
    pub fn add_edge(&mut self, a: NodeIx, b: NodeIx, weight: E) -> (ix: EdgeIx)
        requires
            old(self).wf(),
            a < old(self).n_nodes(),
            b < old(self).n_nodes(),
            old(self).n_edges() + 1 < usize::MAX,
        ensures
            final(self).wf(),
            ix == old(self).n_edges(),
            final(self).n_edges() == old(self).n_edges() + 1,
            final(self).ends() == old(self).ends().push((a as int, b as int)),
            final(self).edge_weights() == old(self).edge_weights().push(weight),
            final(self).node_weights() == old(self).node_weights(),
            final(self).is_directed() == old(self).is_directed(),
            final(self).n_nodes() == old(self).n_nodes(),
            final(self).out_adj(a as int) == seq![ix as int] + old(self).out_adj(a as int),
            final(self).in_adj(b as int) == seq![ix as int] + old(self).in_adj(b as int),
            forall|n: int|
                0 <= n < old(self).n_nodes() && n != a ==> final(self).out_adj(n) == old(
                    self,
                ).out_adj(n),
            forall|n: int|
                0 <= n < old(self).n_nodes() && n != b ==> final(self).in_adj(n) == old(
                    self,
                ).in_adj(n),
    {
        let ix = self.edges.len();
        let old_out = self.nodes[a].edges.out();
        let old_in = self.nodes[b].edges.inc();
        let edge = Edge::new(weight, a, b, old_out, old_in);
        self.nodes[a].edges.set_outgoing(ix);
        self.nodes[b].edges.set_incoming(ix);
        self.edges.push(edge);
        self.out_lists = Ghost(
            self.out_lists@.update(a as int, seq![ix as int] + self.out_lists@[a as int]),
        );
        self.in_lists = Ghost(
            self.in_lists@.update(b as int, seq![ix as int] + self.in_lists@[b as int]),
        );
        proof {
            let ns = old(self).nodes@;
            let es = old(self).edges@;
            let ns2 = self.nodes@;
            assert forall|n: int| 0 <= n < ns.len() && n != a implies head_of(
                #[trigger] ns2[n],
                Direction::Outgoing,
            ) == head_of(ns[n], Direction::Outgoing) by {}
            assert forall|n: int| 0 <= n < ns.len() && n != b implies head_of(
                #[trigger] ns2[n],
                Direction::Incoming,
            ) == head_of(ns[n], Direction::Incoming) by {}
            lemma_lists_prepend(
                ns,
                es,
                old(self).out_lists@,
                Direction::Outgoing,
                a as int,
                es.push(edge).last(),
                ns2,
            );
            lemma_lists_prepend(
                ns,
                es,
                old(self).in_lists@,
                Direction::Incoming,
                b as int,
                es.push(edge).last(),
                ns2,
            );
            assert(self.ends() =~= old(self).ends().push((a as int, b as int)));
            assert(self.edge_weights() =~= old(self).edge_weights().push(weight));
            assert(self.node_weights() =~= old(self).node_weights());
        }
        ix
    }
}

/// Relies on `Vec::capacity`: the vector can hold at least as many
/// elements as it currently holds without reallocating.
#[verifier::external_body]
fn vec_capacity<T>(v: &Vec<T>) -> (r: usize)
    ensures
        r >= v@.len(),
{
    v.capacity()
}

impl<N, E> Default for Net<N, E> {
    /// An empty directed store.
    fn default() -> (g: Self)
        ensures
            g.wf(),
            g.is_directed(),
            g.n_nodes() == 0,
            g.n_edges() == 0,
    {
        Net::new_directed()
    }
}

impl<N, E> Net<N, E> {
    /// The weight of node `a`, or `None` when the index is not live.
    pub fn weight(&self, a: NodeIx) -> (r: Option<&N>)
        ensures
            a >= self.n_nodes() ==> r is None,
            a < self.n_nodes() ==> (r matches Some(w) && *w == self.node_weights()[a as int]),
    {
        if a < self.nodes.len() {
            Some(&self.nodes[a].weight)
        } else {
            None
        }
    }

    /// Mutable access to the weight of node `a`, or `None` when the
    /// index is not live.  Nothing but that weight can change.
    pub fn weight_mut(&mut self, a: NodeIx) -> (r: Option<&mut N>)
        ensures
            a >= old(self).n_nodes() ==> r is None && *final(self) == *old(self),
            a < old(self).n_nodes() ==> (r matches Some(w) && *w == old(self).node_weights()[a as int]
                && final(self).n_nodes() == old(self).n_nodes()
                && final(self).node_weights()[a as int] == *final(w)
                && (forall|k: int|
                    0 <= k < old(self).n_nodes() && k != a
                        ==> final(self).node_weights()[k] == old(self).node_weights()[k])
                && final(self).ends() == old(self).ends()
                && final(self).edge_weights() == old(self).edge_weights()
                && final(self).is_directed() == old(self).is_directed()
                && (old(self).wf() ==> final(self).wf())),
    {
        if a < self.nodes.len() {
            Some(&mut self.nodes[a].weight)
        } else {
            None
        }
    }

    /// The weight of edge `e`, or `None` when the index is not live.
    pub fn edge_weight(&self, e: EdgeIx) -> (r: Option<&E>)
        ensures
            e >= self.n_edges() ==> r is None,
            e < self.n_edges() ==> (r matches Some(w) && *w == self.edge_weights()[e as int]),
    {
        if e < self.edges.len() {
            Some(&self.edges[e].weight)
        } else {
            None
        }
    }

    /// Mutable access to the weight of edge `e`, or `None` when the
    /// index is not live.  Nothing but that weight can change.
    pub fn edge_weight_mut(&mut self, e: EdgeIx) -> (r: Option<&mut E>)
        ensures
            e >= old(self).n_edges() ==> r is None && *final(self) == *old(self),
            e < old(self).n_edges() ==> (r matches Some(w) && *w == old(self).edge_weights()[e as int]
                && final(self).n_edges() == old(self).n_edges()
                && final(self).edge_weights()[e as int] == *final(w)
                && (forall|k: int|
                    0 <= k < old(self).n_edges() && k != e
                        ==> final(self).edge_weights()[k] == old(self).edge_weights()[k])
                && final(self).ends().len() == old(self).ends().len()
                && (forall|k: int|
                    0 <= k < old(self).n_edges() ==> final(self).ends()[k] == old(self).ends()[k])
                && final(self).node_weights() == old(self).node_weights()
                && final(self).is_directed() == old(self).is_directed()
                && final(self).edges_seq() == old(self).edges_seq().update(
                e as int,
                with_weight(old(self).edges_seq()[e as int], *final(w)),
            ) && (old(self).wf() ==> final(self).wf())),
    {
        if e < self.edges.len() {
            proof {
                if self.wf() {
                    let ns = self.nodes@;
                    let es = self.edges@;
                    let ols = self.out_lists@;
                    let ils = self.in_lists@;
                    assert forall|v: E|
                        ({
                            let es2 = es.update(e as int, #[trigger] with_weight(es[e as int], v));
                            &&& chains_ok(ns, es2, ols, Direction::Outgoing)
                            &&& chains_ok(ns, es2, ils, Direction::Incoming)
                            &&& member_ok(es2, ols, Direction::Outgoing)
                            &&& member_ok(es2, ils, Direction::Incoming)
                            &&& ends_in_range(ns, es2)
                        }) by {
                        let es2 = es.update(e as int, with_weight(es[e as int], v));
                        assert forall|x: int| 0 <= x < es.len() implies (#[trigger] es2[x]).node
                            == es[x].node && es2[x].next == es[x].next by {}
                        lemma_wf_weight_update(ns, es, ols, ils, es2);
                    }
                }
            }
            Some(&mut self.edges[e].weight)
        } else {
            None
        }
    }

    /// The `(source, destination)` pair of edge `e`, or `None` when
    /// the index is not live.
    pub fn edge_endpoints(&self, e: EdgeIx) -> (r: Option<(NodeIx, NodeIx)>)
        ensures
            e >= self.n_edges() ==> r is None,
            e < self.n_edges() ==> (r matches Some(t) && t.0 as int == self.ends()[e as int].0
                && t.1 as int == self.ends()[e as int].1),
    {
        if e < self.edges.len() {
            Some((self.edges[e].node.src(), self.edges[e].node.dest()))
        } else {
            None
        }
    }

    /// Drop every node and every edge.
    pub fn clear(&mut self)
        ensures
            final(self).wf(),
            final(self).n_nodes() == 0,
            final(self).n_edges() == 0,
            final(self).is_directed() == old(self).is_directed(),
    {
        self.nodes.clear();
        self.edges.clear();
        self.out_lists = Ghost(Seq::empty());
        self.in_lists = Ghost(Seq::empty());
    }

    /// Drop every edge and reset every node's list heads; the nodes
    /// and their weights stay.
    pub fn clear_edges(&mut self)
        requires
            old(self).wf(),
        ensures
            final(self).wf(),
            final(self).n_edges() == 0,
            final(self).node_weights() == old(self).node_weights(),
            final(self).n_nodes() == old(self).n_nodes(),
            final(self).is_directed() == old(self).is_directed(),
    {
        self.edges.clear();
        let n = self.nodes.len();
        let mut i: usize = 0;
        while i < n
            invariant
                i <= n,
                n == self.nodes@.len(),
                self.nodes@.len() == old(self).nodes@.len(),
                self.edges@.len() == 0,
                self.directed == old(self).directed,
                forall|k: int|
                    0 <= k < n ==> (#[trigger] self.nodes@[k]).weight == old(
                        self,
                    ).nodes@[k].weight,
                forall|k: int|
                    0 <= k < i ==> head_of(#[trigger] self.nodes@[k], Direction::Outgoing)
                        == NIL as int && head_of(self.nodes@[k], Direction::Incoming) == NIL as int,
            decreases n - i,
        {
            self.nodes[i].edges.reset_both();
            i = i + 1;
        }
        let ghost empties = Seq::new(self.nodes@.len(), |k: int| Seq::<int>::empty());
        self.out_lists = Ghost(empties);
        self.in_lists = Ghost(empties);
        proof {
            assert(self.node_weights() =~= old(self).node_weights());
            assert(self.wf());
        }
    }

    /// How many nodes and how many edges the arrays can hold without
    /// reallocating.
    pub fn capacity(&self) -> (r: (usize, usize))
        ensures
            r.0 >= self.n_nodes(),
            r.1 >= self.n_edges(),
    {
        (vec_capacity(&self.nodes), vec_capacity(&self.edges))
    }

    /// The node array, in index order.
    pub fn nodes(&self) -> (r: &[Node<N>])
        ensures
            r@ == self.nodes_seq(),
    {
        self.nodes.as_slice()
    }

    /// The edge array, in index order.
    pub fn edges(&self) -> (r: &[Edge<E>])
        ensures
            r@ == self.edges_seq(),
    {
        self.edges.as_slice()
    }

    /// Overwrite the weight of live edge `e`; the structure is
    /// untouched.
    #[verifier::rlimit(100)]
    #[verifier::spinoff_prover]
    fn set_edge_weight(&mut self, e: EdgeIx, weight: E)
        requires
            old(self).wf(),
            e < old(self).n_edges(),
        ensures
            final(self).wf(),
            final(self).edge_weights() == old(self).edge_weights().update(e as int, weight),
            final(self).ends() == old(self).ends(),
            final(self).node_weights() == old(self).node_weights(),
            final(self).n_nodes() == old(self).n_nodes(),
            final(self).is_directed() == old(self).is_directed(),
            final(self).out_lists == old(self).out_lists,
            final(self).in_lists == old(self).in_lists,
    {
        self.edges[e].weight = weight;
        proof {
            lemma_wf_weight_update(
                old(self).nodes@,
                old(self).edges@,
                old(self).out_lists@,
                old(self).in_lists@,
                self.edges@,
            );
            assert(self.wf());
            assert(self.edge_weights() =~= old(self).edge_weights().update(e as int, weight));
            assert(self.ends() =~= old(self).ends());
        }
    }

    /// Walk `a`'s outgoing list for the first edge whose destination
    /// is `b` - the lookup for a directed store.
    fn edge_from_node_dir(&self, a: NodeIx, b: NodeIx) -> (r: Option<EdgeIx>)
        requires
            self.wf(),
            a < self.n_nodes(),
        ensures
            r is Some <==> self.has_edge_from_to(a as int, b as int),
            r matches Some(e) ==> e < self.n_edges() && self.ends()[e as int] == (
                a as int,
                b as int,
            ),
            ({
                let f = first_match(self.out_adj(a as int), self.ends(), b as int, true);
                &&& (r is None <==> f is None)
                &&& (r matches Some(e) ==> f == Some(e as int))
            }),
    {
        let ghost l = self.out_lists@[a as int];
        let mut cur = self.nodes[a].edges.out();
        let ghost mut j: int = 0;
        proof {
            assert(chain_ok(
                self.edges@,
                head_of(self.nodes@[a as int], Direction::Outgoing),
                l,
                Direction::Outgoing,
            ));
        }
        while cur != NIL
            invariant
                self.wf(),
                a < self.n_nodes(),
                l == self.out_lists@[a as int],
                0 <= j <= l.len(),
                j < l.len() ==> cur as int == l[j],
                j == l.len() ==> cur == NIL,
                forall|i: int| 0 <= i < j ==> self.ends()[#[trigger] l[i]].1 != b as int,
            decreases l.len() - j,
        {
            proof {
                assert(j < l.len());
                assert(0 <= l[j] < self.edges@.len());
            }
            let dest = self.edges[cur].node.dest();
            if dest == b {
                proof {
                    assert(end_of(self.edges@[cur as int], Direction::Outgoing) == a as int);
                    assert(self.ends()[cur as int] == (a as int, b as int));
                    lemma_first_match(l, self.ends(), b as int, true, j);
                }
                return Some(cur);
            }
            proof {
                assert(self.ends()[l[j]].1 != b as int);
            }
            let nxt = self.edges[cur].next.out();
            proof {
                assert(next_of(self.edges@[l[j]], Direction::Outgoing) == (if j == l.len() - 1 {
                    NIL as int
                } else {
                    l[j + 1]
                }));
                if j < l.len() - 1 {
                    assert(0 <= l[j + 1] < self.edges@.len());
                }
                j = j + 1;
            }
            cur = nxt;
        }
        proof {
            lemma_first_match(l, self.ends(), b as int, true, l.len() as int);
            if self.has_edge_from_to(a as int, b as int) {
                let e = choose|e: int|
                    0 <= e < self.ends().len() && self.ends()[e] == (a as int, b as int);
                assert(end_of(self.edges@[e], Direction::Outgoing) == a as int);
                assert(l.contains(e));
                let i = choose|i: int| 0 <= i < l.len() && l[i] == e;
                assert(self.ends()[l[i]].1 != b as int);
                assert(false);
            }
        }
        None
    }

    /// Walk `a`'s incoming list for an edge recorded `b -> a`, then
    /// its outgoing list for one recorded `a -> b` - the two-pass
    /// lookup for an undirected store, where each edge is stored once
    /// but hangs on both endpoints' lists in opposite roles.  The
    /// direction tells under which role the edge was found.
    fn edge_from_node_undir(&self, a: NodeIx, b: NodeIx) -> (r: Option<(EdgeIx, Direction)>)
        requires
            self.wf(),
            a < self.n_nodes(),
        ensures
            r is Some <==> (self.has_edge_from_to(b as int, a as int) || self.has_edge_from_to(
                a as int,
                b as int,
            )),
            r matches Some(t) ==> t.0 < self.n_edges() && (self.ends()[t.0 as int] == (
                b as int,
                a as int,
            ) || self.ends()[t.0 as int] == (a as int, b as int)),
            ({
                let fi = first_match(self.in_adj(a as int), self.ends(), b as int, false);
                let fo = first_match(self.out_adj(a as int), self.ends(), b as int, true);
                &&& (r is None <==> fi is None && fo is None)
                &&& (r matches Some(t) ==> Some(t.0 as int) == (if fi is Some {
                    fi
                } else {
                    fo
                }))
            }),
    {
        let ghost li = self.in_lists@[a as int];
        let mut cur = self.nodes[a].edges.inc();
        let ghost mut j: int = 0;
        proof {
            assert(chain_ok(
                self.edges@,
                head_of(self.nodes@[a as int], Direction::Incoming),
                li,
                Direction::Incoming,
            ));
        }
        while cur != NIL
            invariant
                self.wf(),
                a < self.n_nodes(),
                li == self.in_lists@[a as int],
                0 <= j <= li.len(),
                j < li.len() ==> cur as int == li[j],
                j == li.len() ==> cur == NIL,
                forall|i: int| 0 <= i < j ==> self.ends()[#[trigger] li[i]].0 != b as int,
            decreases li.len() - j,
        {
            proof {
                assert(j < li.len());
                assert(0 <= li[j] < self.edges@.len());
            }
            let srcn = self.edges[cur].node.src();
            if srcn == b {
                proof {
                    assert(end_of(self.edges@[cur as int], Direction::Incoming) == a as int);
                    assert(self.ends()[cur as int] == (b as int, a as int));
                    lemma_first_match(li, self.ends(), b as int, false, j);
                }
                return Some((cur, Direction::Outgoing));
            }
            proof {
                assert(self.ends()[li[j]].0 != b as int);
            }
            let nxt = self.edges[cur].next.inc();
            proof {
                assert(next_of(self.edges@[li[j]], Direction::Incoming) == (if j == li.len() - 1 {
                    NIL as int
                } else {
                    li[j + 1]
                }));
                if j < li.len() - 1 {
                    assert(0 <= li[j + 1] < self.edges@.len());
                }
                j = j + 1;
            }
            cur = nxt;
        }
        proof {
            lemma_first_match(li, self.ends(), b as int, false, li.len() as int);
            if self.has_edge_from_to(b as int, a as int) {
                let e = choose|e: int|
                    0 <= e < self.ends().len() && self.ends()[e] == (b as int, a as int);
                assert(end_of(self.edges@[e], Direction::Incoming) == a as int);
                assert(li.contains(e));
                let i = choose|i: int| 0 <= i < li.len() && li[i] == e;
                assert(self.ends()[li[i]].0 != b as int);
                assert(false);
            }
        }
        let ghost lo = self.out_lists@[a as int];
        let mut cur2 = self.nodes[a].edges.out();
        let ghost mut k: int = 0;
        proof {
            assert(chain_ok(
                self.edges@,
                head_of(self.nodes@[a as int], Direction::Outgoing),
                lo,
                Direction::Outgoing,
            ));
        }
        while cur2 != NIL
            invariant
                self.wf(),
                a < self.n_nodes(),
                lo == self.out_lists@[a as int],
                0 <= k <= lo.len(),
                k < lo.len() ==> cur2 as int == lo[k],
                k == lo.len() ==> cur2 == NIL,
                forall|i: int| 0 <= i < k ==> self.ends()[#[trigger] lo[i]].1 != b as int,
                !self.has_edge_from_to(b as int, a as int),
                first_match(self.in_adj(a as int), self.ends(), b as int, false) is None,
            decreases lo.len() - k,
        {
            proof {
                assert(k < lo.len());
                assert(0 <= lo[k] < self.edges@.len());
            }
            let dest = self.edges[cur2].node.dest();
            if dest == b {
                proof {
                    assert(end_of(self.edges@[cur2 as int], Direction::Outgoing) == a as int);
                    assert(self.ends()[cur2 as int] == (a as int, b as int));
                    lemma_first_match(lo, self.ends(), b as int, true, k);
                }
                return Some((cur2, Direction::Incoming));
            }
            proof {
                assert(self.ends()[lo[k]].1 != b as int);
            }
            let nxt = self.edges[cur2].next.out();
            proof {
                assert(next_of(self.edges@[lo[k]], Direction::Outgoing) == (if k == lo.len() - 1 {
                    NIL as int
                } else {
                    lo[k + 1]
                }));
                if k < lo.len() - 1 {
                    assert(0 <= lo[k + 1] < self.edges@.len());
                }
                k = k + 1;
            }
            cur2 = nxt;
        }
        proof {
            lemma_first_match(lo, self.ends(), b as int, true, lo.len() as int);
            if self.has_edge_from_to(a as int, b as int) {
                let e = choose|e: int|
                    0 <= e < self.ends().len() && self.ends()[e] == (a as int, b as int);
                assert(end_of(self.edges@[e], Direction::Outgoing) == a as int);
                assert(lo.contains(e));
                let i = choose|i: int| 0 <= i < lo.len() && lo[i] == e;
                assert(self.ends()[lo[i]].1 != b as int);
                assert(false);
            }
        }
        None
    }

    /// Look an edge up between `a` and `b`: in a directed store the
    /// first edge `a -> b` on `a`'s outgoing list; in an undirected
    /// store an edge connecting the two in either orientation.
    pub fn get_edge(&self, a: NodeIx, b: NodeIx) -> (r: Option<EdgeIx>)
        requires
            self.wf(),
        ensures
            r is Some <==> a < self.n_nodes() && self.has_edge(a as int, b as int),
            r matches Some(e) ==> e < self.n_edges() && (self.ends()[e as int] == (
                a as int,
                b as int,
            ) || (!self.is_directed() && self.ends()[e as int] == (b as int, a as int))),
            a < self.n_nodes() && self.is_directed() ==> ({
                let f = first_match(self.out_adj(a as int), self.ends(), b as int, true);
                &&& (r is None <==> f is None)
                &&& (r matches Some(e) ==> f == Some(e as int))
            }),
            a < self.n_nodes() && !self.is_directed() ==> ({
                let fi = first_match(self.in_adj(a as int), self.ends(), b as int, false);
                let fo = first_match(self.out_adj(a as int), self.ends(), b as int, true);
                &&& (r is None <==> fi is None && fo is None)
                &&& (r matches Some(e) ==> Some(e as int) == (if fi is Some {
                    fi
                } else {
                    fo
                }))
            }),
    {
        if a >= self.nodes.len() {
            return None;
        }
        if !self.directed {
            match self.edge_from_node_undir(a, b) {
                Some((ix, _)) => Some(ix),
                None => None,
            }
        } else {
            self.edge_from_node_dir(a, b)
        }
    }

    /// Whether some edge connects `a` and `b` (respecting the store's
    /// directedness).
    pub fn contains_edge(&self, a: NodeIx, b: NodeIx) -> (r: bool)
        requires
            self.wf(),
        ensures
            r <==> a < self.n_nodes() && self.has_edge(a as int, b as int),
    {
        self.get_edge(a, b).is_some()
    }

    /// Overwrite the weight of the edge between `a` and `b` if one
    /// exists - the one [`Net::get_edge`] finds - returning its
    /// index; otherwise add a fresh edge `a -> b` with the weight,
    /// exactly as [`Net::add_edge`] does.
    #[verifier::rlimit(100)]
    #[verifier::spinoff_prover]
    pub fn update_edge(&mut self, a: NodeIx, b: NodeIx, weight: E) -> (ix: EdgeIx)
        requires
            old(self).wf(),
            a < old(self).n_nodes(),
            b < old(self).n_nodes(),
            old(self).n_edges() + 1 < usize::MAX,
        ensures
            final(self).wf(),
            final(self).node_weights() == old(self).node_weights(),
            final(self).is_directed() == old(self).is_directed(),
            final(self).n_nodes() == old(self).n_nodes(),
            old(self).has_edge(a as int, b as int) ==> ({
                &&& ix < old(self).n_edges()
                &&& final(self).ends() == old(self).ends()
                &&& final(self).n_edges() == old(self).n_edges()
                &&& final(self).edge_weights() == old(self).edge_weights().update(
                    ix as int,
                    weight,
                )
                &&& (old(self).ends()[ix as int] == (a as int, b as int) || (!old(
                    self,
                ).is_directed() && old(self).ends()[ix as int] == (b as int, a as int)))
                &&& (old(self).is_directed() ==> first_match(
                    old(self).out_adj(a as int),
                    old(self).ends(),
                    b as int,
                    true,
                ) == Some(ix as int))
                &&& (!old(self).is_directed() ==> ({
                    let fi = first_match(old(self).in_adj(a as int), old(self).ends(), b as int, false);
                    let fo = first_match(old(self).out_adj(a as int), old(self).ends(), b as int, true);
                    Some(ix as int) == (if fi is Some {
                        fi
                    } else {
                        fo
                    })
                }))
                &&& (forall|n: int|
                    0 <= n < old(self).n_nodes() ==> final(self).out_adj(n) == old(self).out_adj(n)
                        && final(self).in_adj(n) == old(self).in_adj(n))
            }),
            !old(self).has_edge(a as int, b as int) ==> ({
                &&& ix == old(self).n_edges()
                &&& final(self).n_edges() == old(self).n_edges() + 1
                &&& final(self).ends() == old(self).ends().push((a as int, b as int))
                &&& final(self).edge_weights() == old(self).edge_weights().push(weight)
                &&& final(self).out_adj(a as int) == seq![ix as int] + old(self).out_adj(a as int)
                &&& final(self).in_adj(b as int) == seq![ix as int] + old(self).in_adj(b as int)
                &&& (forall|n: int|
                    0 <= n < old(self).n_nodes() && n != a ==> final(self).out_adj(n) == old(
                        self,
                    ).out_adj(n))
                &&& (forall|n: int|
                    0 <= n < old(self).n_nodes() && n != b ==> final(self).in_adj(n) == old(
                        self,
                    ).in_adj(n))
            }),
    {
        match self.get_edge(a, b) {
            Some(ix) => {
                self.set_edge_weight(ix, weight);
                ix
            },
            None => self.add_edge(a, b, weight),
        }
    }

    /// A neighbor cursor for node `a` in the store's default sense:
    /// its outgoing edges.
    pub fn neighbors(&self, a: NodeIx) -> (r: Neighbors<'_, E>)
        requires
            self.wf(),
        ensures
            r.nb_edges() == self.edges_seq(),
            self.is_directed() ==> r.nb_src() == NIL && r.nb_in() == NIL,
            !self.is_directed() ==> r.nb_src() == a,
            a < self.n_nodes() ==> ({
                let l = self.out_adj(a as int);
                &&& (l.len() > 0 ==> r.nb_out() as int == l[0])
                &&& (l.len() == 0 ==> r.nb_out() == NIL)
            }),
            a < self.n_nodes() && !self.is_directed() ==> ({
                let l = self.in_adj(a as int);
                &&& (l.len() > 0 ==> r.nb_in() as int == l[0])
                &&& (l.len() == 0 ==> r.nb_in() == NIL)
            }),
            a >= self.n_nodes() ==> r.nb_out() == NIL && r.nb_in() == NIL,
    {
        self.neighbors_directed(a, Direction::Outgoing)
    }

    /// A neighbor cursor for node `a` restricted to one direction.
    /// On a directed store the other list is disabled up front and
    /// the self-loop filter is switched off; an undirected store
    /// always walks both lists.
    pub fn neighbors_directed(&self, a: NodeIx, dir: Direction) -> (r: Neighbors<'_, E>)
        requires
            self.wf(),
        ensures
            r.nb_edges() == self.edges_seq(),
            self.is_directed() ==> ({
                &&& r.nb_src() == NIL
                &&& (dir is Outgoing ==> r.nb_in() == NIL)
                &&& (dir is Incoming ==> r.nb_out() == NIL)
            }),
            !self.is_directed() ==> r.nb_src() == a,
            a < self.n_nodes() && (!self.is_directed() || dir is Outgoing) ==> ({
                let l = self.out_adj(a as int);
                &&& (l.len() > 0 ==> r.nb_out() as int == l[0])
                &&& (l.len() == 0 ==> r.nb_out() == NIL)
            }),
            a < self.n_nodes() && (!self.is_directed() || dir is Incoming) ==> ({
                let l = self.in_adj(a as int);
                &&& (l.len() > 0 ==> r.nb_in() as int == l[0])
                &&& (l.len() == 0 ==> r.nb_in() == NIL)
            }),
            a >= self.n_nodes() ==> r.nb_out() == NIL && r.nb_in() == NIL,
    {
        let mut iter = self.neighbors_undirected(a);
        if self.directed {
            match dir {
                Direction::Outgoing => iter.next.set_incoming(NIL),
                Direction::Incoming => iter.next.set_outgoing(NIL),
            }
            iter.src = NIL;
        }
        iter
    }

    /// A neighbor cursor for node `a` over both of its lists,
    /// whatever the store's directedness.
    pub fn neighbors_undirected(&self, a: NodeIx) -> (r: Neighbors<'_, E>)
        requires
            self.wf(),
        ensures
            r.nb_src() == a,
            r.nb_edges() == self.edges_seq(),
            a < self.n_nodes() ==> ({
                let lo = self.out_adj(a as int);
                let li = self.in_adj(a as int);
                &&& (lo.len() > 0 ==> r.nb_out() as int == lo[0])
                &&& (lo.len() == 0 ==> r.nb_out() == NIL)
                &&& (li.len() > 0 ==> r.nb_in() as int == li[0])
                &&& (li.len() == 0 ==> r.nb_in() == NIL)
            }),
            a >= self.n_nodes() ==> r.nb_out() == NIL && r.nb_in() == NIL,
    {
        if a >= self.nodes.len() {
            Neighbors::init(a, self.edges.as_slice())
        } else {
            proof {
                let lo = self.out_lists@[a as int];
                let li = self.in_lists@[a as int];
                assert(chain_ok(
                    self.edges@,
                    head_of(self.nodes@[a as int], Direction::Outgoing),
                    lo,
                    Direction::Outgoing,
                ));
                assert(chain_ok(
                    self.edges@,
                    head_of(self.nodes@[a as int], Direction::Incoming),
                    li,
                    Direction::Incoming,
                ));
                if lo.len() > 0 {
                    assert(0 <= lo[0] < self.edges@.len());
                }
                if li.len() > 0 {
                    assert(0 <= li[0] < self.edges@.len());
                }
            }
            Neighbors::new(a, self.edges.as_slice(), self.nodes[a].edges)
        }
    }

    /// The head of node `a`'s `dir` list: its most recently added
    /// incident edge in that role.
    pub fn first_edge(&self, a: NodeIx, dir: Direction) -> (r: Option<EdgeIx>)
        requires
            self.wf(),
        ensures
            ({
                let l = if dir is Outgoing {
                    self.out_adj(a as int)
                } else {
                    self.in_adj(a as int)
                };
                &&& (r is Some <==> a < self.n_nodes() && l.len() > 0)
                &&& (r matches Some(e) ==> a < self.n_nodes() && l.len() > 0 && e as int == l[0])
            }),
    {
        if a >= self.nodes.len() {
            return None;
        }
        let eix = self.nodes[a].edges.next(&dir);
        proof {
            let l = self.dir_lists(dir)[a as int];
            assert(chain_ok(self.edges@, head_of(self.nodes@[a as int], dir), l, dir));
            if l.len() > 0 {
                assert(0 <= l[0] < self.edges@.len());
            }
        }
        if eix == NIL {
            None
        } else {
            Some(eix)
        }
    }

    /// The edge after `e` on the `dir` list that `e` belongs to (the
    /// list of its source for outgoing, of its destination for
    /// incoming), or `None` at the list's end or when `e` is not live.
    pub fn next_edge(&self, e: EdgeIx, dir: Direction) -> (r: Option<EdgeIx>)
        requires
            self.wf(),
        ensures
            e >= self.n_edges() ==> r is None,
            e < self.n_edges() ==> ({
                let n = if dir is Outgoing {
                    self.ends()[e as int].0
                } else {
                    self.ends()[e as int].1
                };
                let l = if dir is Outgoing {
                    self.out_adj(n)
                } else {
                    self.in_adj(n)
                };
                let i = l.index_of(e as int);
                &&& (r is Some <==> i < l.len() - 1)
                &&& (r matches Some(x) ==> i < l.len() - 1 && x as int == l[i + 1])
            }),
    {
        if e >= self.edges.len() {
            return None;
        }
        let eix = self.edges[e].next.next(&dir);
        proof {
            let n = end_of(self.edges@[e as int], dir);
            let l = self.dir_lists(dir)[n];
            assert(l.contains(e as int));
            assert(0 <= n < self.nodes@.len());
            assert(chain_ok(self.edges@, head_of(self.nodes@[n as int], dir), l, dir));
            let i = l.index_of(e as int);
            assert(0 <= i < l.len() && l[i] == e as int);
            assert(next_of(self.edges@[l[i]], dir) == (if i == l.len() - 1 {
                NIL as int
            } else {
                l[i + 1]
            }));
            if i < l.len() - 1 {
                assert(0 <= l[i + 1] < self.edges@.len());
            }
            if dir is Outgoing {
                assert(self.ends()[e as int].0 == n);
            } else {
                assert(self.ends()[e as int].1 == n);
            }
        }
        if eix == NIL {
            None
        } else {
            Some(eix)
        }
    }
}

/// Splicing a fresh edge (appended at index `es.len()`) onto the head
/// of node `a`'s `d` list preserves the structure and completeness of
/// the lists, with `a`'s ghost list gaining the new index in front.
pub(crate) proof fn lemma_lists_prepend<N, E>(
    ns: Seq<Node<N>>,
    es: Seq<Edge<E>>,
    ls: Seq<Seq<int>>,
    d: Direction,
    a: int,
    newe: Edge<E>,
    ns2: Seq<Node<N>>,
)
    requires
        chains_ok(ns, es, ls, d),
        member_ok(es, ls, d),
        ends_in_range(ns, es),
        0 <= a < ns.len(),
        end_of(newe, d) == a,
        next_of(newe, d) == head_of(ns[a], d),
        ns2.len() == ns.len(),
        head_of(ns2[a], d) == es.len(),
        forall|n: int|
            0 <= n < ns.len() && n != a ==> head_of(#[trigger] ns2[n], d) == head_of(ns[n], d),
    ensures
        chains_ok(ns2, es.push(newe), ls.update(a, seq![es.len() as int] + ls[a]), d),
        member_ok(es.push(newe), ls.update(a, seq![es.len() as int] + ls[a]), d),
{
    let eix = es.len() as int;
    let es2 = es.push(newe);
    let la2 = seq![eix] + ls[a];
    let ls2 = ls.update(a, la2);
    assert forall|n: int| 0 <= n < ns2.len() implies chain_ok(
        es2,
        head_of(ns2[n], d),
        #[trigger] ls2[n],
        d,
    ) by {
        if n != a {
            let l = ls[n];
            assert(ls2[n] == l);
            assert(chain_ok(es, head_of(ns[n], d), l, d));
            assert forall|i: int| 0 <= i < l.len() implies #[trigger] next_of(es2[l[i]], d) == (
            if i == l.len() - 1 {
                NIL as int
            } else {
                l[i + 1]
            }) by {
                assert(es2[l[i]] == es[l[i]]);
            }
        } else {
            assert(ls2[a] == la2);
            let l = ls[a];
            assert(la2[0] == eix);
            assert(es2[eix] == newe);
            assert forall|i: int| 0 <= i < la2.len() implies 0 <= #[trigger] la2[i]
                < es2.len() by {
                if i > 0 {
                    assert(la2[i] == l[i - 1]);
                }
            }
            assert forall|i: int| 0 <= i < la2.len() implies #[trigger] next_of(es2[la2[i]], d)
                == (if i == la2.len() - 1 {
                NIL as int
            } else {
                la2[i + 1]
            }) by {
                if i == 0 {
                    assert(next_of(es2[eix], d) == head_of(ns[a], d));
                    if l.len() == 0 {
                        assert(head_of(ns[a], d) == NIL as int);
                    } else {
                        assert(head_of(ns[a], d) == l[0]);
                        assert(la2[1] == l[0]);
                    }
                } else {
                    assert(la2[i] == l[i - 1]);
                    assert(es2[l[i - 1]] == es[l[i - 1]]);
                    assert(next_of(es[l[i - 1]], d) == (if i - 1 == l.len() - 1 {
                        NIL as int
                    } else {
                        l[i]
                    }));
                    if i < la2.len() - 1 {
                        assert(la2[i + 1] == l[i]);
                    }
                }
            }
        }
    }
    assert forall|n: int, i: int| 0 <= n < ns2.len() && 0 <= i < ls2[n].len() implies end_of(
        es2[#[trigger] ls2[n][i]],
        d,
    ) == n by {
        if n != a {
            assert(ls2[n] == ls[n]);
            assert(es2[ls[n][i]] == es[ls[n][i]]);
        } else {
            assert(ls2[a] == la2);
            if i == 0 {
                assert(la2[0] == eix);
                assert(es2[eix] == newe);
            } else {
                assert(la2[i] == ls[a][i - 1]);
                assert(es2[ls[a][i - 1]] == es[ls[a][i - 1]]);
            }
        }
    }
    assert forall|n: int| 0 <= n < ns2.len() implies (#[trigger] ls2[n]).no_duplicates() by {
        if n != a {
            assert(ls2[n] == ls[n]);
        } else {
            assert(ls2[a] == la2);
            let l = ls[a];
            assert forall|i: int, j: int| 0 <= i < la2.len() && 0 <= j < la2.len() && i != j
                implies la2[i] != la2[j] by {
                if i == 0 {
                    assert(la2[j] == l[j - 1]);
                    assert(0 <= l[j - 1] < es.len());
                } else if j == 0 {
                    assert(la2[i] == l[i - 1]);
                    assert(0 <= l[i - 1] < es.len());
                } else {
                    assert(la2[i] == l[i - 1]);
                    assert(la2[j] == l[j - 1]);
                }
            }
        }
    }
    assert forall|e: int| 0 <= e < es2.len() implies ls2[#[trigger] end_of(es2[e], d)].contains(
        e,
    ) by {
        if e < es.len() {
            assert(es2[e] == es[e]);
            let n = end_of(es[e], d);
            assert(ls[n].contains(e));
            assert(0 <= n < ns.len());
            if n != a {
                assert(ls2[n] == ls[n]);
            } else {
                let i = choose|i: int| 0 <= i < ls[a].len() && ls[a][i] == e;
                assert(la2[i + 1] == e);
                assert(ls2[a].contains(e));
            }
        } else {
            assert(es2[e] == newe);
            assert(end_of(es2[e], d) == a);
            assert(la2[0] == eix);
            assert(ls2[a].contains(eix));
        }
    }
}

/// Appending a node with empty `d` list (head [`NIL`]) and an empty
/// ghost list preserves the structure and completeness of the lists.
pub(crate) proof fn lemma_lists_push_node<N, E>(
    ns: Seq<Node<N>>,
    es: Seq<Edge<E>>,
    ls: Seq<Seq<int>>,
    d: Direction,
    node: Node<N>,
)
    requires
        chains_ok(ns, es, ls, d),
        member_ok(es, ls, d),
        ends_in_range(ns, es),
        head_of(node, d) == NIL as int,
    ensures
        chains_ok(ns.push(node), es, ls.push(Seq::empty()), d),
        member_ok(es, ls.push(Seq::empty()), d),
{
    let ns2 = ns.push(node);
    let ls2 = ls.push(Seq::<int>::empty());
    assert forall|n: int| 0 <= n < ns2.len() implies chain_ok(
        es,
        head_of(ns2[n], d),
        #[trigger] ls2[n],
        d,
    ) by {
        if n < ns.len() {
            assert(ns2[n] == ns[n]);
            assert(ls2[n] == ls[n]);
        } else {
            assert(ns2[n] == node);
            assert(ls2[n] =~= Seq::<int>::empty());
        }
    }
    assert forall|n: int, i: int| 0 <= n < ns2.len() && 0 <= i < ls2[n].len() implies end_of(
        es[#[trigger] ls2[n][i]],
        d,
    ) == n by {
        assert(n < ns.len());
        assert(ls2[n] == ls[n]);
    }
    assert forall|n: int| 0 <= n < ns2.len() implies (#[trigger] ls2[n]).no_duplicates() by {
        if n < ns.len() {
            assert(ls2[n] == ls[n]);
        } else {
            assert(ls2[n] =~= Seq::<int>::empty());
        }
    }
    assert forall|e: int| 0 <= e < es.len() implies ls2[#[trigger] end_of(es[e], d)].contains(
        e,
    ) by {
        let n = end_of(es[e], d);
        assert(ls[n].contains(e));
        assert(0 <= n < ns.len());
        assert(ls2[n] == ls[n]);
    }
}

impl<N, E> Net<N, E> {
    /// Overwrite the ghost `d`-direction lists.
    fn set_lists(&mut self, d: Direction, Ghost(v): Ghost<Seq<Seq<int>>>)
        ensures
            final(self).dir_lists(d) == v,
            final(self).dir_lists(opp(d)) == old(self).dir_lists(opp(d)),
            final(self).nodes@ == old(self).nodes@,
            final(self).edges@ == old(self).edges@,
            final(self).directed == old(self).directed,
    {
        match d {
            Direction::Outgoing => self.out_lists = Ghost(v),
            Direction::Incoming => self.in_lists = Ghost(v),
        }
    }

    /// Walk node `n0`'s `d` list until the link slot (the node's head,
    /// or an edge's "next") holding `needle` is found, and overwrite it
    /// with `newval`.  The caller supplies the walk as a ghost path.
    fn retarget(
        &mut self,
        n0: usize,
        needle: usize,
        newval: usize,
        dir: Direction,
        Ghost(path): Ghost<Seq<int>>,
    )
        requires
            path_to_slot(old(self).nodes@, old(self).edges@, n0 as int, dir, path, needle as int),
        ensures
            final(self).directed == old(self).directed,
            final(self).out_lists == old(self).out_lists,
            final(self).in_lists == old(self).in_lists,
            path.len() == 0 ==> final(self).edges@ == old(self).edges@ && final(self).nodes@ == old(
                self,
            ).nodes@.update(
                n0 as int,
                node_set_head(old(self).nodes@[n0 as int], dir, newval as int),
            ),
            path.len() > 0 ==> final(self).nodes@ == old(self).nodes@ && final(self).edges@ == old(
                self,
            ).edges@.update(
                path.last(),
                edge_set_next(old(self).edges@[path.last()], dir, newval as int),
            ),
    {
        let head = self.nodes[n0].edges.next(&dir);
        if head == needle {
            proof {
                if path.len() > 0 {
                    assert(head == path[0]);
                    assert(path[0] != needle as int);
                }
            }
            self.nodes[n0].edges.set_dir(&dir, newval);
            proof {
                assert(self.nodes@ =~= old(self).nodes@.update(
                    n0 as int,
                    node_set_head(old(self).nodes@[n0 as int], dir, newval as int),
                ));
            }
        } else {
            proof {
                assert(path.len() > 0);
            }
            let mut cur = head;
            let ghost mut j: int = 0;
            proof {
                assert(cur == path[0]);
            }
            let mut nxt = self.edges[cur].next.next(&dir);
            while nxt != needle
                invariant
                    0 <= j < path.len(),
                    cur == path[j],
                    nxt == next_of(self.edges@[cur as int], dir),
                    self.nodes@ == old(self).nodes@,
                    self.edges@ == old(self).edges@,
                    path_to_slot(
                        self.nodes@,
                        self.edges@,
                        n0 as int,
                        dir,
                        path,
                        needle as int,
                    ),
                decreases path.len() - j,
            {
                proof {
                    assert(next_of(self.edges@[path[j]], dir) == (if j == path.len() - 1 {
                        needle as int
                    } else {
                        path[j + 1]
                    }));
                    assert(j != path.len() - 1);
                }
                let nx: usize = nxt;
                cur = nx;
                proof {
                    j = j + 1;
                }
                nxt = self.edges[cur].next.next(&dir);
            }
            proof {
                assert(next_of(self.edges@[path[j]], dir) == needle as int);
                if j != path.len() - 1 {
                    assert(next_of(self.edges@[path[j]], dir) == path[j + 1]);
                    assert(path[j + 1] != needle as int);
                }
                assert(j == path.len() - 1);
                assert(cur == path.last());
            }
            self.edges[cur].next.set_dir(&dir, newval);
            proof {
                assert(self.edges@ =~= old(self).edges@.update(
                    path.last(),
                    edge_set_next(old(self).edges@[path.last()], dir, newval as int),
                ));
            }
        }
    }

    /// Take edge `tgt` out of node `n0`'s `d` list by retargeting the
    /// one slot that points at it to `tgt`'s own "next" link, and drop
    /// it from the ghost list.
    fn unlink(&mut self, n0: usize, tgt: usize, rep: usize, dir: Direction)
        requires
            old(self).nodes@.len() < usize::MAX,
            old(self).edges@.len() < usize::MAX,
            chains_ok(old(self).nodes@, old(self).edges@, old(self).dir_lists(dir), dir),
            member_ok(old(self).edges@, old(self).dir_lists(dir), dir),
            ends_in_range(old(self).nodes@, old(self).edges@),
            n0 < old(self).nodes@.len(),
            tgt < old(self).edges@.len(),
            old(self).dir_lists(dir)[n0 as int].contains(tgt as int),
            rep as int == next_of(old(self).edges@[tgt as int], dir),
        ensures
            final(self).nodes@.len() == old(self).nodes@.len(),
            final(self).edges@.len() == old(self).edges@.len(),
            final(self).directed == old(self).directed,
            final(self).dir_lists(opp(dir)) == old(self).dir_lists(opp(dir)),
            final(self).dir_lists(dir) == old(self).dir_lists(dir).update(
                n0 as int,
                old(self).dir_lists(dir)[n0 as int].remove(
                    old(self).dir_lists(dir)[n0 as int].index_of(tgt as int),
                ),
            ),
            chains_ok(final(self).nodes@, final(self).edges@, final(self).dir_lists(dir), dir),
            member_ok_except(final(self).edges@, final(self).dir_lists(dir), dir, tgt as int),
            forall|x: int|
                0 <= x < old(self).edges@.len() ==> agrees(
                    #[trigger] final(self).edges@[x],
                    old(self).edges@[x],
                    opp(dir),
                ),
            forall|n: int|
                0 <= n < old(self).nodes@.len() ==> (#[trigger] final(self).nodes@[n]).weight == old(
                    self,
                ).nodes@[n].weight && head_of(final(self).nodes@[n], opp(dir)) == head_of(
                    old(self).nodes@[n],
                    opp(dir),
                ),
    {
        let ghost ls = self.dir_lists(dir);
        let ghost l = ls[n0 as int];
        let ghost p = l.index_of(tgt as int);
        proof {
            assert(0 <= p < l.len() && l[p] == tgt as int);
            lemma_path_from_chain(self.nodes@, self.edges@, n0 as int, dir, l, p);
        }
        self.retarget(n0, tgt, rep, dir, Ghost(l.take(p)));
        self.set_lists(dir, Ghost(ls.update(n0 as int, l.remove(p))));
        proof {
            lemma_lists_unlink(
                old(self).nodes@,
                old(self).edges@,
                ls,
                dir,
                n0 as int,
                p,
                self.nodes@,
                self.edges@,
            );
            l.remove_ensures(p);
        }
    }

    /// After the array has been compacted, repair the one `d`-list
    /// slot that still names the moved edge's former index (the array
    /// length at entry), pointing it at `new_ix`, and rename the index
    /// in the ghost list.  `es_pre` is the edge array before the
    /// compaction; the current array must agree with it in direction
    /// `d` everywhere but the freed slot, which holds the moved edge.
    #[verifier::rlimit(100)]
    #[verifier::spinoff_prover]
    fn rename_moved(&mut self, n0: usize, new_ix: usize, dir: Direction, Ghost(es_pre): Ghost<
        Seq<Edge<E>>,
    >)
        requires
            es_pre.len() == old(self).edges@.len() + 1,
            new_ix < old(self).edges@.len(),
            chains_ok(old(self).nodes@, es_pre, old(self).dir_lists(dir), dir),
            member_ok_except(es_pre, old(self).dir_lists(dir), dir, new_ix as int),
            ends_in_range(old(self).nodes@, es_pre),
            forall|x: int|
                0 <= x < old(self).edges@.len() && x != new_ix ==> agrees(
                    #[trigger] old(self).edges@[x],
                    es_pre[x],
                    dir,
                ),
            agrees(old(self).edges@[new_ix as int], es_pre.last(), dir),
            n0 as int == end_of(es_pre.last(), dir),
        ensures
            final(self).nodes@.len() == old(self).nodes@.len(),
            final(self).edges@.len() == old(self).edges@.len(),
            final(self).directed == old(self).directed,
            final(self).dir_lists(opp(dir)) == old(self).dir_lists(opp(dir)),
            ({
                let l = old(self).dir_lists(dir)[n0 as int];
                final(self).dir_lists(dir) == old(self).dir_lists(dir).update(
                    n0 as int,
                    l.update(l.index_of(old(self).edges@.len() as int), new_ix as int),
                )
            }),
            chains_ok(final(self).nodes@, final(self).edges@, final(self).dir_lists(dir), dir),
            member_ok(final(self).edges@, final(self).dir_lists(dir), dir),
            forall|x: int|
                0 <= x < old(self).edges@.len() ==> agrees(
                    #[trigger] final(self).edges@[x],
                    old(self).edges@[x],
                    opp(dir),
                ),
            forall|n: int|
                0 <= n < old(self).nodes@.len() ==> (#[trigger] final(self).nodes@[n]).weight
                    == old(self).nodes@[n].weight && head_of(final(self).nodes@[n], opp(dir))
                    == head_of(old(self).nodes@[n], opp(dir)),
    {
        let ghost ls = self.dir_lists(dir);
        let ghost lastx = es_pre.len() - 1;
        let ghost l = ls[n0 as int];
        let ghost q = l.index_of(lastx);
        let old_ix = self.edges.len();
        proof {
            lemma_swap_path(self.nodes@, es_pre, ls, dir, new_ix as int, self.edges@);
        }
        self.retarget(n0, old_ix, new_ix, dir, Ghost(l.take(q)));
        self.set_lists(dir, Ghost(ls.update(n0 as int, l.update(q, new_ix as int))));
        proof {
            lemma_lists_swap_fix(
                old(self).nodes@,
                es_pre,
                ls,
                dir,
                new_ix as int,
                old(self).edges@,
                self.nodes@,
                self.edges@,
            );
        }
    }

    /// Unlink edge `eix` from both of its endpoint lists.  The edge
    /// then still occupies its array slot, but no link names it; all
    /// weights and endpoints are untouched.
    #[verifier::rlimit(100)]
    #[verifier::spinoff_prover]
    fn detach_edge(&mut self, eix: EdgeIx)
        requires
            old(self).wf(),
            eix < old(self).edges@.len(),
        ensures
            final(self).nodes@.len() == old(self).nodes@.len(),
            final(self).edges@.len() == old(self).edges@.len(),
            final(self).directed == old(self).directed,
            chains_ok(
                final(self).nodes@,
                final(self).edges@,
                final(self).out_lists@,
                Direction::Outgoing,
            ),
            chains_ok(
                final(self).nodes@,
                final(self).edges@,
                final(self).in_lists@,
                Direction::Incoming,
            ),
            member_ok_except(
                final(self).edges@,
                final(self).out_lists@,
                Direction::Outgoing,
                eix as int,
            ),
            member_ok_except(
                final(self).edges@,
                final(self).in_lists@,
                Direction::Incoming,
                eix as int,
            ),
            ends_in_range(final(self).nodes@, final(self).edges@),
            forall|x: int|
                0 <= x < old(self).edges@.len() ==> (#[trigger] final(self).edges@[x]).weight
                    == old(self).edges@[x].weight && final(self).edges@[x].node == old(
                    self,
                ).edges@[x].node,
            forall|n: int|
                0 <= n < old(self).nodes@.len() ==> (#[trigger] final(self).nodes@[n]).weight
                    == old(self).nodes@[n].weight,
    {
        let src = self.edges[eix].node.src();
        let dst = self.edges[eix].node.dest();
        let nxo = self.edges[eix].next.out();
        let nxi = self.edges[eix].next.inc();
        proof {
            assert(end_of(old(self).edges@[eix as int], Direction::Outgoing) == src as int);
            assert(old(self).dir_lists(Direction::Outgoing)[src as int].contains(eix as int));
        }
        self.unlink(src, eix, nxo, Direction::Outgoing);
        let ghost ns1 = self.nodes@;
        let ghost es1 = self.edges@;
        proof {
            assert(opp(Direction::Outgoing) == Direction::Incoming);
            assert forall|x: int| 0 <= x < es1.len() implies next_of(
                #[trigger] es1[x],
                Direction::Incoming,
            ) == next_of(old(self).edges@[x], Direction::Incoming) && end_of(
                es1[x],
                Direction::Incoming,
            ) == end_of(old(self).edges@[x], Direction::Incoming) && end_of(
                es1[x],
                Direction::Outgoing,
            ) == end_of(old(self).edges@[x], Direction::Outgoing) by {
                assert(agrees(es1[x], old(self).edges@[x], Direction::Incoming));
            }
            assert forall|n: int| 0 <= n < ns1.len() implies head_of(
                #[trigger] ns1[n],
                Direction::Incoming,
            ) == head_of(old(self).nodes@[n], Direction::Incoming) by {}
            lemma_chains_frame(
                old(self).nodes@,
                old(self).edges@,
                old(self).in_lists@,
                Direction::Incoming,
                ns1,
                es1,
            );
            lemma_member_frame(old(self).edges@, old(self).in_lists@, Direction::Incoming, es1);
            assert forall|e: int| 0 <= e < es1.len() implies 0 <= (#[trigger] es1[e]).node.src
                < ns1.len() && 0 <= es1[e].node.dest < ns1.len() by {
                assert(agrees(es1[e], old(self).edges@[e], Direction::Incoming));
            }
            assert(ends_in_range(ns1, es1));
            assert(end_of(es1[eix as int], Direction::Incoming) == dst as int);
            assert(self.dir_lists(Direction::Incoming)[dst as int].contains(eix as int));
            assert(nxi as int == next_of(es1[eix as int], Direction::Incoming));
        }
        self.unlink(dst, eix, nxi, Direction::Incoming);
        proof {
            let ns2 = self.nodes@;
            let es2 = self.edges@;
            let ols2 = self.out_lists@;
            assert(opp(Direction::Incoming) == Direction::Outgoing);
            assert forall|x: int| 0 <= x < es2.len() implies next_of(
                #[trigger] es2[x],
                Direction::Outgoing,
            ) == next_of(es1[x], Direction::Outgoing) && end_of(es2[x], Direction::Outgoing)
                == end_of(es1[x], Direction::Outgoing) && end_of(es2[x], Direction::Incoming)
                == end_of(es1[x], Direction::Incoming) by {
                assert(agrees(es2[x], es1[x], Direction::Outgoing));
            }
            assert forall|n: int| 0 <= n < ns2.len() implies head_of(
                #[trigger] ns2[n],
                Direction::Outgoing,
            ) == head_of(ns1[n], Direction::Outgoing) by {}
            lemma_chains_frame(ns1, es1, ols2, Direction::Outgoing, ns2, es2);
            lemma_member_except_frame(es1, ols2, Direction::Outgoing, eix as int, es2);
            assert forall|e: int| 0 <= e < es2.len() implies 0 <= (#[trigger] es2[e]).node.src
                < ns2.len() && 0 <= es2[e].node.dest < ns2.len() by {
                assert(agrees(es2[e], es1[e], Direction::Outgoing));
            }
            assert(ends_in_range(ns2, es2));
            assert forall|x: int| 0 <= x < old(self).edges@.len() implies (
            #[trigger] es2[x]).weight == old(self).edges@[x].weight && es2[x].node == old(
                self,
            ).edges@[x].node by {
                assert(agrees(es1[x], old(self).edges@[x], Direction::Incoming));
                assert(agrees(es2[x], es1[x], Direction::Outgoing));
            }
        }
    }

    /// Compact the array over the already-unlinked slot `eix`: move
    /// the last edge into it and repair the one outgoing and the one
    /// incoming link that named the moved edge's former index.
    /// Restores well-formedness; returns the removed edge's weight.
    #[verifier::rlimit(100)]
    #[verifier::spinoff_prover]
    fn compact_edge(&mut self, eix: EdgeIx) -> (w: E)
        requires
            eix < old(self).edges@.len(),
            old(self).nodes@.len() < usize::MAX,
            old(self).edges@.len() < usize::MAX,
            chains_ok(
                old(self).nodes@,
                old(self).edges@,
                old(self).out_lists@,
                Direction::Outgoing,
            ),
            chains_ok(old(self).nodes@, old(self).edges@, old(self).in_lists@, Direction::Incoming),
            member_ok_except(
                old(self).edges@,
                old(self).out_lists@,
                Direction::Outgoing,
                eix as int,
            ),
            member_ok_except(
                old(self).edges@,
                old(self).in_lists@,
                Direction::Incoming,
                eix as int,
            ),
            ends_in_range(old(self).nodes@, old(self).edges@),
        ensures
            final(self).wf(),
            final(self).nodes@.len() == old(self).nodes@.len(),
            final(self).edges@.len() == old(self).edges@.len() - 1,
            final(self).directed == old(self).directed,
            w == old(self).edges@[eix as int].weight,
            forall|n: int|
                0 <= n < old(self).nodes@.len() ==> (#[trigger] final(self).nodes@[n]).weight
                    == old(self).nodes@[n].weight,
            forall|x: int|
                0 <= x < final(self).edges@.len() && x != eix ==> (
                #[trigger] final(self).edges@[x]).weight == old(self).edges@[x].weight && final(self).edges@[x].node == old(self).edges@[x].node,
            eix < final(self).edges@.len() ==> final(self).edges@[eix as int].weight == old(
                self,
            ).edges@.last().weight && final(self).edges@[eix as int].node == old(
                self,
            ).edges@.last().node,
    {
        let ghost ns2 = self.nodes@;
        let ghost es_pre = self.edges@;
        let ghost ols2 = self.out_lists@;
        let ghost ils2 = self.in_lists@;
        let edge = self.edges.swap_remove(eix);
        if eix < self.edges.len() {
            let msrc = self.edges[eix].node.src();
            let mdst = self.edges[eix].node.dest();
            proof {
                assert(self.edges@ == es_pre.update(eix as int, es_pre.last()).drop_last());
                assert forall|x: int| 0 <= x < self.edges@.len() && x != eix implies agrees(
                    #[trigger] self.edges@[x],
                    es_pre[x],
                    Direction::Outgoing,
                ) by {
                    assert(self.edges@[x] == es_pre[x]);
                }
                assert(self.edges@[eix as int] == es_pre.last());
                assert(msrc as int == end_of(es_pre.last(), Direction::Outgoing));
            }
            self.rename_moved(msrc, eix, Direction::Outgoing, Ghost(es_pre));
            let ghost ns3 = self.nodes@;
            let ghost es3 = self.edges@;
            proof {
                assert(opp(Direction::Outgoing) == Direction::Incoming);
                assert forall|n: int| 0 <= n < ns3.len() implies head_of(
                    #[trigger] ns3[n],
                    Direction::Incoming,
                ) == head_of(ns2[n], Direction::Incoming) by {}
                lemma_chains_frame(ns2, es_pre, ils2, Direction::Incoming, ns3, es_pre);
                assert forall|x: int| 0 <= x < es3.len() && x != eix implies agrees(
                    #[trigger] es3[x],
                    es_pre[x],
                    Direction::Incoming,
                ) by {
                    assert(agrees(
                        es3[x],
                        es_pre.update(eix as int, es_pre.last()).drop_last()[x],
                        Direction::Incoming,
                    ));
                    assert(es_pre.update(eix as int, es_pre.last()).drop_last()[x] == es_pre[x]);
                }
                assert(agrees(es3[eix as int], es_pre.last(), Direction::Incoming));
                assert(mdst as int == end_of(es_pre.last(), Direction::Incoming));
            }
            self.rename_moved(mdst, eix, Direction::Incoming, Ghost(es_pre));
            proof {
                let ns4 = self.nodes@;
                let es4 = self.edges@;
                assert(opp(Direction::Incoming) == Direction::Outgoing);
                assert forall|x: int| 0 <= x < es4.len() implies next_of(
                    #[trigger] es4[x],
                    Direction::Outgoing,
                ) == next_of(es3[x], Direction::Outgoing) && end_of(es4[x], Direction::Outgoing)
                    == end_of(es3[x], Direction::Outgoing) by {
                    assert(agrees(es4[x], es3[x], Direction::Outgoing));
                }
                assert forall|n: int| 0 <= n < ns4.len() implies head_of(
                    #[trigger] ns4[n],
                    Direction::Outgoing,
                ) == head_of(ns3[n], Direction::Outgoing) by {}
                lemma_chains_frame(ns3, es3, self.out_lists@, Direction::Outgoing, ns4, es4);
                lemma_member_frame(es3, self.out_lists@, Direction::Outgoing, es4);
                assert forall|e: int| 0 <= e < es4.len() implies 0 <= (#[trigger] es4[e]).node.src
                    < ns4.len() && 0 <= es4[e].node.dest < ns4.len() by {
                    assert(agrees(es4[e], es3[e], Direction::Outgoing));
                    if e != eix {
                        assert(agrees(es3[e], es_pre[e], Direction::Incoming));
                        assert(0 <= es_pre[e].node.src < ns2.len());
                    } else {
                        assert(agrees(es3[e], es_pre.last(), Direction::Incoming));
                        assert(0 <= es_pre.last().node.src < ns2.len());
                    }
                }
                assert(ends_in_range(ns4, es4));
                assert(self.wf());
                assert forall|x: int| 0 <= x < es4.len() && x != eix implies (
                #[trigger] es4[x]).weight == es_pre[x].weight && es4[x].node == es_pre[x].node by {
                    assert(agrees(es4[x], es3[x], Direction::Outgoing));
                    assert(agrees(es3[x], es_pre[x], Direction::Incoming));
                }
                assert(agrees(es4[eix as int], es3[eix as int], Direction::Outgoing));
                assert(agrees(es3[eix as int], es_pre.last(), Direction::Incoming));
            }
            edge.weight
        } else {
            proof {
                assert(self.edges@ =~= es_pre.drop_last());
                lemma_lists_drop_last(ns2, es_pre, ols2, Direction::Outgoing, eix as int);
                lemma_lists_drop_last(ns2, es_pre, ils2, Direction::Incoming, eix as int);
                assert forall|e: int| 0 <= e < self.edges@.len() implies 0 <= (
                #[trigger] self.edges@[e]).node.src < ns2.len() && 0 <= self.edges@[e].node.dest
                    < ns2.len() by {
                    assert(self.edges@[e] == es_pre[e]);
                }
                assert(self.wf());
            }
            edge.weight
        }
    }

    /// Remove edge `e`, returning its weight, or `None` (with the
    /// store untouched) when no edge has that index.  The edge is
    /// unlinked from both of its endpoint lists, the array is
    /// compacted by moving the last edge into the freed slot, and
    /// every link naming the moved edge's former index is repaired; so
    /// the surviving edges are the former ones with the last swapped
    /// into place `e`, and the store is well-formed again.
    pub fn remove_edge(&mut self, eix: EdgeIx) -> (r: Option<E>)
        requires
            old(self).wf(),
        ensures
            final(self).wf(),
            eix >= old(self).n_edges() ==> r is None && *final(self) == *old(self),
            eix < old(self).n_edges() ==> ({
                let fin = *final(self);
                let pre = *old(self);
                &&& r == Some(pre.edge_weights()[eix as int])
                &&& fin.ends() == pre.ends().update(eix as int, pre.ends().last()).drop_last()
                &&& fin.edge_weights() == pre.edge_weights().update(
                    eix as int,
                    pre.edge_weights().last(),
                ).drop_last()
                &&& fin.node_weights() == pre.node_weights()
                &&& fin.is_directed() == pre.is_directed()
                &&& fin.n_nodes() == pre.n_nodes()
                &&& fin.n_edges() == pre.n_edges() - 1
            }),
    {
        if eix >= self.edges.len() {
            return None;
        }
        self.detach_edge(eix);
        let w = self.compact_edge(eix);
        proof {
            assert(self.ends() =~= old(self).ends().update(
                eix as int,
                old(self).ends().last(),
            ).drop_last());
            assert(self.edge_weights() =~= old(self).edge_weights().update(
                eix as int,
                old(self).edge_weights().last(),
            ).drop_last());
            assert(self.node_weights() =~= old(self).node_weights());
        }
        Some(w)
    }

    /// Remove node `a`, returning its weight, or `None` (with the
    /// store untouched) when no node has that index.  Every edge
    /// touching the node - each self-loop once - is removed first
    /// (outgoing list order, then incoming list order), so the edge
    /// count drops by exactly the number of incident edges; then the
    /// node array is compacted by moving the last node into the freed
    /// slot and rewriting the endpoints of that node's own edges.
    #[verifier::rlimit(100)]
    #[verifier::spinoff_prover]
    pub fn remove(&mut self, a: NodeIx) -> (r: Option<N>)
        requires
            old(self).wf(),
        ensures
            final(self).wf(),
            a >= old(self).n_nodes() ==> r is None && *final(self) == *old(self),
            a < old(self).n_nodes() ==> ({
                let fin = *final(self);
                let pre = *old(self);
                &&& r == Some(pre.node_weights()[a as int])
                &&& fin.node_weights() == pre.node_weights().update(
                    a as int,
                    pre.node_weights().last(),
                ).drop_last()
                &&& fin.n_nodes() == pre.n_nodes() - 1
                &&& fin.n_edges() == pre.n_edges() - count_incident(pre.ends(), a as int)
                &&& fin.is_directed() == pre.is_directed()
                &&& fin.edge_recs().to_multiset() == pre.edge_recs().filter(
                    survives::<E>(a as int),
                ).map_values(rename_rec::<E>(pre.n_nodes() - 1, a as int)).to_multiset()
            }),
    {
        if a >= self.nodes.len() {
            return None;
        }
        while self.nodes[a].edges.out() != NIL
            invariant
                self.wf(),
                a < self.n_nodes(),
                self.n_nodes() == old(self).n_nodes(),
                self.node_weights() == old(self).node_weights(),
                self.is_directed() == old(self).is_directed(),
                old(self).n_edges() + count_incident(self.ends(), a as int) == self.n_edges()
                    + count_incident(old(self).ends(), a as int),
                self.edge_recs().filter(survives::<E>(a as int)).to_multiset() == old(
                    self,
                ).edge_recs().filter(survives::<E>(a as int)).to_multiset(),
            decreases self.edges@.len(),
        {
            let h = self.nodes[a].edges.out();
            proof {
                let l = self.out_lists@[a as int];
                assert(chain_ok(
                    self.edges@,
                    head_of(self.nodes@[a as int], Direction::Outgoing),
                    l,
                    Direction::Outgoing,
                ));
                assert(head_of(self.nodes@[a as int], Direction::Outgoing) == h as int);
                assert(l.len() > 0);
                assert(l[0] == h as int);
                assert(0 <= h < self.edges@.len());
                assert(end_of(self.edges@[h as int], Direction::Outgoing) == a as int);
                assert(self.ends()[h as int].0 == a as int);
            }
            let ghost pre_ends = self.ends();
            let ghost pre_recs = self.edge_recs();
            self.remove_edge(h);
            proof {
                lemma_count_incident_swap_remove(pre_ends, a as int, h as int);
                assert(self.edge_recs() =~= pre_recs.update(
                    h as int,
                    pre_recs.last(),
                ).drop_last());
                assert(pre_recs[h as int].0 == pre_ends[h as int]);
                assert(!(survives::<E>(a as int)(pre_recs[h as int])));
                lemma_filter_swap_remove_ms(pre_recs, survives::<E>(a as int), h as int);
            }
        }
        proof {
            let l = self.out_lists@[a as int];
            assert(chain_ok(
                self.edges@,
                head_of(self.nodes@[a as int], Direction::Outgoing),
                l,
                Direction::Outgoing,
            ));
            if l.len() > 0 {
                assert(l[0] == head_of(self.nodes@[a as int], Direction::Outgoing));
                assert(0 <= l[0] < self.edges@.len());
            }
            assert(l.len() == 0);
            assert forall|e: int| 0 <= e < self.ends().len() implies (
            #[trigger] self.ends()[e]).0 != a as int by {
                if end_of(self.edges@[e], Direction::Outgoing) == a as int {
                    assert(self.out_lists@[a as int].contains(e));
                }
            }
        }
        while self.nodes[a].edges.inc() != NIL
            invariant
                self.wf(),
                a < self.n_nodes(),
                self.n_nodes() == old(self).n_nodes(),
                self.node_weights() == old(self).node_weights(),
                self.is_directed() == old(self).is_directed(),
                old(self).n_edges() + count_incident(self.ends(), a as int) == self.n_edges()
                    + count_incident(old(self).ends(), a as int),
                self.edge_recs().filter(survives::<E>(a as int)).to_multiset() == old(
                    self,
                ).edge_recs().filter(survives::<E>(a as int)).to_multiset(),
                forall|e: int|
                    0 <= e < self.ends().len() ==> (#[trigger] self.ends()[e]).0 != a as int,
            decreases self.edges@.len(),
        {
            let h = self.nodes[a].edges.inc();
            proof {
                let l = self.in_lists@[a as int];
                assert(chain_ok(
                    self.edges@,
                    head_of(self.nodes@[a as int], Direction::Incoming),
                    l,
                    Direction::Incoming,
                ));
                assert(head_of(self.nodes@[a as int], Direction::Incoming) == h as int);
                assert(l.len() > 0);
                assert(l[0] == h as int);
                assert(0 <= h < self.edges@.len());
                assert(end_of(self.edges@[h as int], Direction::Incoming) == a as int);
                assert(self.ends()[h as int].1 == a as int);
            }
            let ghost pre_ends = self.ends();
            let ghost pre_recs = self.edge_recs();
            self.remove_edge(h);
            proof {
                lemma_count_incident_swap_remove(pre_ends, a as int, h as int);
                assert(self.edge_recs() =~= pre_recs.update(
                    h as int,
                    pre_recs.last(),
                ).drop_last());
                assert(pre_recs[h as int].0 == pre_ends[h as int]);
                assert(!(survives::<E>(a as int)(pre_recs[h as int])));
                lemma_filter_swap_remove_ms(pre_recs, survives::<E>(a as int), h as int);
                assert forall|e: int| 0 <= e < self.ends().len() implies (
                #[trigger] self.ends()[e]).0 != a as int by {
                    assert(self.ends()[e] == pre_ends.update(
                        h as int,
                        pre_ends.last(),
                    ).drop_last()[e]);
                    if e == h as int {
                        assert(self.ends()[e] == pre_ends.last());
                        assert(pre_ends.last() == pre_ends[pre_ends.len() - 1]);
                    } else {
                        assert(self.ends()[e] == pre_ends[e]);
                    }
                }
            }
        }
        proof {
            let l = self.in_lists@[a as int];
            assert(chain_ok(
                self.edges@,
                head_of(self.nodes@[a as int], Direction::Incoming),
                l,
                Direction::Incoming,
            ));
            if l.len() > 0 {
                assert(l[0] == head_of(self.nodes@[a as int], Direction::Incoming));
                assert(0 <= l[0] < self.edges@.len());
            }
            assert(l.len() == 0);
            assert forall|e: int| 0 <= e < self.ends().len() implies (
            #[trigger] self.ends()[e]).1 != a as int by {
                if end_of(self.edges@[e], Direction::Incoming) == a as int {
                    assert(self.in_lists@[a as int].contains(e));
                }
            }
            lemma_count_incident_zero(self.ends(), a as int);
            assert forall|x: int| 0 <= x < self.edge_recs().len() implies survives::<E>(a as int)(
                #[trigger] self.edge_recs()[x],
            ) by {
                assert(self.edge_recs()[x].0 == self.ends()[x]);
            }
            lemma_filter_all(self.edge_recs(), survives::<E>(a as int));
        }
        let ghost recs_mid = self.edge_recs();
        let ghost n_mid = self.n_nodes();
        let w = self.compact_node(a);
        proof {
            let lastn = n_mid - 1;
            assert(self.edge_recs() =~= recs_mid.map_values(rename_rec::<E>(lastn, a as int)));
            lemma_map_values_ms(
                recs_mid,
                old(self).edge_recs().filter(survives::<E>(a as int)),
                rename_rec::<E>(lastn, a as int),
            );
        }
        Some(w)
    }

    /// Walk the `dir` list of the node now at index `new_n` and set
    /// each listed edge's `dir` endpoint to `new_n`.  Used after a
    /// node compaction, when those endpoints still name the node's
    /// former index.
    fn rename_node_ends(&mut self, new_n: usize, dir: Direction)
        requires
            new_n < old(self).nodes@.len(),
            ({
                let l = old(self).dir_lists(dir)[new_n as int];
                chain_ok(old(self).edges@, head_of(old(self).nodes@[new_n as int], dir), l, dir)
                    && l.no_duplicates()
            }),
            old(self).edges@.len() < usize::MAX,
        ensures
            final(self).nodes@ == old(self).nodes@,
            final(self).directed == old(self).directed,
            final(self).out_lists == old(self).out_lists,
            final(self).in_lists == old(self).in_lists,
            final(self).edges@.len() == old(self).edges@.len(),
            forall|x: int|
                0 <= x < old(self).edges@.len() && !old(self).dir_lists(dir)[new_n as int].contains(
                    x,
                ) ==> final(self).edges@[x] == old(self).edges@[x],
            forall|i: int|
                0 <= i < old(self).dir_lists(dir)[new_n as int].len() ==> final(self).edges@[#[trigger] old(
                    self,
                ).dir_lists(dir)[new_n as int][i]] == edge_set_end(
                    old(self).edges@[old(self).dir_lists(dir)[new_n as int][i]],
                    dir,
                    new_n as int,
                ),
    {
        let ghost l = self.dir_lists(dir)[new_n as int];
        let mut cur = self.nodes[new_n].edges.next(&dir);
        let ghost mut j: int = 0;
        proof {
            if l.len() == 0 {
                assert(cur == NIL);
            } else {
                assert(cur == l[0]);
            }
        }
        while cur != NIL
            invariant
                0 <= j <= l.len(),
                j < l.len() ==> cur == l[j],
                j == l.len() ==> cur == NIL,
                new_n < self.nodes@.len(),
                self.nodes@ == old(self).nodes@,
                self.directed == old(self).directed,
                self.out_lists == old(self).out_lists,
                self.in_lists == old(self).in_lists,
                self.edges@.len() == old(self).edges@.len(),
                self.edges@.len() < usize::MAX,
                l == old(self).dir_lists(dir)[new_n as int],
                chain_ok(old(self).edges@, head_of(old(self).nodes@[new_n as int], dir), l, dir),
                l.no_duplicates(),
                forall|x: int|
                    0 <= x < old(self).edges@.len() && !l.take(j).contains(x)
                        ==> #[trigger] self.edges@[x] == old(self).edges@[x],
                forall|i: int|
                    0 <= i < j ==> self.edges@[#[trigger] l[i]] == edge_set_end(
                        old(self).edges@[l[i]],
                        dir,
                        new_n as int,
                    ),
            decreases l.len() - j,
        {
            proof {
                assert(j < l.len());
                assert(0 <= l[j] < old(self).edges@.len());
                if l.take(j).contains(l[j]) {
                    let i = choose|i: int| 0 <= i < j && l.take(j)[i] == l[j];
                    assert(l[i] == l[j]);
                    assert(false);
                }
                assert(self.edges@[l[j]] == old(self).edges@[l[j]]);
            }
            let nxt = self.edges[cur].next.next(&dir);
            self.edges[cur].node.set_dir(&dir, new_n);
            proof {
                assert(next_of(old(self).edges@[l[j]], dir) == (if j == l.len() - 1 {
                    NIL as int
                } else {
                    l[j + 1]
                }));
                if j < l.len() - 1 {
                    assert(0 <= l[j + 1] < old(self).edges@.len());
                    assert(l[j + 1] != NIL as int);
                }
                let jj = j;
                j = j + 1;
                assert forall|x: int|
                    0 <= x < old(self).edges@.len() && !l.take(j).contains(x) implies #[trigger] self.edges@[x]
                    == old(self).edges@[x] by {
                    if l.take(jj).contains(x) {
                        let i = choose|i: int| 0 <= i < jj && l.take(jj)[i] == x;
                        assert(l.take(j)[i] == x);
                        assert(false);
                    }
                    assert(l.take(j)[jj] == l[jj]);
                    assert(x != l[jj]);
                }
                assert forall|i: int| 0 <= i < j implies self.edges@[#[trigger] l[i]]
                    == edge_set_end(old(self).edges@[l[i]], dir, new_n as int) by {
                    if i < jj {
                        assert(l[i] != l[jj]);
                    }
                }
            }
            cur = nxt;
        }
        proof {
            assert(l.take(l.len() as int) =~= l);
        }
    }

    /// Compact the node array over index `a`, which must have no
    /// incident edges left: move the last node into slot `a` and
    /// rewrite the endpoints of every edge on the moved node's two
    /// lists from its former index to `a`.  Returns the removed
    /// node's weight.
    #[verifier::rlimit(100)]
    #[verifier::spinoff_prover]
    fn compact_node(&mut self, a: NodeIx) -> (w: N)
        requires
            old(self).wf(),
            a < old(self).nodes@.len(),
            forall|e: int|
                0 <= e < old(self).ends().len() ==> (#[trigger] old(self).ends()[e]).0 != a as int
                    && old(self).ends()[e].1 != a as int,
        ensures
            final(self).wf(),
            final(self).n_nodes() == old(self).n_nodes() - 1,
            final(self).n_edges() == old(self).n_edges(),
            final(self).is_directed() == old(self).is_directed(),
            w == old(self).node_weights()[a as int],
            final(self).node_weights() == old(self).node_weights().update(
                a as int,
                old(self).node_weights().last(),
            ).drop_last(),
            final(self).ends() == rename_pairs(
                old(self).ends(),
                old(self).n_nodes() - 1,
                a as int,
            ),
            final(self).edge_weights() == old(self).edge_weights(),
    {
        let ghost ns = old(self).nodes@;
        let ghost es = old(self).edges@;
        let ghost ols = old(self).out_lists@;
        let ghost ils = old(self).in_lists@;
        proof {
            assert forall|e: int| 0 <= e < es.len() implies end_of(#[trigger] es[e], Direction::Outgoing)
                != a as int && end_of(es[e], Direction::Incoming) != a as int by {
                assert(old(self).ends()[e] == (es[e].node.src as int, es[e].node.dest as int));
            }
        }
        let node = self.nodes.swap_remove(a);
        let ghost lastn = ns.len() - 1;
        self.set_lists(
            Direction::Outgoing,
            Ghost(ols.update(a as int, ols.last()).drop_last()),
        );
        self.set_lists(
            Direction::Incoming,
            Ghost(ils.update(a as int, ils.last()).drop_last()),
        );
        if a < self.nodes.len() {
            proof {
                assert(self.nodes@[a as int] == ns[lastn]);
                assert(self.dir_lists(Direction::Outgoing)[a as int] == ols[lastn]);
                assert(self.dir_lists(Direction::Incoming)[a as int] == ils[lastn]);
                assert(chain_ok(es, head_of(ns[lastn], Direction::Outgoing), ols[lastn],
                    Direction::Outgoing));
                assert(ols[lastn].no_duplicates());
            }
            self.rename_node_ends(a, Direction::Outgoing);
            let ghost es1 = self.edges@;
            proof {
                let lo = ols[lastn];
                assert forall|x: int| 0 <= x < es.len() implies next_of(#[trigger] es1[x],
                    Direction::Incoming) == next_of(es[x], Direction::Incoming) && next_of(
                    es1[x],
                    Direction::Outgoing,
                ) == next_of(es[x], Direction::Outgoing) && es1[x].weight == es[x].weight by {
                    if lo.contains(x) {
                        let i = choose|i: int| 0 <= i < lo.len() && lo[i] == x;
                        assert(es1[lo[i]] == edge_set_end(es[lo[i]], Direction::Outgoing,
                            a as int));
                    }
                }
                assert(chain_ok(es1, head_of(self.nodes@[a as int], Direction::Incoming),
                    ils[lastn], Direction::Incoming)) by {
                    let li = ils[lastn];
                    assert(chain_ok(es, head_of(ns[lastn], Direction::Incoming), li,
                        Direction::Incoming));
                    assert forall|i: int| 0 <= i < li.len() implies #[trigger] next_of(
                        es1[li[i]],
                        Direction::Incoming,
                    ) == (if i == li.len() - 1 {
                        NIL as int
                    } else {
                        li[i + 1]
                    }) by {
                        assert(next_of(es1[li[i]], Direction::Incoming) == next_of(
                            es[li[i]],
                            Direction::Incoming,
                        ));
                    }
                }
                assert(ils[lastn].no_duplicates());
            }
            self.rename_node_ends(a, Direction::Incoming);
            proof {
                let es2 = self.edges@;
                let ns2 = self.nodes@;
                let lo = ols[lastn];
                let li = ils[lastn];
                // Pointwise: the outgoing endpoint was renamed exactly on
                // the moved node's outgoing list, and likewise incoming.
                assert forall|x: int| 0 <= x < es.len() implies next_of(#[trigger] es2[x],
                    Direction::Outgoing) == next_of(es[x], Direction::Outgoing) && next_of(
                    es2[x],
                    Direction::Incoming,
                ) == next_of(es[x], Direction::Incoming) && es2[x].weight == es[x].weight by {
                    if li.contains(x) {
                        let i = choose|i: int| 0 <= i < li.len() && li[i] == x;
                        assert(es2[li[i]] == edge_set_end(es1[li[i]], Direction::Incoming,
                            a as int));
                    }
                    if lo.contains(x) {
                        let i = choose|i: int| 0 <= i < lo.len() && lo[i] == x;
                        assert(es1[lo[i]] == edge_set_end(es[lo[i]], Direction::Outgoing,
                            a as int));
                    }
                }
                assert forall|x: int| 0 <= x < es.len() implies end_of(#[trigger] es2[x],
                    Direction::Outgoing) == (if end_of(es[x], Direction::Outgoing) == lastn {
                    a as int
                } else {
                    end_of(es[x], Direction::Outgoing)
                }) by {
                    if li.contains(x) {
                        let i = choose|i: int| 0 <= i < li.len() && li[i] == x;
                        assert(es2[li[i]] == edge_set_end(es1[li[i]], Direction::Incoming,
                            a as int));
                    }
                    if lo.contains(x) {
                        let i = choose|i: int| 0 <= i < lo.len() && lo[i] == x;
                        assert(es1[lo[i]] == edge_set_end(es[lo[i]], Direction::Outgoing,
                            a as int));
                        assert(end_of(es[x], Direction::Outgoing) == lastn);
                    } else {
                        assert(es1[x] == es[x]);
                        if end_of(es[x], Direction::Outgoing) == lastn {
                            assert(ols[end_of(es[x], Direction::Outgoing)].contains(x));
                            assert(false);
                        }
                    }
                }
                assert forall|x: int| 0 <= x < es.len() implies end_of(#[trigger] es2[x],
                    Direction::Incoming) == (if end_of(es[x], Direction::Incoming) == lastn {
                    a as int
                } else {
                    end_of(es[x], Direction::Incoming)
                }) by {
                    if lo.contains(x) {
                        let i = choose|i: int| 0 <= i < lo.len() && lo[i] == x;
                        assert(es1[lo[i]] == edge_set_end(es[lo[i]], Direction::Outgoing,
                            a as int));
                    }
                    if li.contains(x) {
                        let i = choose|i: int| 0 <= i < li.len() && li[i] == x;
                        assert(es2[li[i]] == edge_set_end(es1[li[i]], Direction::Incoming,
                            a as int));
                        assert(end_of(es1[x], Direction::Incoming) == end_of(
                            es[x],
                            Direction::Incoming,
                        ));
                        assert(end_of(es[x], Direction::Incoming) == lastn);
                    } else {
                        assert(end_of(es2[x], Direction::Incoming) == end_of(
                            es1[x],
                            Direction::Incoming,
                        ));
                        if end_of(es[x], Direction::Incoming) == lastn {
                            assert(ils[end_of(es[x], Direction::Incoming)].contains(x));
                            assert(false);
                        }
                    }
                }
                lemma_lists_node_swap(ns, es, ols, Direction::Outgoing, a as int, ns2, es2);
                lemma_lists_node_swap(ns, es, ils, Direction::Incoming, a as int, ns2, es2);
                assert(ends_in_range(ns2, es2)) by {
                    assert forall|e: int| 0 <= e < es2.len() implies 0 <= (
                    #[trigger] es2[e]).node.src < ns2.len() && 0 <= es2[e].node.dest
                        < ns2.len() by {
                        assert(0 <= end_of(es2[e], Direction::Outgoing) < ns2.len());
                        assert(0 <= end_of(es2[e], Direction::Incoming) < ns2.len());
                    }
                }
                assert(self.wf());
                assert(self.node_weights() =~= old(self).node_weights().update(
                    a as int,
                    old(self).node_weights().last(),
                ).drop_last());
                assert(self.ends() =~= rename_pairs(
                    old(self).ends(),
                    old(self).n_nodes() - 1,
                    a as int,
                ));
                assert(self.edge_weights() =~= old(self).edge_weights());
            }
            node.weight
        } else {
            proof {
                assert(self.nodes@ =~= ns.drop_last());
                assert(ols.update(a as int, ols.last()).drop_last() =~= ols.drop_last());
                assert(ils.update(a as int, ils.last()).drop_last() =~= ils.drop_last());
                lemma_lists_node_drop(ns, es, ols, Direction::Outgoing);
                lemma_lists_node_drop(ns, es, ils, Direction::Incoming);
                assert(ends_in_range(self.nodes@, self.edges@)) by {
                    assert forall|e: int| 0 <= e < es.len() implies 0 <= (
                    #[trigger] es[e]).node.src < ns.len() - 1 && 0 <= es[e].node.dest < ns.len()
                        - 1 by {
                        assert(0 <= end_of(es[e], Direction::Outgoing) < ns.len() - 1);
                        assert(0 <= end_of(es[e], Direction::Incoming) < ns.len() - 1);
                    }
                }
                assert(self.wf());
                assert(self.node_weights() =~= old(self).node_weights().update(
                    a as int,
                    old(self).node_weights().last(),
                ).drop_last());
                assert(self.ends() =~= rename_pairs(
                    old(self).ends(),
                    old(self).n_nodes() - 1,
                    a as int,
                ));
                assert(self.edge_weights() =~= old(self).edge_weights());
            }
            node.weight
        }
    }
}

/// Changing only edge weights - links and endpoints stay - keeps the
/// whole store structure sound and complete.
#[verifier::spinoff_prover]
proof fn lemma_wf_weight_update<N, E>(
    ns: Seq<Node<N>>,
    es: Seq<Edge<E>>,
    ols: Seq<Seq<int>>,
    ils: Seq<Seq<int>>,
    es2: Seq<Edge<E>>,
)
    requires
        chains_ok(ns, es, ols, Direction::Outgoing),
        chains_ok(ns, es, ils, Direction::Incoming),
        member_ok(es, ols, Direction::Outgoing),
        member_ok(es, ils, Direction::Incoming),
        ends_in_range(ns, es),
        es2.len() == es.len(),
        forall|x: int|
            0 <= x < es.len() ==> (#[trigger] es2[x]).node == es[x].node && es2[x].next
                == es[x].next,
    ensures
        chains_ok(ns, es2, ols, Direction::Outgoing),
        chains_ok(ns, es2, ils, Direction::Incoming),
        member_ok(es2, ols, Direction::Outgoing),
        member_ok(es2, ils, Direction::Incoming),
        ends_in_range(ns, es2),
{
    assert forall|x: int| 0 <= x < es.len() implies next_of(#[trigger] es2[x], Direction::Outgoing)
        == next_of(es[x], Direction::Outgoing) && next_of(es2[x], Direction::Incoming) == next_of(
        es[x],
        Direction::Incoming,
    ) && end_of(es2[x], Direction::Outgoing) == end_of(es[x], Direction::Outgoing) && end_of(
        es2[x],
        Direction::Incoming,
    ) == end_of(es[x], Direction::Incoming) by {}
    lemma_chains_frame(ns, es, ols, Direction::Outgoing, ns, es2);
    lemma_chains_frame(ns, es, ils, Direction::Incoming, ns, es2);
    lemma_member_frame(es, ols, Direction::Outgoing, es2);
    lemma_member_frame(es, ils, Direction::Incoming, es2);
    assert forall|x: int| 0 <= x < es2.len() implies 0 <= (#[trigger] es2[x]).node.src < ns.len()
        && 0 <= es2[x].node.dest < ns.len() by {
        assert(es2[x].node == es[x].node);
    }
}

/// Replacing heads and links by values that agree in direction `d`
/// preserves the structure of the `d` lists.
pub(crate) proof fn lemma_chains_frame<N, E>(
    ns: Seq<Node<N>>,
    es: Seq<Edge<E>>,
    ls: Seq<Seq<int>>,
    d: Direction,
    ns2: Seq<Node<N>>,
    es2: Seq<Edge<E>>,
)
    requires
        chains_ok(ns, es, ls, d),
        ns2.len() == ns.len(),
        es2.len() == es.len(),
        forall|n: int| 0 <= n < ns.len() ==> head_of(#[trigger] ns2[n], d) == head_of(ns[n], d),
        forall|x: int|
            0 <= x < es.len() ==> next_of(#[trigger] es2[x], d) == next_of(es[x], d) && end_of(
                es2[x],
                d,
            ) == end_of(es[x], d),
    ensures
        chains_ok(ns2, es2, ls, d),
{
    assert forall|n: int| 0 <= n < ns2.len() implies chain_ok(
        es2,
        head_of(ns2[n], d),
        #[trigger] ls[n],
        d,
    ) by {
        let l = ls[n];
        assert(chain_ok(es, head_of(ns[n], d), l, d));
        assert forall|i: int| 0 <= i < l.len() implies #[trigger] next_of(es2[l[i]], d) == (if i
            == l.len() - 1 {
            NIL as int
        } else {
            l[i + 1]
        }) by {
            assert(next_of(es2[l[i]], d) == next_of(es[l[i]], d));
        }
    }
    assert forall|n: int, i: int| 0 <= n < ns2.len() && 0 <= i < ls[n].len() implies end_of(
        es2[#[trigger] ls[n][i]],
        d,
    ) == n by {
        assert(end_of(es2[ls[n][i]], d) == end_of(es[ls[n][i]], d));
    }
}

/// Replacing links by values with the same `d` endpoints preserves
/// completeness of the `d` lists.
pub(crate) proof fn lemma_member_frame<E>(
    es: Seq<Edge<E>>,
    ls: Seq<Seq<int>>,
    d: Direction,
    es2: Seq<Edge<E>>,
)
    requires
        member_ok(es, ls, d),
        es2.len() == es.len(),
        forall|x: int| 0 <= x < es.len() ==> end_of(#[trigger] es2[x], d) == end_of(es[x], d),
    ensures
        member_ok(es2, ls, d),
{
    assert forall|e: int| 0 <= e < es2.len() implies ls[#[trigger] end_of(es2[e], d)].contains(
        e,
    ) by {
        assert(end_of(es2[e], d) == end_of(es[e], d));
        assert(ls[end_of(es[e], d)].contains(e));
    }
}

/// As [`lemma_member_frame`], for the mid-removal shape.
pub(crate) proof fn lemma_member_except_frame<E>(
    es: Seq<Edge<E>>,
    ls: Seq<Seq<int>>,
    d: Direction,
    ex: int,
    es2: Seq<Edge<E>>,
)
    requires
        member_ok_except(es, ls, d, ex),
        es2.len() == es.len(),
        forall|x: int| 0 <= x < es.len() ==> end_of(#[trigger] es2[x], d) == end_of(es[x], d),
    ensures
        member_ok_except(es2, ls, d, ex),
{
    assert forall|e: int| 0 <= e < es2.len() && e != ex implies ls[#[trigger] end_of(
        es2[e],
        d,
    )].contains(e) by {
        assert(end_of(es2[e], d) == end_of(es[e], d));
        assert(ls[end_of(es[e], d)].contains(e));
    }
}

/// A chain yields, for each of its positions `p`, a walk whose final
/// slot holds the edge at `p`: the prefix before `p`.
pub(crate) proof fn lemma_path_from_chain<N, E>(
    ns: Seq<Node<N>>,
    es: Seq<Edge<E>>,
    n0: int,
    d: Direction,
    l: Seq<int>,
    p: int,
)
    requires
        0 <= n0 < ns.len(),
        chain_ok(es, head_of(ns[n0], d), l, d),
        l.no_duplicates(),
        0 <= p < l.len(),
    ensures
        path_to_slot(ns, es, n0, d, l.take(p), l[p]),
{
    let path = l.take(p);
    assert forall|i: int| 0 <= i < path.len() implies 0 <= #[trigger] path[i] < es.len() by {
        assert(path[i] == l[i]);
    }
    assert forall|i: int| 0 <= i < path.len() implies #[trigger] path[i] != l[p] by {
        assert(path[i] == l[i]);
    }
    assert forall|i: int| 0 <= i < path.len() implies #[trigger] next_of(es[path[i]], d) == (if i
        == path.len() - 1 {
        l[p]
    } else {
        path[i + 1]
    }) by {
        assert(path[i] == l[i]);
        assert(next_of(es[l[i]], d) == (if i == l.len() - 1 {
            NIL as int
        } else {
            l[i + 1]
        }));
        if i < path.len() - 1 {
            assert(path[i + 1] == l[i + 1]);
        }
    }
}

/// After the slot that held `l[p]` has been retargeted to `l[p]`'s own
/// "next", the ghost list without position `p` again matches the
/// links, and the unlinked edge is on no list.
#[verifier::rlimit(100)]
#[verifier::spinoff_prover]
pub(crate) proof fn lemma_lists_unlink<N, E>(
    ns: Seq<Node<N>>,
    es: Seq<Edge<E>>,
    ls: Seq<Seq<int>>,
    d: Direction,
    n0: int,
    p: int,
    ns2: Seq<Node<N>>,
    es2: Seq<Edge<E>>,
)
    requires
        chains_ok(ns, es, ls, d),
        member_ok(es, ls, d),
        ends_in_range(ns, es),
        0 <= n0 < ns.len(),
        0 <= p < ls[n0].len(),
        p == 0 ==> es2 == es && ns2 == ns.update(
            n0,
            node_set_head(ns[n0], d, next_of(es[ls[n0][p]], d)),
        ),
        p > 0 ==> ns2 == ns && es2 == es.update(
            ls[n0][p - 1],
            edge_set_next(es[ls[n0][p - 1]], d, next_of(es[ls[n0][p]], d)),
        ),
    ensures
        chains_ok(ns2, es2, ls.update(n0, ls[n0].remove(p)), d),
        member_ok_except(es2, ls.update(n0, ls[n0].remove(p)), d, ls[n0][p]),
{
    let l = ls[n0];
    let tgt = l[p];
    let rep = next_of(es[tgt], d);
    let l2 = l.remove(p);
    let ls2 = ls.update(n0, l2);
    l.remove_ensures(p);
    // The slot's owner: the edge before `p`, if any, is on `n0`'s list
    // and on no other; so every other list is untouched.
    assert forall|n: int| 0 <= n < ns2.len() implies chain_ok(
        es2,
        head_of(ns2[n], d),
        #[trigger] ls2[n],
        d,
    ) by {
        if n != n0 {
            let ln = ls[n];
            assert(ls2[n] == ln);
            assert(chain_ok(es, head_of(ns[n], d), ln, d));
            assert(head_of(ns2[n], d) == head_of(ns[n], d));
            assert forall|i: int| 0 <= i < ln.len() implies es2[#[trigger] ln[i]] == es[ln[i]] by {
                assert(end_of(es[ln[i]], d) == n);
                if p > 0 {
                    assert(end_of(es[l[p - 1]], d) == n0);
                    assert(ln[i] != l[p - 1]);
                }
            }
            assert forall|i: int| 0 <= i < ln.len() implies #[trigger] next_of(es2[ln[i]], d) == (
            if i == ln.len() - 1 {
                NIL as int
            } else {
                ln[i + 1]
            }) by {
                assert(es2[ln[i]] == es[ln[i]]);
            }
        } else {
            assert(ls2[n0] == l2);
            if p == 0 {
                assert(head_of(ns2[n0], d) == rep);
                if l2.len() > 0 {
                    assert(l2[0] == l[1]);
                    assert(next_of(es[l[0]], d) == l[1]);
                } else {
                    assert(next_of(es[l[0]], d) == NIL as int);
                }
            } else {
                assert(head_of(ns2[n0], d) == head_of(ns[n0], d));
                assert(l2[0] == l[0]);
            }
            assert forall|i: int| 0 <= i < l2.len() implies 0 <= #[trigger] l2[i] < es2.len() by {
                if i < p {
                    assert(l2[i] == l[i]);
                } else {
                    assert(l2[i] == l[i + 1]);
                }
            }
            assert forall|i: int| 0 <= i < l2.len() implies #[trigger] next_of(es2[l2[i]], d) == (
            if i == l2.len() - 1 {
                NIL as int
            } else {
                l2[i + 1]
            }) by {
                if p > 0 && i == p - 1 {
                    assert(l2[i] == l[p - 1]);
                    assert(es2[l[p - 1]] == edge_set_next(es[l[p - 1]], d, rep));
                    assert(next_of(es2[l[p - 1]], d) == rep);
                    if p == l.len() - 1 {
                        assert(i == l2.len() - 1);
                        assert(rep == NIL as int);
                    } else {
                        assert(l2[i + 1] == l[p + 1]);
                        assert(rep == l[p + 1]);
                    }
                } else {
                    let li: int = if i < p {
                        l[i]
                    } else {
                        l[i + 1]
                    };
                    assert(l2[i] == li);
                    if p > 0 {
                        assert(li != l[p - 1]);
                        assert(es2[li] == es[li]);
                    } else {
                        assert(es2[li] == es[li]);
                    }
                    if i < l2.len() - 1 {
                        if i + 1 < p {
                            assert(l2[i + 1] == l[i + 1]);
                        } else {
                            assert(l2[i + 1] == l[i + 2]);
                        }
                    }
                }
            }
        }
    }
    assert forall|n: int, i: int| 0 <= n < ns2.len() && 0 <= i < ls2[n].len() implies end_of(
        es2[#[trigger] ls2[n][i]],
        d,
    ) == n by {
        let v = ls2[n][i];
        if n != n0 {
            assert(ls2[n] == ls[n]);
            assert(end_of(es[v], d) == n);
        } else {
            if i < p {
                assert(v == l[i]);
            } else {
                assert(v == l[i + 1]);
            }
            assert(end_of(es[v], d) == n0);
        }
        if p > 0 {
            assert(end_of(es2[v], d) == end_of(es[v], d));
        }
    }
    assert forall|n: int| 0 <= n < ns2.len() implies (#[trigger] ls2[n]).no_duplicates() by {
        if n != n0 {
            assert(ls2[n] == ls[n]);
        } else {
            assert forall|i: int, j: int|
                0 <= i < l2.len() && 0 <= j < l2.len() && i != j implies l2[i] != l2[j] by {
                let vi: int = if i < p {
                    l[i]
                } else {
                    l[i + 1]
                };
                let vj: int = if j < p {
                    l[j]
                } else {
                    l[j + 1]
                };
                assert(l2[i] == vi);
                assert(l2[j] == vj);
            }
        }
    }
    assert forall|e: int| 0 <= e < es2.len() && e != tgt implies ls2[#[trigger] end_of(
        es2[e],
        d,
    )].contains(e) by {
        let n = end_of(es[e], d);
        if p > 0 {
            assert(end_of(es2[e], d) == end_of(es[e], d));
        }
        assert(0 <= n < ns.len());
        assert(ls[n].contains(e));
        if n != n0 {
            assert(ls2[n] == ls[n]);
        } else {
            let i = choose|i: int| 0 <= i < l.len() && l[i] == e;
            assert(i != p);
            if i < p {
                assert(l2[i] == e);
            } else {
                assert(l2[i - 1] == e);
            }
            assert(ls2[n0].contains(e));
        }
    }
    assert forall|n: int| 0 <= n < ls2.len() implies !(#[trigger] ls2[n]).contains(tgt) by {
        if n != n0 {
            assert(ls2[n] == ls[n]);
            if ls[n].contains(tgt) {
                let i = choose|i: int| 0 <= i < ls[n].len() && ls[n][i] == tgt;
                assert(end_of(es[tgt], d) == n);
                assert(end_of(es[tgt], d) == n0);
            }
        } else {
            if l2.contains(tgt) {
                let i = choose|i: int| 0 <= i < l2.len() && l2[i] == tgt;
                if i < p {
                    assert(l[i] == tgt);
                    assert(l[i] != l[p]);
                } else {
                    assert(l[i + 1] == tgt);
                    assert(l[i + 1] != l[p]);
                }
            }
        }
    }
}

/// When the unlinked edge was the last array element, dropping it
/// restores full soundness and completeness: nothing pointed at it any
/// more.
pub(crate) proof fn lemma_lists_drop_last<N, E>(
    ns: Seq<Node<N>>,
    es: Seq<Edge<E>>,
    ls: Seq<Seq<int>>,
    d: Direction,
    ex: int,
)
    requires
        chains_ok(ns, es, ls, d),
        member_ok_except(es, ls, d, ex),
        es.len() > 0,
        ex == es.len() - 1,
    ensures
        chains_ok(ns, es.drop_last(), ls, d),
        member_ok(es.drop_last(), ls, d),
{
    let es2 = es.drop_last();
    assert forall|n: int| 0 <= n < ns.len() implies chain_ok(
        es2,
        head_of(ns[n], d),
        #[trigger] ls[n],
        d,
    ) by {
        let l = ls[n];
        assert(chain_ok(es, head_of(ns[n], d), l, d));
        assert(!l.contains(ex));
        assert forall|i: int| 0 <= i < l.len() implies 0 <= #[trigger] l[i] < es2.len() by {
            assert(l[i] != ex);
        }
        assert forall|i: int| 0 <= i < l.len() implies #[trigger] next_of(es2[l[i]], d) == (if i
            == l.len() - 1 {
            NIL as int
        } else {
            l[i + 1]
        }) by {
            assert(l[i] != ex);
            assert(es2[l[i]] == es[l[i]]);
        }
    }
    assert forall|n: int, i: int| 0 <= n < ns.len() && 0 <= i < ls[n].len() implies end_of(
        es2[#[trigger] ls[n][i]],
        d,
    ) == n by {
        assert(!ls[n].contains(ex));
        assert(ls[n][i] != ex);
        assert(es2[ls[n][i]] == es[ls[n][i]]);
    }
    assert forall|e: int| 0 <= e < es2.len() implies ls[#[trigger] end_of(es2[e], d)].contains(
        e,
    ) by {
        assert(es2[e] == es[e]);
        assert(ls[end_of(es[e], d)].contains(e));
    }
}

/// After compaction the moved edge's former index is still named by
/// exactly one slot of its endpoint's `d` list; the walk to that slot
/// is the ghost list's prefix, and it is valid on the compacted array.
pub(crate) proof fn lemma_swap_path<N, E>(
    ns: Seq<Node<N>>,
    es_pre: Seq<Edge<E>>,
    ls: Seq<Seq<int>>,
    d: Direction,
    ex: int,
    es_mid: Seq<Edge<E>>,
)
    requires
        chains_ok(ns, es_pre, ls, d),
        member_ok_except(es_pre, ls, d, ex),
        ends_in_range(ns, es_pre),
        0 <= ex < es_pre.len() - 1,
        es_mid.len() == es_pre.len() - 1,
        forall|x: int|
            0 <= x < es_mid.len() && x != ex ==> agrees(#[trigger] es_mid[x], es_pre[x], d),
        agrees(es_mid[ex], es_pre.last(), d),
    ensures
        ({
            let lastx = es_pre.len() - 1;
            let m = end_of(es_pre.last(), d);
            let l = ls[m];
            let q = l.index_of(lastx);
            &&& 0 <= m < ns.len()
            &&& 0 <= q < l.len()
            &&& l[q] == lastx
            &&& !l.contains(ex)
            &&& l.no_duplicates()
            &&& path_to_slot(ns, es_mid, m, d, l.take(q), lastx)
        }),
{
    let lastx = es_pre.len() - 1;
    let m = end_of(es_pre.last(), d);
    let l = ls[m];
    assert(es_pre[lastx] == es_pre.last());
    assert(0 <= m < ns.len());
    assert(l.contains(lastx));
    let q = l.index_of(lastx);
    assert(0 <= q < l.len() && l[q] == lastx);
    assert(chain_ok(es_pre, head_of(ns[m], d), l, d));
    assert(!l.contains(ex));
    let path = l.take(q);
    assert forall|i: int| 0 <= i < path.len() implies 0 <= #[trigger] path[i] < es_mid.len() by {
        assert(path[i] == l[i]);
        assert(l[i] != l[q]);
        assert(l[i] != ex);
    }
    assert forall|i: int| 0 <= i < path.len() implies #[trigger] path[i] != lastx by {
        assert(path[i] == l[i]);
        assert(l[i] != l[q]);
    }
    if q > 0 {
        assert(head_of(ns[m], d) == l[0]);
        assert(path[0] == l[0]);
    }
    assert forall|i: int| 0 <= i < path.len() implies #[trigger] next_of(es_mid[path[i]], d) == (
    if i == path.len() - 1 {
        lastx
    } else {
        path[i + 1]
    }) by {
        assert(path[i] == l[i]);
        assert(l[i] != l[q]);
        assert(l[i] != ex);
        assert(agrees(es_mid[l[i]], es_pre[l[i]], d));
        assert(next_of(es_pre[l[i]], d) == (if i == l.len() - 1 {
            NIL as int
        } else {
            l[i + 1]
        }));
        if i < path.len() - 1 {
            assert(path[i + 1] == l[i + 1]);
        } else {
            assert(l[i + 1] == l[q]);
        }
    }
}

/// After the one slot naming the moved edge's former index has been
/// retargeted to its new index, the ghost list with that value renamed
/// matches the compacted links, soundly and completely.
#[verifier::rlimit(100)]
#[verifier::spinoff_prover]
pub(crate) proof fn lemma_lists_swap_fix<N, E>(
    ns: Seq<Node<N>>,
    es_pre: Seq<Edge<E>>,
    ls: Seq<Seq<int>>,
    d: Direction,
    ex: int,
    es_mid: Seq<Edge<E>>,
    ns2: Seq<Node<N>>,
    es_fin: Seq<Edge<E>>,
)
    requires
        chains_ok(ns, es_pre, ls, d),
        member_ok_except(es_pre, ls, d, ex),
        ends_in_range(ns, es_pre),
        0 <= ex < es_pre.len() - 1,
        es_mid.len() == es_pre.len() - 1,
        forall|x: int|
            0 <= x < es_mid.len() && x != ex ==> agrees(#[trigger] es_mid[x], es_pre[x], d),
        agrees(es_mid[ex], es_pre.last(), d),
        ({
            let lastx = es_pre.len() - 1;
            let m = end_of(es_pre.last(), d);
            let l = ls[m];
            let q = l.index_of(lastx);
            if q == 0 {
                es_fin == es_mid && ns2 == ns.update(m, node_set_head(ns[m], d, ex))
            } else {
                ns2 == ns && es_fin == es_mid.update(
                    l[q - 1],
                    edge_set_next(es_mid[l[q - 1]], d, ex),
                )
            }
        }),
    ensures
        ({
            let lastx = es_pre.len() - 1;
            let m = end_of(es_pre.last(), d);
            let l = ls[m];
            let q = l.index_of(lastx);
            let ls2 = ls.update(m, l.update(q, ex));
            &&& chains_ok(ns2, es_fin, ls2, d)
            &&& member_ok(es_fin, ls2, d)
        }),
{
    let lastx = es_pre.len() - 1;
    let m = end_of(es_pre.last(), d);
    let l = ls[m];
    assert(es_pre[lastx] == es_pre.last());
    assert(0 <= m < ns.len());
    assert(l.contains(lastx));
    let q = l.index_of(lastx);
    assert(0 <= q < l.len() && l[q] == lastx);
    assert(chain_ok(es_pre, head_of(ns[m], d), l, d));
    assert(!l.contains(ex));
    let l2 = l.update(q, ex);
    let ls2 = ls.update(m, l2);
    if q > 0 {
        assert(end_of(es_pre[l[q - 1]], d) == m);
        assert(l[q - 1] != l[q]);
        assert(l[q - 1] != ex);
    }
    // The moved edge now sits at `ex` and kept its `d` fields.
    assert(agrees(es_fin[ex], es_pre.last(), d));
    assert forall|n: int| 0 <= n < ns2.len() implies chain_ok(
        es_fin,
        head_of(ns2[n], d),
        #[trigger] ls2[n],
        d,
    ) by {
        if n != m {
            let ln = ls[n];
            assert(ls2[n] == ln);
            assert(chain_ok(es_pre, head_of(ns[n], d), ln, d));
            assert(head_of(ns2[n], d) == head_of(ns[n], d));
            assert forall|i: int| 0 <= i < ln.len() implies 0 <= #[trigger] ln[i] < es_fin.len()
                && agrees(es_fin[ln[i]], es_pre[ln[i]], d) by {
                assert(end_of(es_pre[ln[i]], d) == n);
                assert(ln[i] != lastx);
                assert(!ln.contains(ex));
                assert(ln[i] != ex);
                if q > 0 {
                    assert(ln[i] != l[q - 1]);
                    assert(es_fin[ln[i]] == es_mid[ln[i]]);
                } else {
                    assert(es_fin[ln[i]] == es_mid[ln[i]]);
                }
            }
            assert forall|i: int| 0 <= i < ln.len() implies #[trigger] next_of(es_fin[ln[i]], d)
                == (if i == ln.len() - 1 {
                NIL as int
            } else {
                ln[i + 1]
            }) by {
                assert(agrees(es_fin[ln[i]], es_pre[ln[i]], d));
            }
        } else {
            assert(ls2[m] == l2);
            if q == 0 {
                assert(head_of(ns2[m], d) == ex);
                assert(l2[0] == ex);
            } else {
                assert(head_of(ns2[m], d) == head_of(ns[m], d));
                assert(l2[0] == l[0]);
            }
            assert forall|i: int| 0 <= i < l2.len() implies 0 <= #[trigger] l2[i]
                < es_fin.len() by {
                if i != q {
                    assert(l2[i] == l[i]);
                    assert(l[i] != l[q]);
                    assert(l[i] != ex);
                } else {
                    assert(l2[q] == ex);
                }
            }
            assert forall|i: int| 0 <= i < l2.len() implies #[trigger] next_of(es_fin[l2[i]], d)
                == (if i == l2.len() - 1 {
                NIL as int
            } else {
                l2[i + 1]
            }) by {
                if i == q {
                    assert(l2[q] == ex);
                    assert(next_of(es_fin[ex], d) == next_of(es_pre[lastx], d));
                    assert(next_of(es_pre[l[q]], d) == (if q == l.len() - 1 {
                        NIL as int
                    } else {
                        l[q + 1]
                    }));
                    if i < l2.len() - 1 {
                        assert(l2[q + 1] == l[q + 1]);
                    }
                } else if q > 0 && i == q - 1 {
                    assert(l2[i] == l[q - 1]);
                    assert(es_fin[l[q - 1]] == edge_set_next(es_mid[l[q - 1]], d, ex));
                    assert(next_of(es_fin[l[q - 1]], d) == ex);
                    assert(l2[q] == ex);
                    assert(i < l2.len() - 1);
                } else {
                    assert(l2[i] == l[i]);
                    assert(l[i] != l[q]);
                    assert(l[i] != ex);
                    if q > 0 {
                        assert(l[i] != l[q - 1]);
                        assert(es_fin[l[i]] == es_mid[l[i]]);
                    } else {
                        assert(es_fin[l[i]] == es_mid[l[i]]);
                    }
                    assert(agrees(es_fin[l[i]], es_pre[l[i]], d));
                    assert(next_of(es_pre[l[i]], d) == (if i == l.len() - 1 {
                        NIL as int
                    } else {
                        l[i + 1]
                    }));
                    if i < l2.len() - 1 {
                        if i + 1 == q {
                            assert(l[i + 1] == l[q]);
                            assert(l2[i + 1] == ex);
                            assert(false);
                        } else {
                            assert(l2[i + 1] == l[i + 1]);
                        }
                    }
                }
            }
        }
    }
    assert forall|n: int, i: int| 0 <= n < ns2.len() && 0 <= i < ls2[n].len() implies end_of(
        es_fin[#[trigger] ls2[n][i]],
        d,
    ) == n by {
        if n != m {
            let v = ls[n][i];
            assert(ls2[n] == ls[n]);
            assert(end_of(es_pre[v], d) == n);
            assert(v != lastx);
            assert(!ls[n].contains(ex));
            assert(v != ex);
            if q > 0 && v == l[q - 1] {
                assert(end_of(es_fin[v], d) == end_of(es_mid[v], d));
            }
            assert(agrees(es_mid[v], es_pre[v], d));
            if q > 0 {
                assert(end_of(es_fin[v], d) == end_of(es_mid[v], d));
            }
        } else {
            if i != q {
                let v = l[i];
                assert(ls2[m][i] == v);
                assert(end_of(es_pre[v], d) == m);
                assert(v != l[q]);
                assert(v != ex);
                assert(agrees(es_mid[v], es_pre[v], d));
                if q > 0 {
                    assert(end_of(es_fin[v], d) == end_of(es_mid[v], d));
                }
            } else {
                assert(ls2[m][q] == ex);
                assert(end_of(es_fin[ex], d) == end_of(es_pre.last(), d));
            }
        }
    }
    assert forall|n: int| 0 <= n < ns2.len() implies (#[trigger] ls2[n]).no_duplicates() by {
        if n != m {
            assert(ls2[n] == ls[n]);
        } else {
            assert forall|i: int, j: int|
                0 <= i < l2.len() && 0 <= j < l2.len() && i != j implies l2[i] != l2[j] by {
                if i == q {
                    assert(l2[j] == l[j]);
                    assert(l[j] != ex);
                } else if j == q {
                    assert(l2[i] == l[i]);
                    assert(l[i] != ex);
                } else {
                    assert(l2[i] == l[i]);
                    assert(l2[j] == l[j]);
                }
            }
        }
    }
    assert forall|e: int| 0 <= e < es_fin.len() implies ls2[#[trigger] end_of(
        es_fin[e],
        d,
    )].contains(e) by {
        if e != ex {
            assert(agrees(es_mid[e], es_pre[e], d));
            if q > 0 {
                assert(end_of(es_fin[e], d) == end_of(es_mid[e], d));
            }
            let n = end_of(es_pre[e], d);
            assert(end_of(es_fin[e], d) == n);
            assert(0 <= n < ns.len());
            assert(ls[n].contains(e));
            if n != m {
                assert(ls2[n] == ls[n]);
            } else {
                let i = choose|i: int| 0 <= i < l.len() && l[i] == e;
                assert(e != lastx);
                assert(i != q);
                assert(l2[i] == e);
                assert(ls2[m].contains(e));
            }
        } else {
            assert(end_of(es_fin[ex], d) == m);
            assert(l2[q] == ex);
            assert(ls2[m].contains(ex));
        }
    }
}

/// A borrowed cursor over the neighbors of one node: the node, the
/// edge array, and the positions still to visit in its two lists.
pub struct Neighbors<'a, E> {
    src: NodeIx,
    edges: &'a [Edge<E>],
    next: EdgeLink,
}

impl<'a, E> Neighbors<'a, E> {
    /// The node whose neighbors are walked.
    pub closed spec fn nb_src(self) -> usize {
        self.src
    }

    /// The outgoing-list position.
    pub closed spec fn nb_out(self) -> usize {
        self.next.outgoing
    }

    /// The incoming-list position.
    pub closed spec fn nb_in(self) -> usize {
        self.next.incoming
    }

    /// The borrowed edge array.
    pub closed spec fn nb_edges(self) -> Seq<Edge<E>> {
        self.edges@
    }

    /// A walker that borrows nothing; it starts detached, with both
    /// cursors at the sentinel.
    pub fn detach(&self) -> (r: WalkNeighbors)
        ensures
            r.walk_src() == self.nb_src(),
            r.walk_out() == NIL,
            r.walk_in() == NIL,
    {
        WalkNeighbors { src: self.src, next: EdgeLink::none() }
    }

    /// An exhausted cursor for `src`: both positions at the sentinel.
    pub fn init(src: NodeIx, edges: &'a [Edge<E>]) -> (r: Self)
        ensures
            r.nb_src() == src,
            r.nb_out() == NIL,
            r.nb_in() == NIL,
            r.nb_edges() == edges@,
    {
        Neighbors { src, edges, next: EdgeLink::none() }
    }

    /// A cursor for `src` starting at the given list positions.
    pub fn new(src: NodeIx, edges: &'a [Edge<E>], next: EdgeLink) -> (r: Self)
        ensures
            r.nb_src() == src,
            r.nb_out() == next.out_ix(),
            r.nb_in() == next.in_ix(),
            r.nb_edges() == edges@,
    {
        Neighbors { src, edges, next }
    }
}

/// A cursor over the edges hanging off one node in one direction,
/// yielding borrowed edge records.
pub struct Edges<'a, E> {
    src: NodeIx,
    edges: &'a [Edge<E>],
    next: EdgeLink,
    dir: Direction,
}

/// One edge as seen from a cursor: its index, its endpoints, and a
/// borrow of its weight.
pub struct EdgeRef<'a, E> {
    ix: EdgeIx,
    node: NodeLink,
    weight: &'a E,
}

impl<'a, E> EdgeRef<'a, E> {
    /// The edge's index.
    pub closed spec fn ref_ix(self) -> usize {
        self.ix
    }

    /// The edge's source.
    pub closed spec fn ref_src(self) -> usize {
        self.node.src
    }

    /// The edge's destination.
    pub closed spec fn ref_dst(self) -> usize {
        self.node.dest
    }

    /// The edge's weight.
    pub closed spec fn ref_weight(self) -> E {
        *self.weight
    }
}

impl<'a, E> Edges<'a, E> {
    /// The position about to be visited.
    pub closed spec fn cursor(self) -> usize {
        self.next.get(self.dir)
    }

    /// The direction the cursor walks in.
    pub closed spec fn edir(self) -> Direction {
        self.dir
    }

    /// The borrowed edge array.
    pub closed spec fn edges_seq(self) -> Seq<Edge<E>> {
        self.edges@
    }

    /// Yield the edge at the cursor and advance along its `dir` link,
    /// or report the walk finished.
    pub fn next(&mut self) -> (r: Option<EdgeRef<'a, E>>)
        ensures
            final(self).edges_seq() == old(self).edges_seq(),
            r is Some <==> old(self).cursor() < old(self).edges_seq().len(),
            final(self).edir() == old(self).edir(),
            r matches Some(er) ==> ({
                let e = old(self).edges_seq()[old(self).cursor() as int];
                &&& er.ref_ix() == old(self).cursor()
                &&& er.ref_src() == e.src()
                &&& er.ref_dst() == e.dst()
                &&& er.ref_weight() == e.wt()
                &&& final(self).cursor() == (match old(self).edir() {
                    Direction::Outgoing => e.nxt_out(),
                    Direction::Incoming => e.nxt_in(),
                })
            }),
            r is None ==> *final(self) == *old(self),
    {
        let i = self.next.next(&self.dir);
        if i < self.edges.len() {
            let e = &self.edges[i];
            self.next.set_dir(&self.dir, e.next.next(&self.dir));
            Some(EdgeRef { ix: i, node: e.node, weight: &e.weight })
        } else {
            None
        }
    }
}

/// A detached neighbor walker: like [`Neighbors`], but holding no
/// borrow, so the graph can be read between steps.  A structural
/// mutation of the graph invalidates the positions it holds.
#[derive(Debug, Clone)]
pub struct WalkNeighbors {
    src: NodeIx,
    next: EdgeLink,
}

impl WalkNeighbors {
    /// The node whose neighbors are walked.
    pub closed spec fn walk_src(self) -> usize {
        self.src
    }

    /// The outgoing-list position.
    pub closed spec fn walk_out(self) -> usize {
        self.next.outgoing
    }

    /// The incoming-list position.
    pub closed spec fn walk_in(self) -> usize {
        self.next.incoming
    }

    /// One step of the walk over `g`: while the outgoing cursor is
    /// live, yield that edge and its destination; then scan the
    /// incoming cursor, yielding each edge and its source but
    /// skipping self-loops (already yielded on the outgoing pass);
    /// `None` once both lists are spent.
    #[verifier::rlimit(100)]
    #[verifier::spinoff_prover]
    pub fn next<N, E>(&mut self, g: &Net<N, E>) -> (r: Option<(EdgeIx, NodeIx)>)
        requires
            g.wf(),
        ensures
            final(self).walk_src() == old(self).walk_src(),
            r matches Some(t) ==> t.0 < g.n_edges() && t.1 < g.n_nodes() && (g.ends()[t.0 as int].0
                == t.1 as int || g.ends()[t.0 as int].1 == t.1 as int),
            old(self).walk_out() < g.n_edges() ==> ({
                let e = old(self).walk_out();
                &&& (r matches Some(t) && t.0 == e && t.1 as int == g.ends()[e as int].1)
                &&& final(self).walk_out() == g.edges_seq()[e as int].nxt_out()
                &&& final(self).walk_in() == old(self).walk_in()
            }),
            old(self).walk_out() >= g.n_edges() ==> ({
                let c = old(self).walk_in() as int;
                let s = old(self).walk_src() as int;
                &&& final(self).walk_out() == old(self).walk_out()
                &&& (c >= g.n_edges() ==> r is None && final(self).walk_in() == old(self).walk_in())
                &&& (c < g.n_edges() ==> ({
                    let l = g.in_adj(g.ends()[c].1);
                    let p = l.index_of(c);
                    &&& (r is None <==> (forall|k: int|
                        p <= k < l.len() ==> g.ends()[#[trigger] l[k]].0 == s))
                    &&& (r is None ==> final(self).walk_in() == NIL)
                    &&& (r matches Some(t) ==> (exists|k: int|
                        p <= k < l.len() && t.0 as int == #[trigger] l[k] && g.ends()[l[k]].0
                            == t.1 as int && t.1 as int != s && (forall|m: int|
                            p <= m < k ==> g.ends()[#[trigger] l[m]].0 == s) && final(self).walk_in() as int == (if k < l.len() - 1 {
                            l[k + 1]
                        } else {
                            NIL as int
                        })))
                }))
            }),
    {
        let o = self.next.out();
        if o < g.edges.len() {
            let e = &g.edges[o];
            self.next.set_outgoing(e.next.out());
            proof {
                assert(0 <= g.ends()[o as int].1 < g.n_nodes());
            }
            return Some((o, e.node.dest()));
        }
        let ghost c0 = self.next.incoming as int;
        let ghost s0 = self.src as int;
        let ghost n0: int = if c0 < g.edges@.len() {
            g.ends()[c0].1
        } else {
            0
        };
        let ghost l = g.in_adj(n0);
        let ghost p = l.index_of(c0);
        let ghost mut j: int = p;
        proof {
            if c0 < g.edges@.len() {
                assert(g.ends()[c0] == (
                    end_of(g.edges@[c0], Direction::Outgoing),
                    end_of(g.edges@[c0], Direction::Incoming),
                ));
                assert(g.in_lists@[n0].contains(c0));
                assert(0 <= p < l.len() && l[p] == c0);
                assert(0 <= n0 < g.nodes@.len());
            }
        }
        loop
            invariant
                g.wf(),
                self.src == old(self).src,
                self.next.outgoing == old(self).next.outgoing,
                self.next.outgoing >= g.edges@.len(),
                c0 == old(self).next.incoming as int,
                s0 == old(self).src as int,
                c0 >= g.edges@.len() ==> self.next.incoming == old(self).next.incoming,
                c0 < g.edges@.len() ==> ({
                    &&& n0 == g.ends()[c0].1
                    &&& 0 <= n0 < g.nodes@.len()
                    &&& l == g.in_adj(n0)
                    &&& p == l.index_of(c0)
                    &&& 0 <= p <= j <= l.len()
                    &&& (j < l.len() ==> self.next.incoming as int == l[j])
                    &&& (j == l.len() ==> self.next.incoming == NIL)
                    &&& (forall|m: int| p <= m < j ==> g.ends()[#[trigger] l[m]].0 == s0)
                }),
            decreases g.in_rank(self.next.incoming as int),
        {
            let i = self.next.inc();
            if i >= g.edges.len() {
                proof {
                    if c0 < g.edges@.len() {
                        if j < l.len() {
                            assert(chain_ok(
                                g.edges@,
                                head_of(g.nodes@[n0 as int], Direction::Incoming),
                                l,
                                Direction::Incoming,
                            ));
                            assert(0 <= l[j] < g.edges@.len());
                            assert(false);
                        }
                    }
                }
                return None;
            }
            let edge = &g.edges[i];
            proof {
                assert(c0 < g.edges@.len());
                assert(j < l.len() && l[j] == i as int);
                assert(chain_ok(
                    g.edges@,
                    head_of(g.nodes@[n0 as int], Direction::Incoming),
                    l,
                    Direction::Incoming,
                ));
                assert(end_of(g.edges@[l[j]], Direction::Incoming) == n0);
                assert(next_of(g.edges@[l[j]], Direction::Incoming) == (if j == l.len() - 1 {
                    NIL as int
                } else {
                    l[j + 1]
                }));
                assert(g.in_lists@[n0].contains(i as int));
                assert(l[l.index_of(i as int)] == i as int);
                assert(l.index_of(i as int) == j);
                assert(g.in_rank(i as int) == l.len() - j);
                if j < l.len() - 1 {
                    let nx = l[j + 1];
                    assert(0 <= nx < g.edges@.len());
                    assert(end_of(g.edges@[nx], Direction::Incoming) == n0);
                    assert(g.in_lists@[n0].contains(nx));
                    let p2 = l.index_of(nx);
                    assert(0 <= p2 < l.len() && l[p2] == nx);
                    assert(p2 == j + 1);
                    assert(g.in_rank(nx) == l.len() - j - 1);
                }
                assert(g.ends()[i as int] == (
                    end_of(g.edges@[i as int], Direction::Outgoing),
                    end_of(g.edges@[i as int], Direction::Incoming),
                ));
            }
            self.next.set_incoming(edge.next.inc());
            if edge.node.src() != self.src {
                proof {
                    assert(0 <= g.ends()[i as int].0 < g.n_nodes());
                    assert(p <= j < l.len() && i as int == l[j] && g.ends()[l[j]].0 != s0);
                    assert(self.next.incoming as int == (if j < l.len() - 1 {
                        l[j + 1]
                    } else {
                        NIL as int
                    }));
                }
                return Some((i, edge.node.src()));
            }
            proof {
                assert(g.ends()[l[j]].0 == s0);
                j = j + 1;
            }
        }
    }

    /// One step, keeping only the neighbor node; the cursor moves
    /// exactly as in [`WalkNeighbors::next`].
    pub fn next_node<N, E>(&mut self, g: &Net<N, E>) -> (r: Option<NodeIx>)
        requires
            g.wf(),
        ensures
            final(self).walk_src() == old(self).walk_src(),
            r matches Some(n) ==> n < g.n_nodes(),
            old(self).walk_out() < g.n_edges() ==> ({
                let e = old(self).walk_out();
                &&& r == Some((g.ends()[e as int].1 as NodeIx))
                &&& final(self).walk_out() == g.edges_seq()[e as int].nxt_out()
                &&& final(self).walk_in() == old(self).walk_in()
            }),
            old(self).walk_out() >= g.n_edges() ==> ({
                let c = old(self).walk_in() as int;
                let s = old(self).walk_src() as int;
                &&& final(self).walk_out() == old(self).walk_out()
                &&& (c >= g.n_edges() ==> r is None && final(self).walk_in() == old(self).walk_in())
                &&& (c < g.n_edges() ==> ({
                    let l = g.in_adj(g.ends()[c].1);
                    let p = l.index_of(c);
                    &&& (r is None <==> (forall|k: int|
                        p <= k < l.len() ==> g.ends()[#[trigger] l[k]].0 == s))
                    &&& (r is None ==> final(self).walk_in() == NIL)
                    &&& (r matches Some(n) ==> (exists|k: int|
                        p <= k < l.len() && g.ends()[#[trigger] l[k]].0 == n as int && n as int != s
                            && (forall|m: int| p <= m < k ==> g.ends()[#[trigger] l[m]].0 == s)
                            && final(self).walk_in() as int == (if k < l.len() - 1 {
                            l[k + 1]
                        } else {
                            NIL as int
                        })))
                }))
            }),
    {
        let ghost pre = *self;
        let stepped = self.next(g);
        match stepped {
            Some(t) => {
                proof {
                    if pre.walk_out() >= g.n_edges() && (pre.walk_in() as int) < g.n_edges() {
                        let c = pre.walk_in() as int;
                        let s = pre.walk_src() as int;
                        let l = g.in_adj(g.ends()[c].1);
                        let p = l.index_of(c);
                        let k = choose|k: int|
                            p <= k < l.len() && t.0 as int == #[trigger] l[k] && g.ends()[l[k]].0
                                == t.1 as int && t.1 as int != s && (forall|m: int|
                                p <= m < k ==> g.ends()[#[trigger] l[m]].0 == s) && final(self).walk_in() as int == (if k < l.len() - 1 {
                                l[k + 1]
                            } else {
                                NIL as int
                            });
                        assert(p <= k < l.len() && g.ends()[l[k]].0 == t.1 as int && t.1 as int != s
                            && (forall|m: int| p <= m < k ==> g.ends()[#[trigger] l[m]].0 == s)
                            && final(self).walk_in() as int == (if k < l.len() - 1 {
                            l[k + 1]
                        } else {
                            NIL as int
                        }));
                    }
                }
                Some(t.1)
            },
            None => None,
        }
    }

    /// One step, keeping only the edge; the cursor moves exactly as
    /// in [`WalkNeighbors::next`].
    pub fn next_edge<N, E>(&mut self, g: &Net<N, E>) -> (r: Option<EdgeIx>)
        requires
            g.wf(),
        ensures
            final(self).walk_src() == old(self).walk_src(),
            r matches Some(e) ==> e < g.n_edges(),
            old(self).walk_out() < g.n_edges() ==> ({
                let e = old(self).walk_out();
                &&& r == Some(e)
                &&& final(self).walk_out() == g.edges_seq()[e as int].nxt_out()
                &&& final(self).walk_in() == old(self).walk_in()
            }),
            old(self).walk_out() >= g.n_edges() ==> ({
                let c = old(self).walk_in() as int;
                let s = old(self).walk_src() as int;
                &&& final(self).walk_out() == old(self).walk_out()
                &&& (c >= g.n_edges() ==> r is None && final(self).walk_in() == old(self).walk_in())
                &&& (c < g.n_edges() ==> ({
                    let l = g.in_adj(g.ends()[c].1);
                    let p = l.index_of(c);
                    &&& (r is None <==> (forall|k: int|
                        p <= k < l.len() ==> g.ends()[#[trigger] l[k]].0 == s))
                    &&& (r is None ==> final(self).walk_in() == NIL)
                    &&& (r matches Some(e2) ==> (exists|k: int|
                        p <= k < l.len() && e2 as int == #[trigger] l[k] && g.ends()[l[k]].0 != s
                            && (forall|m: int| p <= m < k ==> g.ends()[#[trigger] l[m]].0 == s)
                            && final(self).walk_in() as int == (if k < l.len() - 1 {
                            l[k + 1]
                        } else {
                            NIL as int
                        })))
                }))
            }),
    {
        let ghost pre = *self;
        let stepped = self.next(g);
        match stepped {
            Some(t) => {
                proof {
                    if pre.walk_out() >= g.n_edges() && (pre.walk_in() as int) < g.n_edges() {
                        let c = pre.walk_in() as int;
                        let s = pre.walk_src() as int;
                        let l = g.in_adj(g.ends()[c].1);
                        let p = l.index_of(c);
                        let k = choose|k: int|
                            p <= k < l.len() && t.0 as int == #[trigger] l[k] && g.ends()[l[k]].0
                                == t.1 as int && t.1 as int != s && (forall|m: int|
                                p <= m < k ==> g.ends()[#[trigger] l[m]].0 == s) && final(self).walk_in() as int == (if k < l.len() - 1 {
                                l[k + 1]
                            } else {
                                NIL as int
                            });
                        assert(p <= k < l.len() && t.0 as int == l[k] && g.ends()[l[k]].0 != s && (
                        forall|m: int| p <= m < k ==> g.ends()[#[trigger] l[m]].0 == s) && final(self).walk_in() as int == (if k < l.len() - 1 {
                            l[k + 1]
                        } else {
                            NIL as int
                        }));
                    }
                }
                Some(t.0)
            },
            None => None,
        }
    }
}

/// Dropping the last node, whose `d` list is empty, keeps the lists
/// sound and complete; no surviving edge can end at it.
pub(crate) proof fn lemma_lists_node_drop<N, E>(
    ns: Seq<Node<N>>,
    es: Seq<Edge<E>>,
    ls: Seq<Seq<int>>,
    d: Direction,
)
    requires
        chains_ok(ns, es, ls, d),
        member_ok(es, ls, d),
        ends_in_range(ns, es),
        ns.len() > 0,
        ls[ns.len() - 1].len() == 0,
    ensures
        chains_ok(ns.drop_last(), es, ls.drop_last(), d),
        member_ok(es, ls.drop_last(), d),
        forall|e: int| 0 <= e < es.len() ==> 0 <= end_of(#[trigger] es[e], d) < ns.len() - 1,
{
    let lastn = ns.len() - 1;
    let ns2 = ns.drop_last();
    let ls2 = ls.drop_last();
    assert forall|e: int| 0 <= e < es.len() implies 0 <= end_of(#[trigger] es[e], d) < ns.len()
        - 1 by {
        assert(0 <= end_of(es[e], d) < ns.len());
        if end_of(es[e], d) == lastn {
            assert(ls[lastn].contains(e));
        }
    }
    assert forall|n: int| 0 <= n < ns2.len() implies chain_ok(
        es,
        head_of(ns2[n], d),
        #[trigger] ls2[n],
        d,
    ) by {
        assert(ns2[n] == ns[n]);
        assert(ls2[n] == ls[n]);
    }
    assert forall|n: int, i: int| 0 <= n < ns2.len() && 0 <= i < ls2[n].len() implies end_of(
        es[#[trigger] ls2[n][i]],
        d,
    ) == n by {
        assert(ls2[n] == ls[n]);
    }
    assert forall|n: int| 0 <= n < ns2.len() implies (#[trigger] ls2[n]).no_duplicates() by {
        assert(ls2[n] == ls[n]);
    }
    assert forall|e: int| 0 <= e < es.len() implies ls2[#[trigger] end_of(es[e], d)].contains(
        e,
    ) by {
        let n = end_of(es[e], d);
        assert(ls[n].contains(e));
        assert(n < ns.len() - 1);
        assert(ls2[n] == ls[n]);
    }
}

/// Moving the last node into emptied slot `a` - its `d` list along
/// with it, and every listed edge's `d` endpoint renamed from the
/// former index to `a` - restores soundness and completeness of the
/// `d` lists.
#[verifier::rlimit(100)]
#[verifier::spinoff_prover]
pub(crate) proof fn lemma_lists_node_swap<N, E>(
    ns: Seq<Node<N>>,
    es: Seq<Edge<E>>,
    ls: Seq<Seq<int>>,
    d: Direction,
    a: int,
    ns2: Seq<Node<N>>,
    es2: Seq<Edge<E>>,
)
    requires
        chains_ok(ns, es, ls, d),
        member_ok(es, ls, d),
        ends_in_range(ns, es),
        0 <= a < ns.len() - 1,
        ls[a].len() == 0,
        ns2 == ns.update(a, ns.last()).drop_last(),
        es2.len() == es.len(),
        forall|x: int| 0 <= x < es.len() ==> next_of(#[trigger] es2[x], d) == next_of(es[x], d),
        forall|x: int|
            0 <= x < es.len() ==> end_of(#[trigger] es2[x], d) == (if end_of(es[x], d) == ns.len()
                - 1 {
                a
            } else {
                end_of(es[x], d)
            }),
    ensures
        chains_ok(ns2, es2, ls.update(a, ls.last()).drop_last(), d),
        member_ok(es2, ls.update(a, ls.last()).drop_last(), d),
        forall|x: int| 0 <= x < es2.len() ==> 0 <= end_of(#[trigger] es2[x], d) < ns2.len(),
{
    let lastn = ns.len() - 1;
    let ls2 = ls.update(a, ls.last()).drop_last();
    assert(ls.last() == ls[lastn]);
    assert(ns.last() == ns[lastn]);
    assert forall|e: int| 0 <= e < es.len() implies end_of(#[trigger] es[e], d) != a by {
        if end_of(es[e], d) == a {
            assert(ls[a].contains(e));
        }
    }
    assert forall|x: int| 0 <= x < es2.len() implies 0 <= end_of(#[trigger] es2[x], d)
        < ns2.len() by {
        assert(0 <= end_of(es[x], d) < ns.len());
        assert(end_of(es[x], d) != a);
    }
    assert forall|n: int| 0 <= n < ns2.len() implies chain_ok(
        es2,
        head_of(ns2[n], d),
        #[trigger] ls2[n],
        d,
    ) by {
        if n == a {
            assert(ls2[n] == ls[lastn]);
            assert(ns2[n] == ns[lastn]);
            assert(chain_ok(es, head_of(ns[lastn], d), ls[lastn], d));
        } else {
            assert(ls2[n] == ls[n]);
            assert(ns2[n] == ns[n]);
            assert(chain_ok(es, head_of(ns[n], d), ls[n], d));
        }
        let l = ls2[n];
        assert forall|i: int| 0 <= i < l.len() implies #[trigger] next_of(es2[l[i]], d) == (if i
            == l.len() - 1 {
            NIL as int
        } else {
            l[i + 1]
        }) by {
            assert(next_of(es2[l[i]], d) == next_of(es[l[i]], d));
        }
    }
    assert forall|n: int, i: int| 0 <= n < ns2.len() && 0 <= i < ls2[n].len() implies end_of(
        es2[#[trigger] ls2[n][i]],
        d,
    ) == n by {
        if n == a {
            assert(ls2[n] == ls[lastn]);
            let v = ls[lastn][i];
            assert(end_of(es[v], d) == lastn);
        } else {
            assert(ls2[n] == ls[n]);
            let v = ls[n][i];
            assert(end_of(es[v], d) == n);
            assert(n != lastn);
        }
    }
    assert forall|n: int| 0 <= n < ns2.len() implies (#[trigger] ls2[n]).no_duplicates() by {
        if n == a {
            assert(ls2[n] == ls[lastn]);
        } else {
            assert(ls2[n] == ls[n]);
        }
    }
    assert forall|e: int| 0 <= e < es2.len() implies ls2[#[trigger] end_of(es2[e], d)].contains(
        e,
    ) by {
        let n = end_of(es[e], d);
        assert(ls[n].contains(e));
        if n == lastn {
            assert(end_of(es2[e], d) == a);
            assert(ls2[a] == ls[lastn]);
        } else {
            assert(end_of(es2[e], d) == n);
            assert(n != a);
            assert(n < ns.len() - 1);
            assert(ls2[n] == ls[n]);
        }
    }
}

} // verus!
