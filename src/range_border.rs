//! Outlines of unions of range blocks: rectangle edges are merged where they
//! continue one another, and the merged edges are walked as closed loops.
use vstd::prelude::*;

use crate::range_blocks::CellCoords;

verus! {

/// A directed, axis-aligned edge of an outline. `next` names the edge that
/// follows it around its loop.
#[derive(Debug, Clone, Copy, PartialEq, Eq, Structural)]
pub struct Edge {
    pub id: usize,
    pub next: usize,
    pub start: CellCoords,
    pub end: CellCoords,
}

/// `edge` ends where `cur` starts, and its start lies in line with `cur`'s end.
pub open spec fn joins_front(edge: Edge, cur: Edge) -> bool {
    edge.end == cur.start && (edge.start.x == cur.end.x || edge.start.y == cur.end.y)
}

/// `edge` starts where `cur` ends, and its end lies in line with `cur`'s start.
pub open spec fn joins_back(edge: Edge, cur: Edge) -> bool {
    cur.end == edge.start && (cur.start.x == edge.end.x || cur.start.y == edge.end.y)
}

/// One step of merging a new edge `cur` into an edge set: an existing edge
/// that ends where `cur` starts, in line with it, is absorbed at the front
/// (its start and identity are taken); one that starts where `cur` ends, in line
/// with it, is absorbed at the back (its end and successor are taken); any other
/// edge is kept.
pub open spec fn merge_step(cur: Edge, kept: Seq<Edge>, edge: Edge) -> (Edge, Seq<Edge>) {
    if joins_front(edge, cur) {
        (Edge { id: edge.id, next: cur.next, start: edge.start, end: cur.end }, kept)
    } else if joins_back(edge, cur) {
        (Edge { id: cur.id, next: edge.next, start: cur.start, end: edge.end }, kept)
    } else {
        (cur, kept.push(edge))
    }
}

/// Merging `e` into `edges`, edge by edge in order: the grown edge and the edges kept.
pub open spec fn merge_scan(edges: Seq<Edge>, e: Edge) -> (Edge, Seq<Edge>)
    decreases edges.len(),
{
    if edges.len() == 0 {
        (e, Seq::empty())
    } else {
        let (cur, kept) = merge_scan(edges.drop_last(), e);
        merge_step(cur, kept, edges.last())
    }
}

/// The edge set after inserting `e`: the kept edges, then the grown edge unless
/// it has shrunk to a point.
pub open spec fn with_edge(edges: Seq<Edge>, e: Edge) -> Seq<Edge> {
    let (cur, kept) = merge_scan(edges, e);
    if cur.start != cur.end {
        kept.push(cur)
    } else {
        kept
    }
}

/// The four edges of the rectangle with corners `top_left` and `bottom_right`, with
/// identities from `id`, each pointing to the next one clockwise.
pub open spec fn rect_edges(id: usize, top_left: CellCoords, bottom_right: CellCoords) -> Seq<
    Edge,
> {
    let top_right = CellCoords { x: bottom_right.x, y: top_left.y };
    let bottom_left = CellCoords { x: top_left.x, y: bottom_right.y };
    seq![
        Edge { id: id, next: (id + 1) as usize, start: top_left, end: top_right },
        Edge { id: (id + 1) as usize, next: (id + 2) as usize, start: top_right, end: bottom_right },
        Edge { id: (id + 2) as usize, next: (id + 3) as usize, start: bottom_right, end: bottom_left },
        Edge { id: (id + 3) as usize, next: id, start: bottom_left, end: top_left },
    ]
}

/// The edge set after inserting the four edges of a rectangle in order.
pub open spec fn with_rect(
    edges: Seq<Edge>,
    id: usize,
    top_left: CellCoords,
    bottom_right: CellCoords,
) -> Seq<Edge> {
    let r = rect_edges(id, top_left, bottom_right);
    with_edge(with_edge(with_edge(with_edge(edges, r[0]), r[1]), r[2]), r[3])
}

/// The outline of a union of rectangles, as merged edges.
pub struct RangeBorder {
    next_edge_id: usize,
    pub edges: Vec<Edge>,
}

impl RangeBorder {
    /// The merged edges.
    pub closed spec fn edge_seq(&self) -> Seq<Edge> {
        self.edges@
    }

    /// The identity that the next rectangle's first edge gets.
    pub closed spec fn next_id(&self) -> usize {
        self.next_edge_id
    }

    /// Edge identities are unique and below the next fresh identity.
    pub closed spec fn wf(&self) -> bool {
        &&& ids_unique(self.edges@)
        &&& forall|k: int| 0 <= k < self.edges@.len() ==> #[trigger] self.edges@[k].id < self.next_edge_id
    }

    /// An empty outline.
    pub fn new() -> (r: Self)
        ensures
            r.wf(),
            r.next_id() == 0,
            r.edge_seq() == Seq::<Edge>::empty(),
    {
        RangeBorder { next_edge_id: 0, edges: Vec::new() }
    }

    /// Adds a rectangle to the union: its four edges are inserted clockwise from
    /// the top edge, with fresh identities.
    pub fn add_rect(&mut self, top_left: CellCoords, bottom_right: CellCoords)
        requires
            old(self).next_id() + 4 <= usize::MAX,
        ensures
            old(self).wf() ==> final(self).wf(),
            final(self).next_id() == old(self).next_id() + 4,
            final(self).edge_seq() == with_rect(
                old(self).edge_seq(),
                old(self).next_id(),
                top_left,
                bottom_right,
            ),
    {
        let top_right = CellCoords { x: bottom_right.x, y: top_left.y };
        let bottom_left = CellCoords { x: top_left.x, y: bottom_right.y };

        let id = self.next_edge_id;
        let ghost e0 = self.edges@;
        proof {
            let r = rect_edges(id, top_left, bottom_right);
            if ids_unique(e0) && forall|k: int| 0 <= k < e0.len() ==> #[trigger] e0[k].id < id {
                lemma_with_edge_ids(e0, r[0]);
                let e1 = with_edge(e0, r[0]);
                lemma_with_edge_ids(e1, r[1]);
                let e2 = with_edge(e1, r[1]);
                lemma_with_edge_ids(e2, r[2]);
                let e3 = with_edge(e2, r[2]);
                lemma_with_edge_ids(e3, r[3]);
            }
        }
        self.add_edge(id, id + 1, top_left, top_right);
        self.add_edge(id + 1, id + 2, top_right, bottom_right);
        self.add_edge(id + 2, id + 3, bottom_right, bottom_left);
        self.add_edge(id + 3, id, bottom_left, top_left);
        self.next_edge_id = self.next_edge_id + 4;
    }

    /// The merged edges, with identities unique where the outline is well formed.
    pub fn into_edges(self) -> (r: Vec<Edge>)
        ensures
            r@ == self.edge_seq(),
            self.wf() ==> ids_unique(r@),
    {
        self.edges
    }

    /// Inserts one edge, merging it with the edges that continue it in line.
    fn add_edge(&mut self, id: usize, next: usize, start: CellCoords, end: CellCoords)
        requires
            start.x == end.x || start.y == end.y,
        ensures
            final(self).next_id() == old(self).next_id(),
            final(self).edge_seq() == with_edge(
                old(self).edge_seq(),
                Edge { id, next, start, end },
            ),
    {
        let ghost old_edges = self.edges@;
        let ghost e = Edge { id, next, start, end };
        let mut cur = Edge { id, next, start, end };
        let mut next_edges: Vec<Edge> = Vec::new();
        let mut i: usize = 0;
        while i < self.edges.len()
            invariant
                old_edges == self.edges@,
                i <= old_edges.len(),
                (cur, next_edges@) == merge_scan(old_edges.subrange(0, i as int), e),
            decreases self.edges.len() - i,
        {
            let edge = self.edges[i];
            proof {
                assert(old_edges.subrange(0, i + 1).drop_last() =~= old_edges.subrange(0, i as int));
            }
            if edge.end == cur.start && (edge.start.x == cur.end.x || edge.start.y == cur.end.y) {
                cur = Edge { id: edge.id, next: cur.next, start: edge.start, end: cur.end };
            } else if cur.end == edge.start && (cur.start.x == edge.end.x || cur.start.y
                == edge.end.y) {
                cur = Edge { id: cur.id, next: edge.next, start: cur.start, end: edge.end };
            } else {
                next_edges.push(edge);
            }
            i = i + 1;
        }
        proof {
            assert(old_edges.subrange(0, old_edges.len() as int) =~= old_edges);
        }
        if cur.start != cur.end {
            next_edges.push(cur);
        }
        self.edges = next_edges;
    }
}

impl Default for RangeBorder {
    fn default() -> (r: Self)
        ensures
            r.wf(),
            r.next_id() == 0,
            r.edge_seq() == Seq::<Edge>::empty(),
    {
        RangeBorder::new()
    }
}

/// Whether some edge of `edges` has identity `id`.
pub open spec fn has_id(edges: Seq<Edge>, id: usize) -> bool {
    exists|k: int| 0 <= k < edges.len() && edges[k].id == id
}

/// The position of the edge with identity `id`.
pub open spec fn position_of(edges: Seq<Edge>, id: usize) -> int {
    choose|k: int| 0 <= k < edges.len() && edges[k].id == id
}

/// No two edges share an identity.
pub open spec fn ids_unique(edges: Seq<Edge>) -> bool {
    forall|i: int, j: int|
        0 <= i < j < edges.len() ==> #[trigger] edges[i].id != #[trigger] edges[j].id
}

/// Walking the successor chain from `id`: the edges met, in order, each removed
/// from the set as it is met, until the chain reaches an identity that is no
/// longer there; and the edges left.
pub open spec fn walk_loop(edges: Seq<Edge>, id: usize) -> (Seq<Edge>, Seq<Edge>)
    decreases edges.len(),
{
    let k = position_of(edges, id);
    if has_id(edges, id) && 0 <= k < edges.len() {
        let (more, left) = walk_loop(edges.remove(k), edges[k].next);
        (seq![edges[k]] + more, left)
    } else {
        (Seq::empty(), edges)
    }
}

/// The lowest identity among `edges` (zero when there are none).
pub open spec fn min_id(edges: Seq<Edge>) -> usize
    decreases edges.len(),
{
    if edges.len() == 0 {
        0
    } else if edges.len() == 1 {
        edges[0].id
    } else {
        let m = min_id(edges.drop_last());
        if edges.last().id < m {
            edges.last().id
        } else {
            m
        }
    }
}

/// Every loop of an edge set, each walked from the lowest identity left.
pub open spec fn all_loops(edges: Seq<Edge>) -> Seq<Seq<Edge>>
    decreases edges.len(),
{
    let (first, left) = walk_loop(edges, min_id(edges));
    if edges.len() == 0 || left.len() >= edges.len() {
        Seq::empty()
    } else {
        seq![first] + all_loops(left)
    }
}

proof fn lemma_position_unique(edges: Seq<Edge>, id: usize, k: int)
    requires
        ids_unique(edges),
        0 <= k < edges.len(),
        edges[k].id == id,
    ensures
        has_id(edges, id),
        position_of(edges, id) == k,
{
    let p = position_of(edges, id);
    if p < k {
        assert(edges[p].id != edges[k].id);
    } else if p > k {
        assert(edges[k].id != edges[p].id);
    }
}

proof fn lemma_remove_unique(edges: Seq<Edge>, k: int)
    requires
        ids_unique(edges),
        0 <= k < edges.len(),
    ensures
        ids_unique(edges.remove(k)),
{
    let r = edges.remove(k);
    assert forall|i: int, j: int| 0 <= i < j < r.len() implies #[trigger] r[i].id != #[trigger] r[j].id by {
        let oi = if i < k { i } else { i + 1 };
        let oj = if j < k { j } else { j + 1 };
        assert(r[i] == edges[oi]);
        assert(r[j] == edges[oj]);
    }
}

/// The position of the edge with identity `id`, if there is one.
fn find_edge(edges: &Vec<Edge>, id: usize) -> (r: Option<usize>)
    requires
        ids_unique(edges@),
    ensures
        r is None ==> !has_id(edges@, id),
        r matches Some(k) ==> k < edges@.len() && edges@[k as int].id == id && position_of(
            edges@,
            id,
        ) == k,
{
    let mut k: usize = 0;
    while k < edges.len()
        invariant
            ids_unique(edges@),
            k <= edges@.len(),
            forall|i: int| 0 <= i < k ==> edges@[i].id != id,
        decreases edges.len() - k,
    {
        if edges[k].id == id {
            proof {
                lemma_position_unique(edges@, id, k as int);
            }
            return Some(k);
        }
        k = k + 1;
    }
    None
}

/// The edges of one loop, in the order of their successor chain.
pub struct LoopIter {
    edges: Vec<Edge>,
    pos: usize,
}

impl View for LoopIter {
    /// The edges still to come.
    type V = Seq<Edge>;

    closed spec fn view(&self) -> Seq<Edge> {
        self.edges@.subrange(self.pos as int, self.edges@.len() as int)
    }
}

impl LoopIter {
    #[verifier::type_invariant]
    spec fn inv(&self) -> bool {
        self.pos <= self.edges@.len()
    }

    /// Walks the loop that starts at the edge `first_id`, taking its edges out of
    /// `edges`.
    pub fn new(edges: &mut Vec<Edge>, first_id: usize) -> (r: Self)
        requires
            ids_unique(old(edges)@),
        ensures
            r@ == walk_loop(old(edges)@, first_id).0,
            final(edges)@ == walk_loop(old(edges)@, first_id).1,
            ids_unique(final(edges)@),
    {
        let ghost start = edges@;
        let mut found: Vec<Edge> = Vec::new();
        let mut id = first_id;
        loop
            invariant_except_break
                ids_unique(edges@),
                walk_loop(start, first_id) == (found@ + walk_loop(edges@, id).0, walk_loop(
                    edges@,
                    id,
                ).1),
            ensures
                ids_unique(edges@),
                walk_loop(start, first_id) == (found@, edges@),
            decreases edges@.len(),
        {
            match find_edge(edges, id) {
                Some(k) => {
                    let ghost before = edges@;
                    let edge = edges.remove(k);
                    proof {
                        lemma_remove_unique(before, k as int);
                        assert(found@.push(edge) + walk_loop(edges@, edge.next).0 =~= found@
                            + walk_loop(before, id).0);
                    }
                    found.push(edge);
                    id = edge.next;
                },
                None => {
                    proof {
                        assert(found@ + walk_loop(edges@, id).0 =~= found@);
                    }
                    break;
                },
            }
        }
        proof {
            assert(found@.subrange(0, found@.len() as int) =~= found@);
        }
        LoopIter { edges: found, pos: 0 }
    }

    /// The next edge of the loop, if any is left.
    pub fn next(&mut self) -> (r: Option<Edge>)
        ensures
            old(self)@.len() == 0 ==> r is None && final(self)@ == old(self)@,
            old(self)@.len() > 0 ==> r == Some(old(self)@[0]) && final(self)@ == old(
                self,
            )@.drop_first(),
    {
        proof {
            use_type_invariant(&*self);
        }
        if self.pos < self.edges.len() {
            let edge = self.edges[self.pos];
            self.pos = self.pos + 1;
            proof {
                assert(self@ =~= old(self)@.drop_first());
            }
            Some(edge)
        } else {
            None
        }
    }
}

/// The loops of an edge set, one at a time, each from the lowest identity left.
pub struct LoopsIter {
    edges: Vec<Edge>,
}

impl View for LoopsIter {
    /// The edges of the loops still to come.
    type V = Seq<Edge>;

    closed spec fn view(&self) -> Seq<Edge> {
        self.edges@
    }
}

impl LoopsIter {
    /// Edge identities are unique.
    pub closed spec fn wf(&self) -> bool {
        ids_unique(self.edges@)
    }

    /// Walks the loops of `edges_vec`, whose identities must be unique.
    pub fn new(edges_vec: Vec<Edge>) -> (r: Self)
        requires
            ids_unique(edges_vec@),
        ensures
            r.wf(),
            r@ == edges_vec@,
    {
        LoopsIter { edges: edges_vec }
    }

    /// The next loop, walked from the edge with the lowest identity left.
    pub fn next(&mut self) -> (r: Option<LoopIter>)
        requires
            old(self).wf(),
        ensures
            final(self).wf(),
            old(self)@.len() == 0 ==> r is None && final(self)@ == old(self)@,
            old(self)@.len() > 0 ==> (r matches Some(l) && l@ == walk_loop(
                old(self)@,
                min_id(old(self)@),
            ).0 && final(self)@ == walk_loop(old(self)@, min_id(old(self)@)).1),
    {
        if self.edges.len() == 0 {
            return None;
        }
        let first_id = lowest_id(&self.edges);
        Some(LoopIter::new(&mut self.edges, first_id))
    }
}

/// The lowest identity among `edges`.
fn lowest_id(edges: &Vec<Edge>) -> (r: usize)
    ensures
        r == min_id(edges@),
{
    if edges.len() == 0 {
        return 0;
    }
    let mut m = edges[0].id;
    let mut i: usize = 1;
    while i < edges.len()
        invariant
            1 <= i <= edges@.len(),
            m == min_id(edges@.subrange(0, i as int)),
        decreases edges.len() - i,
    {
        proof {
            assert(edges@.subrange(0, i + 1).drop_last() =~= edges@.subrange(0, i as int));
        }
        if edges[i].id < m {
            m = edges[i].id;
        }
        i = i + 1;
    }
    proof {
        assert(edges@.subrange(0, edges@.len() as int) =~= edges@);
    }
    m
}

/// The pairs of consecutive edges of a loop, closing with the last and the
/// first: each pair meets at a corner of the outline.
pub struct LoopPairIter {
    edges: Vec<Edge>,
    pos: usize,
}

/// The consecutive pairs of `items` from position `pos`, wrapping around at the end.
pub open spec fn loop_pairs(items: Seq<Edge>, pos: int) -> Seq<(Edge, Edge)> {
    Seq::new(
        (items.len() - pos) as nat,
        |k: int| (items[pos + k], items[(pos + k + 1) % (items.len() as int)]),
    )
}

impl View for LoopPairIter {
    /// The pairs still to come.
    type V = Seq<(Edge, Edge)>;

    closed spec fn view(&self) -> Seq<(Edge, Edge)> {
        loop_pairs(self.edges@, self.pos as int)
    }
}

impl LoopPairIter {
    #[verifier::type_invariant]
    spec fn inv(&self) -> bool {
        self.pos <= self.edges@.len()
    }

    /// The pairs of the edges that `iter` still holds.
    pub fn new(iter: LoopIter) -> (r: Self)
        ensures
            r@ == loop_pairs(iter@, 0),
    {
        let mut edges: Vec<Edge> = Vec::new();
        let mut iter = iter;
        proof {
            use_type_invariant(&iter);
        }
        let ghost all = iter@;
        while iter.pos < iter.edges.len()
            invariant
                iter.pos <= iter.edges@.len(),
                all == edges@ + iter@,
            decreases iter.edges.len() - iter.pos,
        {
            let ghost before = iter@;
            let edge = iter.edges[iter.pos];
            iter.pos = iter.pos + 1;
            proof {
                assert(iter@ =~= before.drop_first());
                assert(edges@.push(edge) + iter@ =~= edges@ + before);
            }
            edges.push(edge);
        }
        proof {
            use_type_invariant(&iter);
            assert(edges@ =~= all);
        }
        LoopPairIter { edges, pos: 0 }
    }

    /// The next pair, if any is left.
    pub fn next(&mut self) -> (r: Option<(Edge, Edge)>)
        ensures
            old(self)@.len() == 0 ==> r is None && final(self)@ == old(self)@,
            old(self)@.len() > 0 ==> r == Some(old(self)@[0]) && final(self)@ == old(
                self,
            )@.drop_first(),
    {
        proof {
            use_type_invariant(&*self);
        }
        if self.pos < self.edges.len() {
            let first = self.edges[self.pos];
            let second = if self.pos + 1 < self.edges.len() {
                self.edges[self.pos + 1]
            } else {
                self.edges[0]
            };
            proof {
                let n = self.edges@.len() as int;
                if self.pos + 1 < n {
                    vstd::arithmetic::div_mod::lemma_small_mod((self.pos + 1) as nat, n as nat);
                } else {
                    vstd::arithmetic::div_mod::lemma_mod_self_0(n);
                }
            }
            self.pos = self.pos + 1;
            proof {
                assert(self@ =~= old(self)@.drop_first());
            }
            Some((first, second))
        } else {
            None
        }
    }
}

/// Walking from an identity that is present takes that edge first.
proof fn lemma_walk_step(edges: Seq<Edge>, id: usize, k: int)
    requires
        ids_unique(edges),
        0 <= k < edges.len(),
        edges[k].id == id,
    ensures
        walk_loop(edges, id) == (
            seq![edges[k]] + walk_loop(edges.remove(k), edges[k].next).0,
            walk_loop(edges.remove(k), edges[k].next).1,
        ),
{
    lemma_position_unique(edges, id, k);
}

/// Walking the four edges of a rectangle, in order, from its first identity.
proof fn lemma_walk_four(e: Seq<Edge>, rest: Seq<Edge>)
    requires
        e.len() == 4,
        ids_unique(e + rest),
        e[0].next == e[1].id,
        e[1].next == e[2].id,
        e[2].next == e[3].id,
        e[3].next == e[0].id,
    ensures
        walk_loop(e + rest, e[0].id) == (e, rest),
{
    let s0 = e + rest;
    lemma_walk_step(s0, e[0].id, 0);
    let s1 = s0.remove(0);
    assert(s1 =~= e.subrange(1, 4) + rest);
    lemma_remove_unique(s0, 0);
    lemma_walk_step(s1, e[1].id, 0);
    let s2 = s1.remove(0);
    assert(s2 =~= e.subrange(2, 4) + rest);
    lemma_remove_unique(s1, 0);
    lemma_walk_step(s2, e[2].id, 0);
    let s3 = s2.remove(0);
    assert(s3 =~= e.subrange(3, 4) + rest);
    lemma_remove_unique(s2, 0);
    lemma_walk_step(s3, e[3].id, 0);
    let s4 = s3.remove(0);
    assert(s4 =~= rest);
    assert forall|k: int| 0 <= k < rest.len() implies rest[k].id != e[0].id by {
        assert(s0[0] == e[0]);
        assert(s0[4 + k] == rest[k]);
    }
    assert(!has_id(s4, e[0].id));
    assert(walk_loop(s3, e[3].id).0 =~= seq![e[3]]);
    assert(walk_loop(s2, e[2].id).0 =~= seq![e[2], e[3]]);
    assert(walk_loop(s1, e[1].id).0 =~= seq![e[1], e[2], e[3]]);
    assert(walk_loop(s0, e[0].id).0 =~= e);
}

proof fn lemma_rect_ids(id: usize, top_left: CellCoords, bottom_right: CellCoords)
    requires
        id + 4 <= usize::MAX,
    ensures
        ({
            let r = rect_edges(id, top_left, bottom_right);
            &&& ids_unique(r)
            &&& r[0].next == r[1].id && r[1].next == r[2].id && r[2].next == r[3].id && r[3].next
                == r[0].id
            &&& r[0].id == id && r[1].id == id + 1 && r[2].id == id + 2 && r[3].id == id + 3
        }),
{
}

/// Inserting the four edges of a rectangle with extent into a set whose
/// edges meet none of its corners appends them unchanged.
proof fn lemma_with_rect_apart(
    edges: Seq<Edge>,
    id: usize,
    top_left: CellCoords,
    bottom_right: CellCoords,
)
    requires
        id + 4 <= usize::MAX,
        top_left.x < bottom_right.x,
        top_left.y < bottom_right.y,
        forall|k: int|
            0 <= k < edges.len() ==> !is_corner(#[trigger] edges[k].start, top_left, bottom_right)
                && !is_corner(edges[k].end, top_left, bottom_right),
    ensures
        with_rect(edges, id, top_left, bottom_right) == edges + rect_edges(id, top_left, bottom_right),
{
    let r = rect_edges(id, top_left, bottom_right);
    lemma_scan_apart(edges, r[0]);
    let s1 = edges.push(r[0]);
    assert(with_edge(edges, r[0]) == s1);
    lemma_scan_apart(edges, r[1]);
    lemma_scan_extend(edges, r[1], seq![r[0]]);
    assert(edges + seq![r[0]] =~= s1);
    let s2 = s1.push(r[1]);
    assert(with_edge(s1, r[1]) == s2);
    lemma_scan_apart(edges, r[2]);
    lemma_scan_extend(edges, r[2], seq![r[0], r[1]]);
    assert(edges + seq![r[0], r[1]] =~= s2);
    let s3 = s2.push(r[2]);
    assert(with_edge(s2, r[2]) == s3);
    lemma_scan_apart(edges, r[3]);
    lemma_scan_extend(edges, r[3], seq![r[0], r[1], r[2]]);
    assert(edges + seq![r[0], r[1], r[2]] =~= s3);
    let s4 = s3.push(r[3]);
    assert(with_edge(s3, r[3]) == s4);
    assert(s4 =~= edges + r);
}

/// Whether `p` is a corner of the rectangle with corners `top_left` and
/// `bottom_right`.
pub open spec fn is_corner(p: CellCoords, top_left: CellCoords, bottom_right: CellCoords) -> bool {
    (p.x == top_left.x || p.x == bottom_right.x) && (p.y == top_left.y || p.y == bottom_right.y)
}

/// Edges that meet neither end of `e` are all kept, and `e` is unchanged.
proof fn lemma_scan_apart(edges: Seq<Edge>, e: Edge)
    requires
        forall|k: int|
            0 <= k < edges.len() ==> !joins_front(#[trigger] edges[k], e) && !joins_back(
                edges[k],
                e,
            ),
    ensures
        merge_scan(edges, e) == (e, edges),
    decreases edges.len(),
{
    if edges.len() > 0 {
        lemma_scan_apart(edges.drop_last(), e);
        assert(edges.drop_last().push(edges.last()) =~= edges);
    }
}

/// Scanning past kept edges first does not change how the rest are merged,
/// when the first edges meet neither end of `e`.
proof fn lemma_scan_extend(edges: Seq<Edge>, e: Edge, more: Seq<Edge>)
    requires
        merge_scan(edges, e) == (e, edges),
        forall|k: int|
            0 <= k < more.len() ==> !joins_front(#[trigger] more[k], e) && !joins_back(more[k], e),
    ensures
        merge_scan(edges + more, e) == (e, edges + more),
    decreases more.len(),
{
    if more.len() > 0 {
        lemma_scan_extend(edges, e, more.drop_last());
        assert((edges + more).drop_last() =~= edges + more.drop_last());
        assert((edges + more.drop_last()).push(more.last()) =~= edges + more);
    } else {
        assert(edges + more =~= edges);
    }
}

/// Where `e` continues no edge and touches none of them at its end, the
/// edge set grows by `e`.
proof fn lemma_with_edge_apart(edges: Seq<Edge>, e: Edge)
    requires
        e.start != e.end,
        forall|k: int|
            0 <= k < edges.len() ==> !joins_front(#[trigger] edges[k], e) && !joins_back(
                edges[k],
                e,
            ),
    ensures
        with_edge(edges, e) == edges.push(e),
{
    lemma_scan_apart(edges, e);
}

/// The outline of a single rectangle with extent is one loop: its four edges,
/// clockwise from the top.
pub proof fn lemma_single_rect_outline(top_left: CellCoords, bottom_right: CellCoords)
    requires
        top_left.x < bottom_right.x,
        top_left.y < bottom_right.y,
    ensures
        all_loops(with_rect(Seq::empty(), 0, top_left, bottom_right)) == seq![
            rect_edges(0, top_left, bottom_right),
        ],
{
    let r = rect_edges(0, top_left, bottom_right);
    lemma_rect_ids(0, top_left, bottom_right);
    let e0 = Seq::<Edge>::empty();
    lemma_with_edge_apart(e0, r[0]);
    let e1 = with_edge(e0, r[0]);
    assert(e1 =~= seq![r[0]]);
    lemma_with_edge_apart(e1, r[1]);
    let e2 = with_edge(e1, r[1]);
    assert(e2 =~= seq![r[0], r[1]]);
    lemma_with_edge_apart(e2, r[2]);
    let e3 = with_edge(e2, r[2]);
    assert(e3 =~= seq![r[0], r[1], r[2]]);
    lemma_with_edge_apart(e3, r[3]);
    let e4 = with_edge(e3, r[3]);
    assert(e4 =~= r);
    assert(r + Seq::<Edge>::empty() =~= r);
    lemma_walk_four(r, Seq::empty());
    assert(min_id(r) == 0) by {
        reveal_with_fuel(min_id, 4);
        assert(r.drop_last() =~= seq![r[0], r[1], r[2]]);
        assert(r.drop_last().drop_last() =~= seq![r[0], r[1]]);
        assert(r.drop_last().drop_last().drop_last() =~= seq![r[0]]);
    }
    assert(all_loops(Seq::<Edge>::empty()) =~= Seq::<Seq<Edge>>::empty());
    assert(all_loops(r) =~= seq![r]);
}

/// The lowest identity is that of some edge, and no edge has a lower one.
proof fn lemma_min_id(edges: Seq<Edge>)
    requires
        edges.len() > 0,
    ensures
        exists|k: int| 0 <= k < edges.len() && edges[k].id == min_id(edges),
        forall|k: int| 0 <= k < edges.len() ==> min_id(edges) <= #[trigger] edges[k].id,
    decreases edges.len(),
{
    if edges.len() > 1 {
        let rest = edges.drop_last();
        lemma_min_id(rest);
        let k0 = choose|k: int| 0 <= k < rest.len() && rest[k].id == min_id(rest);
        assert(edges[k0] == rest[k0]);
        assert forall|k: int| 0 <= k < edges.len() implies min_id(edges) <= #[trigger] edges[k].id by {
            if k < rest.len() {
                assert(edges[k] == rest[k]);
            }
        }
    } else {
        assert(edges[0].id == min_id(edges));
    }
}

/// Merging scans the edges in order: one more edge at the end is one more step.
proof fn lemma_scan_push(edges: Seq<Edge>, e: Edge, edge: Edge)
    ensures
        merge_scan(edges.push(edge), e) == merge_step(
            merge_scan(edges, e).0,
            merge_scan(edges, e).1,
            edge,
        ),
{
    assert(edges.push(edge).drop_last() =~= edges);
}

/// A rectangle with extent, inserted alone, keeps its four edges.
proof fn lemma_rect_alone(id: usize, top_left: CellCoords, bottom_right: CellCoords)
    requires
        id + 4 <= usize::MAX,
        top_left.x < bottom_right.x,
        top_left.y < bottom_right.y,
    ensures
        with_rect(Seq::empty(), id, top_left, bottom_right) == rect_edges(id, top_left, bottom_right),
{
    lemma_with_rect_apart(Seq::empty(), id, top_left, bottom_right);
    assert(Seq::<Edge>::empty() + rect_edges(id, top_left, bottom_right) =~= rect_edges(
        id,
        top_left,
        bottom_right,
    ));
}

/// Two rectangles with extent side by side, sharing the whole of the first one's
/// right edge, have one outline: the perimeter of their union, without the
/// shared edge.
pub proof fn lemma_side_by_side_rects_outline(x0: u64, x1: u64, x2: u64, y0: u64, y1: u64)
    requires
        x0 < x1 < x2,
        y0 < y1,
    ensures
        ({
            let tl = CellCoords { x: x0, y: y0 };
            let tr = CellCoords { x: x2, y: y0 };
            let br = CellCoords { x: x2, y: y1 };
            let bl = CellCoords { x: x0, y: y1 };
            all_loops(
                with_rect(
                    with_rect(Seq::empty(), 0, tl, CellCoords { x: x1, y: y1 }),
                    4,
                    CellCoords { x: x1, y: y0 },
                    br,
                ),
            ) == seq![
                seq![
                    Edge { id: 0, next: 5, start: tl, end: tr },
                    Edge { id: 5, next: 6, start: tr, end: br },
                    Edge { id: 6, next: 3, start: br, end: bl },
                    Edge { id: 3, next: 0, start: bl, end: tl },
                ],
            ]
        }),
{
    let tl = CellCoords { x: x0, y: y0 };
    let tm = CellCoords { x: x1, y: y0 };
    let tr = CellCoords { x: x2, y: y0 };
    let br = CellCoords { x: x2, y: y1 };
    let bm = CellCoords { x: x1, y: y1 };
    let bl = CellCoords { x: x0, y: y1 };
    let ra = rect_edges(0, tl, bm);
    let rb = rect_edges(4, tm, br);
    lemma_rect_alone(0, tl, bm);
    let (a0, a1, a2, a3) = (ra[0], ra[1], ra[2], ra[3]);
    let (b0, b1, b2, b3) = (rb[0], rb[1], rb[2], rb[3]);
    let top = Edge { id: 0, next: 5, start: tl, end: tr };
    let bottom = Edge { id: 6, next: 3, start: br, end: bl };
    // b0 absorbs a0 at its front
    lemma_scan_push(seq![a0, a1, a2], b0, a3);
    lemma_scan_push(seq![a0, a1], b0, a2);
    lemma_scan_push(seq![a0], b0, a1);
    lemma_scan_push(Seq::empty(), b0, a0);
    assert(seq![a0, a1, a2].push(a3) =~= ra);
    assert(seq![a0, a1].push(a2) =~= seq![a0, a1, a2]);
    assert(seq![a0].push(a1) =~= seq![a0, a1]);
    assert(Seq::<Edge>::empty().push(a0) =~= seq![a0]);
    assert(merge_scan(Seq::<Edge>::empty(), b0) == (b0, Seq::<Edge>::empty()));
    assert(merge_scan(ra, b0) == (top, seq![a1, a2, a3]));
    let s1 = with_edge(ra, b0);
    assert(s1 =~= seq![a1, a2, a3, top]);
    // b1 is appended
    lemma_with_edge_apart(s1, b1);
    let s2 = with_edge(s1, b1);
    assert(s2 =~= seq![a1, a2, a3, top, b1]);
    // b2 absorbs a2 at its back
    let merged = Edge { id: 6, next: 3, start: br, end: bl };
    lemma_scan_push(seq![a1, a2, a3, top], b2, b1);
    lemma_scan_push(seq![a1, a2, a3], b2, top);
    lemma_scan_push(seq![a1, a2], b2, a3);
    lemma_scan_push(seq![a1], b2, a2);
    lemma_scan_push(Seq::empty(), b2, a1);
    assert(seq![a1, a2, a3, top].push(b1) =~= s2);
    assert(seq![a1, a2, a3].push(top) =~= seq![a1, a2, a3, top]);
    assert(seq![a1, a2].push(a3) =~= seq![a1, a2, a3]);
    assert(seq![a1].push(a2) =~= seq![a1, a2]);
    assert(Seq::<Edge>::empty().push(a1) =~= seq![a1]);
    assert(merge_scan(Seq::<Edge>::empty(), b2) == (b2, Seq::<Edge>::empty()));
    assert(merge_scan(s2, b2) == (merged, seq![a1, a3, top, b1]));
    let s3 = with_edge(s2, b2);
    assert(s3 =~= seq![a1, a3, top, b1, merged]);
    // b3 absorbs a1 at its front and shrinks to a point
    let gone = Edge { id: 1, next: 4, start: tm, end: tm };
    lemma_scan_push(seq![a1, a3, top, b1], b3, merged);
    lemma_scan_push(seq![a1, a3, top], b3, b1);
    lemma_scan_push(seq![a1, a3], b3, top);
    lemma_scan_push(seq![a1], b3, a3);
    lemma_scan_push(Seq::empty(), b3, a1);
    assert(seq![a1, a3, top, b1].push(merged) =~= s3);
    assert(seq![a1, a3, top].push(b1) =~= seq![a1, a3, top, b1]);
    assert(seq![a1, a3].push(top) =~= seq![a1, a3, top]);
    assert(seq![a1].push(a3) =~= seq![a1, a3]);
    assert(Seq::<Edge>::empty().push(a1) =~= seq![a1]);
    assert(merge_scan(Seq::<Edge>::empty(), b3) == (b3, Seq::<Edge>::empty()));
    assert(merge_scan(s3, b3) == (gone, seq![a3, top, b1, merged]));
    let s4 = with_edge(s3, b3);
    assert(s4 =~= seq![a3, top, b1, merged]);
    // one loop from identity 0
    let lp = seq![top, b1, merged, a3];
    assert(ids_unique(s4));
    lemma_walk_step(s4, 0, 1);
    let w1 = s4.remove(1);
    assert(w1 =~= seq![a3, b1, merged]);
    lemma_remove_unique(s4, 1);
    lemma_walk_step(w1, 5, 1);
    let w2 = w1.remove(1);
    assert(w2 =~= seq![a3, merged]);
    lemma_remove_unique(w1, 1);
    lemma_walk_step(w2, 6, 1);
    let w3 = w2.remove(1);
    assert(w3 =~= seq![a3]);
    lemma_remove_unique(w2, 1);
    lemma_walk_step(w3, 3, 0);
    let w4 = w3.remove(0);
    assert(w4 =~= Seq::<Edge>::empty());
    assert(!has_id(w4, 0));
    assert(walk_loop(w3, 3).0 =~= seq![a3]);
    assert(walk_loop(w2, 6).0 =~= seq![merged, a3]);
    assert(walk_loop(w1, 5).0 =~= seq![b1, merged, a3]);
    assert(walk_loop(s4, 0).0 =~= lp);
    lemma_min_id(s4);
    assert(s4[1].id == 0);
    assert(min_id(s4) == 0);
    assert(all_loops(Seq::<Edge>::empty()) =~= Seq::<Seq<Edge>>::empty());
    assert(all_loops(s4) =~= seq![lp]);
}

/// Two rectangles with extent, one on top of the other, sharing the whole of
/// the first one's bottom edge, have one outline: the perimeter of their union,
/// without the shared edge.
pub proof fn lemma_stacked_rects_outline(x0: u64, x1: u64, y0: u64, y1: u64, y2: u64)
    requires
        x0 < x1,
        y0 < y1 < y2,
    ensures
        ({
            let tl = CellCoords { x: x0, y: y0 };
            let tr = CellCoords { x: x1, y: y0 };
            let br = CellCoords { x: x1, y: y2 };
            let bl = CellCoords { x: x0, y: y2 };
            all_loops(
                with_rect(
                    with_rect(Seq::empty(), 0, tl, CellCoords { x: x1, y: y1 }),
                    4,
                    CellCoords { x: x0, y: y1 },
                    br,
                ),
            ) == seq![
                seq![
                    Edge { id: 0, next: 1, start: tl, end: tr },
                    Edge { id: 1, next: 6, start: tr, end: br },
                    Edge { id: 6, next: 7, start: br, end: bl },
                    Edge { id: 7, next: 0, start: bl, end: tl },
                ],
            ]
        }),
{
    let tl = CellCoords { x: x0, y: y0 };
    let tr = CellCoords { x: x1, y: y0 };
    let ml = CellCoords { x: x0, y: y1 };
    let mr = CellCoords { x: x1, y: y1 };
    let br = CellCoords { x: x1, y: y2 };
    let bl = CellCoords { x: x0, y: y2 };
    let ra = rect_edges(0, tl, mr);
    let rb = rect_edges(4, ml, br);
    lemma_rect_alone(0, tl, mr);
    let (a0, a1, a2, a3) = (ra[0], ra[1], ra[2], ra[3]);
    let (b0, b1, b2, b3) = (rb[0], rb[1], rb[2], rb[3]);
    // b0 absorbs a2 at its front and shrinks to a point
    let gone = Edge { id: 2, next: 5, start: mr, end: mr };
    lemma_scan_push(seq![a0, a1, a2], b0, a3);
    lemma_scan_push(seq![a0, a1], b0, a2);
    lemma_scan_push(seq![a0], b0, a1);
    lemma_scan_push(Seq::empty(), b0, a0);
    assert(seq![a0, a1, a2].push(a3) =~= ra);
    assert(seq![a0, a1].push(a2) =~= seq![a0, a1, a2]);
    assert(seq![a0].push(a1) =~= seq![a0, a1]);
    assert(Seq::<Edge>::empty().push(a0) =~= seq![a0]);
    assert(merge_scan(Seq::<Edge>::empty(), b0) == (b0, Seq::<Edge>::empty()));
    assert(merge_scan(ra, b0) == (gone, seq![a0, a1, a3]));
    let s1 = with_edge(ra, b0);
    assert(s1 =~= seq![a0, a1, a3]);
    // b1 absorbs a1 at its front
    let right = Edge { id: 1, next: 6, start: tr, end: br };
    lemma_scan_push(seq![a0, a1], b1, a3);
    lemma_scan_push(seq![a0], b1, a1);
    lemma_scan_push(Seq::empty(), b1, a0);
    assert(seq![a0, a1].push(a3) =~= s1);
    assert(merge_scan(Seq::<Edge>::empty(), b1) == (b1, Seq::<Edge>::empty()));
    assert(merge_scan(s1, b1) == (right, seq![a0, a3]));
    let s2 = with_edge(s1, b1);
    assert(s2 =~= seq![a0, a3, right]);
    // b2 is appended
    lemma_with_edge_apart(s2, b2);
    let s3 = with_edge(s2, b2);
    assert(s3 =~= seq![a0, a3, right, b2]);
    // b3 absorbs a3 at its back
    let left = Edge { id: 7, next: 0, start: bl, end: tl };
    lemma_scan_push(seq![a0, a3, right], b3, b2);
    lemma_scan_push(seq![a0, a3], b3, right);
    lemma_scan_push(seq![a0], b3, a3);
    lemma_scan_push(Seq::empty(), b3, a0);
    assert(seq![a0, a3, right].push(b2) =~= s3);
    assert(seq![a0, a3].push(right) =~= seq![a0, a3, right]);
    assert(seq![a0].push(a3) =~= seq![a0, a3]);
    assert(merge_scan(Seq::<Edge>::empty(), b3) == (b3, Seq::<Edge>::empty()));
    assert(merge_scan(s3, b3) == (left, seq![a0, right, b2]));
    let s4 = with_edge(s3, b3);
    assert(s4 =~= seq![a0, right, b2, left]);
    // one loop from identity 0
    assert(ids_unique(s4));
    lemma_walk_four(s4, Seq::empty());
    assert(s4 + Seq::<Edge>::empty() =~= s4);
    lemma_min_id(s4);
    assert(s4[0].id == 0);
    assert(min_id(s4) == 0);
    assert(all_loops(Seq::<Edge>::empty()) =~= Seq::<Seq<Edge>>::empty());
    assert(all_loops(s4) =~= seq![s4]);
}

/// Merging keeps identities unique: the kept edges are edges of the set, the
/// grown edge has the new edge's identity or that of an absorbed edge, and no
/// kept edge shares it.
proof fn lemma_merge_scan_ids(edges: Seq<Edge>, e: Edge)
    requires
        ids_unique(edges),
        !has_id(edges, e.id),
    ensures
        ids_unique(merge_scan(edges, e).1),
        forall|k: int|
            0 <= k < merge_scan(edges, e).1.len() ==> has_id(
                edges,
                #[trigger] merge_scan(edges, e).1[k].id,
            ),
        forall|k: int|
            0 <= k < merge_scan(edges, e).1.len() ==> #[trigger] merge_scan(edges, e).1[k].id
                != merge_scan(edges, e).0.id,
        merge_scan(edges, e).0.id == e.id || has_id(edges, merge_scan(edges, e).0.id),
    decreases edges.len(),
{
    if edges.len() > 0 {
        let p = edges.drop_last();
        let last = edges.last();
        assert(ids_unique(p)) by {
            assert forall|i: int, j: int| 0 <= i < j < p.len() implies #[trigger] p[i].id
                != #[trigger] p[j].id by {
                assert(p[i] == edges[i] && p[j] == edges[j]);
            }
        }
        assert(!has_id(p, e.id)) by {
            if has_id(p, e.id) {
                let k = choose|k: int| 0 <= k < p.len() && p[k].id == e.id;
                assert(edges[k] == p[k]);
            }
        }
        lemma_merge_scan_ids(p, e);
        let (cur0, kept0) = merge_scan(p, e);
        // ids of the prefix are ids of the set, and differ from the last one's
        assert forall|x: usize| has_id(p, x) implies has_id(edges, x) && x != last.id by {
            let k = choose|k: int| 0 <= k < p.len() && p[k].id == x;
            assert(edges[k] == p[k]);
            assert(edges[k].id != edges[edges.len() - 1].id);
        }
        assert(has_id(edges, last.id)) by {
            assert(edges[edges.len() - 1] == last);
        }
        assert(e.id != last.id);
        let (cur, kept) = merge_step(cur0, kept0, last);
        assert forall|k: int| 0 <= k < kept0.len() implies has_id(p, #[trigger] kept0[k].id) by {}
        if !joins_front(last, cur0) && !joins_back(last, cur0) {
            assert(kept == kept0.push(last));
            assert(ids_unique(kept)) by {
                assert forall|i: int, j: int| 0 <= i < j < kept.len() implies #[trigger] kept[i].id
                    != #[trigger] kept[j].id by {
                    if j == kept0.len() {
                        assert(has_id(p, kept0[i].id));
                    } else {
                        assert(kept[i] == kept0[i] && kept[j] == kept0[j]);
                    }
                }
            }
            assert forall|k: int| 0 <= k < kept.len() implies has_id(edges, #[trigger] kept[k].id)
                && kept[k].id != cur.id by {
                if k < kept0.len() {
                    assert(kept[k] == kept0[k]);
                    assert(has_id(p, kept0[k].id));
                }
            }
        } else {
            assert forall|k: int| 0 <= k < kept.len() implies has_id(edges, #[trigger] kept[k].id)
                && kept[k].id != cur.id by {
                assert(has_id(p, kept0[k].id));
            }
        }
        assert(edges.drop_last() == p);
    }
}

/// Inserting an edge whose identity is above all of the set's keeps identities
/// unique, and all at most the new one.
proof fn lemma_with_edge_ids(edges: Seq<Edge>, e: Edge)
    requires
        ids_unique(edges),
        forall|k: int| 0 <= k < edges.len() ==> #[trigger] edges[k].id < e.id,
    ensures
        ids_unique(with_edge(edges, e)),
        forall|k: int|
            0 <= k < with_edge(edges, e).len() ==> #[trigger] with_edge(edges, e)[k].id <= e.id,
{
    assert(!has_id(edges, e.id));
    lemma_merge_scan_ids(edges, e);
    let (cur, kept) = merge_scan(edges, e);
    assert forall|x: usize| has_id(edges, x) implies x < e.id by {
        let k = choose|k: int| 0 <= k < edges.len() && edges[k].id == x;
    }
    let r = with_edge(edges, e);
    assert forall|k: int| 0 <= k < kept.len() implies #[trigger] kept[k].id < e.id by {
        assert(has_id(edges, kept[k].id));
    }
    if cur.start != cur.end {
        assert(r == kept.push(cur));
        assert forall|i: int, j: int| 0 <= i < j < r.len() implies #[trigger] r[i].id
            != #[trigger] r[j].id by {
            if j == kept.len() {
                assert(r[i] == kept[i]);
            } else {
                assert(r[i] == kept[i] && r[j] == kept[j]);
            }
        }
        assert forall|k: int| 0 <= k < r.len() implies #[trigger] r[k].id <= e.id by {
            if k < kept.len() {
                assert(r[k] == kept[k]);
            } else if cur.id != e.id {
                assert(has_id(edges, cur.id));
            }
        }
    }
}

/// Walking never leaves more edges than it started with.
pub proof fn lemma_walk_loop_len(edges: Seq<Edge>, id: usize)
    ensures
        walk_loop(edges, id).1.len() <= edges.len(),
        has_id(edges, id) ==> walk_loop(edges, id).1.len() < edges.len(),
    decreases edges.len(),
{
    let k = position_of(edges, id);
    if has_id(edges, id) && 0 <= k < edges.len() {
        lemma_walk_loop_len(edges.remove(k), edges[k].next);
    }
}

/// Each loop of a nonempty edge set takes out at least one edge: the first loop
/// and the loops of what it leaves are all the loops.
pub proof fn lemma_all_loops_step(edges: Seq<Edge>)
    requires
        edges.len() > 0,
    ensures
        walk_loop(edges, min_id(edges)).1.len() < edges.len(),
        all_loops(edges) == seq![walk_loop(edges, min_id(edges)).0] + all_loops(
            walk_loop(edges, min_id(edges)).1,
        ),
{
    lemma_min_id(edges);
    lemma_walk_loop_len(edges, min_id(edges));
}

/// The outline of rectangles added in order, with identities four apart.
pub open spec fn rects_border(rects: Seq<(CellCoords, CellCoords)>) -> Seq<Edge>
    decreases rects.len(),
{
    if rects.len() == 0 {
        Seq::empty()
    } else {
        with_rect(
            rects_border(rects.drop_last()),
            (4 * (rects.len() - 1)) as usize,
            rects.last().0,
            rects.last().1,
        )
    }
}

/// The four edges of each rectangle, rectangle after rectangle: edge `i` has
/// identity `i`.
pub open spec fn rects_edges(rects: Seq<(CellCoords, CellCoords)>) -> Seq<Edge> {
    Seq::new(
        (4 * rects.len()) as nat,
        |i: int| rect_edges((4 * (i / 4)) as usize, rects[i / 4].0, rects[i / 4].1)[i % 4],
    )
}

/// Each rectangle has extent, and no corner of one is a corner of another.
pub open spec fn rects_apart(rects: Seq<(CellCoords, CellCoords)>) -> bool {
    &&& forall|k: int| 0 <= k < rects.len() ==> #[trigger] rects[k].0.x < rects[k].1.x
        && rects[k].0.y < rects[k].1.y
    &&& forall|i: int, j: int, p: CellCoords|
        0 <= i < rects.len() && 0 <= j < rects.len() && i != j && #[trigger] is_corner(
            p,
            rects[i].0,
            rects[i].1,
        ) ==> !#[trigger] is_corner(p, rects[j].0, rects[j].1)
}

proof fn lemma_rects_edges_push(rects: Seq<(CellCoords, CellCoords)>)
    requires
        rects.len() > 0,
    ensures
        rects_edges(rects) == rects_edges(rects.drop_last()) + rect_edges(
            (4 * (rects.len() - 1)) as usize,
            rects.last().0,
            rects.last().1,
        ),
{
    let n = rects.len() as int;
    let a = rects_edges(rects);
    let c = rects_edges(rects.drop_last()) + rect_edges(
        (4 * (n - 1)) as usize,
        rects.last().0,
        rects.last().1,
    );
    assert forall|i: int| 0 <= i < 4 * n implies a[i] == c[i] by {
        if i < 4 * (n - 1) {
            assert(i / 4 < n - 1);
            assert(rects.drop_last()[i / 4] == rects[i / 4]);
        } else {
            assert(i / 4 == n - 1);
            assert(i % 4 == i - 4 * (n - 1));
        }
    }
    assert(a =~= c);
}

/// Every edge of the rectangles' edges runs between two corners of one of them.
proof fn lemma_rects_edges_corners(rects: Seq<(CellCoords, CellCoords)>, i: int)
    requires
        0 <= i < 4 * rects.len(),
        4 * rects.len() + 4 <= usize::MAX,
    ensures
        is_corner(rects_edges(rects)[i].start, rects[i / 4].0, rects[i / 4].1),
        is_corner(rects_edges(rects)[i].end, rects[i / 4].0, rects[i / 4].1),
        rects_edges(rects)[i].id == i,
        0 <= i / 4 < rects.len(),
{
    assert(0 <= i % 4 < 4);
    assert(4 * (i / 4) + i % 4 == i);
    let id = (4 * (i / 4)) as usize;
    assert(id + 4 <= usize::MAX);
    lemma_rect_ids(id, rects[i / 4].0, rects[i / 4].1);
}

/// Adding rectangles that are apart keeps each one's four edges unchanged.
proof fn lemma_rects_border(rects: Seq<(CellCoords, CellCoords)>)
    requires
        rects_apart(rects),
        4 * rects.len() + 4 <= usize::MAX,
    ensures
        rects_border(rects) == rects_edges(rects),
    decreases rects.len(),
{
    if rects.len() == 0 {
        assert(rects_edges(rects) =~= Seq::<Edge>::empty());
    } else {
        let n = rects.len() as int;
        let prev = rects.drop_last();
        assert(rects_apart(prev)) by {
            assert forall|k: int| 0 <= k < prev.len() implies #[trigger] prev[k].0.x < prev[k].1.x
                && prev[k].0.y < prev[k].1.y by {
                assert(prev[k] == rects[k]);
            }
            assert forall|i: int, j: int, p: CellCoords|
                0 <= i < prev.len() && 0 <= j < prev.len() && i != j && #[trigger] is_corner(
                    p,
                    prev[i].0,
                    prev[i].1,
                ) implies !#[trigger] is_corner(p, prev[j].0, prev[j].1) by {
                assert(prev[i] == rects[i] && prev[j] == rects[j]);
            }
        }
        lemma_rects_border(prev);
        let edges = rects_edges(prev);
        let last = rects.last();
        assert(last == rects[n - 1]);
        assert(rects[n - 1].0.x < rects[n - 1].1.x && rects[n - 1].0.y < rects[n - 1].1.y);
        assert forall|k: int| 0 <= k < edges.len() implies !is_corner(
            #[trigger] edges[k].start,
            last.0,
            last.1,
        ) && !is_corner(edges[k].end, last.0, last.1) by {
            lemma_rects_edges_corners(prev, k);
            let r = k / 4;
            assert(prev[r] == rects[r]);
            assert(r != n - 1);
        }
        lemma_with_rect_apart(edges, (4 * (n - 1)) as usize, last.0, last.1);
        lemma_rects_edges_push(rects);
    }
}

/// The loops of the rectangles' edges from rectangle `k` on: one per rectangle.
proof fn lemma_rects_loops_from(rects: Seq<(CellCoords, CellCoords)>, k: int)
    requires
        0 <= k <= rects.len(),
        4 * rects.len() + 4 <= usize::MAX,
    ensures
        all_loops(rects_edges(rects).subrange(4 * k, 4 * rects.len() as int)) == Seq::new(
            (rects.len() - k) as nat,
            |j: int| rect_edges((4 * (k + j)) as usize, rects[k + j].0, rects[k + j].1),
        ),
    decreases rects.len() - k,
{
    let n = rects.len() as int;
    let all = rects_edges(rects);
    let s = all.subrange(4 * k, 4 * n);
    let want = Seq::new(
        (n - k) as nat,
        |j: int| rect_edges((4 * (k + j)) as usize, rects[k + j].0, rects[k + j].1),
    );
    if k == n {
        assert(s =~= Seq::<Edge>::empty());
        assert(want =~= Seq::<Seq<Edge>>::empty());
    } else {
        let r = rect_edges((4 * k) as usize, rects[k].0, rects[k].1);
        let rest = all.subrange(4 * k + 4, 4 * n);
        assert forall|i: int| 0 <= i < 4 implies #[trigger] s[i] == r[i] by {
            assert(s[i] == all[4 * k + i]);
            assert((4 * k + i) / 4 == k);
            assert((4 * k + i) % 4 == i);
        }
        assert(s =~= r + rest);
        assert forall|i: int| 0 <= i < s.len() implies #[trigger] s[i].id == 4 * k + i by {
            lemma_rects_edges_corners(rects, 4 * k + i);
        }
        assert(ids_unique(s));
        lemma_rect_ids((4 * k) as usize, rects[k].0, rects[k].1);
        lemma_walk_four(r, rest);
        lemma_min_id(s);
        assert(s[0].id == 4 * k);
        assert(min_id(s) == 4 * k);
        lemma_rects_loops_from(rects, k + 1);
        let tail = Seq::new(
            (n - k - 1) as nat,
            |j: int| rect_edges((4 * (k + 1 + j)) as usize, rects[k + 1 + j].0, rects[k + 1 + j].1),
        );
        assert(want =~= seq![r] + tail) by {
            assert forall|j: int| 0 < j < n - k implies #[trigger] want[j] == tail[j - 1] by {
                assert(k + 1 + (j - 1) == k + j);
            }
        }
    }
}

/// Rectangles with extent of which no two share a corner have one outline each:
/// rectangle `k`'s four edges, clockwise from its top, with identities `4k` to
/// `4k + 3`, in the order the rectangles were added.
pub proof fn lemma_apart_rects_outline(rects: Seq<(CellCoords, CellCoords)>)
    requires
        rects_apart(rects),
        4 * rects.len() + 4 <= usize::MAX,
    ensures
        all_loops(rects_border(rects)) == Seq::new(
            rects.len(),
            |k: int| rect_edges((4 * k) as usize, rects[k].0, rects[k].1),
        ),
{
    lemma_rects_border(rects);
    lemma_rects_loops_from(rects, 0);
    assert(rects_edges(rects).subrange(0, 4 * rects.len() as int) =~= rects_edges(rects));
    assert(Seq::new(
        (rects.len() - 0) as nat,
        |j: int| rect_edges((4 * (0 + j)) as usize, rects[0 + j].0, rects[0 + j].1),
    ) =~= Seq::new(rects.len(), |k: int| rect_edges((4 * k) as usize, rects[k].0, rects[k].1)));
}

} // verus!
