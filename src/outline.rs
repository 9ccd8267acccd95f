//! What an outline is drawn from: the consecutive edge pairs of the loops
//! around a union of range blocks, and the corner points that an odd number
//! of those blocks share.
use vstd::prelude::*;

use crate::range_blocks::{cell_of, range_block_corners, CellCoords};
use crate::range_border::{
    all_loops, lemma_all_loops_step, loop_pairs, with_rect, Edge, LoopPairIter, LoopsIter,
    RangeBorder,
};

verus! {

/// Blocks whose corners can be computed: each holds at least one byte and its
/// last byte has an offset.
pub open spec fn blocks_ok(blocks: Seq<(u64, u64)>) -> bool {
    forall|k: int|
        0 <= k < blocks.len() ==> #[trigger] blocks[k].1 >= 1 && blocks[k].0 + blocks[k].1 - 1
            <= u64::MAX
}

/// The top-left corner of a block.
pub open spec fn top_left_of(block: (u64, u64), b: u64) -> CellCoords {
    let c = cell_of(block.0 as nat, b as nat);
    CellCoords { x: c.0 as u64, y: c.1 as u64 }
}

/// The exclusive bottom-right corner of a block.
pub open spec fn bottom_right_of(block: (u64, u64), b: u64) -> CellCoords {
    let c = cell_of((block.0 + block.1 - 1) as nat, b as nat);
    CellCoords { x: (c.0 + 1) as u64, y: (c.1 + 1) as u64 }
}

/// The merged edges of the rectangles of `blocks`, added in order with
/// identities four apart.
pub open spec fn blocks_border(blocks: Seq<(u64, u64)>, b: u64) -> Seq<Edge>
    decreases blocks.len(),
{
    if blocks.len() == 0 {
        Seq::empty()
    } else {
        let last = blocks.last();
        with_rect(
            blocks_border(blocks.drop_last(), b),
            (4 * (blocks.len() - 1)) as usize,
            top_left_of(last, b),
            bottom_right_of(last, b),
        )
    }
}

/// The consecutive edge pairs of each loop, loop after loop.
pub open spec fn loops_pairs(loops: Seq<Seq<Edge>>) -> Seq<(Edge, Edge)>
    decreases loops.len(),
{
    if loops.len() == 0 {
        Seq::empty()
    } else {
        loop_pairs(loops[0], 0) + loops_pairs(loops.drop_first())
    }
}

/// The consecutive edge pairs, closing each loop, of the outline of the union
/// of `blocks`: each pair meets at a corner of the outline.
pub fn range_border_pairs(blocks: &Vec<(u64, u64)>, sub_block_sqrt: u64) -> (r: Vec<(Edge, Edge)>)
    requires
        sub_block_sqrt > 1,
        sub_block_sqrt * sub_block_sqrt <= u64::MAX,
        blocks_ok(blocks@),
        4 * blocks@.len() + 4 <= usize::MAX,
    ensures
        r@ == loops_pairs(all_loops(blocks_border(blocks@, sub_block_sqrt))),
{
    let mut range_border = RangeBorder::new();
    let mut i: usize = 0;
    while i < blocks.len()
        invariant
            sub_block_sqrt > 1,
            sub_block_sqrt * sub_block_sqrt <= u64::MAX,
            blocks_ok(blocks@),
            4 * blocks@.len() + 4 <= usize::MAX,
            i <= blocks@.len(),
            range_border.wf(),
            range_border.next_id() == 4 * i,
            range_border.edge_seq() == blocks_border(blocks@.subrange(0, i as int), sub_block_sqrt),
        decreases blocks.len() - i,
    {
        let (index, count) = blocks[i];
        let (top_left, bottom_right) = range_block_corners(index, count, sub_block_sqrt);
        proof {
            let pre = blocks@.subrange(0, i + 1);
            assert(pre.drop_last() =~= blocks@.subrange(0, i as int));
            assert(pre.last() == blocks@[i as int]);
        }
        range_border.add_rect(top_left, bottom_right);
        i = i + 1;
    }
    proof {
        assert(blocks@.subrange(0, blocks@.len() as int) =~= blocks@);
    }
    let ghost all = all_loops(range_border.edge_seq());
    let mut loops_iter = LoopsIter::new(range_border.into_edges());
    let mut pairs_out: Vec<(Edge, Edge)> = Vec::new();
    let ghost mut done: Seq<Seq<Edge>> = Seq::empty();
    loop
        invariant_except_break
            loops_iter.wf(),
            all == done + all_loops(loops_iter@),
            pairs_out@ == loops_pairs(done),
        ensures
            pairs_out@ == loops_pairs(all),
        decreases loops_iter@.len(),
    {
        let ghost before = loops_iter@;
        match loops_iter.next() {
            None => {
                proof {
                    assert(all_loops(before) =~= Seq::<Seq<Edge>>::empty());
                    assert(done + Seq::<Seq<Edge>>::empty() =~= done);
                }
                break;
            },
            Some(loop_iter) => {
                proof {
                    lemma_all_loops_step(before);
                }
                let ghost this_loop = loop_iter@;
                let mut pairs = LoopPairIter::new(loop_iter);
                let ghost start_len = pairs_out@.len();
                loop
                    invariant_except_break
                        pairs_out@ == loops_pairs(done) + loop_pairs(this_loop, 0).subrange(
                            0,
                            this_loop.len() - pairs@.len(),
                        ),
                        pairs@ == loop_pairs(this_loop, 0).subrange(
                            this_loop.len() - pairs@.len(),
                            this_loop.len() as int,
                        ),
                        pairs@.len() <= this_loop.len(),
                    ensures
                        pairs_out@ == loops_pairs(done) + loop_pairs(this_loop, 0),
                    decreases pairs@.len(),
                {
                    let ghost pb = pairs@;
                    match pairs.next() {
                        None => {
                            proof {
                                assert(loop_pairs(this_loop, 0).subrange(
                                    0,
                                    this_loop.len() as int,
                                ) =~= loop_pairs(this_loop, 0));
                            }
                            break;
                        },
                        Some(pair) => {
                            pairs_out.push(pair);
                            proof {
                                let lp = loop_pairs(this_loop, 0);
                                let used = this_loop.len() - pb.len();
                                assert(pair == lp[used]);
                                assert(lp.subrange(0, used + 1) =~= lp.subrange(0, used).push(
                                    lp[used],
                                ));
                                assert(pairs@ =~= lp.subrange(used + 1, this_loop.len() as int));
                            }
                        },
                    }
                }
                proof {
                    let nd = done.push(this_loop);
                    assert(loops_pairs(seq![this_loop]) =~= loop_pairs(this_loop, 0)) by {
                        assert(seq![this_loop].drop_first() =~= Seq::<Seq<Edge>>::empty());
                        assert(loops_pairs(Seq::<Seq<Edge>>::empty()) == Seq::<(Edge, Edge)>::empty());
                        assert(loop_pairs(this_loop, 0) + Seq::<(Edge, Edge)>::empty() =~= loop_pairs(
                            this_loop,
                            0,
                        ));
                    }
                    lemma_loops_pairs_append(done, seq![this_loop]);
                    assert(done + seq![this_loop] =~= nd);
                    assert(nd + all_loops(loops_iter@) =~= done + all_loops(before));
                    done = nd;
                }
            },
        }
    }
    pairs_out
}

/// The pairs of two runs of loops, one after the other.
proof fn lemma_loops_pairs_append(a: Seq<Seq<Edge>>, b: Seq<Seq<Edge>>)
    ensures
        loops_pairs(a + b) == loops_pairs(a) + loops_pairs(b),
    decreases a.len(),
{
    if a.len() == 0 {
        assert(a + b =~= b);
        assert(Seq::<(Edge, Edge)>::empty() + loops_pairs(b) =~= loops_pairs(b));
    } else {
        lemma_loops_pairs_append(a.drop_first(), b);
        assert((a + b).drop_first() =~= a.drop_first() + b);
        assert((a + b)[0] == a[0]);
    }
}

/// The four corners of a block's rectangle, clockwise from the top left.
pub open spec fn corner_points(block: (u64, u64), b: u64) -> Seq<CellCoords> {
    let tl = top_left_of(block, b);
    let br = bottom_right_of(block, b);
    seq![tl, CellCoords { x: br.x, y: tl.y }, br, CellCoords { x: tl.x, y: br.y }]
}

/// The corners of all the blocks, block after block.
pub open spec fn all_corner_points(blocks: Seq<(u64, u64)>, b: u64) -> Seq<CellCoords>
    decreases blocks.len(),
{
    if blocks.len() == 0 {
        Seq::empty()
    } else {
        all_corner_points(blocks.drop_last(), b) + corner_points(blocks.last(), b)
    }
}

/// How many times `p` occurs in `s`.
pub open spec fn occurrences(s: Seq<CellCoords>, p: CellCoords) -> nat
    decreases s.len(),
{
    if s.len() == 0 {
        0
    } else {
        occurrences(s.drop_last(), p) + if s.last() == p {
            1nat
        } else {
            0nat
        }
    }
}

/// The corner points of the outline of the union of `blocks`: each point that is
/// a corner of an odd number of the blocks' rectangles, once.
pub fn range_border_corner_points(blocks: &Vec<(u64, u64)>, sub_block_sqrt: u64) -> (r: Vec<
    CellCoords,
>)
    requires
        sub_block_sqrt > 1,
        sub_block_sqrt * sub_block_sqrt <= u64::MAX,
        blocks_ok(blocks@),
    ensures
        r@.no_duplicates(),
        forall|p: CellCoords|
            r@.contains(p) <==> occurrences(all_corner_points(blocks@, sub_block_sqrt), p) % 2
                == 1,
{
    let mut points: Vec<CellCoords> = Vec::new();
    let mut i: usize = 0;
    while i < blocks.len()
        invariant
            sub_block_sqrt > 1,
            sub_block_sqrt * sub_block_sqrt <= u64::MAX,
            blocks_ok(blocks@),
            i <= blocks@.len(),
            points@.no_duplicates(),
            forall|p: CellCoords|
                points@.contains(p) <==> occurrences(
                    all_corner_points(blocks@.subrange(0, i as int), sub_block_sqrt),
                    p,
                ) % 2 == 1,
        decreases blocks.len() - i,
    {
        let (index, count) = blocks[i];
        let (top_left, bottom_right) = range_block_corners(index, count, sub_block_sqrt);
        let top_right = CellCoords { x: bottom_right.x, y: top_left.y };
        let bottom_left = CellCoords { x: top_left.x, y: bottom_right.y };
        let vertices = [top_left, top_right, bottom_right, bottom_left];
        let ghost before = all_corner_points(blocks@.subrange(0, i as int), sub_block_sqrt);
        proof {
            let pre = blocks@.subrange(0, i + 1);
            assert(pre.drop_last() =~= blocks@.subrange(0, i as int));
            assert(pre.last() == blocks@[i as int]);
            assert(vertices@ =~= corner_points(blocks@[i as int], sub_block_sqrt));
        }
        let mut j: usize = 0;
        while j < 4
            invariant
                j <= 4,
                vertices@.len() == 4,
                points@.no_duplicates(),
                forall|p: CellCoords|
                    points@.contains(p) <==> occurrences(
                        before + vertices@.subrange(0, j as int),
                        p,
                    ) % 2 == 1,
            decreases 4 - j,
        {
            let vertex = vertices[j];
            let ghost seen = before + vertices@.subrange(0, j as int);
            proof {
                assert((before + vertices@.subrange(0, j + 1)).drop_last() =~= seen);
                assert((before + vertices@.subrange(0, j + 1)).last() == vertex);
            }
            toggle_point(&mut points, vertex);
            proof {
                assert forall|p: CellCoords| points@.contains(p) <==> occurrences(
                    before + vertices@.subrange(0, j + 1),
                    p,
                ) % 2 == 1 by {
                    if p == vertex {
                    } else {
                    }
                }
            }
            j = j + 1;
        }
        proof {
            assert(vertices@.subrange(0, 4) =~= vertices@);
        }
        i = i + 1;
    }
    proof {
        assert(blocks@.subrange(0, blocks@.len() as int) =~= blocks@);
    }
    points
}

/// Removes `p` from `points` where it is there, else adds it.
fn toggle_point(points: &mut Vec<CellCoords>, p: CellCoords)
    requires
        old(points)@.no_duplicates(),
    ensures
        final(points)@.no_duplicates(),
        final(points)@.contains(p) <==> !old(points)@.contains(p),
        forall|q: CellCoords| q != p ==> (final(points)@.contains(q) <==> old(points)@.contains(q)),
{
    let mut k: usize = 0;
    while k < points.len()
        invariant
            points@ == old(points)@,
            old(points)@.no_duplicates(),
            k <= points@.len(),
            forall|i: int| 0 <= i < k ==> points@[i] != p,
        decreases points.len() - k,
    {
        if points[k] == p {
            let ghost before = points@;
            points.remove(k);
            proof {
                assert forall|q: CellCoords| q != p implies (points@.contains(q)
                    <==> before.contains(q)) by {
                    if before.contains(q) {
                        let i = choose|i: int| 0 <= i < before.len() && before[i] == q;
                        if i < k {
                            assert(points@[i] == q);
                        } else {
                            assert(i != k);
                            assert(points@[i - 1] == q);
                        }
                    }
                }
                assert(!points@.contains(p)) by {
                    if points@.contains(p) {
                        let i = choose|i: int| 0 <= i < points@.len() && points@[i] == p;
                        if i < k {
                            assert(before[i] == p);
                        } else {
                            assert(points@[i] == before[i + 1]);
                            assert(before[k as int] == p);
                        }
                    }
                }
                assert(points@.no_duplicates()) by {
                    assert forall|i: int, j: int|
                        0 <= i < points@.len() && 0 <= j < points@.len() && i != j implies points@[i]
                        != points@[j] by {
                        let oi = if i < k { i } else { i + 1 };
                        let oj = if j < k { j } else { j + 1 };
                        assert(points@[i] == before[oi]);
                        assert(points@[j] == before[oj]);
                    }
                }
            }
            return;
        }
        k = k + 1;
    }
    let ghost before = points@;
    points.push(p);
    proof {
        assert(points@[before.len() as int] == p);
        assert(!before.contains(p));
        assert(points@.no_duplicates()) by {
            assert forall|i: int, j: int|
                0 <= i < points@.len() && 0 <= j < points@.len() && i != j implies points@[i]
                != points@[j] by {
                if i < before.len() && j < before.len() {
                    assert(points@[i] == before[i] && points@[j] == before[j]);
                } else if i < before.len() {
                    assert(points@[i] == before[i]);
                } else {
                    assert(points@[j] == before[j]);
                }
            }
        }
        assert forall|q: CellCoords| q != p implies (points@.contains(q) <==> before.contains(q)) by {
            if points@.contains(q) {
                let i = choose|i: int| 0 <= i < points@.len() && points@[i] == q;
                assert(i < before.len());
                assert(before[i] == q);
            }
            if before.contains(q) {
                let i = choose|i: int| 0 <= i < before.len() && before[i] == q;
                assert(points@[i] == q);
            }
        }
    }
}

} // verus!
