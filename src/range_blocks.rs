//! Range blocks: square, recursively subdivided views of contiguous byte ranges.
use vstd::prelude::*;

verus! {

/// The byte size of a range block at `level`: `b^(2 * level)`.
pub open spec fn block_size(level: nat, b: int) -> int
    decreases level,
{
    if level == 0 {
        1
    } else {
        b * b * block_size((level - 1) as nat, b)
    }
}

/// Every block size is at least one, and sizes grow with the level.
pub proof fn lemma_block_size_monotone(i: nat, j: nat, b: int)
    requires
        b > 1,
        i <= j,
    ensures
        1 <= block_size(i, b) <= block_size(j, b),
    decreases j,
{
    if j > 0 {
        let s = block_size((j - 1) as nat, b);
        if j > i {
            lemma_block_size_monotone(i, (j - 1) as nat, b);
        } else {
            lemma_block_size_monotone((j - 1) as nat, (j - 1) as nat, b);
        }
        assert(s < b * b * s) by (nonlinear_arith)
            requires
                b > 1,
                s >= 1,
        ;
    }
}

/// Block sizes grow strictly with the level.
pub proof fn lemma_block_size_strict(i: nat, j: nat, b: int)
    requires
        b > 1,
        i < j,
    ensures
        block_size(i, b) < block_size(j, b),
{
    lemma_block_size_monotone(i, (j - 1) as nat, b);
    let s = block_size((j - 1) as nat, b);
    assert(s < b * b * s) by (nonlinear_arith)
        requires
            b > 1,
            s >= 1,
    ;
}

/// The byte size of a range block at a recursion level.
pub fn range_block_size(recursion_level: u32, sub_block_sqrt: u64) -> (r: u64)
    requires
        sub_block_sqrt > 1,
        block_size(recursion_level as nat, sub_block_sqrt as int) <= u64::MAX,
    ensures
        r == block_size(recursion_level as nat, sub_block_sqrt as int),
{
    let mut size: u64 = 1;
    let mut i: u32 = 0;
    while i < recursion_level
        invariant
            i <= recursion_level,
            sub_block_sqrt > 1,
            size == block_size(i as nat, sub_block_sqrt as int),
            block_size(recursion_level as nat, sub_block_sqrt as int) <= u64::MAX,
        decreases recursion_level - i,
    {
        proof {
            lemma_block_size_monotone(i as nat, (i + 1) as nat, sub_block_sqrt as int);
            lemma_block_size_monotone((i + 1) as nat, recursion_level as nat, sub_block_sqrt as int);
        }
        assert(block_size((i + 1) as nat, sub_block_sqrt as int) == sub_block_sqrt * sub_block_sqrt
            * size);
        assert(size * sub_block_sqrt <= size * sub_block_sqrt * sub_block_sqrt
            && size * sub_block_sqrt * sub_block_sqrt == sub_block_sqrt * sub_block_sqrt * size)
            by (nonlinear_arith)
            requires
                sub_block_sqrt > 1,
                size >= 1,
        ;
        size = size * sub_block_sqrt * sub_block_sqrt;
        i = i + 1;
    }
    size
}


/// Integer coordinates of cells and range block corners in the two-dimensional
/// layout. A cell is a single-byte block of nominal size 1x1.
#[derive(Debug, Clone, Copy, PartialEq, Eq, Structural, Hash)]
pub struct CellCoords {
    pub x: u64,
    pub y: u64,
}

/// The grid position of the cell of byte `index`: each base-`b^2` digit of
/// `index` picks a column and a row inside a block, at successively coarser
/// scales.
pub open spec fn cell_of(index: nat, b: nat) -> (nat, nat)
    decreases index,
{
    if index == 0 || b < 2 || index / b / b >= index {
        (0, 0)
    } else {
        let up = cell_of(index / b / b, b);
        (index % b + b * up.0, (index / b) % b + b * up.1)
    }
}

/// Dividing a positive number twice by at least two makes it smaller.
pub proof fn lemma_div_twice_smaller(index: nat, b: nat)
    requires
        b >= 2,
        index > 0,
    ensures
        index / b / b < index,
        index / b < index,
{
    vstd::arithmetic::div_mod::lemma_div_decreases(index as int, b as int);
    assert(index / b / b <= index / b) by (nonlinear_arith)
        requires
            b >= 2,
    ;
}

/// One step of the position, stated for every index including zero.
proof fn lemma_cell_of_unfold(index: nat, b: nat)
    requires
        b >= 2,
    ensures
        cell_of(index, b).0 == index % b + b * cell_of(index / b / b, b).0,
        cell_of(index, b).1 == (index / b) % b + b * cell_of(index / b / b, b).1,
        index % b < b,
        (index / b) % b < b,
{
    if index == 0 {
        assert(0nat / b == 0 && 0nat % b == 0 && b * 0 == 0) by (nonlinear_arith)
            requires
                b >= 2,
        ;
        assert(cell_of(0, b) == (0nat, 0nat));
    } else {
        lemma_div_twice_smaller(index, b);
        let up = cell_of(index / b / b, b);
        assert(cell_of(index, b) == (index % b + b * up.0, (index / b) % b + b * up.1));
    }
}

/// Distinct byte offsets never share a cell: the layout is injective.
pub proof fn lemma_cell_offset_injective(i: nat, j: nat, b: nat)
    requires
        b > 1,
        cell_of(i, b) == cell_of(j, b),
    ensures
        i == j,
    decreases i + j,
{
    if i != 0 || j != 0 {
        lemma_cell_of_unfold(i, b);
        lemma_cell_of_unfold(j, b);
        let ci = cell_of(i / b / b, b);
        let cj = cell_of(j / b / b, b);
        let (ri, rj) = (i % b, j % b);
        let (qi, qj) = ((i / b) % b, (j / b) % b);
        assert(ri == rj && ci.0 == cj.0) by (nonlinear_arith)
            requires
                ri + b * ci.0 == rj + b * cj.0,
                ri < b,
                rj < b,
                b > 1,
        ;
        assert(qi == qj && ci.1 == cj.1) by (nonlinear_arith)
            requires
                qi + b * ci.1 == qj + b * cj.1,
                qi < b,
                qj < b,
                b > 1,
        ;
        if i != 0 {
            lemma_div_twice_smaller(i, b);
        } else {
            assert(0nat / b / b == 0);
        }
        if j != 0 {
            lemma_div_twice_smaller(j, b);
        } else {
            assert(0nat / b / b == 0);
        }
        lemma_cell_offset_injective(i / b / b, j / b / b, b);
        vstd::arithmetic::div_mod::lemma_fundamental_div_mod((i / b) as int, b as int);
        vstd::arithmetic::div_mod::lemma_fundamental_div_mod((j / b) as int, b as int);
        vstd::arithmetic::div_mod::lemma_fundamental_div_mod(i as int, b as int);
        vstd::arithmetic::div_mod::lemma_fundamental_div_mod(j as int, b as int);
    }
}

proof fn lemma_product_bound(a: int, c: int, m: int)
    requires
        0 <= a,
        0 <= c,
        a * a <= m,
        c * c <= m,
    ensures
        a * c <= m,
{
    if a <= c {
        assert(a * c <= c * c) by (nonlinear_arith)
            requires
                0 <= a <= c,
        ;
    } else {
        assert(a * c <= a * a) by (nonlinear_arith)
            requires
                0 <= c < a,
        ;
    }
}

/// The `CellCoords` of the minimum (top-left) corner of the `index` byte's cell.
pub fn get_cell_offset(index: u64, sub_block_sqrt: u64) -> (r: CellCoords)
    requires
        sub_block_sqrt > 1,
        sub_block_sqrt * sub_block_sqrt <= u64::MAX,
    ensures
        (r.x as nat, r.y as nat) == cell_of(index as nat, sub_block_sqrt as nat),
        r.x < u64::MAX,
        r.y < u64::MAX,
{
    let b = sub_block_sqrt;
    let mut x: u64 = 0;
    let mut y: u64 = 0;
    let mut rest = index;
    let mut scale: u64 = 1;
    assert(scale * scale * rest == rest) by (nonlinear_arith)
        requires
            scale == 1,
    ;

    while rest > 0
        invariant
            b > 1,
            b * b <= u64::MAX,
            1 <= scale,
            x < scale,
            y < scale,
            scale * scale * rest <= index,
            x + scale * cell_of(rest as nat, b as nat).0 == cell_of(index as nat, b as nat).0,
            y + scale * cell_of(rest as nat, b as nat).1 == cell_of(index as nat, b as nat).1,
        decreases rest,
    {
        proof {
            lemma_cell_of_unfold(rest as nat, b as nat);
            lemma_div_twice_smaller(rest as nat, b as nat);
            assert(scale * scale <= u64::MAX) by (nonlinear_arith)
                requires
                    scale * scale * rest <= index,
                    rest >= 1,
                    index <= u64::MAX,
                    scale >= 1,
            ;
            lemma_product_bound(scale as int, b as int, u64::MAX as int);
        }
        let column = rest % b;
        let row = (rest / b) % b;
        let next_rest = rest / b / b;
        proof {
            assert(x + column * scale < b * scale && y + row * scale < b * scale)
                by (nonlinear_arith)
                requires
                    x < scale,
                    y < scale,
                    column < b,
                    row < b,
            ;
            let up = cell_of(next_rest as nat, b as nat);
            assert(x + column * scale + (scale * b) * up.0 == x + scale * (column + b * up.0))
                by (nonlinear_arith);
            assert(y + row * scale + (scale * b) * up.1 == y + scale * (row + b * up.1))
                by (nonlinear_arith);
            vstd::arithmetic::div_mod::lemma_fundamental_div_mod(rest as int, b as int);
            vstd::arithmetic::div_mod::lemma_fundamental_div_mod((rest / b) as int, b as int);
            assert(b * next_rest <= rest / b && b * (rest / b) <= rest);
            assert((scale * b) * (scale * b) * next_rest <= scale * scale * rest)
                by (nonlinear_arith)
                requires
                    b * next_rest <= rest / b,
                    b * (rest / b) <= rest,
                    b > 1,
                    scale >= 1,
            ;
        }
        x = x + column * scale;
        y = y + row * scale;
        rest = next_rest;
        scale = scale * b;
    }
    assert(cell_of(0, b as nat) == (0nat, 0nat));
    let ghost last = cell_of(rest as nat, b as nat);
    assert(last == (0nat, 0nat));
    assert(scale * last.0 == 0 && scale * last.1 == 0) by (nonlinear_arith)
        requires
            last.0 == 0,
            last.1 == 0,
    ;
    CellCoords { x, y }
}

/// Calculate the top-left and bottom-right corners of a range block.
/// The bottom-right corner is exclusive: it is one past the last cell in both axes.
/// `index` and `count` should name a real square range block; otherwise the
/// corners are those of the first and the last cell and may not bound the range.
pub fn range_block_corners(index: u64, count: u64, sub_block_sqrt: u64) -> (r: (
    CellCoords,
    CellCoords,
))
    requires
        sub_block_sqrt > 1,
        sub_block_sqrt * sub_block_sqrt <= u64::MAX,
        count >= 1,
        index + count - 1 <= u64::MAX,
    ensures
        (r.0.x as nat, r.0.y as nat) == cell_of(index as nat, sub_block_sqrt as nat),
        ((r.1.x - 1) as nat, (r.1.y - 1) as nat) == cell_of(
            (index + count - 1) as nat,
            sub_block_sqrt as nat,
        ),
        r.1.x >= 1,
        r.1.y >= 1,
{
    let top_left = get_cell_offset(index, sub_block_sqrt);
    let last = get_cell_offset(index + (count - 1), sub_block_sqrt);
    let bottom_right = CellCoords { x: last.x + 1, y: last.y + 1 };
    (top_left, bottom_right)
}

/// Four to the power 32 no longer fits in a `u64`.
pub proof fn lemma_level_bound(l: nat)
    requires
        l >= 32,
    ensures
        block_size(l, 2) > u64::MAX,
{
    reveal_with_fuel(block_size, 33);
    assert(block_size(32, 2) == 0x1_0000_0000_0000_0000int);
    lemma_block_size_monotone(32, l, 2);
}

/// Blocks over base four grow no faster than those over a larger base.
pub proof fn lemma_block_size_base(l: nat, b: int)
    requires
        b >= 2,
    ensures
        block_size(l, 2) <= block_size(l, b),
    decreases l,
{
    if l > 0 {
        lemma_block_size_base((l - 1) as nat, b);
        lemma_block_size_monotone(0, (l - 1) as nat, 2);
        let s2 = block_size((l - 1) as nat, 2);
        let sb = block_size((l - 1) as nat, b);
        assert(2 * 2 * s2 <= b * b * sb) by (nonlinear_arith)
            requires
                0 <= s2 <= sb,
                b >= 2,
        ;
    }
}

/// The maximum recursion level needed for this data length:
/// the lowest recursion level whose blocks hold at least `data_len` cells.
pub fn max_recursion_level(data_len: u64, sub_block_sqrt: u64) -> (r: u32)
    requires
        sub_block_sqrt > 1,
    ensures
        block_size(r as nat, sub_block_sqrt as int) >= data_len,
        r == 0 || block_size((r - 1) as nat, sub_block_sqrt as int) < data_len,
{
    let b = sub_block_sqrt;
    let mut level: u32 = 0;
    let mut size: u64 = 1;
    while size < data_len
        invariant
            b > 1,
            b == sub_block_sqrt,
            size == block_size(level as nat, b as int),
            block_size(level as nat, 2) <= size,
            level == 0 || block_size((level - 1) as nat, b as int) < data_len,
        decreases u64::MAX - size,
    {
        proof {
            lemma_block_size_monotone(0, level as nat, b as int);
            if level >= 32 {
                lemma_level_bound(level as nat);
            }
            assert(block_size((level + 1) as nat, b as int) == b * b * size);
            assert(block_size((level + 1) as nat, 2) == 2 * 2 * block_size(level as nat, 2));
            assert(size < size * b && size * b < size * b * b && size * b * b == b * b * size
                && 2 * 2 * block_size(level as nat, 2) <= b * b * size) by (nonlinear_arith)
                requires
                    b > 1,
                    size >= 1,
                    block_size(level as nat, 2) <= size,
            ;
        }
        match size.checked_mul(b) {
            None => {
                assert(b * b * size > u64::MAX);
                return level + 1;
            },
            Some(s1) => {
                assert(s1 == size * b);
                assert(s1 * b == size * b * b) by (nonlinear_arith)
                    requires
                        s1 == size * b,
                ;
                match s1.checked_mul(b) {
                    None => {
                        return level + 1;
                    },
                    Some(s2) => {
                        size = s2;
                        level = level + 1;
                    },
                }
            },
        }
    }
    level
}

/// Whether the block at `level` that starts at `index` is aligned and ends by `limit`.
pub open spec fn fits(index: int, limit: int, level: nat, b: int) -> bool {
    index % block_size(level, b) == 0 && index + block_size(level, b) <= limit
}

/// The highest level, at most `m`, whose block starting at `index` fits before `limit`
/// (level zero where none does).
pub open spec fn largest_fit_level(index: int, limit: int, m: nat, b: int) -> nat
    decreases m,
{
    if m == 0 || fits(index, limit, m, b) {
        m
    } else {
        largest_fit_level(index, limit, (m - 1) as nat, b)
    }
}

/// The level chosen is at most `m`, it fits whenever any block fits, and no higher
/// level up to `m` fits.
pub proof fn lemma_largest_fit_level(index: int, limit: int, m: nat, b: int)
    requires
        b > 1,
        0 <= index < limit,
    ensures
        largest_fit_level(index, limit, m, b) <= m,
        fits(index, limit, largest_fit_level(index, limit, m, b), b),
        forall|l: nat|
            largest_fit_level(index, limit, m, b) < l <= m ==> !fits(index, limit, l, b),
    decreases m,
{
    if m > 0 && !fits(index, limit, m, b) {
        lemma_largest_fit_level(index, limit, (m - 1) as nat, b);
    }
    assert(block_size(0, b) == 1);
}

/// Find the largest (highest recursion level, at most `max_recursion_level`)
/// range block that starts at `index` and ends by `limit_index`.
pub fn next_complete_largest_range_block(
    index: u64,
    limit_index: u64,
    max_recursion_level: u32,
    sub_block_sqrt: u64,
) -> (r: Option<(u64, u64)>)
    requires
        sub_block_sqrt > 1,
        block_size(max_recursion_level as nat, sub_block_sqrt as int) <= u64::MAX,
    ensures
        index >= limit_index ==> r is None,
        index < limit_index ==> r == Some(
            (
                index,
                block_size(
                    largest_fit_level(
                        index as int,
                        limit_index as int,
                        max_recursion_level as nat,
                        sub_block_sqrt as int,
                    ),
                    sub_block_sqrt as int,
                ) as u64,
            ),
        ),
{
    let ghost m = max_recursion_level as nat;
    let ghost b = sub_block_sqrt as int;
    let mut level = max_recursion_level;
    loop
        invariant
            level <= max_recursion_level,
            sub_block_sqrt > 1,
            block_size(max_recursion_level as nat, b) <= u64::MAX,
            b == sub_block_sqrt,
            m == max_recursion_level,
            index < limit_index ==> largest_fit_level(index as int, limit_index as int, m, b)
                == largest_fit_level(index as int, limit_index as int, level as nat, b),
        decreases level,
    {
        proof {
            lemma_block_size_monotone(level as nat, m, b);
        }
        let size = range_block_size(level, sub_block_sqrt);
        if index <= limit_index && index % size == 0 && size <= limit_index - index {
            return Some((index, size));
        }
        if level == 0 {
            assert(block_size(0, b) == 1);
            return None;
        }
        level = level - 1;
    }
}

/// The tiling of `[start, limit)` by the largest complete blocks, left to right.
pub open spec fn complete_tiling(start: int, limit: int, m: nat, b: int) -> Seq<(int, int)>
    decreases limit - start,
{
    let size = block_size(largest_fit_level(start, limit, m, b), b);
    if start >= limit || size < 1 || start + size > limit {
        Seq::empty()
    } else {
        seq![(start, size)] + complete_tiling(start + size, limit, m, b)
    }
}

/// The total length of a sequence of blocks.
pub open spec fn total_length(blocks: Seq<(int, int)>) -> int
    decreases blocks.len(),
{
    if blocks.len() == 0 {
        0
    } else {
        blocks[0].1 + total_length(blocks.drop_first())
    }
}

/// The largest-complete-block tiling of `[start, limit)` is contiguous, starts at
/// `start`, ends exactly at `limit`, has total length `limit - start`, and each of
/// its blocks is aligned, of a level at most `m`, and the largest such block that
/// fits where it starts.
pub proof fn lemma_complete_tiling(start: int, limit: int, m: nat, b: int)
    requires
        b > 1,
        0 <= start,
    ensures
        ({
            let t = complete_tiling(start, limit, m, b);
            &&& start >= limit ==> t.len() == 0
            &&& start < limit ==> t.len() > 0 && t[0].0 == start && t.last().0 + t.last().1
                == limit
            &&& forall|k: int| 0 <= k < t.len() - 1 ==> #[trigger] t[k].0 + t[k].1 == t[k + 1].0
            &&& forall|k: int|
                0 <= k < t.len() ==> {
                    let level = largest_fit_level(t[k].0, limit, m, b);
                    &&& level <= m
                    &&& #[trigger] t[k].1 == block_size(level, b)
                    &&& t[k].1 >= 1
                    &&& t[k].0 % t[k].1 == 0
                    &&& forall|l: nat|
                        l <= m && fits(t[k].0, limit, l, b) ==> block_size(l, b) <= t[k].1
                }
            &&& total_length(t) == if start < limit {
                limit - start
            } else {
                0
            }
        }),
    decreases limit - start,
{
    let t = complete_tiling(start, limit, m, b);
    if start < limit {
        lemma_largest_fit_level(start, limit, m, b);
        let level = largest_fit_level(start, limit, m, b);
        let size = block_size(level, b);
        lemma_block_size_monotone(0, level, b);
        let rest = complete_tiling(start + size, limit, m, b);
        lemma_complete_tiling(start + size, limit, m, b);
        assert(t == seq![(start, size)] + rest);
        assert(t.drop_first() =~= rest);
        assert forall|l: nat| l <= m && fits(start, limit, l, b) implies block_size(l, b)
            <= size by {
            if l > level {
            } else {
                lemma_block_size_monotone(l, level, b);
            }
        }
        assert forall|k: int| 0 <= k < t.len() - 1 implies #[trigger] t[k].0 + t[k].1 == t[k
            + 1].0 by {
            if k > 0 {
                assert(t[k] == rest[k - 1]);
                assert(t[k + 1] == rest[k]);
            }
        }
        assert forall|k: int| 0 < k < t.len() implies t[k] == rest[k - 1] by {}
        if rest.len() > 0 {
            assert(t.last() == rest.last());
        }
    }
}

/// Produces the largest range blocks that fill a range, left to right.
/// Uses `next_complete_largest_range_block`: see it for more details.
pub struct CompleteLargestRangeBlockIterator {
    search_start_index: u64,
    search_end_index: u64,
    max_recursion_level: u32,
    sub_block_sqrt: u64,
}

impl View for CompleteLargestRangeBlockIterator {
    /// The blocks that are still to come.
    type V = Seq<(int, int)>;

    closed spec fn view(&self) -> Seq<(int, int)> {
        complete_tiling(
            self.search_start_index as int,
            self.search_end_index as int,
            self.max_recursion_level as nat,
            self.sub_block_sqrt as int,
        )
    }
}

impl CompleteLargestRangeBlockIterator {
    /// The configuration is one that `next_complete_largest_range_block` accepts.
    pub closed spec fn wf(&self) -> bool {
        &&& self.sub_block_sqrt > 1
        &&& block_size(self.max_recursion_level as nat, self.sub_block_sqrt as int) <= u64::MAX
    }

    /// Tiles `[search_start_index, search_end_index)`.
    pub fn new(
        search_start_index: u64,
        search_end_index: u64,
        max_recursion_level: u32,
        sub_block_sqrt: u64,
    ) -> (r: Self)
        requires
            sub_block_sqrt > 1,
            block_size(max_recursion_level as nat, sub_block_sqrt as int) <= u64::MAX,
        ensures
            r.wf(),
            r@ == complete_tiling(
                search_start_index as int,
                search_end_index as int,
                max_recursion_level as nat,
                sub_block_sqrt as int,
            ),
    {
        Self { search_start_index, search_end_index, max_recursion_level, sub_block_sqrt }
    }

    /// The next block of the tiling, if any is left.
    pub fn next(&mut self) -> (r: Option<(u64, u64)>)
        requires
            old(self).wf(),
        ensures
            final(self).wf(),
            old(self)@.len() == 0 ==> r is None && final(self)@ == old(self)@,
            old(self)@.len() > 0 ==> r == Some((old(self)@[0].0 as u64, old(self)@[0].1 as u64))
                && final(self)@ == old(self)@.drop_first(),
    {
        let ghost start = self.search_start_index as int;
        let ghost limit = self.search_end_index as int;
        let ghost m = self.max_recursion_level as nat;
        let ghost b = self.sub_block_sqrt as int;
        match next_complete_largest_range_block(
            self.search_start_index,
            self.search_end_index,
            self.max_recursion_level,
            self.sub_block_sqrt,
        ) {
            Some((index, count)) => {
                proof {
                    lemma_largest_fit_level(start, limit, m, b);
                    lemma_block_size_monotone(0, largest_fit_level(start, limit, m, b), b);
                    let t = complete_tiling(start, limit, m, b);
                    assert(t == seq![(start, count as int)] + complete_tiling(
                        start + count,
                        limit,
                        m,
                        b,
                    ));
                    assert(t.drop_first() =~= complete_tiling(start + count, limit, m, b));
                }
                self.search_start_index = index + count;
                Some((index, count))
            },
            None => None,
        }
    }
}

/// `s` rounded up to a multiple of `a`.
pub open spec fn round_up(s: int, a: int) -> int {
    if s % a == 0 {
        s
    } else {
        s - s % a + a
    }
}

/// The highest level from `t` to `m` whose blocks align with offset `a`
/// (`t` itself where none above it does).
pub open spec fn top_aligned_level(a: int, t: nat, m: nat, b: int) -> nat
    decreases m,
{
    if m <= t || a % block_size(m, b) == 0 {
        m
    } else {
        top_aligned_level(a, t, (m - 1) as nat, b)
    }
}

/// A test of which range blocks a search visits: a rejected block is skipped
/// whole. The answer depends on the block alone.
pub trait BlockFilter {
    /// Whether the block `(index, count)` passes.
    spec fn spec_accepts(&self, index: u64, count: u64) -> bool;

    fn accepts(&self, index: u64, count: u64) -> (r: bool)
        ensures
            r == self.spec_accepts(index, count),
    ;
}

/// The filter that passes every block.
#[derive(Debug, Clone, Copy, PartialEq, Eq)]
pub struct AcceptAll;

impl BlockFilter for AcceptAll {
    open spec fn spec_accepts(&self, index: u64, count: u64) -> bool {
        true
    }

    fn accepts(&self, index: u64, count: u64) -> (r: bool) {
        true
    }
}

/// Whether the filter `f` passes the block `(index, count)`.
pub open spec fn accepts<F: BlockFilter>(f: F, index: int, count: int) -> bool {
    f.spec_accepts(index as u64, count as u64)
}

/// The next block at level `t` found from offset `s` below `n`, where each
/// largest block co-aligned with the next candidate, up to level `m`, is first
/// tested with `f`: rejected blocks are skipped whole, accepted coarser ones are
/// descended into.
pub open spec fn next_block<F: BlockFilter>(
    s: int,
    n: int,
    t: nat,
    m: nat,
    b: int,
    f: F,
) -> Option<(int, int)>
    decreases
            (if s < n {
                n - s
            } else {
                0
            }),
            m,
{
    let size_t = block_size(t, b);
    let a = round_up(s, size_t);
    if b < 2 || size_t < 1 || a >= n || a < s {
        None
    } else {
        let l = top_aligned_level(a, t, m, b);
        let size_l = block_size(l, b);
        if accepts(f, a, size_l) {
            if l <= t {
                Some((a, size_t))
            } else if m == 0 {
                None
            } else {
                next_block(s, n, t, (m - 1) as nat, b, f)
            }
        } else if size_l < 1 {
            None
        } else {
            next_block(a + size_l, n, t, m, b, f)
        }
    }
}

/// An exec result read as integers.
pub open spec fn as_int_block(r: Option<(u64, u64)>) -> Option<(int, int)> {
    match r {
        Some((i, c)) => Some((i as int, c as int)),
        None => None,
    }
}

proof fn lemma_round_up(s: int, a: int)
    requires
        s >= 0,
        a >= 1,
    ensures
        s <= round_up(s, a) < s + a,
        round_up(s, a) % a == 0,
{
    vstd::arithmetic::div_mod::lemma_fundamental_div_mod(s, a);
    if s % a != 0 {
        vstd::arithmetic::div_mod::lemma_mod_multiples_vanish(1, s - s % a, a);
        vstd::arithmetic::div_mod::lemma_mod_multiples_vanish(s / a, 0, a);
        assert((s - s % a) == a * (s / a));
        assert((a * (s / a)) % a == 0) by (nonlinear_arith)
            requires
                a >= 1,
        ;
        assert((a * (s / a) + a) % a == 0) by (nonlinear_arith)
            requires
                a >= 1,
        ;
    }
}

proof fn lemma_top_aligned_level(a: int, t: nat, m: nat, b: int)
    requires
        t <= m,
    ensures
        t <= top_aligned_level(a, t, m, b) <= m,
        top_aligned_level(a, t, m, b) > t ==> a % block_size(top_aligned_level(a, t, m, b), b)
            == 0,
    decreases m,
{
    if m > t && a % block_size(m, b) != 0 {
        lemma_top_aligned_level(a, t, (m - 1) as nat, b);
    }
}

/// Any block found starts at or after `s`, below `n`, is aligned and has the
/// size of level `t`; nothing is found from an offset at or past `n`.
pub proof fn lemma_next_block_bounds<F: BlockFilter>(
    s: int,
    n: int,
    t: nat,
    m: nat,
    b: int,
    f: F,
)
    requires
        b > 1,
        s >= 0,
    ensures
        s >= n ==> next_block(s, n, t, m, b, f) is None,
        next_block(s, n, t, m, b, f) matches Some((i, c)) ==> s <= i < n && c == block_size(t, b)
            && c >= 1 && i % c == 0,
    decreases
            (if s < n {
                n - s
            } else {
                0
            }),
            m,
{
    let size_t = block_size(t, b);
    lemma_block_size_monotone(0, t, b);
    lemma_round_up(s, size_t);
    let a = round_up(s, size_t);
    if a < n {
        let l = top_aligned_level(a, t, m, b);
        let size_l = block_size(l, b);
        lemma_block_size_monotone(0, l, b);
        if accepts(f, a, size_l) {
            if l > t && m > 0 {
                lemma_next_block_bounds(s, n, t, (m - 1) as nat, b, f);
            }
        } else {
            lemma_next_block_bounds(a + size_l, n, t, m, b, f);
        }
    }
}

/// Finds the next range block at the target recursion level. Range blocks at or above
/// `target_recursion_level` that are encountered during the search are tested with
/// `fn_filter`: if it returns `false`, the entire range block is skipped.
///
/// This filter system lets a caller visit only the range blocks that it can see.
pub fn next_range_block<F: BlockFilter>(
    search_start_index: u64,
    data_len: u64,
    target_recursion_level: u32,
    max_recursion_level: u32,
    sub_block_sqrt: u64,
    fn_filter: &F,
) -> (r: Option<(u64, u64)>)
    requires
        sub_block_sqrt > 1,
        target_recursion_level <= max_recursion_level,
        block_size(max_recursion_level as nat, sub_block_sqrt as int) <= u64::MAX,
    ensures
        as_int_block(r) == next_block(
            search_start_index as int,
            data_len as int,
            target_recursion_level as nat,
            max_recursion_level as nat,
            sub_block_sqrt as int,
            *fn_filter,
        ),
{
    let ghost n = data_len as int;
    let ghost t = target_recursion_level as nat;
    let ghost b = sub_block_sqrt as int;
    let ghost f = *fn_filter;
    let ghost goal = next_block(
        search_start_index as int,
        n,
        t,
        max_recursion_level as nat,
        b,
        f,
    );
    proof {
        lemma_block_size_monotone(target_recursion_level as nat, max_recursion_level as nat, b);
    }
    let mut search = search_start_index;
    let mut ceiling = max_recursion_level;
    let target_alignment = range_block_size(target_recursion_level, sub_block_sqrt);
    loop
        invariant
            sub_block_sqrt > 1,
            b == sub_block_sqrt,
            n == data_len,
            t == target_recursion_level,
            f == *fn_filter,
                target_recursion_level <= ceiling <= max_recursion_level,
            block_size(max_recursion_level as nat, b) <= u64::MAX,
            target_alignment == block_size(t, b),
            next_block(search as int, n, t, ceiling as nat, b, f) == goal,
            goal == next_block(
                search_start_index as int,
                n,
                t,
                max_recursion_level as nat,
                b,
                f,
            ),
        decreases
                (if search < data_len {
                    data_len - search
                } else {
                    0
                }),
                ceiling,
    {
        proof {
            lemma_block_size_monotone(0, t, b);
            lemma_round_up(search as int, target_alignment as int);
        }
        let rem = search % target_alignment;
        assert(rem <= search) by {
            vstd::arithmetic::div_mod::lemma_mod_decreases(search as nat, target_alignment as nat);
        }
        let aligned = if rem == 0 {
            search
        } else {
            match (search - rem).checked_add(target_alignment) {
                Some(v) => v,
                None => {
                    return None;
                },
            }
        };
        assert(aligned == round_up(search as int, target_alignment as int));
        if aligned >= data_len {
            return None;
        }
        let mut level = ceiling;
        loop
            invariant
                sub_block_sqrt > 1,
                b == sub_block_sqrt,
                target_recursion_level <= level <= ceiling <= max_recursion_level,
                block_size(max_recursion_level as nat, b) <= u64::MAX,
                top_aligned_level(aligned as int, t, ceiling as nat, b) == top_aligned_level(
                    aligned as int,
                    t,
                    level as nat,
                    b,
                ),
                t == target_recursion_level,
            ensures
                target_recursion_level <= level <= ceiling,
                top_aligned_level(aligned as int, t, ceiling as nat, b) == level,
            decreases level,
        {
            if level <= target_recursion_level {
                break;
            }
            proof {
                lemma_block_size_monotone(level as nat, max_recursion_level as nat, b);
            }
            if aligned % range_block_size(level, sub_block_sqrt) == 0 {
                break;
            }
            level = level - 1;
        }
        proof {
            lemma_block_size_monotone(level as nat, max_recursion_level as nat, b);
            lemma_block_size_monotone(0, level as nat, b);
        }
        let level_size = range_block_size(level, sub_block_sqrt);
        assert(level == top_aligned_level(aligned as int, t, ceiling as nat, b));
        let accepted = fn_filter.accepts(aligned, level_size);
        assert(accepted == accepts(f, aligned as int, level_size as int));
        assert(goal == if accepted {
            if level <= t {
                Some((aligned as int, target_alignment as int))
            } else {
                next_block(search as int, n, t, (ceiling - 1) as nat, b, f)
            }
        } else {
            next_block(aligned + level_size, n, t, ceiling as nat, b, f)
        });
        if accepted {
            if level == target_recursion_level {
                return Some((aligned, target_alignment));
            }
            ceiling = ceiling - 1;
        } else {
            match aligned.checked_add(level_size) {
                Some(v) => {
                    search = v;
                },
                None => {
                    proof {
                        lemma_next_block_bounds(aligned + level_size, n, t, ceiling as nat, b, f);
                    }
                    return None;
                },
            }
        }
    }
}

/// All blocks that repeated searches from `s` find: after each block the search
/// resumes just past it.
pub open spec fn filtered_blocks<F: BlockFilter>(
    s: int,
    n: int,
    t: nat,
    m: nat,
    b: int,
    f: F,
) -> Seq<(int, int)>
    decreases
            (if s < n {
                n - s
            } else {
                0
            }),
{
    match next_block(s, n, t, m, b, f) {
        Some((i, c)) => if s < n && s < i + c {
            seq![(i, c)] + filtered_blocks(i + c, n, t, m, b, f)
        } else {
            Seq::empty()
        },
        None => Seq::empty(),
    }
}

/// Iterates over range blocks at the target recursion level.
/// Uses `next_range_block`: see it for more details.
pub struct RangeBlockIterator<F: BlockFilter> {
    search_start_index: u64,
    data_len: u64,
    target_recursion_level: u32,
    max_recursion_level: u32,
    sub_block_sqrt: u64,
    fn_filter: F,
}

impl<F: BlockFilter> View for RangeBlockIterator<F> {
    /// The blocks that are still to come.
    type V = Seq<(int, int)>;

    closed spec fn view(&self) -> Seq<(int, int)> {
        filtered_blocks(
            self.search_start_index as int,
            self.data_len as int,
            self.target_recursion_level as nat,
            self.max_recursion_level as nat,
            self.sub_block_sqrt as int,
            self.fn_filter,
        )
    }
}

impl<F: BlockFilter> RangeBlockIterator<F> {
    /// The configuration is one that `next_range_block` accepts.
    pub closed spec fn wf(&self) -> bool {
        &&& self.sub_block_sqrt > 1
        &&& self.target_recursion_level <= self.max_recursion_level
        &&& block_size(self.max_recursion_level as nat, self.sub_block_sqrt as int) <= u64::MAX
    }

    /// Searches from `search_start_index` for blocks below `data_len`.
    pub fn new(
        search_start_index: u64,
        data_len: u64,
        target_recursion_level: u32,
        max_recursion_level: u32,
        sub_block_sqrt: u64,
        fn_filter: F,
    ) -> (r: Self)
        requires
            sub_block_sqrt > 1,
            target_recursion_level <= max_recursion_level,
            block_size(max_recursion_level as nat, sub_block_sqrt as int) <= u64::MAX,
        ensures
            r.wf(),
            r@ == filtered_blocks(
                search_start_index as int,
                data_len as int,
                target_recursion_level as nat,
                max_recursion_level as nat,
                sub_block_sqrt as int,
                fn_filter,
            ),
    {
        Self {
            search_start_index,
            data_len,
            target_recursion_level,
            max_recursion_level,
            sub_block_sqrt,
            fn_filter,
        }
    }

    /// The next block that passes the filter, if any is left.
    pub fn next(&mut self) -> (r: Option<(u64, u64)>)
        requires
            old(self).wf(),
        ensures
            final(self).wf(),
            old(self)@.len() == 0 ==> r is None && final(self)@ == old(self)@,
            old(self)@.len() > 0 ==> r == Some((old(self)@[0].0 as u64, old(self)@[0].1 as u64))
                && final(self)@ == old(self)@.drop_first(),
    {
        let ghost s = self.search_start_index as int;
        let ghost n = self.data_len as int;
        let ghost t = self.target_recursion_level as nat;
        let ghost m = self.max_recursion_level as nat;
        let ghost b = self.sub_block_sqrt as int;
        let ghost f = self.fn_filter;
        let found = next_range_block(
            self.search_start_index,
            self.data_len,
            self.target_recursion_level,
            self.max_recursion_level,
            self.sub_block_sqrt,
            &self.fn_filter,
        );
        proof {
            lemma_next_block_bounds(s, n, t, m, b, f);
        }
        match found {
            Some((index, count)) => {
                proof {
                    let v = filtered_blocks(s, n, t, m, b, f);
                    assert(v.drop_first() =~= filtered_blocks(index + count, n, t, m, b, f));
                }
                match index.checked_add(count) {
                    Some(v) => {
                        self.search_start_index = v;
                    },
                    None => {
                        proof {
                            lemma_next_block_bounds(index + count, n, t, m, b, f);
                            lemma_next_block_bounds(u64::MAX as int, n, t, m, b, f);
                        }
                        self.search_start_index = u64::MAX;
                    },
                }
                Some((index, count))
            },
            None => None,
        }
    }
}

/// With a filter that accepts every block, the search finds the first block of
/// level `t` at or after `s`, if it starts below `n`.
pub proof fn lemma_unfiltered_next_block<F: BlockFilter>(
    s: int,
    n: int,
    t: nat,
    m: nat,
    b: int,
    f: F,
)
    requires
        b > 1,
        s >= 0,
        t <= m,
        forall|i: int, c: int| accepts(f, i, c),
    ensures
        next_block(s, n, t, m, b, f) == if round_up(s, block_size(t, b)) < n {
            Some((round_up(s, block_size(t, b)), block_size(t, b)))
        } else {
            None::<(int, int)>
        },
    decreases m,
{
    let size_t = block_size(t, b);
    lemma_block_size_monotone(0, t, b);
    lemma_round_up(s, size_t);
    let a = round_up(s, size_t);
    if a < n {
        lemma_top_aligned_level(a, t, m, b);
        let l = top_aligned_level(a, t, m, b);
        assert(accepts(f, a, block_size(l, b)));
        if l > t {
            lemma_unfiltered_next_block(s, n, t, (m - 1) as nat, b, f);
        }
    }
}

/// The number of blocks of `size` needed to cover `[0, n)`.
pub open spec fn blocks_needed(n: int, size: int) -> int {
    (n + size - 1) / size
}

/// `k` blocks of `size` start below `n` exactly when `k` is below the number needed.
pub proof fn lemma_blocks_needed(n: int, size: int, k: int)
    requires
        n >= 0,
        size >= 1,
        k >= 0,
    ensures
        blocks_needed(n, size) >= 0,
        k * size < n <==> k < blocks_needed(n, size),
{
    let c = blocks_needed(n, size);
    vstd::arithmetic::div_mod::lemma_fundamental_div_mod(n + size - 1, size);
    let r = (n + size - 1) % size;
    assert(0 <= r < size);
    assert(c >= 0) by (nonlinear_arith)
        requires
            n + size - 1 == size * c + r,
            0 <= r < size,
            n >= 0,
            size >= 1,
    ;
    if k < c {
        assert(k * size < n) by (nonlinear_arith)
            requires
                n + size - 1 == size * c + r,
                0 <= r < size,
                0 <= k < c,
                size >= 1,
        ;
    } else {
        assert(k * size >= n) by (nonlinear_arith)
            requires
                n + size - 1 == size * c + r,
                0 <= r < size,
                k >= c,
                size >= 1,
        ;
    }
}

proof fn lemma_unfiltered_tiling_from<F: BlockFilter>(
    k: int,
    n: int,
    t: nat,
    m: nat,
    b: int,
    f: F,
)
    requires
        b > 1,
        n >= 0,
        t <= m,
        0 <= k <= blocks_needed(n, block_size(t, b)),
        forall|i: int, c: int| accepts(f, i, c),
    ensures
        ({
            let size = block_size(t, b);
            filtered_blocks(k * size, n, t, m, b, f) == Seq::new(
                (blocks_needed(n, size) - k) as nat,
                |j: int| ((k + j) * size, size),
            )
        }),
    decreases blocks_needed(n, block_size(t, b)) - k,
{
    let size = block_size(t, b);
    let count = blocks_needed(n, size);
    lemma_block_size_monotone(0, t, b);
    lemma_blocks_needed(n, size, k);
    assert(k * size >= 0) by (nonlinear_arith)
        requires
            k >= 0,
            size >= 1,
    ;
    let want = Seq::new((count - k) as nat, |j: int| ((k + j) * size, size));
    if k < count {
        assert((k * size) % size == 0) by {
            vstd::arithmetic::div_mod::lemma_mod_multiples_basic(k, size);
        }
        lemma_unfiltered_next_block(k * size, n, t, m, b, f);
        assert(k * size + size == (k + 1) * size) by (nonlinear_arith);
        lemma_unfiltered_tiling_from(k + 1, n, t, m, b, f);
        let rest = filtered_blocks((k + 1) * size, n, t, m, b, f);
        assert(filtered_blocks(k * size, n, t, m, b, f) == seq![(k * size, size)] + rest);
        assert(filtered_blocks(k * size, n, t, m, b, f) =~= want) by {
            assert forall|j: int| 0 < j < count - k implies #[trigger] rest[j - 1] == ((k + j) * size, size)
                by {
                assert((k + 1 + (j - 1)) == k + j);
            }
        }
    } else {
        lemma_next_block_bounds(k * size, n, t, m, b, f);
        assert(filtered_blocks(k * size, n, t, m, b, f) =~= want);
    }
}

/// Without filtering, the blocks at level `t` exactly tile `[0, n)`: they are
/// the consecutive blocks of that level's size from offset zero, as many as are
/// needed to reach `n`, the last one possibly extending past `n`.
pub proof fn lemma_unfiltered_tiling<F: BlockFilter>(
    n: int,
    t: nat,
    m: nat,
    b: int,
    f: F,
)
    requires
        b > 1,
        n >= 0,
        t <= m,
        forall|i: int, c: int| accepts(f, i, c),
    ensures
        ({
            let size = block_size(t, b);
            let blocks = filtered_blocks(0, n, t, m, b, f);
            &&& blocks == Seq::new(
                blocks_needed(n, size) as nat,
                |k: int| (k * size, size),
            )
            &&& blocks.len() * size >= n
            &&& blocks.len() == 0 || (blocks.len() - 1) * size < n
        }),
{
    let size = block_size(t, b);
    lemma_block_size_monotone(0, t, b);
    lemma_blocks_needed(n, size, 0);
    lemma_unfiltered_tiling_from(0, n, t, m, b, f);
    assert(0 * size == 0);
    let blocks = filtered_blocks(0, n, t, m, b, f);
    assert(blocks =~= Seq::new(blocks_needed(n, size) as nat, |k: int| (k * size, size)));
    let c = blocks_needed(n, size);
    lemma_blocks_needed(n, size, c);
    if c > 0 {
        lemma_blocks_needed(n, size, c - 1);
    }
}

/// A block size at a higher level is a multiple of one at a lower level.
pub proof fn lemma_block_size_split(l: nat, d: nat, b: int)
    ensures
        block_size(l + d, b) == block_size(l, b) * block_size(d, b),
    decreases d,
{
    if d > 0 {
        lemma_block_size_split(l, (d - 1) as nat, b);
        let p = block_size(l, b);
        let q = block_size((d - 1) as nat, b);
        assert(block_size(l + d, b) == b * b * block_size((l + d - 1) as nat, b));
        assert(b * b * (p * q) == p * (b * b * q)) by (nonlinear_arith);
    }
}

/// A multiple of `p * q` is a multiple of `p`.
proof fn lemma_mod_factor(a: int, p: int, q: int)
    requires
        p > 0,
        q > 0,
        a % (p * q) == 0,
    ensures
        a % p == 0,
{
    assert(p * q > 0) by (nonlinear_arith)
        requires
            p > 0,
            q > 0,
    ;
    vstd::arithmetic::div_mod::lemma_fundamental_div_mod(a, p * q);
    let k = a / (p * q);
    assert(a == (q * k) * p) by (nonlinear_arith)
        requires
            a == (p * q) * k + a % (p * q),
            a % (p * q) == 0,
    ;
    vstd::arithmetic::div_mod::lemma_mod_multiples_basic(q * k, p);
}

/// Of two multiples of `size`, the smaller is at least `size` below the larger.
proof fn lemma_multiples_apart(x: int, y: int, size: int)
    requires
        size > 0,
        x % size == 0,
        y % size == 0,
        x < y,
    ensures
        x + size <= y,
{
    vstd::arithmetic::div_mod::lemma_fundamental_div_mod(x, size);
    vstd::arithmetic::div_mod::lemma_fundamental_div_mod(y, size);
    let qx = x / size;
    let qy = y / size;
    assert(x + size <= y) by (nonlinear_arith)
        requires
            x == size * qx,
            y == size * qy,
            x < y,
            size > 0,
    ;
}

/// `t` tiles `[start, limit)` left to right with aligned blocks whose levels,
/// `levels`, are at most `m`.
pub open spec fn is_aligned_tiling(
    t: Seq<(int, int)>,
    levels: Seq<nat>,
    start: int,
    limit: int,
    m: nat,
    b: int,
) -> bool {
    &&& t.len() > 0
    &&& levels.len() == t.len()
    &&& t[0].0 == start
    &&& t.last().0 + t.last().1 == limit
    &&& forall|k: int| 0 <= k < t.len() - 1 ==> #[trigger] t[k].0 + t[k].1 == t[k + 1].0
    &&& forall|k: int|
        0 <= k < t.len() ==> levels[k] <= m && #[trigger] t[k].1 == block_size(levels[k], b)
            && t[k].0 % t[k].1 == 0
}

proof fn lemma_aligned_tiling_rest(
    t: Seq<(int, int)>,
    levels: Seq<nat>,
    start: int,
    limit: int,
    m: nat,
    b: int,
)
    requires
        b > 1,
        is_aligned_tiling(t, levels, start, limit, m, b),
    ensures
        start + t[0].1 <= limit,
        t[0].1 >= 1,
        t.len() == 1 ==> start + t[0].1 == limit,
        t.len() > 1 ==> is_aligned_tiling(
            t.drop_first(),
            levels.drop_first(),
            start + t[0].1,
            limit,
            m,
            b,
        ),
    decreases t.len(),
{
    lemma_block_size_monotone(0, levels[0], b);
    if t.len() > 1 {
        let rest = t.drop_first();
        let rl = levels.drop_first();
        assert(t[0].0 + t[0].1 == t[1].0);
        assert forall|k: int| 0 <= k < rest.len() - 1 implies #[trigger] rest[k].0 + rest[k].1
            == rest[k + 1].0 by {
            assert(t[k + 1].0 + t[k + 1].1 == t[k + 2].0);
        }
        assert forall|k: int| 0 <= k < rest.len() implies rl[k] <= m && #[trigger] rest[k].1
            == block_size(rl[k], b) && rest[k].0 % rest[k].1 == 0 by {
            assert(t[k + 1].1 == block_size(levels[k + 1], b));
        }
        assert(rest.last() == t.last());
        lemma_aligned_tiling_rest(rest, rl, start + t[0].1, limit, m, b);
    }
}

/// From inside the aligned block `[s, s + block_size(l))`, the greedy tiling
/// reaches the block's end before it goes further.
proof fn lemma_greedy_inside(s: int, l: nat, x: int, limit: int, m: nat, b: int)
    requires
        b > 1,
        s >= 0,
        l <= m,
        s % block_size(l, b) == 0,
        s + block_size(l, b) <= limit,
        s < x < s + block_size(l, b),
    ensures
        complete_tiling(x, limit, m, b).len() >= 1 + complete_tiling(
            s + block_size(l, b),
            limit,
            m,
            b,
        ).len(),
    decreases s + block_size(l, b) - x,
{
    let g = block_size(l, b);
    lemma_block_size_monotone(0, l, b);
    lemma_largest_fit_level(x, limit, m, b);
    let lx = largest_fit_level(x, limit, m, b);
    let size = block_size(lx, b);
    lemma_block_size_monotone(0, lx, b);
    if lx >= l {
        lemma_block_size_split(l, (lx - l) as nat, b);
        lemma_block_size_monotone(0, (lx - l) as nat, b);
        assert((l + (lx - l) as nat) as nat == lx);
        lemma_mod_factor(x, g, block_size((lx - l) as nat, b));
        lemma_multiples_apart(s, x, g);
        assert(false);
    }
    lemma_block_size_split(lx, (l - lx) as nat, b);
    lemma_block_size_monotone(0, (l - lx) as nat, b);
    assert((lx + (l - lx) as nat) as nat == l);
    lemma_mod_factor(s, size, block_size((l - lx) as nat, b));
    let q = block_size((l - lx) as nat, b);
    vstd::arithmetic::div_mod::lemma_mod_multiples_basic(q, size);
    assert(q * size == g) by (nonlinear_arith)
        requires
            g == size * q,
    ;
    assert((s + g) % size == 0) by {
        vstd::arithmetic::div_mod::lemma_add_mod_noop(s, g, size);
        vstd::arithmetic::div_mod::lemma_mod_self_0(size);
    }
    lemma_multiples_apart(x, s + g, size);
    assert(complete_tiling(x, limit, m, b).len() == 1 + complete_tiling(x + size, limit, m, b).len());
    if x + size < s + g {
        lemma_greedy_inside(s, l, x + size, limit, m, b);
    }
}

/// The largest-complete-block tiling uses the fewest blocks: no tiling of the
/// same range by aligned blocks of levels at most `m` has fewer.
pub proof fn lemma_complete_tiling_fewest(
    t: Seq<(int, int)>,
    levels: Seq<nat>,
    start: int,
    limit: int,
    m: nat,
    b: int,
)
    requires
        b > 1,
        start >= 0,
        is_aligned_tiling(t, levels, start, limit, m, b),
    ensures
        complete_tiling(start, limit, m, b).len() <= t.len(),
    decreases t.len(),
{
    lemma_aligned_tiling_rest(t, levels, start, limit, m, b);
    let s0 = t[0].1;
    lemma_largest_fit_level(start, limit, m, b);
    let l = largest_fit_level(start, limit, m, b);
    let g = block_size(l, b);
    lemma_block_size_monotone(0, l, b);
    // the other tiling's first block fits at `start`, so it is no larger than greedy's
    assert(fits(start, limit, levels[0], b));
    if levels[0] > l {
        assert(!fits(start, limit, levels[0], b));
    }
    lemma_block_size_monotone(levels[0], l, b);
    assert(s0 <= g);
    assert(complete_tiling(start, limit, m, b).len() == 1 + complete_tiling(
        start + g,
        limit,
        m,
        b,
    ).len());
    if t.len() == 1 {
        assert(start + g == limit);
    } else {
        lemma_complete_tiling_fewest(
            t.drop_first(),
            levels.drop_first(),
            start + s0,
            limit,
            m,
            b,
        );
        if s0 < g {
            lemma_greedy_inside(start, l, start + s0, limit, m, b);
        }
    }
}

/// With the filter that passes every block, the search from `s` finds the first
/// block of level `t` at or after `s` if it starts below `n`, and the blocks
/// found from offset zero tile `[0, n)` with blocks of level `t`.
pub proof fn lemma_accept_all_blocks(s: int, n: int, t: nat, m: nat, b: int)
    requires
        b > 1,
        s >= 0,
        n >= 0,
        t <= m,
    ensures
        next_block(s, n, t, m, b, AcceptAll) == if round_up(s, block_size(t, b)) < n {
            Some((round_up(s, block_size(t, b)), block_size(t, b)))
        } else {
            None::<(int, int)>
        },
        filtered_blocks(0, n, t, m, b, AcceptAll) == Seq::new(
            blocks_needed(n, block_size(t, b)) as nat,
            |k: int| (k * block_size(t, b), block_size(t, b)),
        ),
{
    assert forall|i: int, c: int| accepts(AcceptAll, i, c) by {}
    lemma_unfiltered_next_block(s, n, t, m, b, AcceptAll);
    lemma_unfiltered_tiling(n, t, m, b, AcceptAll);
}

} // verus!
