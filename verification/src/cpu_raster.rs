//! Tile binning for the CPU splat renderer.
use vstd::prelude::*;

verus! {

/// The side of a square screen tile, in pixels.
pub const TILE_SIZE: usize = 16;

/// The tiles needed to cover `n` pixels in one direction.
pub open spec fn tiles_for(n: int) -> int {
    (n + 15) / 16
}

/// The grid of tiles covering a `width` x `height` image: columns and rows
/// of 16-pixel tiles, the last ones possibly partial.
pub fn tile_grid(width: usize, height: usize) -> (r: (usize, usize))
    ensures
        r.0 == tiles_for(width as int),
        r.1 == tiles_for(height as int),
        forall|x: int| 0 <= x < width ==> #[trigger] (x / 16) < r.0,
        forall|y: int| 0 <= y < height ==> #[trigger] (y / 16) < r.1,
        r.0 * 16 < width + 16,
        r.1 * 16 < height + 16,
{
    let columns = width / TILE_SIZE + if width % TILE_SIZE == 0 { 0 } else { 1 };
    let rows = height / TILE_SIZE + if height % TILE_SIZE == 0 { 0 } else { 1 };
    (columns, rows)
}

/// The pixel rectangle a projected splat may touch: columns
/// `min_x..max_x` and rows `min_y..max_y` (ends exclusive).
#[derive(Clone, Copy, Debug, PartialEq, Eq, Structural)]
pub struct PixelBox {
    pub min_x: usize,
    pub min_y: usize,
    pub max_x: usize,
    pub max_y: usize,
}

/// Tile (`tx`, `ty`) meets the pixel rectangle `b`.
pub open spec fn box_covers_tile(b: PixelBox, tx: int, ty: int) -> bool {
    &&& b.min_x as int / 16 <= tx <= (b.max_x - 1) / 16
    &&& b.min_y as int / 16 <= ty <= (b.max_y - 1) / 16
}

/// `list` holds, in ascending order, exactly the indices of the boxes
/// that meet tile (`tx`, `ty`).
pub open spec fn is_tile_list(boxes: Seq<PixelBox>, tx: int, ty: int, list: Seq<usize>) -> bool {
    &&& forall|i: int, j: int| 0 <= i < j < list.len() ==> #[trigger] list[i] < #[trigger] list[j]
    &&& forall|i: int| 0 <= i < list.len() ==> #[trigger] list[i] < boxes.len()
    &&& forall|k: usize|
        k < boxes.len() ==> (#[trigger] list.contains(k) <==> box_covers_tile(boxes[k as int], tx, ty))
}

/// The tile with row-major index `q` in a grid `cols` tiles wide meets `b`.
pub open spec fn covers_index(b: PixelBox, q: int, cols: int) -> bool {
    box_covers_tile(b, q % cols, q / cols)
}

/// `list` holds, in ascending order, exactly the indices below `n` of the
/// boxes that meet tile `q`.
pub open spec fn is_partial_tile_list(boxes: Seq<PixelBox>, q: int, cols: int, list: Seq<usize>, n: int) -> bool {
    &&& forall|i: int, j: int| 0 <= i < j < list.len() ==> #[trigger] list[i] < #[trigger] list[j]
    &&& forall|i: int| 0 <= i < list.len() ==> #[trigger] list[i] < n
    &&& forall|k: usize| k < n ==> (#[trigger] list.contains(k) <==> covers_index(boxes[k as int], q, cols))
}

proof fn lemma_tile_index(cols: int, rows: int, tx: int, ty: int)
    requires
        0 <= tx < cols,
        0 <= ty < rows,
    ensures
        0 <= ty * cols + tx < cols * rows,
        (ty * cols + tx) % cols == tx,
        (ty * cols + tx) / cols == ty,
{
    assert(0 <= ty * cols + tx < cols * rows) by (nonlinear_arith)
        requires
            0 <= tx < cols,
            0 <= ty < rows,
    ;
    vstd::arithmetic::div_mod::lemma_fundamental_div_mod_converse(ty * cols + tx, cols, ty, tx);
}

proof fn lemma_index_bounds(cols: int, rows: int, q: int)
    requires
        cols >= 1,
        0 <= q < cols * rows,
    ensures
        0 <= q % cols < cols,
        0 <= q / cols < rows,
{
    vstd::arithmetic::div_mod::lemma_mod_bound(q, cols);
    vstd::arithmetic::div_mod::lemma_div_pos_is_pos(q, cols);
    vstd::arithmetic::div_mod::lemma_div_is_ordered_by_denominator(q, 1, cols);
    assert(q / cols < rows) by {
        vstd::arithmetic::mul::lemma_mul_is_commutative(cols, rows);
        vstd::arithmetic::div_mod::lemma_multiply_divide_lt(q, cols, rows);
    }
}

/// For each tile of a `tile_columns` x `tile_rows` grid (row-major), the
/// splats whose pixel rectangles meet it, in splat order.
pub fn bin_splats(boxes: &[PixelBox], tile_columns: usize, tile_rows: usize) -> (tiles: Vec<Vec<usize>>)
    requires
        boxes@.len() == 0 || (tile_columns >= 1 && tile_rows >= 1),
        tile_columns * tile_rows <= usize::MAX,
        forall|i: int| 0 <= i < boxes@.len() ==> #[trigger] boxes@[i].max_x >= 1 && boxes@[i].max_y >= 1,
    ensures
        tiles@.len() == tile_columns * tile_rows,
        forall|tx: int, ty: int|
            0 <= tx < tile_columns && 0 <= ty < tile_rows ==> is_tile_list(
                boxes@,
                tx,
                ty,
                #[trigger] tiles@[ty * tile_columns + tx]@,
            ),
{
    let count = tile_columns * tile_rows;
    let cols = tile_columns;
    let mut tiles: Vec<Vec<usize>> = Vec::new();
    let mut t: usize = 0;
    while t < count
        invariant
            count == tile_columns * tile_rows,
            t <= count,
            tiles@.len() == t,
            forall|q: int| 0 <= q < t ==> (#[trigger] tiles@[q])@.len() == 0,
        decreases count - t,
    {
        tiles.push(Vec::new());
        t += 1;
    }
    let n = boxes.len();
    let mut i: usize = 0;
    while i < n
        invariant
            n == boxes@.len(),
            n == 0 || (tile_columns >= 1 && tile_rows >= 1),
            count == tile_columns * tile_rows,
            cols == tile_columns,
            forall|k: int| 0 <= k < boxes@.len() ==> #[trigger] boxes@[k].max_x >= 1 && boxes@[k].max_y >= 1,
            i <= n,
            tiles@.len() == count,
            forall|q: int| 0 <= q < count ==> is_partial_tile_list(boxes@, q, cols as int, #[trigger] tiles@[q]@, i as int),
        decreases n - i,
    {
        let b = boxes[i];
        let min_tx = b.min_x / 16;
        let min_ty = b.min_y / 16;
        let max_tx = (b.max_x - 1) / 16;
        let max_ty = (b.max_y - 1) / 16;
        let tx_end = if max_tx < tile_columns - 1 { max_tx } else { tile_columns - 1 };
        let ty_end = if max_ty < tile_rows - 1 { max_ty } else { tile_rows - 1 };
        let ghost before = tiles@.map_values(|v: Vec<usize>| v@);
        let mut ty = min_ty;
        while ty <= ty_end
            invariant
                count == tile_columns * tile_rows,
                cols == tile_columns,
                cols >= 1,
                tile_rows >= 1,
                b == boxes@[i as int],
                i < n,
                n == boxes@.len(),
                min_tx == b.min_x / 16,
                min_ty == b.min_y / 16,
                max_tx == (b.max_x - 1) / 16,
                max_ty == (b.max_y - 1) / 16,
                tx_end == if max_tx < tile_columns - 1 { max_tx } else { (tile_columns - 1) as usize },
                ty_end == if max_ty < tile_rows - 1 { max_ty } else { (tile_rows - 1) as usize },
                min_ty <= ty,
                ty <= ty_end + 1 || ty == min_ty,
                tiles@.len() == count,
                before.len() == count,
                forall|q: int|
                    0 <= q < count ==> (#[trigger] tiles@[q])@ == if covers_index(b, q, cols as int) && q / (cols as int) < ty {
                        before[q].push(i)
                    } else {
                        before[q]
                    },
            decreases ty_end + 1 - ty,
        {
            let mut tx = min_tx;
            while tx <= tx_end
                invariant
                    count == tile_columns * tile_rows,
                    cols == tile_columns,
                    cols >= 1,
                    tile_rows >= 1,
                    b == boxes@[i as int],
                    min_tx == b.min_x / 16,
                    min_ty == b.min_y / 16,
                    max_tx == (b.max_x - 1) / 16,
                    max_ty == (b.max_y - 1) / 16,
                    tx_end == if max_tx < tile_columns - 1 { max_tx } else { (tile_columns - 1) as usize },
                    ty_end == if max_ty < tile_rows - 1 { max_ty } else { (tile_rows - 1) as usize },
                    min_ty <= ty <= ty_end,
                    min_tx <= tx,
                    tx <= tx_end + 1 || tx == min_tx,
                    tiles@.len() == count,
                    before.len() == count,
                    forall|q: int|
                        0 <= q < count ==> (#[trigger] tiles@[q])@ == if covers_index(b, q, cols as int) && (q / (cols as int) < ty || (q / (cols as int) == ty && q % (cols as int) < tx)) {
                            before[q].push(i)
                        } else {
                            before[q]
                        },
                decreases tx_end + 1 - tx,
            {
                proof {
                    lemma_tile_index(cols as int, tile_rows as int, tx as int, ty as int);
                }
                let idx = ty * cols + tx;
                let ghost old_tiles = tiles@;
                tiles[idx].push(i);
                proof {
                    assert forall|q: int| 0 <= q < count implies (#[trigger] tiles@[q])@ == if covers_index(b, q, cols as int) && (q / (cols as int) < ty || (q / (cols as int) == ty && q % (cols as int) < tx + 1)) {
                        before[q].push(i)
                    } else {
                        before[q]
                    } by {
                        lemma_index_bounds(cols as int, tile_rows as int, q);
                        if q == idx {
                        } else {
                            assert(tiles@[q] == old_tiles[q]);
                            if q / (cols as int) == ty && q % (cols as int) == tx {
                                vstd::arithmetic::div_mod::lemma_fundamental_div_mod(q, cols as int);
                                vstd::arithmetic::mul::lemma_mul_is_commutative(cols as int, ty as int);
                                assert(q == ty * cols + tx);
                            }
                        }
                    }
                }
                tx += 1;
            }
            proof {
                assert forall|q: int| 0 <= q < count implies (#[trigger] tiles@[q])@ == if covers_index(b, q, cols as int) && q / (cols as int) < ty + 1 {
                    before[q].push(i)
                } else {
                    before[q]
                } by {
                    lemma_index_bounds(cols as int, tile_rows as int, q);
                }
            }
            ty += 1;
        }
        proof {
            assert forall|q: int| 0 <= q < count implies is_partial_tile_list(boxes@, q, cols as int, #[trigger] tiles@[q]@, i + 1) by {
                lemma_index_bounds(cols as int, tile_rows as int, q);
                let old_list = before[q];
                assert(is_partial_tile_list(boxes@, q, cols as int, old_list, i as int));
                if covers_index(b, q, cols as int) {
                    assert(tiles@[q]@ == old_list.push(i));
                    assert forall|k: usize| k < i + 1 implies (#[trigger] tiles@[q]@.contains(k) <==> covers_index(boxes@[k as int], q, cols as int)) by {
                        if k < i {
                            if old_list.contains(k) {
                                let w = choose|w: int| 0 <= w < old_list.len() && old_list[w] == k;
                                assert(tiles@[q]@[w] == k);
                            }
                            if tiles@[q]@.contains(k) {
                                let w = choose|w: int| 0 <= w < tiles@[q]@.len() && tiles@[q]@[w] == k;
                                if w == old_list.len() {
                                } else {
                                    assert(old_list[w] == k);
                                }
                            }
                        } else {
                            assert(tiles@[q]@[old_list.len() as int] == i);
                        }
                    }
                } else {
                    assert(tiles@[q]@ == old_list);
                }
            }
        }
        i += 1;
    }
    proof {
        assert forall|tx: int, ty: int|
            0 <= tx < tile_columns && 0 <= ty < tile_rows implies is_tile_list(
                boxes@,
                tx,
                ty,
                #[trigger] tiles@[ty * tile_columns + tx]@,
            ) by {
            lemma_tile_index(cols as int, tile_rows as int, tx, ty);
            let q = ty * tile_columns + tx;
            assert(is_partial_tile_list(boxes@, q, cols as int, tiles@[q]@, n as int));
        }
    }
    tiles
}

} // verus!
