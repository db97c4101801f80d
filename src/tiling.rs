//! Partition of the lower half of the canvas into blocks.
use vstd::prelude::*;
use vstd::arithmetic::div_mod::{
    lemma_fundamental_div_mod,
    lemma_fundamental_div_mod_converse,
    lemma_div_is_ordered,
};
use crate::block::Canvas;

verus! {

/// Number of block columns.
pub open spec fn blocks_across(c: Canvas) -> int {
    c.width as int / c.block_width as int
}

/// Index of the first block row of the lower half.
pub open spec fn first_block_row(c: Canvas) -> int {
    (c.height as int / 2) / c.block_height as int
}

/// Number of block rows in the lower half.
pub open spec fn blocks_down(c: Canvas) -> int {
    c.height as int / c.block_height as int - first_block_row(c)
}

/// The `k`-th block origin: block columns outermost, block rows innermost.
pub open spec fn origin_at(c: Canvas, k: int) -> (i32, i32) {
    (
        ((k / blocks_down(c)) * c.block_width) as i32,
        ((first_block_row(c) + k % blocks_down(c)) * c.block_height) as i32,
    )
}

/// Top-left corners of all blocks of the lower half of the canvas, in queue order.
pub open spec fn origins(c: Canvas) -> Seq<(i32, i32)> {
    Seq::new((blocks_across(c) * blocks_down(c)) as nat, |k: int| origin_at(c, k))
}

/// Pixel `(x, y)` lies in the lower half of the canvas.
pub open spec fn in_lower_half(c: Canvas, x: int, y: int) -> bool {
    0 <= x < c.width && c.height / 2 <= y < c.height
}

/// Pixel `(x, y)` lies in the block with origin `b`.
pub open spec fn in_block(c: Canvas, b: (i32, i32), x: int, y: int) -> bool {
    b.0 <= x < b.0 + c.block_width && b.1 <= y < b.1 + c.block_height
}

/// Pins down `v / d` from bounds on `v`.
proof fn lemma_div_from_bounds(v: int, d: int, q: int)
    requires
        0 < d,
        q * d <= v < q * d + d,
    ensures
        v / d == q,
        v % d == v - q * d,
{
    vstd::arithmetic::mul::lemma_mul_is_commutative(q, d);
    lemma_fundamental_div_mod_converse(v, d, q, v - q * d);
}

/// Facts on the geometry of a well-formed canvas.
proof fn lemma_geometry(c: Canvas)
    requires
        c.wf(),
    ensures
        blocks_across(c) * c.block_width == c.width,
        first_block_row(c) * c.block_height == c.height / 2,
        (first_block_row(c) + blocks_down(c)) * c.block_height == c.height,
        0 <= first_block_row(c),
        0 <= blocks_down(c),
        0 <= blocks_across(c),
{
    let (w, h, bw, bh) = (c.width as int, c.height as int, c.block_width as int, c.block_height as int);
    lemma_fundamental_div_mod(w, bw);
    lemma_fundamental_div_mod(h, bh);
    lemma_fundamental_div_mod(h / 2, bh);
    vstd::arithmetic::mul::lemma_mul_is_commutative(bw, w / bw);
    vstd::arithmetic::mul::lemma_mul_is_commutative(bh, h / bh);
    vstd::arithmetic::mul::lemma_mul_is_commutative(bh, (h / 2) / bh);
    lemma_div_is_ordered(h / 2, h, bh);
    vstd::arithmetic::div_mod::lemma_div_pos_is_pos(w, bw);
    vstd::arithmetic::div_mod::lemma_div_pos_is_pos(h / 2, bh);
}

/// Index `k = i * down + j` splits back into `i` and `j`.
proof fn lemma_index_split(k: int, i: int, j: int, down: int)
    requires
        0 <= j < down,
        k == i * down + j,
    ensures
        k / down == i,
        k % down == j,
{
    lemma_div_from_bounds(k, down, i);
}

/// The blocks of the lower half cover it exactly: each pixel of the lower half lies
/// in some block, each pixel of a block lies in the lower half, and no pixel lies in
/// two blocks.
pub proof fn lemma_blocks_tile_lower_half(c: Canvas)
    requires
        c.wf(),
    ensures
        forall|x: int, y: int|
            in_lower_half(c, x, y) <==> exists|k: int|
                0 <= k < origins(c).len() && in_block(c, #[trigger] origins(c)[k], x, y),
        forall|k1: int, k2: int, x: int, y: int|
            0 <= k1 < origins(c).len() && 0 <= k2 < origins(c).len()
                && #[trigger] in_block(c, origins(c)[k1], x, y) && #[trigger] in_block(
                c,
                origins(c)[k2],
                x,
                y,
            ) ==> k1 == k2,
{
    lemma_geometry(c);
    let (bw, bh) = (c.block_width as int, c.block_height as int);
    let across = blocks_across(c);
    let down = blocks_down(c);
    let f = first_block_row(c);
    let n = origins(c).len();
    assert forall|k: int| 0 <= k < n implies {
        let b = #[trigger] origins(c)[k];
        &&& b.0 == (k / down) * bw
        &&& b.1 == (f + k % down) * bh
        &&& 0 <= k / down < across
        &&& 0 <= k % down < down
        &&& k == (k / down) * down + k % down
        &&& 0 <= b.0 && b.0 + bw <= c.width
        &&& c.height / 2 <= b.1 && b.1 + bh <= c.height
    } by {
        assert(0 < down) by (nonlinear_arith)
            requires
                0 <= k < across * down,
                0 <= across,
        ;
        lemma_fundamental_div_mod(k, down);
        vstd::arithmetic::mul::lemma_mul_is_commutative(down, k / down);
        vstd::arithmetic::div_mod::lemma_div_pos_is_pos(k, down);
        vstd::arithmetic::div_mod::lemma_mod_bound(k, down);
        if k / down >= across {
            assert(k >= across * down) by (nonlinear_arith)
                requires
                    k / down >= across,
                    k == (k / down) * down + k % down,
                    0 <= k % down,
                    0 < down,
            ;
        }
        let i = k / down;
        assert(0 <= i * bw <= (across - 1) * bw) by (nonlinear_arith)
            requires
                0 <= i < across,
                0 < bw,
        ;
        assert((across - 1) * bw == across * bw - bw) by (nonlinear_arith);
        let j = k % down;
        assert(f * bh <= (f + j) * bh <= (f + down - 1) * bh) by (nonlinear_arith)
            requires
                0 <= j < down,
                0 < bh,
        ;
        assert((f + down - 1) * bh == (f + down) * bh - bh) by (nonlinear_arith);
    }
    assert forall|x: int, y: int| in_lower_half(c, x, y) implies exists|k: int|
        0 <= k < n && in_block(c, #[trigger] origins(c)[k], x, y) by {
        let i = x / bw;
        let j = y / bh - f;
        lemma_fundamental_div_mod(x, bw);
        lemma_fundamental_div_mod(y, bh);
        vstd::arithmetic::div_mod::lemma_mod_bound(x, bw);
        vstd::arithmetic::div_mod::lemma_mod_bound(y, bh);
        vstd::arithmetic::mul::lemma_mul_is_commutative(bw, i);
        vstd::arithmetic::mul::lemma_mul_is_commutative(bh, y / bh);
        // i < across and f <= y / bh < f + down follow from the products.
        if i >= across {
            assert(i * bw >= across * bw) by (nonlinear_arith)
                requires
                    i >= across,
                    0 < bw,
            ;
        }
        if i < 0 {
            assert(i * bw < 0) by (nonlinear_arith)
                requires
                    i < 0,
                    0 < bw,
            ;
        }
        if y / bh < f {
            assert((y / bh) * bh <= (f - 1) * bh) by (nonlinear_arith)
                requires
                    y / bh < f,
                    0 < bh,
            ;
            assert((f - 1) * bh == f * bh - bh) by (nonlinear_arith);
        }
        if y / bh >= f + down {
            assert((y / bh) * bh >= (f + down) * bh) by (nonlinear_arith)
                requires
                    y / bh >= f + down,
                    0 < bh,
            ;
        }
        let k = i * down + j;
        assert(0 <= k < across * down) by (nonlinear_arith)
            requires
                0 <= i < across,
                0 <= j < down,
                k == i * down + j,
        ;
        lemma_index_split(k, i, j, down);
        assert(in_block(c, origins(c)[k], x, y));
    }
    assert forall|x: int, y: int|
        (exists|k: int| 0 <= k < n && in_block(c, #[trigger] origins(c)[k], x, y)) implies in_lower_half(
        c,
        x,
        y,
    ) by {
        let k = choose|k: int| 0 <= k < n && in_block(c, #[trigger] origins(c)[k], x, y);
        assert(0 <= origins(c)[k].0);
    }
    assert forall|k1: int, k2: int, x: int, y: int|
        0 <= k1 < n && 0 <= k2 < n && #[trigger] in_block(c, origins(c)[k1], x, y)
            && #[trigger] in_block(c, origins(c)[k2], x, y) implies k1 == k2 by {
        lemma_div_from_bounds(x, bw, k1 / down);
        lemma_div_from_bounds(x, bw, k2 / down);
        lemma_div_from_bounds(y, bh, f + k1 % down);
        lemma_div_from_bounds(y, bh, f + k2 % down);
    }
}

/// Every block origin of a well-formed canvas is the corner of a block inside it.
pub proof fn lemma_origins_inside(c: Canvas)
    requires
        c.wf(),
    ensures
        forall|k: int|
            0 <= k < origins(c).len() ==> c.block_inside(
                (#[trigger] origins(c)[k]).0 as int,
                origins(c)[k].1 as int,
            ),
{
    lemma_geometry(c);
    assert forall|k: int| 0 <= k < origins(c).len() implies c.block_inside(
        (#[trigger] origins(c)[k]).0 as int,
        origins(c)[k].1 as int,
    ) by {
        let x = origins(c)[k].0 as int;
        let y = origins(c)[k].1 as int;
        assert(in_block(c, origins(c)[k], x, y));
        lemma_blocks_tile_lower_half(c);
        assert(in_lower_half(c, x, y));
        let (bw, bh) = (c.block_width as int, c.block_height as int);
        let down = blocks_down(c);
        let across = blocks_across(c);
        let f = first_block_row(c);
        assert(0 < down) by (nonlinear_arith)
            requires
                0 <= k < across * down,
                0 <= across,
        ;
        lemma_fundamental_div_mod(k, down);
        vstd::arithmetic::mul::lemma_mul_is_commutative(down, k / down);
        vstd::arithmetic::div_mod::lemma_mod_bound(k, down);
        if k / down >= across {
            assert(k >= across * down) by (nonlinear_arith)
                requires
                    k / down >= across,
                    k == (k / down) * down + k % down,
                    0 <= k % down,
                    0 < down,
            ;
        }
        let i = k / down;
        assert(i * bw + bw <= across * bw) by (nonlinear_arith)
            requires
                i < across,
                0 < bw,
        ;
        let j = k % down;
        assert((f + j) * bh + bh <= (f + down) * bh) by (nonlinear_arith)
            requires
                j < down,
                0 < bh,
        ;
    }
}

/// Number of blocks of the lower half of the canvas.
pub fn block_count(canvas: &Canvas) -> (n: usize)
    requires
        canvas.wf(),
    ensures
        n == origins(*canvas).len(),
{
    let ghost c = *canvas;
    proof {
        lemma_geometry(c);
        assert(blocks_across(c) <= c.width) by (nonlinear_arith)
            requires
                blocks_across(c) * c.block_width == c.width,
                0 < c.block_width,
                0 <= blocks_across(c),
        ;
        assert(blocks_down(c) <= c.height) by (nonlinear_arith)
            requires
                (first_block_row(c) + blocks_down(c)) * c.block_height == c.height,
                0 < c.block_height,
                0 <= first_block_row(c),
                0 <= blocks_down(c),
        ;
        assert(blocks_across(c) * blocks_down(c) <= 1024 * 1024) by (nonlinear_arith)
            requires
                0 <= blocks_across(c) <= 1024,
                0 <= blocks_down(c) <= 1024,
        ;
    }
    let across = (canvas.width / canvas.block_width) as usize;
    let down = (canvas.height / canvas.block_height - canvas.height / 2 / canvas.block_height) as usize;
    across * down
}

/// The origins of all blocks of the lower half of the canvas, in queue order.
pub fn block_origins(canvas: &Canvas) -> (r: Vec<(i32, i32)>)
    requires
        canvas.wf(),
    ensures
        r@ == origins(*canvas),
{
    let ghost c = *canvas;
    proof {
        lemma_geometry(c);
    }
    let across = canvas.width / canvas.block_width;
    let first = canvas.height / 2 / canvas.block_height;
    let last = canvas.height / canvas.block_height;
    let ghost down = blocks_down(c);
    let mut r: Vec<(i32, i32)> = Vec::new();
    let mut bx: i32 = 0;
    while bx < across
        invariant
            c == *canvas,
            c.wf(),
            across == blocks_across(c),
            first == first_block_row(c),
            last - first == down,
            down == blocks_down(c),
            blocks_across(c) * c.block_width == c.width,
            (first_block_row(c) + blocks_down(c)) * c.block_height == c.height,
            0 <= first,
            0 <= down,
            0 <= bx <= across,
            r@.len() == bx * down,
            forall|k: int| 0 <= k < r@.len() ==> r@[k] == origin_at(c, k),
        decreases across - bx,
    {
        let mut by = first;
        while by < last
            invariant
                c == *canvas,
                c.wf(),
                across == blocks_across(c),
                first == first_block_row(c),
                last - first == down,
                down == blocks_down(c),
                blocks_across(c) * c.block_width == c.width,
                (first_block_row(c) + blocks_down(c)) * c.block_height == c.height,
                0 <= first <= by <= last,
                0 <= bx < across,
                r@.len() == bx * down + (by - first),
                forall|k: int| 0 <= k < r@.len() ==> r@[k] == origin_at(c, k),
            decreases last - by,
        {
            let ghost k = r@.len() as int;
            proof {
                lemma_index_split(k, bx as int, by - first, down);
                assert(bx * c.block_width <= across * c.block_width) by (nonlinear_arith)
                    requires
                        0 <= bx < across,
                        0 < c.block_width,
                ;
                assert(0 <= by * c.block_height <= (first + down) * c.block_height) by (nonlinear_arith)
                    requires
                        0 <= by <= first + down,
                        0 < c.block_height,
                ;
            }
            r.push((bx * canvas.block_width, by * canvas.block_height));
            by = by + 1;
        }
        proof {
            assert((bx + 1) * down == bx * down + down) by (nonlinear_arith);
        }
        bx = bx + 1;
    }
    proof {
        assert(r@ =~= origins(c));
    }
    r
}

} // verus!
