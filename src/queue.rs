//! The shared block queue, the worker loop that drains it, and the aggregation of
//! the workers' results.
use vstd::prelude::*;
use crate::block::{
    Canvas,
    Point,
    block_points,
    columns_points,
    column_points,
    pixel_points,
    sample_re,
    sample_im,
    compute_block,
};
use crate::escape::is_member;
use crate::tiling::{
    origins,
    block_origins,
    block_count,
    in_block,
    in_lower_half,
    lemma_blocks_tile_lower_half,
};

verus! {

#[verifier::external_type_specification]
#[verifier::external_body]
#[verifier::reject_recursive_types(T)]
pub struct ExSender<T: Send>(spmc::Sender<T>);

#[verifier::external_type_specification]
#[verifier::external_body]
#[verifier::reject_recursive_types(T)]
pub struct ExReceiver<T: Send>(spmc::Receiver<T>);

/// The blocks that a sender has queued, in the order it queued them.
pub uninterp spec fn queued_blocks(tx: spmc::Sender<(i32, i32)>) -> Seq<(i32, i32)>;

/// Relies on `spmc::Sender::send`: pushes the block onto the queue and returns `Ok`,
/// or, when no receiver is left, returns the block in an error and queues nothing.
/// Which of the two happens depends on other threads.
#[verifier::external_body]
fn send_block(tx: &mut spmc::Sender<(i32, i32)>, block: (i32, i32)) -> (sent: bool)
    ensures
        sent ==> queued_blocks(*final(tx)) == queued_blocks(*old(tx)).push(block),
        !sent ==> queued_blocks(*final(tx)) == queued_blocks(*old(tx)),
{
    tx.send(block).is_ok()
}

/// Relies on `spmc::Receiver::try_recv`: takes one queued block if there is one,
/// without waiting. What comes back depends on what other threads took.
#[verifier::external_body]
fn try_take_block(rx: &spmc::Receiver<(i32, i32)>) -> (block: Option<(i32, i32)>) {
    rx.try_recv().ok()
}

/// Concatenation of a sequence of sequences, in order.
pub open spec fn concat_all<A>(s: Seq<Seq<A>>) -> Seq<A>
    decreases s.len(),
{
    if s.len() == 0 {
        seq![]
    } else {
        concat_all(s.drop_last()) + s.last()
    }
}

/// The points that computing the blocks `blocks` in order appends.
pub open spec fn points_of_blocks(c: Canvas, blocks: Seq<(i32, i32)>) -> Seq<Point>
    decreases blocks.len(),
{
    if blocks.len() == 0 {
        seq![]
    } else {
        points_of_blocks(c, blocks.drop_last()) + block_points(c, blocks.last())
    }
}

/// The points of each worker's blocks, one sequence per worker.
pub open spec fn worker_points(c: Canvas, runs: Seq<Seq<(i32, i32)>>) -> Seq<Seq<Point>> {
    runs.map_values(|w: Seq<(i32, i32)>| points_of_blocks(c, w))
}

/// Puts every block origin of the lower half of the canvas on the queue, in order,
/// and stops at the first send that fails. Returns how many were queued.
pub fn fill_queue(canvas: &Canvas, tx: &mut spmc::Sender<(i32, i32)>) -> (queued: usize)
    requires
        canvas.wf(),
    ensures
        queued <= origins(*canvas).len(),
        queued_blocks(*final(tx)) == queued_blocks(*old(tx)) + origins(*canvas).subrange(
            0,
            queued as int,
        ),
{
    let blocks = block_origins(canvas);
    let mut i: usize = 0;
    while i < blocks.len()
        invariant
            i <= blocks@.len(),
            blocks@ == origins(*canvas),
            queued_blocks(*tx) == queued_blocks(*old(tx)) + blocks@.subrange(0, i as int),
        decreases blocks.len() - i,
    {
        if !send_block(tx, blocks[i]) {
            return i;
        }
        assert(blocks@.subrange(0, i + 1) =~= blocks@.subrange(0, i as int).push(blocks@[i as int]));
        i = i + 1;
    }
    i
}

/// Computes a block taken from the queue when it lies inside the canvas, and skips
/// it otherwise. Returns whether it was computed.
pub fn compute_taken_block(canvas: &Canvas, block: (i32, i32), points: &mut Vec<Point>) -> (computed: bool)
    requires
        canvas.wf(),
    ensures
        computed == canvas.block_inside(block.0 as int, block.1 as int),
        final(points)@ == old(points)@ + if computed {
            block_points(*canvas, block)
        } else {
            Seq::<Point>::empty()
        },
{
    let (x, y) = block;
    if 0 <= x && x <= canvas.width - canvas.block_width && 0 <= y && y <= canvas.height
        - canvas.block_height {
        compute_block(canvas, x, y, points);
        true
    } else {
        assert(points@ =~= old(points)@ + Seq::<Point>::empty());
        false
    }
}

/// A worker: takes blocks from the queue until it is empty, at most as many as the
/// canvas has, and computes each one that lies inside the canvas. The result is the
/// points of the blocks taken, in the order taken.
pub fn drain_queue(canvas: &Canvas, rx: &spmc::Receiver<(i32, i32)>) -> (points: Vec<Point>)
    requires
        canvas.wf(),
    ensures
        exists|taken: Seq<(i32, i32)>|
            {
                &&& taken.len() <= origins(*canvas).len()
                &&& forall|k: int|
                    0 <= k < taken.len() ==> canvas.block_inside(
                        (#[trigger] taken[k]).0 as int,
                        taken[k].1 as int,
                    )
                &&& points@ == points_of_blocks(*canvas, taken)
            },
{
    let limit = block_count(canvas);
    let mut points: Vec<Point> = Vec::new();
    let ghost mut taken: Seq<(i32, i32)> = seq![];
    let mut n: usize = 0;
    while n < limit
        invariant
            canvas.wf(),
            limit == origins(*canvas).len(),
            n <= limit,
            taken.len() <= n,
            forall|k: int|
                0 <= k < taken.len() ==> canvas.block_inside(
                    (#[trigger] taken[k]).0 as int,
                    taken[k].1 as int,
                ),
            points@ == points_of_blocks(*canvas, taken),
        decreases limit - n,
    {
        match try_take_block(rx) {
            Some(b) => {
                if compute_taken_block(canvas, b, &mut points) {
                    proof {
                        let t = taken.push(b);
                        assert(t.drop_last() =~= taken);
                        taken = t;
                    }
                } else {
                    assert(points@ =~= points_of_blocks(*canvas, taken));
                }
            },
            None => {
                break;
            },
        }
        n = n + 1;
    }
    points
}

/// Concatenates the workers' results, in the order given.
pub fn concat_results(results: Vec<Vec<Point>>) -> (all: Vec<Point>)
    ensures
        all@ == concat_all(results@.map_values(|v: Vec<Point>| v@)),
{
    let ghost views = results@.map_values(|v: Vec<Point>| v@);
    let mut all: Vec<Point> = Vec::new();
    let mut i: usize = 0;
    while i < results.len()
        invariant
            i <= results@.len(),
            views == results@.map_values(|v: Vec<Point>| v@),
            all@ == concat_all(views.subrange(0, i as int)),
        decreases results.len() - i,
    {
        let part = &results[i];
        let mut j: usize = 0;
        let ghost before = all@;
        while j < part.len()
            invariant
                j <= part@.len(),
                all@ == before + part@.subrange(0, j as int),
            decreases part.len() - j,
        {
            all.push(part[j]);
            proof {
                assert(part@.subrange(0, j + 1) =~= part@.subrange(0, j as int).push(part@[j as int]));
            }
            j = j + 1;
        }
        proof {
            assert(views.subrange(0, i + 1).drop_last() =~= views.subrange(0, i as int));
            assert(part@.subrange(0, j as int) =~= part@);
        }
        i = i + 1;
    }
    proof {
        assert(views.subrange(0, results@.len() as int) =~= views);
    }
    all
}

/// Computing `a` then `b` gives the points of `a` followed by those of `b`.
proof fn lemma_points_of_concat(c: Canvas, a: Seq<(i32, i32)>, b: Seq<(i32, i32)>)
    ensures
        points_of_blocks(c, a + b) == points_of_blocks(c, a) + points_of_blocks(c, b),
    decreases b.len(),
{
    if b.len() == 0 {
        assert(a + b =~= a);
        assert(points_of_blocks(c, a) + seq![] =~= points_of_blocks(c, a));
    } else {
        lemma_points_of_concat(c, a, b.drop_last());
        assert((a + b).drop_last() =~= a + b.drop_last());
        assert(points_of_blocks(c, a + b) =~= points_of_blocks(c, a) + points_of_blocks(c, b));
    }
}

/// The concatenated points of the workers are the points of their concatenated blocks.
proof fn lemma_worker_points(c: Canvas, runs: Seq<Seq<(i32, i32)>>)
    ensures
        concat_all(worker_points(c, runs)) == points_of_blocks(c, concat_all(runs)),
    decreases runs.len(),
{
    if runs.len() > 0 {
        lemma_worker_points(c, runs.drop_last());
        assert(worker_points(c, runs).drop_last() =~= worker_points(c, runs.drop_last()));
        lemma_points_of_concat(c, concat_all(runs.drop_last()), runs.last());
    }
}

/// Block sequences with the same multiset of blocks give the same multiset of points.
proof fn lemma_points_permutation(c: Canvas, s1: Seq<(i32, i32)>, s2: Seq<(i32, i32)>)
    requires
        s1.to_multiset() == s2.to_multiset(),
    ensures
        points_of_blocks(c, s1).to_multiset() == points_of_blocks(c, s2).to_multiset(),
    decreases s1.len(),
{
    if s1.len() == 0 {
        vstd::seq_lib::to_multiset_len(s1);
        vstd::seq_lib::to_multiset_len(s2);
        assert(s2 =~= seq![]);
    } else {
        let b = s1.last();
        let rest1 = s1.drop_last();
        assert(rest1.push(b) =~= s1);
        vstd::seq_lib::to_multiset_build(rest1, b);
        assert(s1.to_multiset().count(b) > 0) by {
            broadcast use vstd::multiset::group_multiset_axioms;
        }
        vstd::seq_lib::to_multiset_contains(s2, b);
        let i = choose|i: int| 0 <= i < s2.len() && s2[i] == b;
        let rest2 = s2.remove(i);
        vstd::seq_lib::to_multiset_remove(s2, i);
        assert(rest1.to_multiset() =~= s1.to_multiset().remove(b)) by {
            broadcast use vstd::multiset::group_multiset_axioms;
        }
        lemma_points_permutation(c, rest1, rest2);
        let pre = s2.subrange(0, i);
        let post = s2.subrange(i + 1, s2.len() as int);
        assert(s2 =~= pre + seq![b] + post);
        assert(rest2 =~= pre + post);
        lemma_points_of_concat(c, pre + seq![b], post);
        lemma_points_of_concat(c, pre, seq![b]);
        lemma_points_of_concat(c, pre, post);
        assert(seq![b].drop_last() =~= Seq::<(i32, i32)>::empty());
        assert(seq![b].last() == b);
        assert(points_of_blocks(c, Seq::<(i32, i32)>::empty()) == Seq::<Point>::empty());
        assert(Seq::<Point>::empty() + block_points(c, b) =~= block_points(c, b));
        assert(points_of_blocks(c, seq![b]) =~= block_points(c, b));
        let pa = points_of_blocks(c, pre);
        let pb = block_points(c, b);
        let pc = points_of_blocks(c, post);
        vstd::seq_lib::lemma_multiset_commutative(pa, pb);
        vstd::seq_lib::lemma_multiset_commutative(pa + pb, pc);
        vstd::seq_lib::lemma_multiset_commutative(pa, pc);
        vstd::seq_lib::lemma_multiset_commutative(points_of_blocks(c, rest1), pb);
        assert(points_of_blocks(c, s1) == points_of_blocks(c, rest1) + pb);
        assert(points_of_blocks(c, s2) == pa + pb + pc);
        assert(points_of_blocks(c, rest2) == pa + pc);
        assert(points_of_blocks(c, s1).to_multiset() =~= points_of_blocks(c, s2).to_multiset()) by {
            broadcast use vstd::multiset::group_multiset_axioms;
        }
    }
}

/// Two runs in which the workers took, between them, every block of the canvas exactly
/// once emit the same multiset of points, however the blocks were split among the
/// workers and in whatever order the workers' results are joined.
pub proof fn lemma_runs_agree(
    c: Canvas,
    run1: Seq<Seq<(i32, i32)>>,
    run2: Seq<Seq<(i32, i32)>>,
)
    requires
        c.wf(),
        concat_all(run1).to_multiset() == origins(c).to_multiset(),
        concat_all(run2).to_multiset() == origins(c).to_multiset(),
    ensures
        concat_all(worker_points(c, run1)).to_multiset() == concat_all(
            worker_points(c, run2),
        ).to_multiset(),
{
    lemma_worker_points(c, run1);
    lemma_worker_points(c, run2);
    lemma_points_permutation(c, concat_all(run1), concat_all(run2));
}

/// Pixel `(x, y)` is a member, and `p` is that pixel or its mirror.
pub open spec fn emits(c: Canvas, x: int, y: int, p: Point) -> bool {
    &&& is_member(sample_re(c, x), sample_im(c, y))
    &&& (p == Point { x: x as i32, y: y as i32 } || p == Point { x: x as i32, y: (c.height - y) as i32 })
}

proof fn lemma_concat_contains(a: Seq<Point>, b: Seq<Point>, p: Point)
    ensures
        (a + b).contains(p) <==> a.contains(p) || b.contains(p),
{
    if (a + b).contains(p) {
        let i = choose|i: int| 0 <= i < (a + b).len() && (a + b)[i] == p;
        if i >= a.len() {
            assert(b[i - a.len()] == p);
        }
    }
    if a.contains(p) {
        let i = choose|i: int| 0 <= i < a.len() && a[i] == p;
        assert((a + b)[i] == p);
    }
    if b.contains(p) {
        let i = choose|i: int| 0 <= i < b.len() && b[i] == p;
        assert((a + b)[a.len() + i] == p);
    }
}

proof fn lemma_pixel_contains(c: Canvas, x: int, y: int, p: Point)
    ensures
        pixel_points(c, x, y).contains(p) <==> emits(c, x, y, p),
{
    if emits(c, x, y, p) {
        if p == (Point { x: x as i32, y: y as i32 }) {
            assert(pixel_points(c, x, y)[0] == p);
        } else {
            assert(pixel_points(c, x, y)[1] == p);
        }
    }
}

proof fn lemma_column_contains(c: Canvas, x: int, y0: int, n: nat, p: Point)
    ensures
        column_points(c, x, y0, n).contains(p) <==> exists|y: int|
            y0 <= y < y0 + n && #[trigger] emits(c, x, y, p),
    decreases n,
{
    if n > 0 {
        lemma_column_contains(c, x, y0, (n - 1) as nat, p);
        lemma_concat_contains(
            column_points(c, x, y0, (n - 1) as nat),
            pixel_points(c, x, y0 + n - 1),
            p,
        );
        lemma_pixel_contains(c, x, y0 + n - 1, p);
        if exists|y: int| y0 <= y < y0 + n && #[trigger] emits(c, x, y, p) {
            let y = choose|y: int| y0 <= y < y0 + n && #[trigger] emits(c, x, y, p);
            if y < y0 + n - 1 {
                assert(y0 <= y < y0 + (n - 1) && emits(c, x, y, p));
            }
        }
    }
}

proof fn lemma_columns_contains(c: Canvas, x0: int, y0: int, m: nat, p: Point)
    requires
        c.wf(),
    ensures
        columns_points(c, x0, y0, m).contains(p) <==> exists|x: int, y: int|
            x0 <= x < x0 + m && y0 <= y < y0 + c.block_height && #[trigger] emits(c, x, y, p),
    decreases m,
{
    if m > 0 {
        let x1 = x0 + m - 1;
        lemma_columns_contains(c, x0, y0, (m - 1) as nat, p);
        lemma_column_contains(c, x1, y0, c.block_height as nat, p);
        lemma_concat_contains(
            columns_points(c, x0, y0, (m - 1) as nat),
            column_points(c, x1, y0, c.block_height as nat),
            p,
        );
        if exists|x: int, y: int|
            x0 <= x < x0 + m && y0 <= y < y0 + c.block_height && #[trigger] emits(c, x, y, p) {
            let (x, y) = choose|x: int, y: int|
                x0 <= x < x0 + m && y0 <= y < y0 + c.block_height && #[trigger] emits(c, x, y, p);
            if x < x1 {
                assert(x0 <= x < x0 + (m - 1) && y0 <= y < y0 + c.block_height && emits(c, x, y, p));
            } else {
                assert(y0 <= y < y0 + c.block_height && emits(c, x1, y, p));
            }
        }
        if columns_points(c, x0, y0, (m - 1) as nat).contains(p) {
            let (x, y) = choose|x: int, y: int|
                x0 <= x < x0 + (m - 1) && y0 <= y < y0 + c.block_height && #[trigger] emits(c, x, y, p);
            assert(x0 <= x < x0 + m && y0 <= y < y0 + c.block_height && emits(c, x, y, p));
        }
        if column_points(c, x1, y0, c.block_height as nat).contains(p) {
            let y = choose|y: int| y0 <= y < y0 + (c.block_height as nat) && #[trigger] emits(c, x1, y, p);
            assert(x0 <= x1 < x0 + m && y0 <= y < y0 + c.block_height && emits(c, x1, y, p));
        }
    }
}

proof fn lemma_blocks_contains(c: Canvas, s: Seq<(i32, i32)>, p: Point)
    requires
        c.wf(),
    ensures
        points_of_blocks(c, s).contains(p) <==> exists|k: int, x: int, y: int|
            0 <= k < s.len() && #[trigger] in_block(c, s[k], x, y) && #[trigger] emits(c, x, y, p),
    decreases s.len(),
{
    if s.len() > 0 {
        let b = s.last();
        let rest = s.drop_last();
        lemma_blocks_contains(c, rest, p);
        lemma_columns_contains(c, b.0 as int, b.1 as int, c.block_width as nat, p);
        lemma_concat_contains(points_of_blocks(c, rest), block_points(c, b), p);
        if exists|k: int, x: int, y: int|
            0 <= k < s.len() && #[trigger] in_block(c, s[k], x, y) && #[trigger] emits(c, x, y, p) {
            let (k, x, y) = choose|k: int, x: int, y: int|
                0 <= k < s.len() && #[trigger] in_block(c, s[k], x, y) && #[trigger] emits(c, x, y, p);
            if k < rest.len() {
                assert(0 <= k < rest.len() && in_block(c, rest[k], x, y) && emits(c, x, y, p));
            } else {
                assert(b.0 <= x < b.0 + c.block_width && b.1 <= y < b.1 + c.block_height && emits(c, x, y, p));
            }
        }
        if points_of_blocks(c, rest).contains(p) {
            let (k, x, y) = choose|k: int, x: int, y: int|
                0 <= k < rest.len() && #[trigger] in_block(c, rest[k], x, y) && #[trigger] emits(c, x, y, p);
            assert(0 <= k < s.len() && in_block(c, s[k], x, y) && emits(c, x, y, p));
        }
        if block_points(c, b).contains(p) {
            let (x0, y0) = (b.0 as int, b.1 as int);
            let m = c.block_width as nat;
            assert(block_points(c, b) == columns_points(c, x0, y0, m));
            let (x, y) = choose|x: int, y: int|
                x0 <= x < x0 + m && y0 <= y < y0 + c.block_height && #[trigger] emits(c, x, y, p);
            assert(s[s.len() - 1] == b);
            assert(0 <= s.len() - 1 < s.len() && in_block(c, s[s.len() - 1], x, y) && emits(c, x, y, p));
        }
    }
}

/// Computing every block of the lower half emits exactly the member pixels of the
/// lower half and their mirrors: a point is emitted if and only if it is a member
/// pixel `(x, y)` of the lower half, or the mirror `(x, height - y)` of one.
pub proof fn lemma_all_blocks_emit_members(c: Canvas, p: Point)
    requires
        c.wf(),
    ensures
        points_of_blocks(c, origins(c)).contains(p) <==> exists|x: int, y: int|
            in_lower_half(c, x, y) && #[trigger] emits(c, x, y, p),
{
    lemma_blocks_tile_lower_half(c);
    lemma_blocks_contains(c, origins(c), p);
    if exists|x: int, y: int| in_lower_half(c, x, y) && #[trigger] emits(c, x, y, p) {
        let (x, y) = choose|x: int, y: int| in_lower_half(c, x, y) && #[trigger] emits(c, x, y, p);
        assert(in_lower_half(c, x, y));
        let k = choose|k: int| 0 <= k < origins(c).len() && in_block(c, #[trigger] origins(c)[k], x, y);
        assert(0 <= k < origins(c).len() && in_block(c, origins(c)[k], x, y) && emits(c, x, y, p));
    }
    if points_of_blocks(c, origins(c)).contains(p) {
        let (k, x, y) = choose|k: int, x: int, y: int|
            0 <= k < origins(c).len() && #[trigger] in_block(c, origins(c)[k], x, y) && #[trigger] emits(c, x, y, p);
        assert(in_lower_half(c, x, y));
    }
}

} // verus!
