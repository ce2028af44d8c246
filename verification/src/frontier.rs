//! The start of propagation: every pixel is classified by its alpha, and
//! the first layer of transparent pixels is picked beside the opaque ones.

use vstd::prelude::*;
use crate::bitmap::{Bitmap, Grid, get_pixel};
use crate::grid::{cells, in_grid, index_of, lemma_index_bound, lemma_index_injective, lemma_neighbors_sound, neighbors, neighbors_spec};
use crate::wave::{state_at, PixelState, Wave};

verus! {

/// The states before any propagation: a pixel with an alpha above zero is
/// resolved, its colour being final, and every other pixel is unresolved.
pub open spec fn classify_spec(g: Grid) -> Seq<PixelState> {
    Seq::new(
        g.pixels.len(),
        |i: int|
            if g.pixels[i].a > 0 {
                PixelState::Resolved
            } else {
                PixelState::Unresolved
            },
    )
}

/// The first place at or after `from` in `cells` whose cell is unresolved;
/// the length of `cells` if there is none.
pub open spec fn first_unresolved(
    states: Seq<PixelState>,
    w: int,
    cells: Seq<(int, int)>,
    from: int,
) -> int
    decreases cells.len() - from,
{
    if from >= cells.len() {
        cells.len() as int
    } else if state_at(states, w, cells[from].0, cells[from].1) is Unresolved {
        from
    } else {
        first_unresolved(states, w, cells, from + 1)
    }
}

/// Seeding from the cell `(x, y)`: if it is resolved, the first unresolved
/// cell around it, in clockwise order, is queued. One cell at most is queued
/// per source.
pub open spec fn seed_from(states: Seq<PixelState>, w: int, h: int, x: int, y: int) -> Seq<
    PixelState,
> {
    let around = neighbors_spec(x, y, w, h);
    let k = first_unresolved(states, w, around, 0);
    if state_at(states, w, x, y) is Resolved && k < around.len() {
        states.update(index_of(w, around[k].0, around[k].1), PixelState::Queued)
    } else {
        states
    }
}

/// The states after the seeding scan has passed every row above `y` and the
/// first `x` cells of row `y`. The scan goes through the rows from the top,
/// and through each row from the left.
pub open spec fn seed_scan(states: Seq<PixelState>, w: nat, h: nat, x: nat, y: nat) -> Seq<
    PixelState,
>
    decreases y, x,
{
    if x > 0 {
        seed_from(
            seed_scan(states, w, h, (x - 1) as nat, y),
            w as int,
            h as int,
            x - 1,
            y as int,
        )
    } else if y > 0 {
        seed_scan(states, w, h, w, (y - 1) as nat)
    } else {
        states
    }
}

/// The picture from which the rounds start: the pixels classified, and the
/// seeding scan run over the whole grid.
pub open spec fn start(g: Grid) -> Wave {
    Wave { grid: g, states: seed_scan(classify_spec(g), g.width, g.height, 0, g.height) }
}

/// `(x, y)` is one of the cells in `queue`.
pub open spec fn listed(queue: Seq<(u32, u32)>, x: int, y: int) -> bool {
    exists|k: int| 0 <= k < queue.len() && #[trigger] queue[k].0 == x && queue[k].1 == y
}

/// `queue` holds the queued cells of the grid: each of its cells is queued,
/// and each queued cell is in it.
pub open spec fn lists_queued(queue: Seq<(u32, u32)>, states: Seq<PixelState>, w: int, h: int) -> bool {
    &&& forall|k: int|
        0 <= k < queue.len() ==> in_grid(w, h, (#[trigger] queue[k]).0 as int, queue[k].1 as int)
            && state_at(states, w, queue[k].0 as int, queue[k].1 as int) is Queued
    &&& forall|x: int, y: int|
        in_grid(w, h, x, y) && #[trigger] state_at(states, w, x, y) is Queued ==> listed(
            queue,
            x,
            y,
        )
}

/// The place of the cell `(x, y)` in row-major order.
pub(crate) fn cell_index(w: u32, h: u32, x: u32, y: u32) -> (i: usize)
    requires
        x < w,
        y < h,
        w * h <= usize::MAX,
    ensures
        i == index_of(w as int, x as int, y as int),
        i < w * h,
{
    proof {
        lemma_index_bound(w as int, h as int, x as int, y as int);
        assert(0 <= y * w <= y * w + x) by (nonlinear_arith)
            requires
                0 <= y,
                0 <= w,
                0 <= x,
        ;
    }
    (y as usize) * (w as usize) + (x as usize)
}

/// Labels every pixel by its alpha.
pub(crate) fn classify(img: &Bitmap, w: u32, h: u32) -> (states: Vec<PixelState>)
    requires
        img@.wf(),
        w == img@.width,
        h == img@.height,
        w * h <= usize::MAX,
    ensures
        states@ == classify_spec(img@),
{
    let mut states: Vec<PixelState> = Vec::new();
    let mut y: u32 = 0;
    while y < h
        invariant
            y <= h,
            img@.wf(),
            w == img@.width,
            h == img@.height,
            states@ == classify_spec(img@).take(y * w),
        decreases h - y,
    {
        let mut x: u32 = 0;
        while x < w
            invariant
                x <= w,
                y < h,
                img@.wf(),
                w == img@.width,
                h == img@.height,
                states@ == classify_spec(img@).take(y * w + x),
            decreases w - x,
        {
            proof {
                lemma_index_bound(w as int, h as int, x as int, y as int);
            }
            let p = get_pixel(img, x, y);
            let ghost before = states@;
            if p.a > 0 {
                states.push(PixelState::Resolved);
            } else {
                states.push(PixelState::Unresolved);
            }
            proof {
                let all = classify_spec(img@);
                let i = index_of(w as int, x as int, y as int);
                assert(all.take(i + 1) =~= all.take(i).push(all[i]));
            }
            x += 1;
        }
        proof {
            assert((y + 1) * w == y * w + w) by (nonlinear_arith);
        }
        y += 1;
    }
    proof {
        let all = classify_spec(img@);
        assert(all.take(h * w) =~= all) by {
            assert(h * w == w * h) by (nonlinear_arith);
        }
    }
    states
}

/// Seeds from one cell: if `(x, y)` is resolved, its first unresolved
/// neighbour is queued and appended to `queue`.
fn seed_cell(states: &mut Vec<PixelState>, queue: &mut Vec<(u32, u32)>, w: u32, h: u32, x: u32, y: u32)
    requires
        x < w,
        y < h,
        w * h <= usize::MAX,
        old(states)@.len() == w * h,
        lists_queued(old(queue)@, old(states)@, w as int, h as int),
    ensures
        final(states)@ == seed_from(old(states)@, w as int, h as int, x as int, y as int),
        final(states)@.len() == old(states)@.len(),
        lists_queued(final(queue)@, final(states)@, w as int, h as int),
{
    let i = cell_index(w, h, x, y);
    if states[i] == PixelState::Resolved {
        let around = neighbors(x, y, w, h);
        let ghost cs = neighbors_spec(x as int, y as int, w as int, h as int);
        let mut k: usize = 0;
        while k < around.len()
            invariant_except_break
                states@ == old(states)@,
                queue@ == old(queue)@,
                first_unresolved(states@, w as int, cs, 0) == first_unresolved(
                    states@,
                    w as int,
                    cs,
                    k as int,
                ),
            invariant
                k <= around.len(),
                x < w,
                y < h,
                w * h <= usize::MAX,
                old(states)@.len() == w * h,
                states@.len() == w * h,
                cells(around@) == cs,
                cs == neighbors_spec(x as int, y as int, w as int, h as int),
                state_at(old(states)@, w as int, x as int, y as int) is Resolved,
                lists_queued(old(queue)@, old(states)@, w as int, h as int),
            ensures
                states@ == seed_from(old(states)@, w as int, h as int, x as int, y as int),
                states@.len() == old(states)@.len(),
                lists_queued(queue@, states@, w as int, h as int),
            decreases around.len() - k,
        {
            let (x1, y1) = around[k];
            proof {
                assert(cs[k as int] == (x1 as int, y1 as int));
                lemma_neighbors_sound(x as int, y as int, w as int, h as int, k as int);
            }
            let j = cell_index(w, h, x1, y1);
            if states[j] == PixelState::Unresolved {
                queue.push((x1, y1));
                states[j] = PixelState::Queued;
                proof {
                    lemma_queue_grows(
                        old(queue)@,
                        old(states)@,
                        w as int,
                        h as int,
                        x1,
                        y1,
                    );
                }
                break ;
            }
            k += 1;
        }
    }
}

/// Queueing an unresolved cell and appending it keeps the queue in step
/// with the states.
proof fn lemma_queue_grows(
    queue: Seq<(u32, u32)>,
    states: Seq<PixelState>,
    w: int,
    h: int,
    x: u32,
    y: u32,
)
    requires
        states.len() == w * h,
        lists_queued(queue, states, w, h),
        in_grid(w, h, x as int, y as int),
    ensures
        lists_queued(
            queue.push((x, y)),
            states.update(index_of(w, x as int, y as int), PixelState::Queued),
            w,
            h,
        ),
{
    lemma_index_bound(w, h, x as int, y as int);
    let q2 = queue.push((x, y));
    let s2 = states.update(index_of(w, x as int, y as int), PixelState::Queued);
    assert forall|k: int| 0 <= k < q2.len() implies in_grid(
        w,
        h,
        (#[trigger] q2[k]).0 as int,
        q2[k].1 as int,
    ) && state_at(s2, w, q2[k].0 as int, q2[k].1 as int) is Queued by {
        if k < queue.len() {
            assert(q2[k] == queue[k]);
            lemma_index_bound(w, h, queue[k].0 as int, queue[k].1 as int);
        }
    }
    assert forall|x1: int, y1: int|
        in_grid(w, h, x1, y1) && #[trigger] state_at(s2, w, x1, y1) is Queued implies listed(
        q2,
        x1,
        y1,
    ) by {
        if index_of(w, x1, y1) == index_of(w, x as int, y as int) {
            lemma_index_injective(w, x1, y1, x as int, y as int);
            assert(q2[queue.len() as int].0 == x1 && q2[queue.len() as int].1 == y1);
        } else {
            lemma_index_bound(w, h, x1, y1);
            assert(state_at(states, w, x1, y1) is Queued);
            assert(listed(queue, x1, y1));
            let k = choose|k: int| 0 <= k < queue.len() && #[trigger] queue[k].0 == x1 && queue[k].1 == y1;
            assert(q2[k].0 == x1 && q2[k].1 == y1);
        }
    }
}

/// Finds the first layer: the whole grid is scanned row by row, and each
/// resolved pixel queues the first unresolved pixel around it.
pub(crate) fn seed(states: &mut Vec<PixelState>, w: u32, h: u32) -> (queue: Vec<(u32, u32)>)
    requires
        w * h <= usize::MAX,
        old(states)@.len() == w * h,
        forall|i: int| 0 <= i < old(states)@.len() ==> !(#[trigger] old(states)@[i] is Queued),
    ensures
        final(states)@ == seed_scan(old(states)@, w as nat, h as nat, 0, h as nat),
        final(states)@.len() == old(states)@.len(),
        lists_queued(queue@, final(states)@, w as int, h as int),
{
    let mut queue: Vec<(u32, u32)> = Vec::new();
    proof {
        assert forall|x: int, y: int|
            in_grid(w as int, h as int, x, y) implies !(#[trigger] state_at(
            states@,
            w as int,
            x,
            y,
        ) is Queued) by {
            lemma_index_bound(w as int, h as int, x, y);
        }
    }
    let mut y: u32 = 0;
    while y < h
        invariant
            y <= h,
            w * h <= usize::MAX,
            states@.len() == w * h,
            states@ == seed_scan(old(states)@, w as nat, h as nat, 0, y as nat),
            lists_queued(queue@, states@, w as int, h as int),
        decreases h - y,
    {
        let mut x: u32 = 0;
        while x < w
            invariant
                x <= w,
                y < h,
                w * h <= usize::MAX,
                states@.len() == w * h,
                states@ == seed_scan(old(states)@, w as nat, h as nat, x as nat, y as nat),
                lists_queued(queue@, states@, w as int, h as int),
            decreases w - x,
        {
            seed_cell(states, &mut queue, w, h, x, y);
            x += 1;
        }
        y += 1;
    }
    queue
}

} // verus!
