//! The rounds of propagation, as they run.
//!
//! A round goes through the current layer cell by cell. For each cell it
//! averages the resolved cells around it and queues the unresolved ones for
//! the next round. Only when the whole layer has its colours are its cells
//! marked as resolved, so that no cell ever takes colour from a cell of its
//! own layer.

use vstd::prelude::*;
use crate::bitmap::{get_pixel, put_pixel, Bitmap, Grid, Rgba8};
use crate::frontier::{cell_index, listed, lists_queued};
use crate::grid::{
    adjacent, cells, in_grid, index_of, lemma_coords_index, lemma_index_bound,
    lemma_index_injective, lemma_neighbors_complete, lemma_neighbors_sound, neighbors,
    neighbors_spec,
};
use crate::wave::{lemma_advance_resolves, pending, state_at, PixelState, Tally, Wave};

verus! {

/// `(x, y)` is among the first `i` of `cs`.
pub open spec fn hit(cs: Seq<(int, int)>, i: int, x: int, y: int) -> bool {
    exists|m: int| 0 <= m < i && #[trigger] cs[m] == (x, y)
}

/// `(x, y)` touches one of the first `k` cells of `queue`.
pub open spec fn discovered(queue: Seq<(u32, u32)>, k: int, x: int, y: int) -> bool {
    exists|j: int|
        0 <= j < k && adjacent((#[trigger] queue[j]).0 as int, queue[j].1 as int, x, y)
}

/// `(x, y)` has been seen from the layer so far: from one of its first `k`
/// cells, or as one of the first `i` cells of `cs`, the cells around the
/// cell that is being visited.
pub open spec fn marked(
    queue: Seq<(u32, u32)>,
    k: int,
    cs: Seq<(int, int)>,
    i: int,
    x: int,
    y: int,
) -> bool {
    discovered(queue, k, x, y) || hit(cs, i, x, y)
}

/// The state that the cell `(x, y)` has in the middle of a round: an
/// unresolved cell that has been seen is queued already, and the cells of
/// the layer are queued still.
pub open spec fn mid_state(
    wave: Wave,
    queue: Seq<(u32, u32)>,
    k: int,
    cs: Seq<(int, int)>,
    i: int,
    x: int,
    y: int,
) -> PixelState {
    if wave.state(x, y) is Unresolved && marked(queue, k, cs, i, x, y) {
        PixelState::Queued
    } else {
        wave.state(x, y)
    }
}

/// The states in the middle of a round are those of `mid_state`.
pub open spec fn states_mid(
    stages: Seq<PixelState>,
    wave: Wave,
    queue: Seq<(u32, u32)>,
    k: int,
    cs: Seq<(int, int)>,
    i: int,
) -> bool {
    forall|x: int, y: int|
        wave.grid.has(x, y) ==> #[trigger] state_at(stages, wave.grid.width as int, x, y)
            == mid_state(wave, queue, k, cs, i, x, y)
}

/// The next layer in the middle of a round: it holds the unresolved cells
/// that have been seen, and no others.
pub open spec fn next_mid(
    next: Seq<(u32, u32)>,
    wave: Wave,
    queue: Seq<(u32, u32)>,
    k: int,
    cs: Seq<(int, int)>,
    i: int,
) -> bool {
    &&& forall|m: int|
        0 <= m < next.len() ==> wave.grid.has((#[trigger] next[m]).0 as int, next[m].1 as int)
            && wave.state(next[m].0 as int, next[m].1 as int) is Unresolved && marked(
            queue,
            k,
            cs,
            i,
            next[m].0 as int,
            next[m].1 as int,
        )
    &&& forall|x: int, y: int|
        wave.grid.has(x, y) && wave.state(x, y) is Unresolved && #[trigger] marked(
            queue,
            k,
            cs,
            i,
            x,
            y,
        ) ==> listed(next, x, y)
}

/// The pixels in the middle of a round: the first `k` cells of the layer
/// have their new pixel, every other cell the pixel it had.
pub open spec fn pixels_mid(
    g: Grid,
    wave: Wave,
    queue: Seq<(u32, u32)>,
    k: int,
    alpha: u8,
) -> bool {
    &&& g.width == wave.grid.width
    &&& g.height == wave.grid.height
    &&& g.pixels.len() == wave.grid.pixels.len()
    &&& forall|x: int, y: int|
        wave.grid.has(x, y) ==> #[trigger] g.at(x, y) == if listed(queue.take(k), x, y) {
            wave.blend(x, y, alpha)
        } else {
            wave.grid.at(x, y)
        }
}

/// One more of `cs` is looked at: what was hit before, and the cell at
/// place `i`.
proof fn lemma_hit_step(cs: Seq<(int, int)>, i: int, x: int, y: int)
    requires
        0 <= i < cs.len(),
    ensures
        hit(cs, i + 1, x, y) <==> hit(cs, i, x, y) || cs[i] == (x, y),
{
    if hit(cs, i + 1, x, y) {
        let m = choose|m: int| 0 <= m < i + 1 && #[trigger] cs[m] == (x, y);
        if m < i {
            assert(hit(cs, i, x, y));
        }
    }
    if hit(cs, i, x, y) {
        let m = choose|m: int| 0 <= m < i && #[trigger] cs[m] == (x, y);
        assert(0 <= m < i + 1 && cs[m] == (x, y));
    }
    if cs[i] == (x, y) {
        assert(0 <= i < i + 1 && cs[i] == (x, y));
    }
}

/// One more cell of the queue is taken: what was listed before, and the
/// cell at place `k`.
proof fn lemma_listed_step(queue: Seq<(u32, u32)>, k: int, x: int, y: int)
    requires
        0 <= k < queue.len(),
    ensures
        listed(queue.take(k + 1), x, y) <==> listed(queue.take(k), x, y) || (queue[k].0 == x
            && queue[k].1 == y),
{
    let a = queue.take(k);
    let b = queue.take(k + 1);
    if listed(b, x, y) {
        let m = choose|m: int| 0 <= m < b.len() && #[trigger] b[m].0 == x && b[m].1 == y;
        if m < k {
            assert(a[m].0 == x && a[m].1 == y);
        }
    }
    if listed(a, x, y) {
        let m = choose|m: int| 0 <= m < a.len() && #[trigger] a[m].0 == x && a[m].1 == y;
        assert(b[m].0 == x && b[m].1 == y);
    }
    if queue[k].0 == x && queue[k].1 == y {
        assert(b[k].0 == x && b[k].1 == y);
    }
}

/// The cells that touch one of the first `k + 1` cells of the layer are
/// those seen when the cell at place `k` has had all cells around it
/// looked at.
proof fn lemma_discovered_step(
    queue: Seq<(u32, u32)>,
    k: int,
    w: int,
    h: int,
    x: int,
    y: int,
)
    requires
        0 <= k < queue.len(),
        in_grid(w, h, x, y),
    ensures
        discovered(queue, k + 1, x, y) <==> marked(
            queue,
            k,
            neighbors_spec(queue[k].0 as int, queue[k].1 as int, w, h),
            neighbors_spec(queue[k].0 as int, queue[k].1 as int, w, h).len() as int,
            x,
            y,
        ),
{
    let cx = queue[k].0 as int;
    let cy = queue[k].1 as int;
    let cs = neighbors_spec(cx, cy, w, h);
    if discovered(queue, k + 1, x, y) {
        let j = choose|j: int|
            0 <= j < k + 1 && adjacent((#[trigger] queue[j]).0 as int, queue[j].1 as int, x, y);
        if j < k {
            assert(discovered(queue, k, x, y));
        } else {
            lemma_neighbors_complete(cx, cy, w, h, x, y);
            let m = choose|m: int| 0 <= m < cs.len() && cs[m] == (x, y);
            assert(hit(cs, cs.len() as int, x, y));
        }
    }
    if discovered(queue, k, x, y) {
        let j = choose|j: int|
            0 <= j < k && adjacent((#[trigger] queue[j]).0 as int, queue[j].1 as int, x, y);
        assert(0 <= j < k + 1 && adjacent(queue[j].0 as int, queue[j].1 as int, x, y));
    }
    if hit(cs, cs.len() as int, x, y) {
        let m = choose|m: int| 0 <= m < cs.len() && #[trigger] cs[m] == (x, y);
        lemma_neighbors_sound(cx, cy, w, h, m);
        assert(adjacent(queue[k].0 as int, queue[k].1 as int, x, y));
    }
}

/// An unresolved cell next to a queued one is exactly one that touches a
/// cell of the layer.
proof fn lemma_touches_is_discovered(wave: Wave, queue: Seq<(u32, u32)>, x: int, y: int)
    requires
        wave.wf(),
        wave.grid.has(x, y),
        lists_queued(queue, wave.states, wave.grid.width as int, wave.grid.height as int),
    ensures
        wave.touches_queued(x, y) <==> discovered(queue, queue.len() as int, x, y),
{
    let w = wave.grid.width as int;
    let h = wave.grid.height as int;
    let cs = wave.grid.around(x, y);
    if wave.touches_queued(x, y) {
        let k = choose|k: int| 0 <= k < cs.len() && (#[trigger] wave.state(cs[k].0, cs[k].1)) is Queued;
        lemma_neighbors_sound(x, y, w, h, k);
        assert(state_at(wave.states, w, cs[k].0, cs[k].1) is Queued);
        assert(listed(queue, cs[k].0, cs[k].1));
        let j = choose|j: int| 0 <= j < queue.len() && #[trigger] queue[j].0 == cs[k].0 && queue[j].1 == cs[k].1;
        assert(adjacent(queue[j].0 as int, queue[j].1 as int, x, y));
    }
    if discovered(queue, queue.len() as int, x, y) {
        let j = choose|j: int|
            0 <= j < queue.len() && adjacent((#[trigger] queue[j]).0 as int, queue[j].1 as int, x, y);
        let qx = queue[j].0 as int;
        let qy = queue[j].1 as int;
        lemma_neighbors_complete(x, y, w, h, qx, qy);
        let k = choose|k: int| 0 <= k < cs.len() && cs[k] == (qx, qy);
        assert(wave.state(cs[k].0, cs[k].1) is Queued);
    }
}

/// Looking at an unresolved cell: it is queued and appended to the next
/// layer.
proof fn lemma_mark_step(
    wave: Wave,
    queue: Seq<(u32, u32)>,
    k: int,
    cs: Seq<(int, int)>,
    i: int,
    stages: Seq<PixelState>,
    next: Seq<(u32, u32)>,
    x1: u32,
    y1: u32,
)
    requires
        wave.wf(),
        stages.len() == wave.states.len(),
        0 <= i < cs.len(),
        cs[i] == (x1 as int, y1 as int),
        wave.grid.has(x1 as int, y1 as int),
        states_mid(stages, wave, queue, k, cs, i),
        next_mid(next, wave, queue, k, cs, i),
        state_at(stages, wave.grid.width as int, x1 as int, y1 as int) is Unresolved,
    ensures
        states_mid(
            stages.update(index_of(wave.grid.width as int, x1 as int, y1 as int), PixelState::Queued),
            wave,
            queue,
            k,
            cs,
            i + 1,
        ),
        next_mid(next.push((x1, y1)), wave, queue, k, cs, i + 1),
{
    let w = wave.grid.width as int;
    let h = wave.grid.height as int;
    lemma_index_bound(w, h, x1 as int, y1 as int);
    let s2 = stages.update(index_of(w, x1 as int, y1 as int), PixelState::Queued);
    let n2 = next.push((x1, y1));
    lemma_hit_step(cs, i, x1 as int, y1 as int);
    assert forall|x: int, y: int| wave.grid.has(x, y) implies #[trigger] state_at(s2, w, x, y)
        == mid_state(wave, queue, k, cs, i + 1, x, y) by {
        lemma_index_bound(w, h, x, y);
        lemma_hit_step(cs, i, x, y);
        assert(state_at(stages, w, x, y) == mid_state(wave, queue, k, cs, i, x, y));
        if index_of(w, x, y) == index_of(w, x1 as int, y1 as int) {
            lemma_index_injective(w, x, y, x1 as int, y1 as int);
        }
    }
    assert forall|m: int| 0 <= m < n2.len() implies wave.grid.has(
        (#[trigger] n2[m]).0 as int,
        n2[m].1 as int,
    ) && wave.state(n2[m].0 as int, n2[m].1 as int) is Unresolved && marked(
        queue,
        k,
        cs,
        i + 1,
        n2[m].0 as int,
        n2[m].1 as int,
    ) by {
        if m < next.len() {
            assert(n2[m] == next[m]);
            lemma_hit_step(cs, i, next[m].0 as int, next[m].1 as int);
        } else {
            assert(state_at(stages, w, x1 as int, y1 as int) == mid_state(
                wave,
                queue,
                k,
                cs,
                i,
                x1 as int,
                y1 as int,
            ));
        }
    }
    assert forall|x: int, y: int|
        wave.grid.has(x, y) && wave.state(x, y) is Unresolved && #[trigger] marked(
            queue,
            k,
            cs,
            i + 1,
            x,
            y,
        ) implies listed(n2, x, y) by {
        lemma_hit_step(cs, i, x, y);
        if x == x1 && y == y1 {
            assert(n2[next.len() as int].0 == x && n2[next.len() as int].1 == y);
        } else {
            assert(marked(queue, k, cs, i, x, y));
            assert(listed(next, x, y));
            let m = choose|m: int| 0 <= m < next.len() && #[trigger] next[m].0 == x && next[m].1 == y;
            assert(n2[m].0 == x && n2[m].1 == y);
        }
    }
}

/// Looking at a cell that is queued or resolved changes nothing.
proof fn lemma_skip_step(
    wave: Wave,
    queue: Seq<(u32, u32)>,
    k: int,
    cs: Seq<(int, int)>,
    i: int,
    stages: Seq<PixelState>,
    next: Seq<(u32, u32)>,
)
    requires
        wave.wf(),
        0 <= i < cs.len(),
        wave.grid.has(cs[i].0, cs[i].1),
        states_mid(stages, wave, queue, k, cs, i),
        next_mid(next, wave, queue, k, cs, i),
        !(state_at(stages, wave.grid.width as int, cs[i].0, cs[i].1) is Unresolved),
    ensures
        states_mid(stages, wave, queue, k, cs, i + 1),
        next_mid(next, wave, queue, k, cs, i + 1),
{
    let w = wave.grid.width as int;
    assert(state_at(stages, w, cs[i].0, cs[i].1) == mid_state(
        wave,
        queue,
        k,
        cs,
        i,
        cs[i].0,
        cs[i].1,
    ));
    assert forall|x: int, y: int| wave.grid.has(x, y) implies #[trigger] state_at(stages, w, x, y)
        == mid_state(wave, queue, k, cs, i + 1, x, y) by {
        lemma_hit_step(cs, i, x, y);
        assert(state_at(stages, w, x, y) == mid_state(wave, queue, k, cs, i, x, y));
    }
    assert forall|m: int| 0 <= m < next.len() implies wave.grid.has(
        (#[trigger] next[m]).0 as int,
        next[m].1 as int,
    ) && wave.state(next[m].0 as int, next[m].1 as int) is Unresolved && marked(
        queue,
        k,
        cs,
        i + 1,
        next[m].0 as int,
        next[m].1 as int,
    ) by {
        lemma_hit_step(cs, i, next[m].0 as int, next[m].1 as int);
    }
    assert forall|x: int, y: int|
        wave.grid.has(x, y) && wave.state(x, y) is Unresolved && #[trigger] marked(
            queue,
            k,
            cs,
            i + 1,
            x,
            y,
        ) implies listed(next, x, y) by {
        lemma_hit_step(cs, i, x, y);
        if cs[i] == (x, y) {
            assert(marked(queue, k, cs, i, x, y));
        } else {
            assert(marked(queue, k, cs, i, x, y));
        }
    }
}

/// When every cell around the visited cell has been seen, the visit of the
/// next cell of the layer can begin.
proof fn lemma_cell_done(
    wave: Wave,
    queue: Seq<(u32, u32)>,
    k: int,
    stages: Seq<PixelState>,
    next: Seq<(u32, u32)>,
)
    requires
        wave.wf(),
        0 <= k < queue.len(),
        states_mid(
            stages,
            wave,
            queue,
            k,
            wave.grid.around(queue[k].0 as int, queue[k].1 as int),
            wave.grid.around(queue[k].0 as int, queue[k].1 as int).len() as int,
        ),
        next_mid(
            next,
            wave,
            queue,
            k,
            wave.grid.around(queue[k].0 as int, queue[k].1 as int),
            wave.grid.around(queue[k].0 as int, queue[k].1 as int).len() as int,
        ),
    ensures
        states_mid(stages, wave, queue, k + 1, Seq::empty(), 0),
        next_mid(next, wave, queue, k + 1, Seq::empty(), 0),
{
    let w = wave.grid.width as int;
    let h = wave.grid.height as int;
    let cs = wave.grid.around(queue[k].0 as int, queue[k].1 as int);
    let n = cs.len() as int;
    let e = Seq::<(int, int)>::empty();
    assert forall|x: int, y: int| wave.grid.has(x, y) implies #[trigger] state_at(stages, w, x, y)
        == mid_state(wave, queue, k + 1, e, 0, x, y) by {
        lemma_discovered_step(queue, k, w, h, x, y);
        assert(state_at(stages, w, x, y) == mid_state(wave, queue, k, cs, n, x, y));
    }
    assert forall|m: int| 0 <= m < next.len() implies wave.grid.has(
        (#[trigger] next[m]).0 as int,
        next[m].1 as int,
    ) && wave.state(next[m].0 as int, next[m].1 as int) is Unresolved && marked(
        queue,
        k + 1,
        e,
        0,
        next[m].0 as int,
        next[m].1 as int,
    ) by {
        lemma_discovered_step(queue, k, w, h, next[m].0 as int, next[m].1 as int);
    }
    assert forall|x: int, y: int|
        wave.grid.has(x, y) && wave.state(x, y) is Unresolved && #[trigger] marked(
            queue,
            k + 1,
            e,
            0,
            x,
            y,
        ) implies listed(next, x, y) by {
        lemma_discovered_step(queue, k, w, h, x, y);
        assert(marked(queue, k, cs, n, x, y));
    }
}

/// The visit of a cell begins where the visit of the cell before it ended.
proof fn lemma_cell_begin(
    wave: Wave,
    queue: Seq<(u32, u32)>,
    k: int,
    cs: Seq<(int, int)>,
    stages: Seq<PixelState>,
    next: Seq<(u32, u32)>,
)
    requires
        states_mid(stages, wave, queue, k, Seq::empty(), 0),
        next_mid(next, wave, queue, k, Seq::empty(), 0),
    ensures
        states_mid(stages, wave, queue, k, cs, 0),
        next_mid(next, wave, queue, k, cs, 0),
{
    let w = wave.grid.width as int;
    let e = Seq::<(int, int)>::empty();
    assert forall|x: int, y: int| wave.grid.has(x, y) implies #[trigger] state_at(stages, w, x, y)
        == mid_state(wave, queue, k, cs, 0, x, y) by {
        assert(state_at(stages, w, x, y) == mid_state(wave, queue, k, e, 0, x, y));
    }
    assert forall|x: int, y: int|
        wave.grid.has(x, y) && wave.state(x, y) is Unresolved && #[trigger] marked(
            queue,
            k,
            cs,
            0,
            x,
            y,
        ) implies listed(next, x, y) by {
        assert(marked(queue, k, e, 0, x, y));
    }
}

/// Adding the cell at place `i` to a tally.
proof fn lemma_tally_step(wave: Wave, cs: Seq<(int, int)>, i: int)
    requires
        0 <= i < cs.len(),
    ensures
        wave.tally(cs.take(i + 1)) == if wave.state(cs[i].0, cs[i].1) is Resolved {
            Tally {
                n: wave.tally(cs.take(i)).n + 1,
                r: wave.tally(cs.take(i)).r + wave.grid.at(cs[i].0, cs[i].1).r as nat,
                g: wave.tally(cs.take(i)).g + wave.grid.at(cs[i].0, cs[i].1).g as nat,
                b: wave.tally(cs.take(i)).b + wave.grid.at(cs[i].0, cs[i].1).b as nat,
            }
        } else {
            wave.tally(cs.take(i))
        },
{
    assert(cs.take(i + 1).drop_last() =~= cs.take(i));
    assert(cs.take(i + 1).last() == cs[i]);
}

/// A tally counts no more cells than it is given, and no channel sums to
/// more than 255 for each cell counted.
pub proof fn lemma_tally_bound(wave: Wave, cs: Seq<(int, int)>)
    ensures
        wave.tally(cs).n <= cs.len(),
        wave.tally(cs).r <= 255 * wave.tally(cs).n,
        wave.tally(cs).g <= 255 * wave.tally(cs).n,
        wave.tally(cs).b <= 255 * wave.tally(cs).n,
    decreases cs.len(),
{
    if cs.len() > 0 {
        lemma_tally_bound(wave, cs.drop_last());
    }
}

/// Writing the new pixel of the cell at place `k` of the layer, or leaving
/// it where the new pixel is the old one, takes the pixels one cell on.
proof fn lemma_pixels_step(
    wave: Wave,
    queue: Seq<(u32, u32)>,
    k: int,
    alpha: u8,
    before: Grid,
    after: Grid,
)
    requires
        wave.wf(),
        0 <= k < queue.len(),
        lists_queued(queue, wave.states, wave.grid.width as int, wave.grid.height as int),
        pixels_mid(before, wave, queue, k, alpha),
        after.width == before.width,
        after.height == before.height,
        after.pixels == before.pixels.update(
            index_of(wave.grid.width as int, queue[k].0 as int, queue[k].1 as int),
            wave.blend(queue[k].0 as int, queue[k].1 as int, alpha),
        ) || (after.pixels == before.pixels && wave.blend(
            queue[k].0 as int,
            queue[k].1 as int,
            alpha,
        ) == wave.grid.at(queue[k].0 as int, queue[k].1 as int)),
    ensures
        pixels_mid(after, wave, queue, k + 1, alpha),
{
    let w = wave.grid.width as int;
    let h = wave.grid.height as int;
    let qx = queue[k].0 as int;
    let qy = queue[k].1 as int;
    lemma_index_bound(w, h, qx, qy);
    assert forall|x: int, y: int| wave.grid.has(x, y) implies #[trigger] after.at(x, y) == if listed(
        queue.take(k + 1),
        x,
        y,
    ) {
        wave.blend(x, y, alpha)
    } else {
        wave.grid.at(x, y)
    } by {
        lemma_index_bound(w, h, x, y);
        lemma_listed_step(queue, k, x, y);
        assert(before.at(x, y) == if listed(queue.take(k), x, y) {
            wave.blend(x, y, alpha)
        } else {
            wave.grid.at(x, y)
        });
        if index_of(w, x, y) == index_of(w, qx, qy) {
            lemma_index_injective(w, x, y, qx, qy);
        }
    }
}

/// A resolved cell still has the pixel that it had before the round.
proof fn lemma_resolved_pixel(
    wave: Wave,
    queue: Seq<(u32, u32)>,
    k: int,
    alpha: u8,
    g: Grid,
    x: int,
    y: int,
)
    requires
        wave.wf(),
        0 <= k <= queue.len(),
        wave.grid.has(x, y),
        wave.state(x, y) is Resolved,
        lists_queued(queue, wave.states, wave.grid.width as int, wave.grid.height as int),
        pixels_mid(g, wave, queue, k, alpha),
    ensures
        g.at(x, y) == wave.grid.at(x, y),
{
    let t = queue.take(k);
    if listed(t, x, y) {
        let m = choose|m: int| 0 <= m < t.len() && #[trigger] t[m].0 == x && t[m].1 == y;
        assert(queue[m] == t[m]);
        assert(state_at(wave.states, wave.grid.width as int, queue[m].0 as int, queue[m].1 as int) is Queued);
    }
    assert(g.at(x, y) == if listed(queue.take(k), x, y) {
        wave.blend(x, y, alpha)
    } else {
        wave.grid.at(x, y)
    });
}

/// Visits one cell of the layer: the resolved cells around it are averaged
/// into it, and the unresolved ones are queued for the next round.
fn resolve_cell(
    img: &mut Bitmap,
    stages: &mut Vec<PixelState>,
    next: &mut Vec<(u32, u32)>,
    w: u32,
    h: u32,
    x: u32,
    y: u32,
    alpha: u8,
    Ghost(wave): Ghost<Wave>,
    Ghost(queue): Ghost<Seq<(u32, u32)>>,
    Ghost(k): Ghost<int>,
)
    requires
        wave.wf(),
        wave.grid.width == w,
        wave.grid.height == h,
        w * h <= usize::MAX,
        old(stages)@.len() == w * h,
        0 <= k < queue.len(),
        queue[k] == (x, y),
        lists_queued(queue, wave.states, w as int, h as int),
        states_mid(old(stages)@, wave, queue, k, Seq::empty(), 0),
        next_mid(old(next)@, wave, queue, k, Seq::empty(), 0),
        pixels_mid(old(img)@, wave, queue, k, alpha),
    ensures
        final(stages)@.len() == w * h,
        states_mid(final(stages)@, wave, queue, k + 1, Seq::empty(), 0),
        next_mid(final(next)@, wave, queue, k + 1, Seq::empty(), 0),
        pixels_mid(final(img)@, wave, queue, k + 1, alpha),
        final(img).spare() == old(img).spare(),
        final(img).bytes().len() == old(img).bytes().len(),
{
    let around = neighbors(x, y, w, h);
    let ghost cs = wave.grid.around(x as int, y as int);
    proof {
        lemma_cell_begin(wave, queue, k, cs, stages@, next@);
        crate::grid::around(x as int, y as int).lemma_filter_len(
            crate::grid::inside(w as int, h as int),
        );
    }
    let mut n: u32 = 0;
    let mut r: u32 = 0;
    let mut g: u32 = 0;
    let mut b: u32 = 0;
    let mut i: usize = 0;
    while i < around.len()
        invariant
            i <= around.len(),
            around.len() <= 8,
            cells(around@) == cs,
            cs == wave.grid.around(x as int, y as int),
            wave.wf(),
            wave.grid.width == w,
            wave.grid.height == h,
            w * h <= usize::MAX,
            stages@.len() == w * h,
            0 <= k < queue.len(),
            queue[k] == (x, y),
            lists_queued(queue, wave.states, w as int, h as int),
            states_mid(stages@, wave, queue, k, cs, i as int),
            next_mid(next@, wave, queue, k, cs, i as int),
            pixels_mid(img@, wave, queue, k, alpha),
            img@ == old(img)@,
            img.spare() == old(img).spare(),
            img.bytes().len() == old(img).bytes().len(),
            n == wave.tally(cs.take(i as int)).n,
            r == wave.tally(cs.take(i as int)).r,
            g == wave.tally(cs.take(i as int)).g,
            b == wave.tally(cs.take(i as int)).b,
        decreases around.len() - i,
    {
        let (x1, y1) = around[i];
        proof {
            assert(cs[i as int] == (x1 as int, y1 as int));
            lemma_neighbors_sound(x as int, y as int, w as int, h as int, i as int);
            lemma_tally_step(wave, cs, i as int);
            lemma_tally_bound(wave, cs.take(i as int));
            assert(state_at(stages@, w as int, x1 as int, y1 as int) == mid_state(
                wave,
                queue,
                k,
                cs,
                i as int,
                x1 as int,
                y1 as int,
            ));
        }
        let j = cell_index(w, h, x1, y1);
        let s = stages[j];
        if s == PixelState::Resolved {
            proof {
                lemma_resolved_pixel(wave, queue, k, alpha, img@, x1 as int, y1 as int);
                lemma_skip_step(wave, queue, k, cs, i as int, stages@, next@);
            }
            let p = get_pixel(img, x1, y1);
            n += 1;
            r += p.r as u32;
            g += p.g as u32;
            b += p.b as u32;
        } else if s == PixelState::Unresolved {
            proof {
                lemma_mark_step(wave, queue, k, cs, i as int, stages@, next@, x1, y1);
            }
            stages[j] = PixelState::Queued;
            next.push((x1, y1));
        } else {
            proof {
                lemma_skip_step(wave, queue, k, cs, i as int, stages@, next@);
            }
        }
        i += 1;
    }
    proof {
        assert(cs.take(cs.len() as int) =~= cs);
        lemma_cell_done(wave, queue, k, stages@, next@);
        lemma_tally_bound(wave, cs);
        lemma_index_bound(w as int, h as int, x as int, y as int);
    }
    let ghost before = img@;
    if n > 0 {
        proof {
            assert(r / n <= 255 && g / n <= 255 && b / n <= 255) by (nonlinear_arith)
                requires
                    n > 0,
                    r <= 255 * n,
                    g <= 255 * n,
                    b <= 255 * n,
            ;
        }
        put_pixel(img, x, y, Rgba8 { r: (r / n) as u8, g: (g / n) as u8, b: (b / n) as u8, a: alpha });
    }
    proof {
        lemma_pixels_step(wave, queue, k, alpha, before, img@);
    }
}

/// Gives every cell of the layer its new pixel and collects the next layer.
/// The cells of the layer stay queued meanwhile.
fn resolve_layer(
    img: &mut Bitmap,
    stages: &mut Vec<PixelState>,
    queue: &Vec<(u32, u32)>,
    next: &mut Vec<(u32, u32)>,
    w: u32,
    h: u32,
    alpha: u8,
    Ghost(wave): Ghost<Wave>,
)
    requires
        wave.wf(),
        wave.grid.width == w,
        wave.grid.height == h,
        w * h <= usize::MAX,
        old(img)@ == wave.grid,
        old(stages)@ == wave.states,
        old(next)@.len() == 0,
        lists_queued(queue@, wave.states, w as int, h as int),
    ensures
        final(img)@ == wave.advance(alpha).grid,
        final(img).spare() == old(img).spare(),
        final(img).bytes().len() == old(img).bytes().len(),
        final(stages)@.len() == w * h,
        states_mid(final(stages)@, wave, queue@, queue@.len() as int, Seq::empty(), 0),
        next_mid(final(next)@, wave, queue@, queue@.len() as int, Seq::empty(), 0),
{
    let mut k: usize = 0;
    proof {
        let e = Seq::<(int, int)>::empty();
        assert forall|x: int, y: int| wave.grid.has(x, y) implies #[trigger] state_at(
            stages@,
            w as int,
            x,
            y,
        ) == mid_state(wave, queue@, 0, e, 0, x, y) by {}
        assert(pixels_mid(img@, wave, queue@, 0, alpha));
    }
    while k < queue.len()
        invariant
            k <= queue.len(),
            wave.wf(),
            wave.grid.width == w,
            wave.grid.height == h,
            w * h <= usize::MAX,
            stages@.len() == w * h,
            lists_queued(queue@, wave.states, w as int, h as int),
            states_mid(stages@, wave, queue@, k as int, Seq::empty(), 0),
            next_mid(next@, wave, queue@, k as int, Seq::empty(), 0),
            pixels_mid(img@, wave, queue@, k as int, alpha),
            img.spare() == old(img).spare(),
            img.bytes().len() == old(img).bytes().len(),
        decreases queue.len() - k,
    {
        let (x, y) = queue[k];
        resolve_cell(img, stages, next, w, h, x, y, alpha, Ghost(wave), Ghost(queue@), Ghost(k as int));
        k += 1;
    }
    proof {
        lemma_layer_pixels(wave, queue@, alpha, img@);
    }
}

/// When the whole layer has its new pixels, the pixels are those after the
/// round.
proof fn lemma_layer_pixels(wave: Wave, queue: Seq<(u32, u32)>, alpha: u8, g: Grid)
    requires
        wave.wf(),
        lists_queued(queue, wave.states, wave.grid.width as int, wave.grid.height as int),
        pixels_mid(g, wave, queue, queue.len() as int, alpha),
    ensures
        g == wave.advance(alpha).grid,
{
    let w = wave.grid.width as int;
    let h = wave.grid.height as int;
    let next = wave.advance(alpha).grid;
    assert(queue.take(queue.len() as int) =~= queue);
    assert forall|i: int| 0 <= i < g.pixels.len() implies g.pixels[i] == next.pixels[i] by {
        lemma_coords_index(w, h, i);
        let x = i % w;
        let y = i / w;
        assert(g.at(x, y) == if listed(queue, x, y) {
            wave.blend(x, y, alpha)
        } else {
            wave.grid.at(x, y)
        });
        if listed(queue, x, y) {
            let m = choose|m: int| 0 <= m < queue.len() && #[trigger] queue[m].0 == x && queue[m].1 == y;
            assert(state_at(wave.states, w, queue[m].0 as int, queue[m].1 as int) is Queued);
        }
        if wave.state(x, y) is Queued {
            assert(state_at(wave.states, w, x, y) is Queued);
        }
    }
    assert(g.pixels =~= next.pixels);
}

/// Marks every cell of the layer as resolved, now that all of them have
/// their colour.
fn commit_layer(
    stages: &mut Vec<PixelState>,
    queue: &Vec<(u32, u32)>,
    w: u32,
    h: u32,
    Ghost(wave): Ghost<Wave>,
    Ghost(alpha): Ghost<u8>,
)
    requires
        wave.wf(),
        wave.grid.width == w,
        wave.grid.height == h,
        w * h <= usize::MAX,
        old(stages)@.len() == w * h,
        lists_queued(queue@, wave.states, w as int, h as int),
        states_mid(old(stages)@, wave, queue@, queue@.len() as int, Seq::empty(), 0),
    ensures
        final(stages)@ == wave.advance(alpha).states,
{
    let ghost e = Seq::<(int, int)>::empty();
    let ghost n = queue@.len() as int;
    let mut k: usize = 0;
    proof {
        assert forall|x: int, y: int| wave.grid.has(x, y) implies #[trigger] state_at(
            stages@,
            w as int,
            x,
            y,
        ) == committed(wave, queue@, 0, x, y) by {
            assert(state_at(stages@, w as int, x, y) == mid_state(wave, queue@, n, e, 0, x, y));
        }
    }
    while k < queue.len()
        invariant
            k <= queue.len(),
            n == queue@.len(),
            wave.wf(),
            wave.grid.width == w,
            wave.grid.height == h,
            w * h <= usize::MAX,
            stages@.len() == w * h,
            lists_queued(queue@, wave.states, w as int, h as int),
            forall|x: int, y: int|
                wave.grid.has(x, y) ==> #[trigger] state_at(stages@, w as int, x, y) == committed(
                    wave,
                    queue@,
                    k as int,
                    x,
                    y,
                ),
        decreases queue.len() - k,
    {
        let (x, y) = queue[k];
        let j = cell_index(w, h, x, y);
        let ghost before = stages@;
        stages[j] = PixelState::Resolved;
        proof {
            assert forall|x1: int, y1: int| wave.grid.has(x1, y1) implies #[trigger] state_at(
                stages@,
                w as int,
                x1,
                y1,
            ) == committed(wave, queue@, k as int + 1, x1, y1) by {
                lemma_index_bound(w as int, h as int, x1, y1);
                lemma_listed_step(queue@, k as int, x1, y1);
                assert(state_at(before, w as int, x1, y1) == committed(
                    wave,
                    queue@,
                    k as int,
                    x1,
                    y1,
                ));
                if index_of(w as int, x1, y1) == index_of(w as int, x as int, y as int) {
                    lemma_index_injective(w as int, x1, y1, x as int, y as int);
                }
            }
        }
        k += 1;
    }
    proof {
        lemma_layer_states(wave, queue@, alpha, stages@);
    }
}

/// The state of `(x, y)` while the layer is being marked: the first `k`
/// cells of the layer are resolved, the others as the round left them.
pub open spec fn committed(wave: Wave, queue: Seq<(u32, u32)>, k: int, x: int, y: int) -> PixelState {
    if listed(queue.take(k), x, y) {
        PixelState::Resolved
    } else {
        mid_state(wave, queue, queue.len() as int, Seq::empty(), 0, x, y)
    }
}

/// When the whole layer is marked, the states are those after the round.
proof fn lemma_layer_states(wave: Wave, queue: Seq<(u32, u32)>, alpha: u8, stages: Seq<PixelState>)
    requires
        wave.wf(),
        stages.len() == wave.states.len(),
        lists_queued(queue, wave.states, wave.grid.width as int, wave.grid.height as int),
        forall|x: int, y: int|
            wave.grid.has(x, y) ==> #[trigger] state_at(stages, wave.grid.width as int, x, y)
                == committed(wave, queue, queue.len() as int, x, y),
    ensures
        stages == wave.advance(alpha).states,
{
    let w = wave.grid.width as int;
    let h = wave.grid.height as int;
    let next = wave.advance(alpha).states;
    assert(queue.take(queue.len() as int) =~= queue);
    assert forall|i: int| 0 <= i < stages.len() implies stages[i] == next[i] by {
        lemma_coords_index(w, h, i);
        let x = i % w;
        let y = i / w;
        assert(state_at(stages, w, x, y) == committed(wave, queue, queue.len() as int, x, y));
        lemma_touches_is_discovered(wave, queue, x, y);
        if listed(queue, x, y) {
            let m = choose|m: int| 0 <= m < queue.len() && #[trigger] queue[m].0 == x && queue[m].1 == y;
            assert(state_at(wave.states, w, queue[m].0 as int, queue[m].1 as int) is Queued);
        }
        if wave.state(x, y) is Queued {
            assert(state_at(wave.states, w, x, y) is Queued);
        }
    }
    assert(stages =~= next);
}

/// What a round has queued is the layer of the round after it.
proof fn lemma_next_layer(wave: Wave, alpha: u8, queue: Seq<(u32, u32)>, next: Seq<(u32, u32)>)
    requires
        wave.wf(),
        lists_queued(queue, wave.states, wave.grid.width as int, wave.grid.height as int),
        next_mid(next, wave, queue, queue.len() as int, Seq::empty(), 0),
    ensures
        lists_queued(
            next,
            wave.advance(alpha).states,
            wave.grid.width as int,
            wave.grid.height as int,
        ),
{
    let w = wave.grid.width as int;
    let h = wave.grid.height as int;
    let after = wave.advance(alpha);
    let e = Seq::<(int, int)>::empty();
    assert forall|m: int| 0 <= m < next.len() implies in_grid(
        w,
        h,
        (#[trigger] next[m]).0 as int,
        next[m].1 as int,
    ) && state_at(after.states, w, next[m].0 as int, next[m].1 as int) is Queued by {
        let x = next[m].0 as int;
        let y = next[m].1 as int;
        crate::wave::lemma_advance_at(wave, alpha, x, y);
        lemma_touches_is_discovered(wave, queue, x, y);
    }
    assert forall|x: int, y: int|
        in_grid(w, h, x, y) && #[trigger] state_at(after.states, w, x, y) is Queued implies listed(
        next,
        x,
        y,
    ) by {
        crate::wave::lemma_advance_at(wave, alpha, x, y);
        lemma_touches_is_discovered(wave, queue, x, y);
        assert(marked(queue, queue.len() as int, e, 0, x, y));
    }
}

/// With nothing queued, propagation has come to its end; with a cell in the
/// layer, it has not.
proof fn lemma_settled_iff_empty(wave: Wave, queue: Seq<(u32, u32)>)
    requires
        wave.wf(),
        lists_queued(queue, wave.states, wave.grid.width as int, wave.grid.height as int),
    ensures
        wave.settled() <==> queue.len() == 0,
{
    let w = wave.grid.width as int;
    let h = wave.grid.height as int;
    if queue.len() == 0 {
        assert forall|i: int| 0 <= i < wave.states.len() implies !(#[trigger] wave.states[i] is Queued) by {
            lemma_coords_index(w, h, i);
            if wave.states[i] is Queued {
                assert(state_at(wave.states, w, i % w, i / w) is Queued);
                assert(listed(queue, i % w, i / w));
            }
        }
    } else {
        let x = queue[0].0 as int;
        let y = queue[0].1 as int;
        lemma_index_bound(w, h, x, y);
        assert(state_at(wave.states, w, x, y) is Queued);
        assert(wave.states[index_of(w, x, y)] is Queued);
    }
}

/// Runs the rounds, from the first layer until a round queues nothing.
pub(crate) fn propagate(
    img: &mut Bitmap,
    stages: &mut Vec<PixelState>,
    queue: Vec<(u32, u32)>,
    w: u32,
    h: u32,
    alpha: u8,
)
    requires
        old(img)@.wf(),
        old(img)@.width == w,
        old(img)@.height == h,
        w * h <= usize::MAX,
        old(stages)@.len() == w * h,
        lists_queued(queue@, old(stages)@, w as int, h as int),
    ensures
        final(img).spare() == old(img).spare(),
        final(img).bytes().len() == old(img).bytes().len(),
        final(img)@ == (Wave { grid: old(img)@, states: old(stages)@ }).finish(alpha).grid,
        final(stages)@ == (Wave { grid: old(img)@, states: old(stages)@ }).finish(alpha).states,
{
    let ghost first = Wave { grid: img@, states: stages@ };
    let ghost mut wave = first;
    let mut layer = queue;
    let mut next: Vec<(u32, u32)> = Vec::new();
    while !layer.is_empty()
        invariant
            wave.wf(),
            wave.grid.width == w,
            wave.grid.height == h,
            w * h <= usize::MAX,
            img@ == wave.grid,
            img.spare() == old(img).spare(),
            img.bytes().len() == old(img).bytes().len(),
            stages@ == wave.states,
            next@.len() == 0,
            lists_queued(layer@, wave.states, w as int, h as int),
            wave.finish(alpha) == first.finish(alpha),
        decreases pending(wave.states),
    {
        proof {
            lemma_settled_iff_empty(wave, layer@);
            lemma_advance_resolves(wave, alpha);
        }
        resolve_layer(img, stages, &layer, &mut next, w, h, alpha, Ghost(wave));
        commit_layer(stages, &layer, w, h, Ghost(wave), Ghost(alpha));
        proof {
            lemma_next_layer(wave, alpha, layer@, next@);
            wave = wave.advance(alpha);
        }
        layer.clear();
        std::mem::swap(&mut layer, &mut next);
    }
    proof {
        lemma_settled_iff_empty(wave, layer@);
    }
}


} // verus!
