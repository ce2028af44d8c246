//! What holds of bleeding for every bitmap, proved from the model.

use vstd::prelude::*;
use crate::bitmap::Grid;
use crate::bleed::bleed;
use crate::frontier::{classify_spec, first_unresolved, seed_from, seed_scan, start};
use crate::grid::{
    adjacent, in_grid, index_of, lemma_coords_index, lemma_index_bound, lemma_index_injective,
    lemma_neighbors_complete, lemma_neighbors_sound, neighbors_spec,
};
use crate::wave::{
    lemma_advance_at, lemma_advance_resolves, lemma_pending_bound, lemma_pending_shrinks, pending,
    state_at, PixelState, Wave,
};

verus! {

/// A cell of the grid touches `(x, y)` and is resolved in `states`.
pub open spec fn beside_resolved(states: Seq<PixelState>, w: int, h: int, x: int, y: int) -> bool {
    exists|x1: int, y1: int|
        in_grid(w, h, x1, y1) && adjacent(x, y, x1, y1) && (#[trigger] state_at(states, w, x1, y1))
            is Resolved
}

/// The first unresolved place lies between `from` and the end, and where it
/// is not the end, the cell at it is unresolved.
proof fn lemma_first_unresolved(states: Seq<PixelState>, w: int, cs: Seq<(int, int)>, from: int)
    requires
        0 <= from <= cs.len(),
    ensures
        from <= first_unresolved(states, w, cs, from) <= cs.len(),
        first_unresolved(states, w, cs, from) < cs.len() ==> state_at(
            states,
            w,
            cs[first_unresolved(states, w, cs, from)].0,
            cs[first_unresolved(states, w, cs, from)].1,
        ) is Unresolved,
    decreases cs.len() - from,
{
    if from < cs.len() && !(state_at(states, w, cs[from].0, cs[from].1) is Unresolved) {
        lemma_first_unresolved(states, w, cs, from + 1);
    }
}

/// What seeding has done to the states it began with, up to any place of
/// the scan: resolved cells are the same, and a queued cell was unresolved
/// and touches a resolved one.
pub open spec fn seeded_from(first: Seq<PixelState>, now: Seq<PixelState>, w: int, h: int) -> bool {
    &&& now.len() == first.len()
    &&& forall|x: int, y: int|
        in_grid(w, h, x, y) ==> (#[trigger] state_at(now, w, x, y) is Resolved <==> state_at(
            first,
            w,
            x,
            y,
        ) is Resolved)
    &&& forall|x: int, y: int|
        in_grid(w, h, x, y) && #[trigger] state_at(now, w, x, y) is Queued ==> state_at(
            first,
            w,
            x,
            y,
        ) is Unresolved && beside_resolved(first, w, h, x, y)
    &&& forall|x: int, y: int|
        in_grid(w, h, x, y) && #[trigger] state_at(now, w, x, y) is Unresolved ==> state_at(
            first,
            w,
            x,
            y,
        ) is Unresolved
}

/// Seeding from one more cell keeps what `seeded_from` says.
proof fn lemma_seed_from(first: Seq<PixelState>, now: Seq<PixelState>, w: int, h: int, x: int, y: int)
    requires
        first.len() == w * h,
        in_grid(w, h, x, y),
        seeded_from(first, now, w, h),
    ensures
        seeded_from(first, seed_from(now, w, h, x, y), w, h),
{
    let cs = neighbors_spec(x, y, w, h);
    let k = first_unresolved(now, w, cs, 0);
    lemma_first_unresolved(now, w, cs, 0);
    let then = seed_from(now, w, h, x, y);
    if state_at(now, w, x, y) is Resolved && k < cs.len() {
        let tx = cs[k].0;
        let ty = cs[k].1;
        lemma_neighbors_sound(x, y, w, h, k);
        lemma_index_bound(w, h, tx, ty);
        assert(state_at(first, w, x, y) is Resolved);
        assert(state_at(first, w, tx, ty) is Unresolved);
        assert(beside_resolved(first, w, h, tx, ty)) by {
            assert(in_grid(w, h, x, y) && adjacent(tx, ty, x, y) && state_at(first, w, x, y) is Resolved);
        }
        assert forall|x1: int, y1: int| in_grid(w, h, x1, y1) implies (#[trigger] state_at(
            then,
            w,
            x1,
            y1,
        ) is Resolved <==> state_at(first, w, x1, y1) is Resolved) by {
            lemma_index_bound(w, h, x1, y1);
            assert(state_at(now, w, x1, y1) is Resolved <==> state_at(first, w, x1, y1) is Resolved);
            if index_of(w, x1, y1) == index_of(w, tx, ty) {
                lemma_index_injective(w, x1, y1, tx, ty);
            }
        }
        assert forall|x1: int, y1: int|
            in_grid(w, h, x1, y1) && #[trigger] state_at(then, w, x1, y1) is Queued implies state_at(
            first,
            w,
            x1,
            y1,
        ) is Unresolved && beside_resolved(first, w, h, x1, y1) by {
            lemma_index_bound(w, h, x1, y1);
            if index_of(w, x1, y1) == index_of(w, tx, ty) {
                lemma_index_injective(w, x1, y1, tx, ty);
            } else {
                assert(state_at(now, w, x1, y1) is Queued);
            }
        }
        assert forall|x1: int, y1: int|
            in_grid(w, h, x1, y1) && #[trigger] state_at(then, w, x1, y1) is Unresolved implies state_at(
            first,
            w,
            x1,
            y1,
        ) is Unresolved by {
            lemma_index_bound(w, h, x1, y1);
            if index_of(w, x1, y1) == index_of(w, tx, ty) {
                lemma_index_injective(w, x1, y1, tx, ty);
            } else {
                assert(state_at(now, w, x1, y1) is Unresolved);
            }
        }
    }
}

/// The seeding scan keeps what `seeded_from` says, up to any place.
proof fn lemma_seed_scan(first: Seq<PixelState>, w: nat, h: nat, x: nat, y: nat)
    requires
        first.len() == w * h,
        forall|i: int| 0 <= i < first.len() ==> !(#[trigger] first[i] is Queued),
        (x <= w && y < h) || (x == 0 && y == h),
    ensures
        seeded_from(first, seed_scan(first, w, h, x, y), w as int, h as int),
    decreases y, x,
{
    if x == 0 && y == 0 {
        assert forall|x1: int, y1: int| in_grid(w as int, h as int, x1, y1) implies !(#[trigger] state_at(
            first,
            w as int,
            x1,
            y1,
        ) is Queued) by {
            lemma_index_bound(w as int, h as int, x1, y1);
        }
    }
    if x > 0 {
        lemma_seed_scan(first, w, h, (x - 1) as nat, y);
        lemma_seed_from(
            first,
            seed_scan(first, w, h, (x - 1) as nat, y),
            w as int,
            h as int,
            x - 1,
            y as int,
        );
    } else if y > 0 {
        lemma_seed_scan(first, w, h, w, (y - 1) as nat);
    }
}

/// The picture from which the rounds start has the size of the bitmap, and
/// its cells are as seeding leaves them.
pub proof fn lemma_start(g: Grid)
    requires
        g.wf(),
    ensures
        start(g).wf(),
        start(g).grid == g,
        seeded_from(classify_spec(g), start(g).states, g.width as int, g.height as int),
{
    lemma_seed_scan(classify_spec(g), g.width, g.height, 0, g.height);
}

/// Rounds keep the size of the picture.
pub proof fn lemma_after_wf(wave: Wave, alpha: u8, n: nat)
    requires
        wave.wf(),
    ensures
        wave.after(alpha, n).wf(),
        wave.after(alpha, n).grid.width == wave.grid.width,
        wave.after(alpha, n).grid.height == wave.grid.height,
    decreases n,
{
    if n > 0 {
        lemma_after_wf(wave, alpha, (n - 1) as nat);
    }
}

/// One round and then `n` more are `n` rounds and then one more.
pub proof fn lemma_after_advance(wave: Wave, alpha: u8, n: nat)
    ensures
        wave.advance(alpha).after(alpha, n) == wave.after(alpha, n + 1),
    decreases n,
{
    if n > 0 {
        lemma_after_advance(wave, alpha, (n - 1) as nat);
        assert(wave.after(alpha, n + 1) == wave.after(alpha, n).advance(alpha));
    } else {
        assert(wave.after(alpha, 1) == wave.after(alpha, 0).advance(alpha));
    }
}

/// A round changes nothing once no cell is queued.
pub proof fn lemma_settled_stays(wave: Wave, alpha: u8)
    requires
        wave.wf(),
        wave.settled(),
    ensures
        wave.advance(alpha) == wave,
{
    let w = wave.grid.width as int;
    let h = wave.grid.height as int;
    let next = wave.advance(alpha);
    assert forall|i: int| 0 <= i < wave.states.len() implies #[trigger] next.grid.pixels[i]
        == wave.grid.pixels[i] by {
        lemma_coords_index(w, h, i);
        assert(!(wave.states[i] is Queued));
    }
    assert forall|i: int| 0 <= i < wave.states.len() implies #[trigger] next.states[i]
        == wave.states[i] by {
        lemma_coords_index(w, h, i);
        let x = i % w;
        let y = i / w;
        assert(!(wave.states[i] is Queued));
        if wave.touches_queued(x, y) {
            let cs = wave.grid.around(x, y);
            let k = choose|k: int| 0 <= k < cs.len() && (#[trigger] wave.state(cs[k].0, cs[k].1)) is Queued;
            lemma_neighbors_sound(x, y, w, h, k);
            lemma_index_bound(w, h, cs[k].0, cs[k].1);
            assert(wave.states[index_of(w, cs[k].0, cs[k].1)] is Queued);
        }
    }
    assert(next.states =~= wave.states);
    assert(next.grid.pixels =~= wave.grid.pixels);
}

/// The end of propagation is the same from any round on the way.
pub proof fn lemma_finish_after(wave: Wave, alpha: u8, n: nat)
    requires
        wave.wf(),
    ensures
        wave.after(alpha, n).finish(alpha) == wave.finish(alpha),
    decreases n,
{
    if n > 0 {
        let m = (n - 1) as nat;
        lemma_finish_after(wave, alpha, m);
        lemma_after_wf(wave, alpha, m);
        let mid = wave.after(alpha, m);
        if mid.settled() {
            lemma_settled_stays(mid, alpha);
        }
    }
}

/// The end of propagation is reached after `rounds` rounds, and no cell is
/// queued then.
pub proof fn lemma_finish_is_after_rounds(wave: Wave, alpha: u8)
    requires
        wave.wf(),
    ensures
        wave.finish(alpha) == wave.after(alpha, wave.rounds(alpha)),
        wave.finish(alpha).settled(),
        wave.finish(alpha).wf(),
    decreases pending(wave.states),
{
    if !wave.settled() {
        lemma_advance_resolves(wave, alpha);
        lemma_finish_is_after_rounds(wave.advance(alpha), alpha);
        lemma_after_advance(wave, alpha, wave.advance(alpha).rounds(alpha));
    }
}

/// Propagation takes no more rounds than there are pixels that are not
/// resolved when it begins.
pub proof fn lemma_rounds_bounded(wave: Wave, alpha: u8)
    requires
        wave.wf(),
    ensures
        wave.rounds(alpha) <= pending(wave.states),
    decreases pending(wave.states),
{
    if !wave.settled() {
        lemma_advance_resolves(wave, alpha);
        lemma_rounds_bounded(wave.advance(alpha), alpha);
    }
}

/// A resolved cell stays resolved, with its pixel, to the end.
pub proof fn lemma_resolved_is_final(wave: Wave, alpha: u8, x: int, y: int)
    requires
        wave.wf(),
        wave.grid.has(x, y),
        wave.state(x, y) is Resolved,
    ensures
        wave.finish(alpha).state(x, y) is Resolved,
        wave.finish(alpha).grid.at(x, y) == wave.grid.at(x, y),
    decreases pending(wave.states),
{
    if !wave.settled() {
        lemma_advance_resolves(wave, alpha);
        lemma_advance_at(wave, alpha, x, y);
        lemma_resolved_is_final(wave.advance(alpha), alpha, x, y);
    }
}

/// A queued cell has, at the end, the pixel that the coming round gives
/// it.
pub proof fn lemma_queued_is_blended(wave: Wave, alpha: u8, x: int, y: int)
    requires
        wave.wf(),
        wave.grid.has(x, y),
        wave.state(x, y) is Queued,
    ensures
        wave.finish(alpha).grid.at(x, y) == wave.blend(x, y, alpha),
{
    lemma_index_bound(wave.grid.width as int, wave.grid.height as int, x, y);
    assert(wave.states[index_of(wave.grid.width as int, x, y)] is Queued);
    assert(!wave.settled());
    lemma_advance_at(wave, alpha, x, y);
    lemma_resolved_is_final(wave.advance(alpha), alpha, x, y);
}

/// The picture after `n` rounds of bleeding `g`.
pub open spec fn round(g: Grid, alpha: u8, n: nat) -> Wave {
    start(g).after(alpha, n)
}

/// A pixel with an alpha above zero touches `(x, y)`.
pub open spec fn beside_opaque(g: Grid, x: int, y: int) -> bool {
    exists|x1: int, y1: int| g.has(x1, y1) && adjacent(x, y, x1, y1) && (#[trigger] g.at(x1, y1)).a > 0
}

/// `c` is a chain of transparent pixels: each of its cells is a pixel of
/// `g` with alpha zero and touches the cell before it.
pub open spec fn transparent_chain(g: Grid, c: Seq<(int, int)>) -> bool {
    &&& c.len() > 0
    &&& forall|i: int| 0 <= i < c.len() ==> g.has((#[trigger] c[i]).0, c[i].1) && g.at(c[i].0, c[i].1).a == 0
    &&& forall|i: int| 0 < i < c.len() ==> adjacent(c[i - 1].0, c[i - 1].1, (#[trigger] c[i]).0, c[i].1)
}

/// A chain of transparent pixels joins `(x, y)` to a pixel that seeding has
/// queued. A seeded pixel is joined to itself.
pub open spec fn reached(g: Grid, x: int, y: int) -> bool {
    exists|c: Seq<(int, int)>|
        #[trigger] transparent_chain(g, c) && c.last() == (x, y) && start(g).state(c[0].0, c[0].1)
            is Queued
}

/// No chain of transparent pixels joins `(x, y)` to a pixel beside an
/// opaque one.
pub open spec fn out_of_reach(g: Grid, x: int, y: int) -> bool {
    forall|c: Seq<(int, int)>|
        #[trigger] transparent_chain(g, c) && c.last() == (x, y) ==> !beside_opaque(g, c[0].0, c[0].1)
}

/// Round `n + 1` resolves the pixel `(x, y)`: it is queued after `n`
/// rounds, at least one pixel around it is resolved then, and its pixel at
/// the end is the mean of those, with alpha `alpha`.
pub open spec fn resolved_in_round(g: Grid, alpha: u8, n: nat, x: int, y: int) -> bool {
    let wave = round(g, alpha, n);
    &&& wave.state(x, y) is Queued
    &&& wave.tally(wave.grid.around(x, y)).n > 0
    &&& bleed(g, alpha).at(x, y) == wave.blend(x, y, alpha)
    &&& bleed(g, alpha).at(x, y).a == alpha
}

/// The order in which a pixel passes through its states.
pub open spec fn rank(s: PixelState) -> int {
    match s {
        PixelState::Unresolved => 0,
        PixelState::Queued => 1,
        PixelState::Resolved => 2,
    }
}

/// A round never takes a pixel back to an earlier state, and it changes
/// the pixels of queued cells only.
pub proof fn lemma_states_only_advance(wave: Wave, alpha: u8, x: int, y: int)
    requires
        wave.wf(),
        wave.grid.has(x, y),
    ensures
        rank(wave.advance(alpha).state(x, y)) >= rank(wave.state(x, y)),
        wave.state(x, y) is Queued ==> wave.advance(alpha).state(x, y) is Resolved,
        !(wave.state(x, y) is Queued) ==> wave.advance(alpha).grid.at(x, y) == wave.grid.at(x, y),
{
    lemma_advance_at(wave, alpha, x, y);
}

/// Classification reads the alpha of the pixel at `(x, y)`.
proof fn lemma_classified(g: Grid, x: int, y: int)
    requires
        g.wf(),
        g.has(x, y),
    ensures
        state_at(classify_spec(g), g.width as int, x, y) is Resolved <==> g.at(x, y).a > 0,
        state_at(classify_spec(g), g.width as int, x, y) is Unresolved <==> g.at(x, y).a == 0,
{
    lemma_index_bound(g.width as int, g.height as int, x, y);
}

/// A pixel with an alpha above zero is resolved from the start, and no
/// round changes it.
proof fn lemma_opaque_in_round(g: Grid, alpha: u8, n: nat, x: int, y: int)
    requires
        g.wf(),
        g.has(x, y),
        g.at(x, y).a > 0,
    ensures
        round(g, alpha, n).state(x, y) is Resolved,
        round(g, alpha, n).grid.at(x, y) == g.at(x, y),
    decreases n,
{
    lemma_start(g);
    lemma_classified(g, x, y);
    if n > 0 {
        let m = (n - 1) as nat;
        lemma_opaque_in_round(g, alpha, m, x, y);
        lemma_after_wf(start(g), alpha, m);
        lemma_advance_at(round(g, alpha, m), alpha, x, y);
    } else {
        assert(state_at(start(g).states, g.width as int, x, y) is Resolved);
    }
}

/// A transparent pixel that is resolved after `m` rounds was queued after
/// fewer.
proof fn lemma_resolved_was_queued(g: Grid, alpha: u8, m: nat, x: int, y: int) -> (n: nat)
    requires
        g.wf(),
        g.has(x, y),
        g.at(x, y).a == 0,
        round(g, alpha, m).state(x, y) is Resolved,
    ensures
        n < m,
        round(g, alpha, n).state(x, y) is Queued,
    decreases m,
{
    lemma_start(g);
    lemma_classified(g, x, y);
    if m == 0 {
        assert(state_at(start(g).states, g.width as int, x, y) is Resolved);
        0
    } else {
        let p = (m - 1) as nat;
        lemma_after_wf(start(g), alpha, p);
        lemma_advance_at(round(g, alpha, p), alpha, x, y);
        if round(g, alpha, p).state(x, y) is Queued {
            p
        } else {
            lemma_resolved_was_queued(g, alpha, p, x, y)
        }
    }
}

/// A pixel that was queued after none of the first `n` rounds is after `n`
/// rounds as it was in the bitmap.
proof fn lemma_unqueued_pixel(g: Grid, alpha: u8, n: nat, x: int, y: int)
    requires
        g.wf(),
        g.has(x, y),
        forall|m: nat| m < n ==> !(#[trigger] round(g, alpha, m).state(x, y) is Queued),
    ensures
        round(g, alpha, n).grid.at(x, y) == g.at(x, y),
    decreases n,
{
    lemma_start(g);
    if n > 0 {
        let p = (n - 1) as nat;
        lemma_unqueued_pixel(g, alpha, p, x, y);
        lemma_after_wf(start(g), alpha, p);
        lemma_advance_at(round(g, alpha, p), alpha, x, y);
        assert(!(round(g, alpha, p).state(x, y) is Queued));
    }
}

/// A resolved cell among `cs` is counted by the tally.
proof fn lemma_tally_counts(wave: Wave, cs: Seq<(int, int)>, k: int)
    requires
        0 <= k < cs.len(),
        wave.state(cs[k].0, cs[k].1) is Resolved,
    ensures
        wave.tally(cs).n > 0,
    decreases cs.len(),
{
    if k < cs.len() - 1 {
        lemma_tally_counts(wave, cs.drop_last(), k);
    }
}

/// A queued pixel has a resolved pixel around it.
proof fn lemma_queued_beside_resolved(g: Grid, alpha: u8, n: nat, x: int, y: int)
    requires
        g.wf(),
        g.has(x, y),
        round(g, alpha, n).state(x, y) is Queued,
    ensures
        round(g, alpha, n).tally(round(g, alpha, n).grid.around(x, y)).n > 0,
{
    let w = g.width as int;
    let h = g.height as int;
    lemma_start(g);
    lemma_after_wf(start(g), alpha, n);
    let wave = round(g, alpha, n);
    let cs = wave.grid.around(x, y);
    if n == 0 {
        let first = classify_spec(g);
        assert(state_at(start(g).states, w, x, y) is Queued);
        assert(beside_resolved(first, w, h, x, y));
        let (x1, y1) = choose|x1: int, y1: int|
            in_grid(w, h, x1, y1) && adjacent(x, y, x1, y1) && (#[trigger] state_at(first, w, x1, y1))
                is Resolved;
        assert(state_at(start(g).states, w, x1, y1) is Resolved);
        lemma_neighbors_complete(x, y, w, h, x1, y1);
        let k = choose|k: int| 0 <= k < cs.len() && cs[k] == (x1, y1);
        lemma_tally_counts(wave, cs, k);
    } else {
        let m = (n - 1) as nat;
        let before = round(g, alpha, m);
        lemma_after_wf(start(g), alpha, m);
        lemma_advance_at(before, alpha, x, y);
        assert(before.touches_queued(x, y));
        let bs = before.grid.around(x, y);
        let k = choose|k: int| 0 <= k < bs.len() && (#[trigger] before.state(bs[k].0, bs[k].1)) is Queued;
        lemma_neighbors_sound(x, y, w, h, k);
        lemma_advance_at(before, alpha, bs[k].0, bs[k].1);
        assert(cs == bs);
        lemma_tally_counts(wave, cs, k);
    }
}

/// A pixel that is queued after `n` rounds is resolved by the round that
/// follows: at the end it has alpha `alpha` and the mean colour of the
/// pixels around it that were resolved when its round began.
pub proof fn lemma_queued_pixel(g: Grid, alpha: u8, n: nat, x: int, y: int)
    requires
        g.wf(),
        g.has(x, y),
        round(g, alpha, n).state(x, y) is Queued,
    ensures
        resolved_in_round(g, alpha, n, x, y),
{
    lemma_start(g);
    lemma_after_wf(start(g), alpha, n);
    lemma_finish_after(start(g), alpha, n);
    lemma_queued_is_blended(round(g, alpha, n), alpha, x, y);
    lemma_queued_beside_resolved(g, alpha, n, x, y);
}

/// A transparent pixel that a chain of transparent pixels joins to a
/// seeded pixel is queued after some number of rounds.
proof fn lemma_chain_is_queued(g: Grid, alpha: u8, c: Seq<(int, int)>) -> (n: nat)
    requires
        g.wf(),
        transparent_chain(g, c),
        start(g).state(c[0].0, c[0].1) is Queued,
    ensures
        round(g, alpha, n).state(c.last().0, c.last().1) is Queued,
    decreases c.len(),
{
    let w = g.width as int;
    let h = g.height as int;
    if c.len() == 1 {
        0
    } else {
        let b = c.drop_last();
        assert forall|i: int| 0 < i < b.len() implies adjacent(
            b[i - 1].0,
            b[i - 1].1,
            (#[trigger] b[i]).0,
            b[i].1,
        ) by {
            assert(b[i] == c[i] && b[i - 1] == c[i - 1]);
        }
        assert forall|i: int| 0 <= i < b.len() implies g.has((#[trigger] b[i]).0, b[i].1) && g.at(
            b[i].0,
            b[i].1,
        ).a == 0 by {
            assert(b[i] == c[i]);
        }
        assert(b[0] == c[0]);
        let m = lemma_chain_is_queued(g, alpha, b);
        let p = b.last();
        let q = c.last();
        assert(p == c[c.len() - 2]);
        assert(adjacent(c[c.len() - 1 - 1].0, c[c.len() - 1 - 1].1, c[c.len() - 1].0, c[c.len() - 1].1));
        lemma_start(g);
        lemma_after_wf(start(g), alpha, m);
        let wave = round(g, alpha, m);
        match wave.state(q.0, q.1) {
            PixelState::Queued => m,
            PixelState::Resolved => lemma_resolved_was_queued(g, alpha, m, q.0, q.1),
            PixelState::Unresolved => {
                lemma_neighbors_complete(q.0, q.1, w, h, p.0, p.1);
                let cs = wave.grid.around(q.0, q.1);
                let k = choose|k: int| 0 <= k < cs.len() && cs[k] == p;
                assert(wave.state(cs[k].0, cs[k].1) is Queued);
                assert(wave.touches_queued(q.0, q.1));
                lemma_advance_at(wave, alpha, q.0, q.1);
                (m + 1) as nat
            },
        }
    }
}

/// A pixel that is queued after some number of rounds ends a chain of
/// transparent pixels that begins at a seeded pixel, which lies beside an
/// opaque one.
proof fn lemma_queued_has_chain(g: Grid, alpha: u8, n: nat, x: int, y: int) -> (c: Seq<(int, int)>)
    requires
        g.wf(),
        g.has(x, y),
        round(g, alpha, n).state(x, y) is Queued,
    ensures
        transparent_chain(g, c),
        c.last() == (x, y),
        beside_opaque(g, c[0].0, c[0].1),
        start(g).state(c[0].0, c[0].1) is Queued,
    decreases n,
{
    let w = g.width as int;
    let h = g.height as int;
    lemma_start(g);
    if g.at(x, y).a > 0 {
        lemma_opaque_in_round(g, alpha, n, x, y);
    }
    if n == 0 {
        let first = classify_spec(g);
        assert(state_at(start(g).states, w, x, y) is Queued);
        assert(beside_resolved(first, w, h, x, y));
        let (x1, y1) = choose|x1: int, y1: int|
            in_grid(w, h, x1, y1) && adjacent(x, y, x1, y1) && (#[trigger] state_at(first, w, x1, y1))
                is Resolved;
        lemma_classified(g, x1, y1);
        assert(g.has(x1, y1) && adjacent(x, y, x1, y1) && g.at(x1, y1).a > 0);
        seq![(x, y)]
    } else {
        let m = (n - 1) as nat;
        let before = round(g, alpha, m);
        lemma_after_wf(start(g), alpha, m);
        lemma_advance_at(before, alpha, x, y);
        assert(before.touches_queued(x, y));
        let bs = before.grid.around(x, y);
        let k = choose|k: int| 0 <= k < bs.len() && (#[trigger] before.state(bs[k].0, bs[k].1)) is Queued;
        lemma_neighbors_sound(x, y, w, h, k);
        let b = lemma_queued_has_chain(g, alpha, m, bs[k].0, bs[k].1);
        let c = b.push((x, y));
        assert forall|i: int| 0 <= i < c.len() implies g.has((#[trigger] c[i]).0, c[i].1) && g.at(
            c[i].0,
            c[i].1,
        ).a == 0 by {
            if i < b.len() {
                assert(c[i] == b[i]);
            }
        }
        assert forall|i: int| 0 < i < c.len() implies adjacent(
            c[i - 1].0,
            c[i - 1].1,
            (#[trigger] c[i]).0,
            c[i].1,
        ) by {
            if i < b.len() {
                assert(c[i] == b[i] && c[i - 1] == b[i - 1]);
            } else {
                assert(c[i - 1] == b.last());
            }
        }
        assert(c[0] == b[0]);
        c
    }
}

/// Bleeding keeps the size of the bitmap, and every pixel with an alpha
/// above zero exactly as it is.
pub proof fn lemma_opaque_pixels_unchanged(g: Grid, alpha: u8)
    requires
        g.wf(),
    ensures
        bleed(g, alpha).wf(),
        bleed(g, alpha).width == g.width,
        bleed(g, alpha).height == g.height,
        bleed(g, alpha).pixels.len() == g.pixels.len(),
        forall|i: int|
            0 <= i < g.pixels.len() && g.pixels[i].a > 0 ==> #[trigger] bleed(g, alpha).pixels[i]
                == g.pixels[i],
{
    let w = g.width as int;
    let h = g.height as int;
    lemma_start(g);
    lemma_finish_is_after_rounds(start(g), alpha);
    lemma_after_wf(start(g), alpha, start(g).rounds(alpha));
    assert forall|i: int| 0 <= i < g.pixels.len() && g.pixels[i].a > 0 implies #[trigger] bleed(
        g,
        alpha,
    ).pixels[i] == g.pixels[i] by {
        lemma_coords_index(w, h, i);
        lemma_opaque_in_round(g, alpha, start(g).rounds(alpha), i % w, i / w);
    }
}

/// A transparent pixel that a chain of transparent pixels joins to a
/// seeded pixel is resolved by some round: at the end it has alpha `alpha`
/// and the mean colour of the pixels around it that were resolved when that
/// round began. This holds of a seeded pixel itself, which is its own
/// chain.
pub proof fn lemma_reached_pixel_is_resolved(g: Grid, alpha: u8, x: int, y: int)
    requires
        g.wf(),
        reached(g, x, y),
    ensures
        exists|n: nat| resolved_in_round(g, alpha, n, x, y),
{
    let c = choose|c: Seq<(int, int)>|
        #[trigger] transparent_chain(g, c) && c.last() == (x, y) && start(g).state(c[0].0, c[0].1)
            is Queued;
    let n = lemma_chain_is_queued(g, alpha, c);
    lemma_queued_pixel(g, alpha, n, x, y);
}

/// A pixel that is queued after some number of rounds is reached: a chain
/// of transparent pixels joins it to a seeded pixel.
pub proof fn lemma_queued_is_reached(g: Grid, alpha: u8, n: nat, x: int, y: int)
    requires
        g.wf(),
        g.has(x, y),
        round(g, alpha, n).state(x, y) is Queued,
    ensures
        reached(g, x, y),
{
    let c = lemma_queued_has_chain(g, alpha, n, x, y);
    assert(transparent_chain(g, c) && c.last() == (x, y) && start(g).state(c[0].0, c[0].1) is Queued);
}

/// A pixel that is not reached is at the end as it was in the bitmap.
pub proof fn lemma_pixel_not_reached_unchanged(g: Grid, alpha: u8, x: int, y: int)
    requires
        g.wf(),
        g.has(x, y),
        !reached(g, x, y),
    ensures
        bleed(g, alpha).at(x, y) == g.at(x, y),
{
    assert forall|n: nat| !(#[trigger] round(g, alpha, n).state(x, y) is Queued) by {
        if round(g, alpha, n).state(x, y) is Queued {
            lemma_queued_is_reached(g, alpha, n, x, y);
        }
    }
    lemma_unreached_pixel_unchanged(g, alpha, x, y);
}

/// A pixel that is queued after no number of rounds is at the end as it
/// was in the bitmap.
pub proof fn lemma_unreached_pixel_unchanged(g: Grid, alpha: u8, x: int, y: int)
    requires
        g.wf(),
        g.has(x, y),
        forall|n: nat| !(#[trigger] round(g, alpha, n).state(x, y) is Queued),
    ensures
        bleed(g, alpha).at(x, y) == g.at(x, y),
{
    lemma_start(g);
    lemma_finish_is_after_rounds(start(g), alpha);
    lemma_unqueued_pixel(g, alpha, start(g).rounds(alpha), x, y);
}

/// A pixel that no chain of transparent pixels joins to a pixel beside an
/// opaque one is at the end as it was in the bitmap.
pub proof fn lemma_unreachable_pixel_unchanged(g: Grid, alpha: u8, x: int, y: int)
    requires
        g.wf(),
        g.has(x, y),
        out_of_reach(g, x, y),
    ensures
        bleed(g, alpha).at(x, y) == g.at(x, y),
{
    assert forall|n: nat| !(#[trigger] round(g, alpha, n).state(x, y) is Queued) by {
        if round(g, alpha, n).state(x, y) is Queued {
            let c = lemma_queued_has_chain(g, alpha, n, x, y);
            assert(transparent_chain(g, c) && c.last() == (x, y));
        }
    }
    lemma_unreached_pixel_unchanged(g, alpha, x, y);
}

/// Seeding leaves as many pixels pending as classification found
/// transparent.
proof fn lemma_seeding_keeps_pending(g: Grid)
    requires
        g.wf(),
    ensures
        pending(start(g).states) == pending(classify_spec(g)),
{
    let w = g.width as int;
    let h = g.height as int;
    let first = classify_spec(g);
    let now = start(g).states;
    lemma_start(g);
    assert forall|i: int| 0 <= i < first.len() implies (#[trigger] first[i] is Resolved <==> now[i] is Resolved) by {
        lemma_coords_index(w, h, i);
        assert(state_at(now, w, i % w, i / w) is Resolved <==> state_at(first, w, i % w, i / w) is Resolved);
    }
    lemma_pending_shrinks(first, now);
    lemma_pending_shrinks(now, first);
}

/// Bleeding takes no more rounds than the bitmap has transparent pixels.
pub proof fn lemma_rounds_at_most_transparent_pixels(g: Grid, alpha: u8)
    requires
        g.wf(),
    ensures
        start(g).rounds(alpha) <= pending(classify_spec(g)),
        pending(classify_spec(g)) <= g.width * g.height,
{
    lemma_start(g);
    lemma_rounds_bounded(start(g), alpha);
    lemma_seeding_keeps_pending(g);
    lemma_pending_bound(classify_spec(g));
}

/// A bitmap without a transparent pixel, and a bitmap without an opaque
/// one, are left as they are.
pub proof fn lemma_nothing_to_bleed(g: Grid, alpha: u8)
    requires
        g.wf(),
        (forall|i: int| 0 <= i < g.pixels.len() ==> (#[trigger] g.pixels[i]).a > 0) || (forall|i: int|
            0 <= i < g.pixels.len() ==> (#[trigger] g.pixels[i]).a == 0),
    ensures
        bleed(g, alpha) == g,
{
    let w = g.width as int;
    let h = g.height as int;
    lemma_opaque_pixels_unchanged(g, alpha);
    if forall|i: int| 0 <= i < g.pixels.len() ==> (#[trigger] g.pixels[i]).a == 0 {
        assert forall|i: int| 0 <= i < g.pixels.len() implies #[trigger] bleed(g, alpha).pixels[i]
            == g.pixels[i] by {
            lemma_coords_index(w, h, i);
            let x = i % w;
            let y = i / w;
            assert forall|c: Seq<(int, int)>|
                #[trigger] transparent_chain(g, c) && c.last() == (x, y) implies !beside_opaque(
                g,
                c[0].0,
                c[0].1,
            ) by {
                if beside_opaque(g, c[0].0, c[0].1) {
                    let (x1, y1) = choose|x1: int, y1: int|
                        g.has(x1, y1) && adjacent(c[0].0, c[0].1, x1, y1) && (#[trigger] g.at(x1, y1)).a
                            > 0;
                    lemma_index_bound(w, h, x1, y1);
                }
            }
            lemma_unreachable_pixel_unchanged(g, alpha, x, y);
        }
    }
    assert(bleed(g, alpha).pixels =~= g.pixels);
}

} // verus!
