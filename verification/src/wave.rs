//! The mathematical model of colour propagation.
//!
//! Propagation starts from the opaque pixels and moves outward through the
//! transparent ones in rounds. A [`Wave`] is the picture between two rounds:
//! the pixels as they are now and, for each, how far propagation has come.
//! Everything here is specification; the code that runs is held to it.

use vstd::prelude::*;
use crate::bitmap::{Grid, Rgba8};
use crate::grid::index_of;

verus! {

/// How far propagation has come for one pixel. A pixel only ever moves from
/// `Unresolved` to `Queued` to `Resolved`.
#[derive(Clone, Copy, Debug, PartialEq, Eq, Structural)]
pub enum PixelState {
    /// Transparent, and not reached yet.
    Unresolved,
    /// In the layer that the coming round resolves.
    Queued,
    /// Its colour is final: opaque from the start, or resolved by a round.
    Resolved,
}

/// The state of the cell in column `x` of row `y`, in a row-major sequence
/// of states for a grid `w` cells wide.
pub open spec fn state_at(states: Seq<PixelState>, w: int, x: int, y: int) -> PixelState {
    states[index_of(w, x, y)]
}

/// The picture between two rounds of propagation.
pub struct Wave {
    pub grid: Grid,
    pub states: Seq<PixelState>,
}

/// What the resolved cells among some cells add up to: how many there are,
/// and the sum of each colour channel.
pub struct Tally {
    pub n: nat,
    pub r: nat,
    pub g: nat,
    pub b: nat,
}

impl Wave {
    /// There is one pixel and one state for each cell.
    pub open spec fn wf(self) -> bool {
        self.grid.wf() && self.states.len() == self.grid.pixels.len()
    }

    /// The state of the cell in column `x` of row `y`.
    pub open spec fn state(self, x: int, y: int) -> PixelState {
        state_at(self.states, self.grid.width as int, x, y)
    }

    /// No cell is queued: propagation has come to its end.
    pub open spec fn settled(self) -> bool {
        forall|i: int| 0 <= i < self.states.len() ==> !(#[trigger] self.states[i] is Queued)
    }

    /// Count and channel sums of the resolved cells among `cells`.
    pub open spec fn tally(self, cells: Seq<(int, int)>) -> Tally
        decreases cells.len(),
    {
        if cells.len() == 0 {
            Tally { n: 0, r: 0, g: 0, b: 0 }
        } else {
            let rest = self.tally(cells.drop_last());
            let c = cells.last();
            if self.state(c.0, c.1) is Resolved {
                let p = self.grid.at(c.0, c.1);
                Tally {
                    n: rest.n + 1,
                    r: rest.r + p.r as nat,
                    g: rest.g + p.g as nat,
                    b: rest.b + p.b as nat,
                }
            } else {
                rest
            }
        }
    }

    /// The pixel that a round gives to the queued cell `(x, y)`: each colour
    /// channel is the mean, rounded down, of that channel over the resolved
    /// cells around it, and alpha is `alpha`. With no resolved cell around
    /// it the pixel stays as it is.
    pub open spec fn blend(self, x: int, y: int, alpha: u8) -> Rgba8 {
        let t = self.tally(self.grid.around(x, y));
        if t.n > 0 {
            Rgba8 {
                r: (t.r / t.n) as u8,
                g: (t.g / t.n) as u8,
                b: (t.b / t.n) as u8,
                a: alpha,
            }
        } else {
            self.grid.at(x, y)
        }
    }

    /// One of the cells around `(x, y)` is queued.
    pub open spec fn touches_queued(self, x: int, y: int) -> bool {
        exists|k: int|
            0 <= k < self.grid.around(x, y).len() && (#[trigger] self.state(
                self.grid.around(x, y)[k].0,
                self.grid.around(x, y)[k].1,
            )) is Queued
    }

    /// The state of `(x, y)` after the coming round: a queued cell is
    /// resolved, and an unresolved cell next to a queued one is queued.
    pub open spec fn next_state(self, x: int, y: int) -> PixelState {
        match self.state(x, y) {
            PixelState::Resolved => PixelState::Resolved,
            PixelState::Queued => PixelState::Resolved,
            PixelState::Unresolved => if self.touches_queued(x, y) {
                PixelState::Queued
            } else {
                PixelState::Unresolved
            },
        }
    }

    /// The pixel of `(x, y)` after the coming round: only a queued cell
    /// changes.
    pub open spec fn next_pixel(self, x: int, y: int, alpha: u8) -> Rgba8 {
        if self.state(x, y) is Queued {
            self.blend(x, y, alpha)
        } else {
            self.grid.at(x, y)
        }
    }

    /// The picture after one round. Every queued cell takes its colour from
    /// the cells that were resolved before the round, none from a cell of
    /// its own layer.
    pub open spec fn advance(self, alpha: u8) -> Wave {
        let w = self.grid.width as int;
        Wave {
            grid: Grid {
                width: self.grid.width,
                height: self.grid.height,
                pixels: Seq::new(
                    self.grid.pixels.len(),
                    |i: int| self.next_pixel(i % w, i / w, alpha),
                ),
            },
            states: Seq::new(self.states.len(), |i: int| self.next_state(i % w, i / w)),
        }
    }

    /// The picture after `n` more rounds.
    pub open spec fn after(self, alpha: u8, n: nat) -> Wave
        decreases n,
    {
        if n == 0 {
            self
        } else {
            self.after(alpha, (n - 1) as nat).advance(alpha)
        }
    }

    /// How many rounds it takes until no cell is queued.
    pub open spec fn rounds(self, alpha: u8) -> nat
        decreases pending(self.states),
    {
        if !self.wf() || self.settled() {
            0
        } else {
            proof {
                lemma_advance_resolves(self, alpha);
            }
            1 + self.advance(alpha).rounds(alpha)
        }
    }

    /// The picture at the end: rounds follow one another until no cell is
    /// queued.
    pub open spec fn finish(self, alpha: u8) -> Wave
        decreases pending(self.states),
    {
        if !self.wf() || self.settled() {
            self
        } else {
            proof {
                lemma_advance_resolves(self, alpha);
            }
            self.advance(alpha).finish(alpha)
        }
    }
}

/// How many of the states are not `Resolved`.
pub open spec fn pending(states: Seq<PixelState>) -> nat
    decreases states.len(),
{
    if states.len() == 0 {
        0
    } else {
        pending(states.drop_last()) + if states.last() is Resolved {
            0nat
        } else {
            1nat
        }
    }
}

/// Where every resolved state stays resolved, no more states are pending
/// than before; and fewer where a state has become resolved.
pub proof fn lemma_pending_shrinks(before: Seq<PixelState>, after: Seq<PixelState>)
    requires
        before.len() == after.len(),
        forall|i: int| 0 <= i < before.len() && before[i] is Resolved ==> after[i] is Resolved,
    ensures
        pending(after) <= pending(before),
        (exists|i: int| 0 <= i < before.len() && !(before[i] is Resolved) && after[i] is Resolved)
            ==> pending(after) < pending(before),
    decreases before.len(),
{
    if before.len() > 0 {
        let b = before.drop_last();
        let a = after.drop_last();
        lemma_pending_shrinks(b, a);
        if exists|i: int| 0 <= i < before.len() && !(before[i] is Resolved) && after[i] is Resolved {
            let i = choose|i: int|
                0 <= i < before.len() && !(before[i] is Resolved) && after[i] is Resolved;
            if i < before.len() - 1 {
                assert(!(b[i] is Resolved) && a[i] is Resolved);
            }
        }
    }
}

/// No more states are pending than there are states.
pub proof fn lemma_pending_bound(states: Seq<PixelState>)
    ensures
        pending(states) <= states.len(),
    decreases states.len(),
{
    if states.len() > 0 {
        lemma_pending_bound(states.drop_last());
    }
}

/// A round reads the cell `(x, y)` of the grid at its row-major index.
pub proof fn lemma_advance_at(wave: Wave, alpha: u8, x: int, y: int)
    requires
        wave.wf(),
        wave.grid.has(x, y),
    ensures
        wave.advance(alpha).state(x, y) == wave.next_state(x, y),
        wave.advance(alpha).grid.at(x, y) == wave.next_pixel(x, y, alpha),
{
    let w = wave.grid.width as int;
    crate::grid::lemma_index_bound(w, wave.grid.height as int, x, y);
    crate::grid::lemma_index_coords(w, x, y);
}

/// While a cell is queued, a round leaves fewer cells pending.
pub proof fn lemma_advance_resolves(wave: Wave, alpha: u8)
    requires
        wave.wf(),
        !wave.settled(),
    ensures
        pending(wave.advance(alpha).states) < pending(wave.states),
{
    let next = wave.advance(alpha);
    let w = wave.grid.width as int;
    let h = wave.grid.height as int;
    assert forall|i: int| 0 <= i < wave.states.len() && wave.states[i] is Resolved implies next.states[i] is Resolved by {
        crate::grid::lemma_coords_index(w, h, i);
    }
    let i = choose|i: int| 0 <= i < wave.states.len() && wave.states[i] is Queued;
    crate::grid::lemma_coords_index(w, h, i);
    assert(!(wave.states[i] is Resolved) && next.states[i] is Resolved);
    lemma_pending_shrinks(wave.states, next.states);
}

} // verus!
