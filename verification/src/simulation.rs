//! The solver as a host sees it: a store that starts as a dam break, can be
//! stepped, topped up with blocks while there is room, and reset.

use vstd::prelude::*;
use crate::config::{DAM_PARTICLES, GRID_HEIGHT, GRID_WIDTH, MAX_PARTICLES};
use crate::placement::{lemma_square_side_fits, lemma_square_side_is, square_count};
use crate::state::{Event, Phase, State, StateView};

verus! {

/// A request for `n` more particles is refused when the store holds
/// `count` and granting it would reach or pass the capacity.
pub open spec fn over_capacity(count: int, n: int) -> bool {
    count + n >= MAX_PARTICLES
}

/// The initial dam break fills its request exactly.
pub proof fn lemma_dam_break_count()
    ensures
        square_count(DAM_PARTICLES as int) == DAM_PARTICLES,
{
    assert(75 * 75 == 5625 && 76 * 76 == 5776) by (nonlinear_arith);
    lemma_square_side_is(DAM_PARTICLES as int, 75);
}

/// A solver state that starts as a dam break and never fills beyond its
/// capacity.
pub struct Simulation<D> {
    state: State<D>,
}

impl<D> View for Simulation<D> {
    type V = StateView<D>;

    closed spec fn view(&self) -> StateView<D> {
        self.state@
    }
}

impl<D: Copy> Simulation<D> {
    /// The state is well formed and the store is below its capacity.
    pub closed spec fn wf(&self) -> bool {
        &&& self.state.wf()
        &&& self.state@.count() < MAX_PARTICLES
    }

    /// A simulation holding the initial dam break.
    pub fn new() -> (sim: Simulation<D>)
        ensures
            sim.wf(),
            sim@ == StateView::<D>::empty(GRID_WIDTH as int, GRID_HEIGHT as int).placed(
                DAM_PARTICLES as int,
            ),
            sim@.count() == DAM_PARTICLES,
    {
        let mut state: State<D> = State::new();
        state.init_dam_break(DAM_PARTICLES);
        proof {
            lemma_dam_break_count();
        }
        Simulation { state }
    }

    /// Current number of particles.
    pub fn num_particles(&self) -> (n: usize)
        ensures
            n == self@.count(),
    {
        self.state.count()
    }

    /// The solver's state, for reading candidates and neighbor lists.
    pub fn state(&self) -> (s: &State<D>)
        requires
            self.wf(),
        ensures
            s.wf(),
            s@ == self@,
    {
        &self.state
    }

    /// Moves the frame in progress on by one report; see [`State::update`].
    /// The number of particles never changes.
    pub fn step(&mut self, event: Event<D>) -> (next: Phase)
        requires
            old(self).wf(),
        ensures
            final(self).wf(),
            final(self)@ == old(self)@.advanced(event@),
            final(self)@.count() == old(self)@.count(),
            next == final(self)@.phase,
    {
        self.state.update(event)
    }

    /// Drops a block for a request of `n` particles into the scene, unless
    /// that could fill the store: then nothing happens.
    pub fn add_block(&mut self, n: usize)
        requires
            old(self).wf(),
        ensures
            final(self).wf(),
            over_capacity(old(self)@.count(), n as int) ==> final(self)@ == old(self)@,
            !over_capacity(old(self)@.count(), n as int) ==> final(self)@ == old(self)@.placed(
                n as int,
            ) && final(self)@.count() == old(self)@.count() + square_count(n as int),
    {
        if n < MAX_PARTICLES && self.state.count() < MAX_PARTICLES - n {
            proof {
                lemma_square_side_fits(n as int);
            }
            self.state.init_block(n);
        }
    }

    /// Removes every particle and places the initial dam break again.
    pub fn reset(&mut self)
        requires
            old(self).wf(),
        ensures
            final(self).wf(),
            final(self)@ == old(self)@.cleared().placed(DAM_PARTICLES as int),
            final(self)@.count() == DAM_PARTICLES,
    {
        self.state.clear();
        self.state.init_dam_break(DAM_PARTICLES);
        proof {
            lemma_dam_break_count();
        }
    }
}

} // verus!
