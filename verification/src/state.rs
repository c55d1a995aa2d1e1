//! The solver's discrete state and the update cycle that drives it.
//!
//! The state owns the spatial grid, each particle's cached cell and each
//! particle's neighbor list. Positions and velocities live with the caller,
//! one record per particle in the same order. A frame is a fixed number of
//! substeps; in each, the caller integrates, reports where the particles
//! ended up, measures the candidates the grid offers, and projects.

use vstd::prelude::*;
use crate::config::{GRID_HEIGHT, GRID_WIDTH, NUM_NEIGHBORS, SOLVER_STEPS};
use crate::grid::{
    adjacent, clamp_all, files, lemma_clamp_keeps_adjacent, lemma_stencil_contains,
    lemma_stencil_is_short, lemma_stencil_no_duplicates, occupants, stencil, CellCoord,
    ConfigError, Grid,
};
use crate::neighbors::{
    accepted, capped, lemma_accepted_distinct, lemma_accepted_from_candidates,
    lemma_measured_is_accepted, lemma_nothing_measured, measurement, select_neighbors, Neighbor,
};
use crate::placement::{isqrt, square_count};

verus! {

/// What the solver is waiting for.
#[derive(Clone, Copy, Debug, PartialEq, Eq, Structural)]
pub enum Phase {
    /// Between frames.
    Idle,
    /// The caller applies gravity and advances positions.
    Integrate,
    /// The grid is built; the caller measures the candidates of every
    /// particle and accumulates densities.
    Density,
    /// Neighbor lists are set; the caller corrects positions.
    Projection,
}

/// What the caller reports back to the solver.
pub enum Event<D> {
    /// A new frame is due.
    Begin,
    /// Positions were advanced; each particle's cell coordinate, not yet
    /// clamped to the grid.
    Integrated(Vec<CellCoord>),
    /// Candidates were measured: for each particle, for each candidate in
    /// scan order, the separation if it lies within range.
    Measured(Vec<Vec<Option<D>>>),
    /// Positions were corrected.
    Projected,
}

/// An event as contracts see it.
pub enum EventView<D> {
    Begin,
    Integrated(Seq<CellCoord>),
    Measured(Seq<Seq<Option<D>>>),
    Projected,
}

impl<D> View for Event<D> {
    type V = EventView<D>;

    open spec fn view(&self) -> EventView<D> {
        match self {
            Event::Begin => EventView::Begin,
            Event::Integrated(raw) => EventView::Integrated(raw@),
            Event::Measured(rows) => EventView::Measured(
                Seq::new(rows@.len(), |i: int| rows@[i]@),
            ),
            Event::Projected => EventView::Projected,
        }
    }
}

/// The state as contracts see it.
pub struct StateView<D> {
    /// Cells across the grid.
    pub width: int,
    /// Cells up the grid.
    pub height: int,
    /// Particle indices filed under each cell, in buffer order.
    pub buckets: Seq<Seq<usize>>,
    /// Each particle's cell as of the last grid build.
    pub cells: Seq<CellCoord>,
    /// Each particle's neighbor list.
    pub neighbors: Seq<Seq<Neighbor<D>>>,
    /// What the solver waits for.
    pub phase: Phase,
    /// Substeps of the current frame that are complete.
    pub substep: int,
}

/// The measurements taken for particle `i`; none if the report is short.
pub open spec fn row<D>(measured: Seq<Seq<Option<D>>>, i: int) -> Seq<Option<D>> {
    if 0 <= i < measured.len() {
        measured[i]
    } else {
        Seq::empty()
    }
}

impl<D> StateView<D> {
    /// Number of particles.
    pub open spec fn count(self) -> int {
        self.neighbors.len() as int
    }

    /// The grid is current: it files every particle under its cell.
    pub open spec fn indexed(self) -> bool {
        files(self.buckets, self.cells, self.width, self.height)
    }

    /// The grid has an interior and a bucket per cell; every particle has
    /// a cell and a neighbor list; while measurements or corrections are
    /// awaited the grid is current; no list exceeds the cap and every
    /// entry names a particle in the store.
    pub open spec fn wf(self) -> bool {
        &&& self.width >= 3
        &&& self.height >= 3
        &&& self.buckets.len() == self.width * self.height
        &&& self.cells.len() == self.neighbors.len()
        &&& self.neighbors.len() <= usize::MAX
        &&& 0 <= self.substep < SOLVER_STEPS
        &&& (self.phase is Idle ==> self.substep == 0)
        &&& (self.phase is Density || self.phase is Projection ==> self.indexed())
        &&& forall|i: int|
            0 <= i < self.neighbors.len() ==> (#[trigger] self.neighbors[i]).len() <= NUM_NEIGHBORS
        &&& forall|i: int, k: int|
            0 <= i < self.neighbors.len() && 0 <= k < self.neighbors[i].len() ==> (
            #[trigger] self.neighbors[i][k]).index < self.neighbors.len()
    }

    /// An empty store on a `width` x `height` grid.
    pub open spec fn empty(width: int, height: int) -> StateView<D> {
        StateView {
            width,
            height,
            buckets: Seq::new((width * height) as nat, |c: int| Seq::empty()),
            cells: Seq::empty(),
            neighbors: Seq::empty(),
            phase: Phase::Idle,
            substep: 0,
        }
    }

    /// A square patch for a request of `n` particles is appended: each new
    /// particle starts outside every cell and without neighbors. A frame in
    /// progress is abandoned.
    pub open spec fn placed(self, n: int) -> StateView<D> {
        StateView {
            cells: self.cells + Seq::new(
                square_count(n) as nat,
                |k: int| CellCoord { x: 0, y: 0 },
            ),
            neighbors: self.neighbors + Seq::new(square_count(n) as nat, |k: int| Seq::empty()),
            phase: Phase::Idle,
            substep: 0,
            ..self
        }
    }

    /// All particles are removed; the grid's buckets are left as they are.
    pub open spec fn cleared(self) -> StateView<D> {
        StateView {
            cells: Seq::empty(),
            neighbors: Seq::empty(),
            phase: Phase::Idle,
            substep: 0,
            ..self
        }
    }

    /// The grid is built anew from the raw cell coordinates.
    pub open spec fn rebuilt(self, raw: Seq<CellCoord>) -> StateView<D> {
        let cells = clamp_all(raw, self.width, self.height);
        StateView {
            cells,
            buckets: Seq::new(
                (self.width * self.height) as nat,
                |c: int| occupants(cells, self.width, c),
            ),
            ..self
        }
    }

    /// The neighbor list particle `i` gets from a report of measurements.
    pub open spec fn chosen(self, measured: Seq<Seq<Option<D>>>, i: int) -> Seq<Neighbor<D>> {
        capped(
            accepted(stencil(self.buckets, self.cells[i], self.width), row(measured, i)),
            NUM_NEIGHBORS as int,
        )
    }

    /// Every neighbor list is replaced by the one chosen from the report.
    pub open spec fn recorded(self, measured: Seq<Seq<Option<D>>>) -> StateView<D> {
        StateView {
            neighbors: Seq::new(self.neighbors.len(), |i: int| self.chosen(measured, i)),
            ..self
        }
    }

    /// The state after an event. An event the solver is not waiting for,
    /// or a report that does not cover every particle, changes nothing.
    pub open spec fn advanced(self, event: EventView<D>) -> StateView<D> {
        match (self.phase, event) {
            (Phase::Idle, EventView::Begin) => StateView { phase: Phase::Integrate, ..self },
            (Phase::Integrate, EventView::Integrated(raw)) => if raw.len() == self.count() {
                StateView { phase: Phase::Density, ..self.rebuilt(raw) }
            } else {
                self
            },
            (Phase::Density, EventView::Measured(measured)) => StateView {
                phase: Phase::Projection,
                ..self.recorded(measured)
            },
            (Phase::Projection, EventView::Projected) => if self.substep + 1 < SOLVER_STEPS {
                StateView { phase: Phase::Integrate, substep: self.substep + 1, ..self }
            } else {
                StateView { phase: Phase::Idle, substep: 0, ..self }
            },
            _ => self,
        }
    }
}

/// The solver's discrete state. `D` is the type separations are measured
/// in.
pub struct State<D> {
    grid: Grid,
    cells: Vec<CellCoord>,
    neighborhoods: Vec<Vec<Neighbor<D>>>,
    phase: Phase,
    substep: usize,
}

impl<D> View for State<D> {
    type V = StateView<D>;

    closed spec fn view(&self) -> StateView<D> {
        StateView {
            width: self.grid.width(),
            height: self.grid.height(),
            buckets: self.grid.cells(),
            cells: self.cells@,
            neighbors: Seq::new(self.neighborhoods@.len(), |i: int| self.neighborhoods@[i]@),
            phase: self.phase,
            substep: self.substep as int,
        }
    }
}

impl<D: Copy> State<D> {
    /// The grid is sound and the view is well formed.
    pub closed spec fn wf(&self) -> bool {
        &&& self.grid.wf()
        &&& self@.wf()
    }

    /// An empty store on the default grid.
    pub fn new() -> (s: State<D>)
        ensures
            s.wf(),
            s@ == StateView::<D>::empty(GRID_WIDTH as int, GRID_HEIGHT as int),
    {
        match State::with_grid(GRID_WIDTH, GRID_HEIGHT) {
            Ok(s) => s,
            Err(_) => vstd::pervasive::unreached(),
        }
    }

    /// An empty store on a grid of the given size. A domain of fewer than
    /// three cells on an axis is refused.
    pub fn with_grid(width: usize, height: usize) -> (r: Result<State<D>, ConfigError>)
        requires
            width * height <= usize::MAX,
        ensures
            (width < 3 || height < 3) <==> r is Err,
            r matches Ok(s) ==> s.wf() && s@ == StateView::<D>::empty(width as int, height as int),
            r matches Err(e) ==> e == ConfigError::DomainTooSmall,
    {
        match Grid::new(width, height) {
            Ok(grid) => {
                let s = State {
                    grid,
                    cells: Vec::new(),
                    neighborhoods: Vec::new(),
                    phase: Phase::Idle,
                    substep: 0,
                };
                proof {
                    assert(s@.buckets =~~= StateView::<D>::empty(width as int, height as int).buckets);
                    assert(s@.neighbors =~= Seq::empty());
                }
                Ok(s)
            },
            Err(e) => Err(e),
        }
    }

    /// Number of particles.
    pub fn count(&self) -> (n: usize)
        ensures
            n == self@.count(),
    {
        self.neighborhoods.len()
    }

    /// What the solver is waiting for.
    pub fn phase(&self) -> (p: Phase)
        ensures
            p == self@.phase,
    {
        self.phase
    }

    /// Substeps of the current frame that are complete.
    pub fn substep(&self) -> (k: usize)
        ensures
            k == self@.substep,
    {
        self.substep
    }

    /// The cell particle `i` was filed under by the last grid build.
    pub fn cell(&self, i: usize) -> (c: CellCoord)
        requires
            self.wf(),
            i < self@.count(),
        ensures
            c == self@.cells[i as int],
    {
        self.cells[i]
    }

    /// The neighbor list of particle `i`.
    pub fn neighbors(&self, i: usize) -> (list: &Vec<Neighbor<D>>)
        requires
            i < self@.count(),
        ensures
            list@ == self@.neighbors[i as int],
    {
        &self.neighborhoods[i]
    }

    /// The particles the grid offers as possible neighbors of particle `i`:
    /// everything in the 3x3 block of cells around its own, in scan order.
    pub fn candidates(&self, i: usize) -> (found: Vec<usize>)
        requires
            self.wf(),
            self@.phase is Density || self@.phase is Projection,
            i < self@.count(),
        ensures
            found@ == stencil(self@.buckets, self@.cells[i as int], self@.width),
    {
        self.grid.neighbors_of(self.cells[i])
    }

    /// Removes every particle and every neighbor list. The grid's buckets
    /// keep their contents until the next build.
    pub fn clear(&mut self)
        requires
            old(self).wf(),
        ensures
            final(self).wf(),
            final(self)@ == old(self)@.cleared(),
    {
        self.cells.clear();
        self.neighborhoods.clear();
        self.phase = Phase::Idle;
        self.substep = 0;
        proof {
            assert(self@.neighbors =~= Seq::empty());
        }
    }

    /// Appends a square patch of particles for a request of `n`: as many as
    /// fill the largest square that `n` particles can, row by row. Returns
    /// how many were placed.
    pub fn place_square(&mut self, n: usize) -> (placed: usize)
        requires
            old(self).wf(),
        ensures
            final(self).wf(),
            final(self)@ == old(self)@.placed(n as int),
            placed == square_count(n as int),
            final(self)@.count() == old(self)@.count() + placed,
    {
        let side: usize = isqrt(n);
        let ghost before = self.neighborhoods@.len();
        let mut placed: usize = 0;
        let mut row: usize = 0;
        while row < side
            invariant
                row <= side,
                side * side <= n,
                placed == row * side,
                self.grid == old(self).grid,
                self.phase == old(self).phase,
                self.substep == old(self).substep,
                before == old(self).neighborhoods@.len(),
                self.cells@ == old(self).cells@ + Seq::new(
                    placed as nat,
                    |k: int| CellCoord { x: 0, y: 0 },
                ),
                self.neighborhoods@.len() == before + placed,
                forall|i: int|
                    0 <= i < before ==> #[trigger] self.neighborhoods@[i] == old(
                        self,
                    ).neighborhoods@[i],
                forall|i: int|
                    before <= i < before + placed ==> (#[trigger] self.neighborhoods@[i])@.len()
                        == 0,
            decreases side - row,
        {
            let mut col: usize = 0;
            while col < side
                invariant
                    col <= side,
                    row < side,
                    side * side <= n,
                    placed == row * side + col,
                    self.grid == old(self).grid,
                    self.phase == old(self).phase,
                    self.substep == old(self).substep,
                    before == old(self).neighborhoods@.len(),
                    self.cells@ == old(self).cells@ + Seq::new(
                        placed as nat,
                        |k: int| CellCoord { x: 0, y: 0 },
                    ),
                    self.neighborhoods@.len() == before + placed,
                    forall|i: int|
                        0 <= i < before ==> #[trigger] self.neighborhoods@[i] == old(
                            self,
                        ).neighborhoods@[i],
                    forall|i: int|
                        before <= i < before + placed ==> (
                        #[trigger] self.neighborhoods@[i])@.len() == 0,
                decreases side - col,
            {
                assert(row * side + col < side * side) by (nonlinear_arith)
                    requires
                        row < side,
                        col < side,
                ;
                self.cells.push(CellCoord { x: 0, y: 0 });
                self.neighborhoods.push(Vec::new());
                placed += 1;
                col += 1;
                proof {
                    assert(self.cells@ =~= old(self).cells@ + Seq::new(
                        placed as nat,
                        |k: int| CellCoord { x: 0, y: 0 },
                    ));
                }
            }
            row += 1;
            assert(row * side == (row - 1) * side + side) by (nonlinear_arith);
        }
        self.phase = Phase::Idle;
        self.substep = 0;
        proof {
            assert(self.neighborhoods.len() <= usize::MAX);
            assert(placed == side * side);
            assert(self@.neighbors =~~= old(self)@.placed(n as int).neighbors);
        }
        placed
    }

    /// Places the initial column of fluid for a request of `n` particles.
    pub fn init_dam_break(&mut self, n: usize)
        requires
            old(self).wf(),
        ensures
            final(self).wf(),
            final(self)@ == old(self)@.placed(n as int),
            final(self)@.count() == old(self)@.count() + square_count(n as int),
    {
        self.place_square(n);
    }

    /// Places a block of fluid for a request of `n` particles.
    pub fn init_block(&mut self, n: usize)
        requires
            old(self).wf(),
        ensures
            final(self).wf(),
            final(self)@ == old(self)@.placed(n as int),
            final(self)@.count() == old(self)@.count() + square_count(n as int),
    {
        self.place_square(n);
    }

    /// Builds the grid from the particles' raw cell coordinates and caches
    /// each particle's cell.
    fn rebuild_grid(&mut self, raw: &Vec<CellCoord>)
        requires
            old(self).wf(),
            raw@.len() == old(self)@.count(),
        ensures
            final(self).grid.wf(),
            final(self)@ == old(self)@.rebuilt(raw@),
            final(self)@.indexed(),
    {
        self.cells = self.grid.rebuild(raw);
        proof {
            assert(self@.buckets =~= old(self)@.rebuilt(raw@).buckets);
            assert(self@.neighbors =~= old(self)@.neighbors);
        }
    }

    /// Sets every particle's neighbor list from the measurements taken for
    /// its candidates.
    fn record_neighbors(&mut self, measured: &Vec<Vec<Option<D>>>)
        requires
            old(self).grid.wf(),
            old(self)@.wf(),
            old(self)@.indexed(),
        ensures
            final(self).grid.wf(),
            final(self)@ == old(self)@.recorded(Seq::new(measured@.len(), |i: int| measured@[i]@)),
            final(self)@.wf(),
            final(self)@.indexed(),
    {
        let ghost rows = Seq::new(measured@.len(), |i: int| measured@[i]@);
        let ghost start = self@;
        let n: usize = self.neighborhoods.len();
        let none: Vec<Option<D>> = Vec::new();
        let mut i: usize = 0;
        while i < n
            invariant
                i <= n,
                n == self.neighborhoods@.len(),
                n == self.cells@.len(),
                start == old(self)@,
                start.wf(),
                start.indexed(),
                rows == Seq::new(measured@.len(), |i: int| measured@[i]@),
                none@.len() == 0,
                self.grid == old(self).grid,
                self.grid.wf(),
                self.cells == old(self).cells,
                self.phase == old(self).phase,
                self.substep == old(self).substep,
                forall|k: int| 0 <= k < i ==> (#[trigger] self.neighborhoods@[k])@ == start.chosen(rows, k),
                forall|k: int|
                    i <= k < n ==> #[trigger] self.neighborhoods@[k] == old(self).neighborhoods@[k],
            decreases n - i,
        {
            let cands = self.grid.neighbors_of(self.cells[i]);
            let list = if i < measured.len() {
                select_neighbors(&cands, &measured[i])
            } else {
                select_neighbors(&cands, &none)
            };
            proof {
                assert(none@ =~= Seq::empty());
                assert(list@ == start.chosen(rows, i as int));
            }
            self.neighborhoods[i] = list;
            i += 1;
        }
        proof {
            assert(self@.neighbors =~= start.recorded(rows).neighbors);
            lemma_recorded_wf(start, rows);
        }
    }

    /// Takes the caller's report and moves the update cycle on. Returns
    /// what the solver waits for next.
    ///
    /// A frame begins from idle and runs through integrate, density and
    /// projection once per substep; after the last substep the solver is
    /// idle again. When positions are reported the grid is rebuilt; when
    /// measurements are reported the neighbor lists are set.
    pub fn update(&mut self, event: Event<D>) -> (next: Phase)
        requires
            old(self).wf(),
        ensures
            final(self).wf(),
            final(self)@ == old(self)@.advanced(event@),
            final(self)@.count() == old(self)@.count(),
            next == final(self)@.phase,
    {
        match event {
            Event::Begin => {
                if self.phase == Phase::Idle {
                    self.phase = Phase::Integrate;
                }
            },
            Event::Integrated(raw) => {
                if self.phase == Phase::Integrate && raw.len() == self.neighborhoods.len() {
                    self.rebuild_grid(&raw);
                    self.phase = Phase::Density;
                }
            },
            Event::Measured(measured) => {
                if self.phase == Phase::Density {
                    self.record_neighbors(&measured);
                    self.phase = Phase::Projection;
                }
            },
            Event::Projected => {
                if self.phase == Phase::Projection {
                    if self.substep + 1 < SOLVER_STEPS {
                        self.phase = Phase::Integrate;
                        self.substep = self.substep + 1;
                    } else {
                        self.phase = Phase::Idle;
                        self.substep = 0;
                    }
                }
            },
        }
        self.phase
    }
}

/// Recording measurements on a current grid keeps the state well formed:
/// no list exceeds the cap and every entry names a particle in the store.
pub proof fn lemma_recorded_wf<D>(v: StateView<D>, measured: Seq<Seq<Option<D>>>)
    requires
        v.wf(),
        v.indexed(),
    ensures
        v.recorded(measured).wf(),
        v.recorded(measured).indexed(),
{
    let after = v.recorded(measured);
    assert forall|i: int, k: int|
        0 <= i < after.neighbors.len() && 0 <= k < after.neighbors[i].len() implies (
    #[trigger] after.neighbors[i][k]).index < after.neighbors.len() by {
        let cands = stencil(v.buckets, v.cells[i], v.width);
        lemma_stencil_is_short(v.buckets, v.cells, v.width, v.height, v.cells[i]);
        let all = accepted(cands, row(measured, i));
        assert(after.neighbors[i][k] == all[k]);
        lemma_accepted_from_candidates(cands, row(measured, i), k);
        let from = choose|from: int|
            0 <= from < cands.len() && measurement(row(measured, i), from) == Some(all[k].r)
                && #[trigger] cands[from] == all[k].index;
        assert(cands.contains(all[k].index));
        lemma_stencil_contains(v.buckets, v.cells, v.width, v.height, v.cells[i], all[k].index);
    }
}

/// A grid built from raw coordinates is current, whatever they were.
pub proof fn lemma_rebuilt_indexed<D>(v: StateView<D>, raw: Seq<CellCoord>)
    requires
        v.width >= 3,
        v.height >= 3,
    ensures
        v.rebuilt(raw).indexed(),
{
    assert(v.width * v.height >= 0) by (nonlinear_arith)
        requires
            v.width >= 3,
            v.height >= 3,
    ;
}

/// No event adds, removes or reorders particles, and every event leaves
/// the state well formed.
pub proof fn lemma_advanced_keeps_count<D>(v: StateView<D>, event: EventView<D>)
    requires
        v.wf(),
    ensures
        v.advanced(event).wf(),
        v.advanced(event).count() == v.count(),
        v.advanced(event).width == v.width,
        v.advanced(event).height == v.height,
{
    match (v.phase, event) {
        (Phase::Integrate, EventView::Integrated(raw)) => {
            lemma_rebuilt_indexed(v, raw);
        },
        (Phase::Density, EventView::Measured(measured)) => {
            lemma_recorded_wf(v, measured);
        },
        _ => {},
    }
}

/// The state after a run of events, taken in order.
pub open spec fn after_events<D>(v: StateView<D>, events: Seq<EventView<D>>) -> StateView<D>
    decreases events.len(),
{
    if events.len() == 0 {
        v
    } else {
        after_events(v, events.drop_last()).advanced(events.last())
    }
}

/// Stepping never changes the number of particles: whatever events a well
/// formed state takes, and however many, it ends well formed and with the
/// particles it began with.
pub proof fn lemma_run_keeps_count<D>(v: StateView<D>, events: Seq<EventView<D>>)
    requires
        v.wf(),
    ensures
        after_events(v, events).wf(),
        after_events(v, events).count() == v.count(),
    decreases events.len(),
{
    if events.len() > 0 {
        lemma_run_keeps_count(v, events.drop_last());
        lemma_advanced_keeps_count(after_events(v, events.drop_last()), events.last());
    }
}

/// Runs are repeatable: two states that look alike, taking reports that
/// look alike in the same order, end up looking alike.
pub proof fn lemma_equal_runs_agree<D>(
    a: State<D>,
    b: State<D>,
    to_a: Seq<Event<D>>,
    to_b: Seq<Event<D>>,
)
    requires
        a@ == b@,
        to_a.len() == to_b.len(),
        forall|i: int| 0 <= i < to_a.len() ==> (#[trigger] to_a[i])@ == to_b[i]@,
    ensures
        after_events(a@, to_a.map_values(|e: Event<D>| e@)) == after_events(
            b@,
            to_b.map_values(|e: Event<D>| e@),
        ),
{
    assert(to_a.map_values(|e: Event<D>| e@) =~= to_b.map_values(|e: Event<D>| e@));
}

/// The state after one whole substep: positions reported, measurements
/// reported, correction reported.
pub open spec fn after_substep<D>(
    v: StateView<D>,
    raw: Seq<CellCoord>,
    measured: Seq<Seq<Option<D>>>,
) -> StateView<D> {
    v.advanced(EventView::Integrated(raw)).advanced(EventView::Measured(measured)).advanced(
        EventView::Projected,
    )
}

/// The state after a frame was begun and `k` substeps were completed, the
/// `i`-th with the reports `raws[i]` and `reports[i]`.
pub open spec fn after_substeps<D>(
    v: StateView<D>,
    raws: Seq<Seq<CellCoord>>,
    reports: Seq<Seq<Seq<Option<D>>>>,
    k: nat,
) -> StateView<D>
    decreases k,
{
    if k == 0 {
        v.advanced(EventView::Begin)
    } else {
        after_substep(
            after_substeps(v, raws, reports, (k - 1) as nat),
            raws[k - 1],
            reports[k - 1],
        )
    }
}

/// A frame takes exactly the configured number of substeps. Begun from
/// idle and fed complete reports, the solver asks for integration at the
/// start of each substep, is idle again after the last one, and holds the
/// same number of particles throughout.
pub proof fn lemma_frame_cycle<D>(
    v: StateView<D>,
    raws: Seq<Seq<CellCoord>>,
    reports: Seq<Seq<Seq<Option<D>>>>,
    k: nat,
)
    requires
        v.wf(),
        v.phase is Idle,
        k <= SOLVER_STEPS,
        forall|i: int| 0 <= i < k ==> (#[trigger] raws[i]).len() == v.count(),
    ensures
        after_substeps(v, raws, reports, k).wf(),
        after_substeps(v, raws, reports, k).count() == v.count(),
        k < SOLVER_STEPS ==> after_substeps(v, raws, reports, k).phase is Integrate
            && after_substeps(v, raws, reports, k).substep == k,
        k == SOLVER_STEPS ==> after_substeps(v, raws, reports, k).phase is Idle,
    decreases k,
{
    if k == 0 {
        lemma_advanced_keeps_count(v, EventView::<D>::Begin);
    } else {
        lemma_frame_cycle(v, raws, reports, (k - 1) as nat);
        let a = after_substeps(v, raws, reports, (k - 1) as nat);
        let b = a.advanced(EventView::Integrated(raws[k - 1]));
        let c = b.advanced(EventView::Measured(reports[k - 1]));
        lemma_advanced_keeps_count(a, EventView::Integrated(raws[k - 1]));
        lemma_advanced_keeps_count(b, EventView::Measured(reports[k - 1]));
        lemma_advanced_keeps_count(c, EventView::<D>::Projected);
    }
}

/// The grid search finds what a search over all particles finds. Let
/// `close` tell, for every particle, its separation from particle `i` if
/// that lies within range, and let particles within range sit in touching
/// cells. If the report for `i` gives `close` of each candidate and the
/// cap on a list's length is not reached, then the list recorded for `i`
/// holds exactly the particles within range, each with its separation.
pub proof fn lemma_neighbors_match_search<D>(
    v: StateView<D>,
    measured: Seq<Seq<Option<D>>>,
    i: int,
    close: spec_fn(int) -> Option<D>,
    j: usize,
    d: D,
)
    requires
        v.wf(),
        v.indexed(),
        0 <= i < v.count(),
        row(measured, i).len() == stencil(v.buckets, v.cells[i], v.width).len(),
        forall|k: int|
            0 <= k < row(measured, i).len() ==> #[trigger] row(measured, i)[k] == close(
                stencil(v.buckets, v.cells[i], v.width)[k] as int,
            ),
        forall|p: int|
            0 <= p < v.count() && close(p) is Some ==> adjacent(v.cells[i], #[trigger] v.cells[p]),
        accepted(stencil(v.buckets, v.cells[i], v.width), row(measured, i)).len()
            <= NUM_NEIGHBORS,
    ensures
        v.recorded(measured).neighbors[i].contains(Neighbor { index: j, r: d }) <==> (j
            < v.count() && close(j as int) == Some(d)),
{
    let cands = stencil(v.buckets, v.cells[i], v.width);
    let found = accepted(cands, row(measured, i));
    lemma_stencil_is_short(v.buckets, v.cells, v.width, v.height, v.cells[i]);
    assert(v.recorded(measured).neighbors[i] == found);
    if found.contains(Neighbor { index: j, r: d }) {
        let at = choose|at: int| 0 <= at < found.len() && found[at] == (Neighbor { index: j, r: d });
        lemma_accepted_from_candidates(cands, row(measured, i), at);
        let k = choose|k: int|
            0 <= k < cands.len() && measurement(row(measured, i), k) == Some(found[at].r)
                && #[trigger] cands[k] == found[at].index;
        assert(cands.contains(j));
        lemma_stencil_contains(v.buckets, v.cells, v.width, v.height, v.cells[i], j);
        assert(row(measured, i)[k] == close(cands[k] as int));
    }
    if j < v.count() && close(j as int) == Some(d) {
        lemma_stencil_contains(v.buckets, v.cells, v.width, v.height, v.cells[i], j);
        assert(cands.contains(j));
        let k = choose|k: int| 0 <= k < cands.len() && cands[k] == j;
        assert(row(measured, i)[k] == close(cands[k] as int));
        lemma_measured_is_accepted(cands, row(measured, i), k);
    }
}

/// One substep finds every particle within range. Let the solver wait for
/// integration, let `raw` place every particle on the unbounded lattice of
/// cells, and let `close` tell each particle's separation from particle `i`
/// if it lies within range. If particles within range sit in touching
/// lattice cells, the report for `i` gives `close` of each candidate the
/// grid offers, and the cap on a list's length is not reached, then the
/// list recorded for `i` holds exactly the particles within range, each
/// with its separation.
pub proof fn lemma_substep_finds_all_in_range<D>(
    v: StateView<D>,
    raw: Seq<CellCoord>,
    measured: Seq<Seq<Option<D>>>,
    i: int,
    close: spec_fn(int) -> Option<D>,
    j: usize,
    d: D,
)
    requires
        v.wf(),
        v.phase is Integrate,
        raw.len() == v.count(),
        0 <= i < v.count(),
        forall|p: int| 0 <= p < v.count() && close(p) is Some ==> adjacent(raw[i], #[trigger] raw[p]),
        ({
            let built = v.advanced(EventView::Integrated(raw));
            let cands = stencil(built.buckets, built.cells[i], built.width);
            &&& row(measured, i).len() == cands.len()
            &&& forall|k: int|
                0 <= k < cands.len() ==> #[trigger] row(measured, i)[k] == close(cands[k] as int)
            &&& accepted(cands, row(measured, i)).len() <= NUM_NEIGHBORS
        }),
    ensures
        v.advanced(EventView::Integrated(raw)).advanced(
            EventView::Measured(measured),
        ).neighbors[i].contains(Neighbor { index: j, r: d }) <==> (j < v.count() && close(j as int)
            == Some(d)),
{
    let built = v.advanced(EventView::Integrated(raw));
    lemma_advanced_keeps_count(v, EventView::Integrated(raw));
    assert forall|p: int| 0 <= p < built.count() && close(p) is Some implies adjacent(
        built.cells[i],
        #[trigger] built.cells[p],
    ) by {
        lemma_clamp_keeps_adjacent(raw[i], raw[p], v.width, v.height);
    }
    lemma_neighbors_match_search(built, measured, i, close, j, d);
}

/// No recorded neighbor list names a particle twice.
pub proof fn lemma_recorded_distinct<D>(
    v: StateView<D>,
    measured: Seq<Seq<Option<D>>>,
    i: int,
    a: int,
    b: int,
)
    requires
        v.wf(),
        v.indexed(),
        0 <= i < v.count(),
        0 <= a < v.recorded(measured).neighbors[i].len(),
        0 <= b < v.recorded(measured).neighbors[i].len(),
        a != b,
    ensures
        v.recorded(measured).neighbors[i][a].index != v.recorded(measured).neighbors[i][b].index,
{
    let cands = stencil(v.buckets, v.cells[i], v.width);
    lemma_stencil_is_short(v.buckets, v.cells, v.width, v.height, v.cells[i]);
    lemma_stencil_no_duplicates(v.buckets, v.cells, v.width, v.height, v.cells[i]);
    lemma_accepted_distinct(cands, row(measured, i), a, b);
}

/// Every particle is among its own candidates, and a particle alone in
/// the store has no other: when its own measurement is out of range, as
/// that of a particle against itself is, it is left without neighbors.
pub proof fn lemma_lone_particle<D>(v: StateView<D>, measured: Seq<Seq<Option<D>>>, i: int)
    requires
        v.wf(),
        v.indexed(),
        0 <= i < v.count(),
    ensures
        stencil(v.buckets, v.cells[i], v.width).contains(i as usize),
        v.count() == 1 ==> stencil(v.buckets, v.cells[i], v.width) == seq![0usize],
        v.count() == 1 && measurement(row(measured, 0), 0) is None ==> v.recorded(
            measured,
        ).neighbors[0].len() == 0,
{
    let cands = stencil(v.buckets, v.cells[i], v.width);
    lemma_stencil_contains(v.buckets, v.cells, v.width, v.height, v.cells[i], i as usize);
    if v.count() == 1 {
        lemma_stencil_is_short(v.buckets, v.cells, v.width, v.height, v.cells[i]);
        let at = choose|at: int| 0 <= at < cands.len() && cands[at] == i as usize;
        assert(cands =~= seq![0usize]);
        if measurement(row(measured, 0), 0) is None {
            lemma_nothing_measured(cands, row(measured, 0));
        }
    }
}

} // verus!
