//! Uniform spatial grid: buckets particle indices by cell so that a
//! neighbor query only has to look at a 3x3 block of cells.

use vstd::prelude::*;
use vstd::seq_lib::lemma_no_dup_in_concat;

verus! {

/// A cell position on the grid, one coordinate per axis.
#[derive(Clone, Copy, Debug, PartialEq, Eq, Structural)]
pub struct CellCoord {
    pub x: usize,
    pub y: usize,
}

/// Why a grid could not be set up.
#[derive(Clone, Copy, Debug, PartialEq, Eq, Structural)]
pub enum ConfigError {
    /// The domain spans fewer than three cells on some axis.
    DomainTooSmall,
}

/// Nearest value to `raw` inside `[1, dim - 2]`.
pub open spec fn clamp_axis(raw: int, dim: int) -> int {
    if raw < 1 {
        1
    } else if raw > dim - 2 {
        dim - 2
    } else {
        raw
    }
}

/// The cell a raw coordinate is merged into on a `width` x `height` grid.
pub open spec fn clamp_cell(raw: CellCoord, width: int, height: int) -> CellCoord {
    CellCoord {
        x: clamp_axis(raw.x as int, width) as usize,
        y: clamp_axis(raw.y as int, height) as usize,
    }
}

/// A coordinate is interior when it stays off the grid's outer ring.
pub open spec fn interior(c: CellCoord, width: int, height: int) -> bool {
    1 <= c.x <= width - 2 && 1 <= c.y <= height - 2
}

/// Row-major position of a cell in the grid's buffer.
pub open spec fn cell_index(c: CellCoord, width: int) -> int {
    c.x + c.y * width
}

/// The first `n` particle indices, in order.
pub open spec fn indices(n: nat) -> Seq<usize> {
    Seq::new(n, |i: int| i as usize)
}

/// The particles that sit in the cell at buffer position `cell`, in
/// ascending order of their index.
pub open spec fn occupants(coords: Seq<CellCoord>, width: int, cell: int) -> Seq<usize> {
    indices(coords.len()).filter(|i: usize| cell_index(coords[i as int], width) == cell)
}

/// Every raw coordinate merged into its cell.
pub open spec fn clamp_all(raw: Seq<CellCoord>, width: int, height: int) -> Seq<CellCoord> {
    Seq::new(raw.len(), |i: int| clamp_cell(raw[i], width, height))
}

/// Buffer position of the `k`-th cell of the 3x3 block centred on `c`.
/// The block is walked column by column, each column from low to high rows.
pub open spec fn stencil_cell(c: CellCoord, width: int, k: int) -> int {
    (c.x - 1 + k / 3) + (c.y - 1 + k % 3) * width
}

/// The contents of the first `k` cells of the block around `c`, joined in
/// walking order.
pub open spec fn gather(cells: Seq<Seq<usize>>, c: CellCoord, width: int, k: nat) -> Seq<usize>
    decreases k,
{
    if k == 0 {
        Seq::empty()
    } else {
        gather(cells, c, width, (k - 1) as nat) + cells[stencil_cell(c, width, k - 1)]
    }
}

/// Everything found in the 3x3 block of cells around `c`.
pub open spec fn stencil(cells: Seq<Seq<usize>>, c: CellCoord, width: int) -> Seq<usize> {
    gather(cells, c, width, 9)
}

/// Two cells touch when they differ by at most one step on each axis.
pub open spec fn adjacent(a: CellCoord, b: CellCoord) -> bool {
    &&& a.x - 1 <= b.x <= a.x + 1
    &&& a.y - 1 <= b.y <= a.y + 1
}

/// `buckets` files exactly the particles whose cells are `coords`: every
/// cell is interior, and every bucket lists the particles of its cell.
pub open spec fn files(
    buckets: Seq<Seq<usize>>,
    coords: Seq<CellCoord>,
    width: int,
    height: int,
) -> bool {
    &&& buckets.len() == width * height
    &&& forall|i: int| 0 <= i < coords.len() ==> interior(#[trigger] coords[i], width, height)
    &&& forall|c: int|
        0 <= c < buckets.len() ==> #[trigger] buckets[c] == occupants(coords, width, c)
}

/// The grid: one bucket of particle indices per cell, row after row.
pub struct Grid {
    width: usize,
    height: usize,
    cells: Vec<Vec<usize>>,
}

impl Grid {
    /// Cells across.
    pub closed spec fn width(&self) -> int {
        self.width as int
    }

    /// Cells up.
    pub closed spec fn height(&self) -> int {
        self.height as int
    }

    /// Contents of every cell, in buffer order.
    pub closed spec fn cells(&self) -> Seq<Seq<usize>> {
        Seq::new(self.cells@.len(), |c: int| self.cells@[c]@)
    }

    /// At least three cells per axis, and one bucket per cell.
    pub closed spec fn wf(&self) -> bool {
        &&& self.width >= 3
        &&& self.height >= 3
        &&& self.width * self.height <= usize::MAX
        &&& self.cells@.len() == self.width * self.height
    }

    /// An empty grid of `width` x `height` cells. A grid of fewer than
    /// three cells on an axis has no interior and is refused.
    pub fn new(width: usize, height: usize) -> (r: Result<Grid, ConfigError>)
        requires
            width * height <= usize::MAX,
        ensures
            (width < 3 || height < 3) <==> r is Err,
            r matches Err(e) ==> e == ConfigError::DomainTooSmall,
            r matches Ok(g) ==> {
                &&& g.wf()
                &&& g.width() == width
                &&& g.height() == height
                &&& g.cells().len() == width * height
                &&& forall|c: int| 0 <= c < width * height ==> (#[trigger] g.cells()[c]).len() == 0
            },
    {
        if width < 3 || height < 3 {
            return Err(ConfigError::DomainTooSmall);
        }
        let total: usize = width * height;
        let mut cells: Vec<Vec<usize>> = Vec::new();
        let mut c: usize = 0;
        while c < total
            invariant
                c <= total,
                cells@.len() == c,
                forall|k: int| 0 <= k < c ==> (#[trigger] cells@[k])@.len() == 0,
            decreases total - c,
        {
            cells.push(Vec::new());
            c += 1;
        }
        Ok(Grid { width, height, cells })
    }

    /// Cells across and cells up.
    pub fn size(&self) -> (dims: (usize, usize))
        ensures
            dims.0 == self.width(),
            dims.1 == self.height(),
    {
        (self.width, self.height)
    }

    /// The grid buckets exactly the particles whose cells are `coords`.
    pub open spec fn holds(&self, coords: Seq<CellCoord>) -> bool {
        files(self.cells(), coords, self.width(), self.height())
    }

    /// Merges a raw coordinate into the nearest interior cell.
    fn clamp(&self, raw: CellCoord) -> (c: CellCoord)
        requires
            self.wf(),
        ensures
            c == clamp_cell(raw, self.width(), self.height()),
            interior(c, self.width(), self.height()),
            0 <= cell_index(c, self.width()) < self.width() * self.height(),
    {
        let x: usize = if raw.x < 1 {
            1
        } else if raw.x > self.width - 2 {
            self.width - 2
        } else {
            raw.x
        };
        let y: usize = if raw.y < 1 {
            1
        } else if raw.y > self.height - 2 {
            self.height - 2
        } else {
            raw.y
        };
        proof {
            lemma_cell_index_bounds(CellCoord { x, y }, self.width as int, self.height as int);
        }
        CellCoord { x, y }
    }

    /// The particles in the 3x3 block of cells centred on `c`, one cell
    /// after the other; nothing is filtered or reordered within a cell.
    pub fn neighbors_of(&self, c: CellCoord) -> (found: Vec<usize>)
        requires
            self.wf(),
            interior(c, self.width(), self.height()),
        ensures
            found@ == stencil(self.cells(), c, self.width()),
    {
        let mut found: Vec<usize> = Vec::new();
        let mut k: usize = 0;
        while k < 9
            invariant
                k <= 9,
                self.wf(),
                interior(c, self.width(), self.height()),
                found@ == gather(self.cells(), c, self.width(), k as nat),
            decreases 9 - k,
        {
            let gx: usize = c.x - 1 + k / 3;
            let gy: usize = c.y - 1 + k % 3;
            proof {
                lemma_position_bounds(gx as int, gy as int, self.width as int, self.height as int);
            }
            assert(0 <= gy * self.width <= gx + gy * self.width) by (nonlinear_arith);
            let cell = &self.cells[gx + gy * self.width];
            let ghost before = found@;
            let mut m: usize = 0;
            while m < cell.len()
                invariant
                    m <= cell@.len(),
                    found@ == before + cell@.take(m as int),
                decreases cell@.len() - m,
            {
                found.push(cell[m]);
                assert(cell@.take(m as int + 1) =~= cell@.take(m as int).push(cell@[m as int]));
                m += 1;
            }
            assert(cell@.take(m as int) =~= cell@);
            k += 1;
        }
        found
    }

    /// Empties every cell, then files each particle under the cell its raw
    /// coordinate is merged into. Returns those cells, one per particle.
    pub fn rebuild(&mut self, raw: &Vec<CellCoord>) -> (coords: Vec<CellCoord>)
        requires
            old(self).wf(),
        ensures
            final(self).wf(),
            final(self).width() == old(self).width(),
            final(self).height() == old(self).height(),
            coords@ == clamp_all(raw@, old(self).width(), old(self).height()),
            final(self).holds(coords@),
    {
        let total: usize = self.cells.len();
        let mut c: usize = 0;
        while c < total
            invariant
                c <= total,
                self.width == old(self).width,
                self.height == old(self).height,
                self.cells@.len() == total,
                forall|k: int| 0 <= k < c ==> (#[trigger] self.cells@[k])@.len() == 0,
            decreases total - c,
        {
            self.cells[c].clear();
            c += 1;
        }
        let ghost target = clamp_all(raw@, self.width as int, self.height as int);
        let mut coords: Vec<CellCoord> = Vec::new();
        let n: usize = raw.len();
        let mut i: usize = 0;
        while i < n
            invariant
                i <= n,
                n == raw@.len(),
                self.wf(),
                self.width == old(self).width,
                self.height == old(self).height,
                target == clamp_all(raw@, self.width as int, self.height as int),
                coords@ == target.take(i as int),
                forall|k: int|
                    0 <= k < self.cells@.len() ==> (#[trigger] self.cells@[k])@ == occupants(
                        target.take(i as int),
                        self.width as int,
                        k,
                    ),
            decreases n - i,
        {
            let cell = self.clamp(raw[i]);
            assert(0 <= cell.y * self.width <= cell_index(cell, self.width as int)) by (nonlinear_arith)
                requires
                    cell_index(cell, self.width as int) == cell.x + cell.y * self.width,
            ;
            let at: usize = cell.x + cell.y * self.width;
            proof {
                assert(target.take(i as int + 1) =~= target.take(i as int).push(cell));
                assert forall|k: int| 0 <= k < self.cells@.len() implies occupants(
                    target.take(i as int + 1),
                    self.width as int,
                    k,
                ) == (if k == at {
                    occupants(target.take(i as int), self.width as int, k).push(i)
                } else {
                    occupants(target.take(i as int), self.width as int, k)
                }) by {
                    lemma_occupants_push(target.take(i as int), cell, self.width as int, k);
                }
            }
            self.cells[at].push(i);
            coords.push(cell);
            i += 1;
        }
        proof {
            assert(target.take(n as int) =~= target);
        }
        coords
    }
}

/// An interior cell has a position inside the buffer.
pub proof fn lemma_cell_index_bounds(c: CellCoord, width: int, height: int)
    requires
        interior(c, width, height),
    ensures
        0 <= cell_index(c, width) < width * height,
{
    lemma_position_bounds(c.x as int, c.y as int, width, height);
}

/// Any column and row on the grid give a position inside the buffer.
proof fn lemma_position_bounds(x: int, y: int, width: int, height: int)
    requires
        0 <= x < width,
        0 <= y < height,
    ensures
        0 <= x + y * width < width * height,
{
    assert(y * width <= (height - 1) * width) by (nonlinear_arith)
        requires
            0 <= y <= height - 1,
            width >= 0,
    ;
    assert((height - 1) * width == height * width - width) by (nonlinear_arith);
    assert(0 <= y * width) by (nonlinear_arith)
        requires
            0 <= y,
            width >= 0,
    ;
    assert(width * height == height * width) by (nonlinear_arith);
}

/// A column and a row are determined by the buffer position they give.
proof fn lemma_position_injective(x1: int, y1: int, x2: int, y2: int, width: int)
    requires
        0 <= x1 < width,
        0 <= x2 < width,
        x1 + y1 * width == x2 + y2 * width,
    ensures
        x1 == x2,
        y1 == y2,
{
    let dy = y1 - y2;
    let dx = x2 - x1;
    assert(dy * width == dx) by (nonlinear_arith)
        requires
            x1 + y1 * width == x2 + y2 * width,
            dy == y1 - y2,
            dx == x2 - x1,
    ;
    assert(dy == 0) by (nonlinear_arith)
        requires
            dy * width == dx,
            -width < dx < width,
    ;
}

/// Filing one more particle appends it to its own cell and leaves the
/// other cells alone.
pub proof fn lemma_occupants_push(coords: Seq<CellCoord>, cell: CellCoord, width: int, k: int)
    requires
        coords.len() <= usize::MAX,
    ensures
        occupants(coords.push(cell), width, k) == (if cell_index(cell, width) == k {
            occupants(coords, width, k).push(coords.len() as usize)
        } else {
            occupants(coords, width, k)
        }),
{
    let longer = coords.push(cell);
    let n = coords.len();
    let p_new = |i: usize| cell_index(longer[i as int], width) == k;
    let p_old = |i: usize| cell_index(coords[i as int], width) == k;
    assert(indices(longer.len()).drop_last() =~= indices(n));
    assert(indices(longer.len()).last() == n as usize);
    reveal(Seq::filter);
    lemma_filter_agree(indices(n), p_new, p_old);
}

/// Two predicates that agree on every element filter a sequence alike.
proof fn lemma_filter_agree<A>(s: Seq<A>, p: spec_fn(A) -> bool, q: spec_fn(A) -> bool)
    requires
        forall|i: int| 0 <= i < s.len() ==> p(s[i]) == q(s[i]),
    ensures
        s.filter(p) == s.filter(q),
    decreases s.len(),
{
    reveal(Seq::filter);
    if s.len() > 0 {
        lemma_filter_agree(s.drop_last(), p, q);
    }
}

/// A particle is filed in a cell exactly when its coordinate maps there.
pub proof fn lemma_occupants_contains(coords: Seq<CellCoord>, width: int, cell: int, j: usize)
    requires
        coords.len() <= usize::MAX,
    ensures
        occupants(coords, width, cell).contains(j) <==> (j < coords.len() && cell_index(
            coords[j as int],
            width,
        ) == cell),
{
    let all = indices(coords.len());
    let here = |i: usize| cell_index(coords[i as int], width) == cell;
    if all.filter(here).contains(j) {
        let at = choose|at: int| 0 <= at < all.filter(here).len() && all.filter(here)[at] == j;
        all.lemma_filter_pred(here, at);
        all.lemma_filter_contains_rev(here, j);
        let from = choose|from: int| 0 <= from < all.len() && all[from] == j;
        assert(from == j);
    }
    if j < coords.len() && here(j) {
        assert(all[j as int] == j);
        all.lemma_filter_contains(here, j as int);
    }
}

/// What the first `k` cells of a block hold is what some one of them holds.
proof fn lemma_gather_contains(cells: Seq<Seq<usize>>, c: CellCoord, width: int, k: nat, j: usize)
    ensures
        gather(cells, c, width, k).contains(j) <==> exists|m: int|
            0 <= m < k && (#[trigger] cells[stencil_cell(c, width, m)]).contains(j),
    decreases k,
{
    if k > 0 {
        let head = gather(cells, c, width, (k - 1) as nat);
        let tail = cells[stencil_cell(c, width, k - 1)];
        lemma_gather_contains(cells, c, width, (k - 1) as nat, j);
        if (head + tail).contains(j) {
            let at = choose|at: int| 0 <= at < (head + tail).len() && (head + tail)[at] == j;
            if at < head.len() {
                assert(head[at] == j);
                assert(head.contains(j));
            } else {
                assert(tail[at - head.len()] == j);
                assert(tail.contains(j));
            }
        }
        if head.contains(j) {
            let at = choose|at: int| 0 <= at < head.len() && head[at] == j;
            assert((head + tail)[at] == j);
        }
        if tail.contains(j) {
            let at = choose|at: int| 0 <= at < tail.len() && tail[at] == j;
            assert((head + tail)[head.len() + at] == j);
        }
    }
}

/// Searching the 3x3 block around a cell finds exactly the particles whose
/// own cell touches it: the grid query agrees with a search over all
/// particles.
pub proof fn lemma_stencil_contains(
    buckets: Seq<Seq<usize>>,
    coords: Seq<CellCoord>,
    width: int,
    height: int,
    c: CellCoord,
    j: usize,
)
    requires
        files(buckets, coords, width, height),
        coords.len() <= usize::MAX,
        interior(c, width, height),
    ensures
        stencil(buckets, c, width).contains(j) <==> (j < coords.len() && adjacent(
            c,
            coords[j as int],
        )),
{
    lemma_gather_contains(buckets, c, width, 9, j);
    assert forall|m: int| 0 <= m < 9 implies ((#[trigger] buckets[stencil_cell(c, width, m)]).contains(
        j,
    ) <==> (j < coords.len() && coords[j as int].x == c.x - 1 + m / 3 && coords[j as int].y == c.y
        - 1 + m % 3)) by {
        lemma_position_bounds(c.x - 1 + m / 3, c.y - 1 + m % 3, width, height);
        lemma_occupants_contains(coords, width, stencil_cell(c, width, m), j);
        if j < coords.len() && cell_index(coords[j as int], width) == stencil_cell(c, width, m) {
            lemma_position_injective(
                coords[j as int].x as int,
                coords[j as int].y as int,
                c.x - 1 + m / 3,
                c.y - 1 + m % 3,
                width,
            );
        }
    }
    if j < coords.len() && adjacent(c, coords[j as int]) {
        let b = coords[j as int];
        let m = (b.x - c.x + 1) * 3 + (b.y - c.y + 1);
        assert(0 <= m < 9);
        assert(m / 3 == b.x - c.x + 1);
        assert(m % 3 == b.y - c.y + 1);
        assert(buckets[stencil_cell(c, width, m)].contains(j));
    }
}

/// Keeping part of a sequence without repeats leaves no repeats.
pub proof fn lemma_filter_no_duplicates<A>(s: Seq<A>, p: spec_fn(A) -> bool)
    requires
        s.no_duplicates(),
    ensures
        s.filter(p).no_duplicates(),
    decreases s.len(),
{
    reveal(Seq::filter);
    if s.len() > 0 {
        let front = s.drop_last();
        lemma_filter_no_duplicates(front, p);
        if p(s.last()) {
            let kept = front.filter(p);
            if kept.contains(s.last()) {
                front.lemma_filter_contains_rev(p, s.last());
                let at = choose|at: int| 0 <= at < front.len() && front[at] == s.last();
                assert(s[at] == s[s.len() - 1]);
            }
            assert forall|i: int, j: int|
                0 <= i < kept.push(s.last()).len() && 0 <= j < kept.push(s.last()).len() && i
                    != j implies kept.push(s.last())[i] != kept.push(s.last())[j] by {
                if i < kept.len() {
                    assert(kept.contains(kept[i]));
                }
                if j < kept.len() {
                    assert(kept.contains(kept[j]));
                }
            }
        }
    }
}

/// No particle is filed twice in a cell.
pub proof fn lemma_occupants_no_duplicates(coords: Seq<CellCoord>, width: int, cell: int)
    requires
        coords.len() <= usize::MAX,
    ensures
        occupants(coords, width, cell).no_duplicates(),
{
    lemma_filter_no_duplicates(
        indices(coords.len()),
        |i: usize| cell_index(coords[i as int], width) == cell,
    );
}

proof fn lemma_gather_no_duplicates(
    buckets: Seq<Seq<usize>>,
    coords: Seq<CellCoord>,
    width: int,
    height: int,
    c: CellCoord,
    k: nat,
)
    requires
        files(buckets, coords, width, height),
        coords.len() <= usize::MAX,
        interior(c, width, height),
        k <= 9,
    ensures
        gather(buckets, c, width, k).no_duplicates(),
    decreases k,
{
    if k > 0 {
        let head = gather(buckets, c, width, (k - 1) as nat);
        let tail = buckets[stencil_cell(c, width, k - 1)];
        lemma_gather_no_duplicates(buckets, coords, width, height, c, (k - 1) as nat);
        lemma_position_bounds(c.x - 1 + (k - 1) / 3, c.y - 1 + (k - 1) % 3, width, height);
        lemma_occupants_no_duplicates(coords, width, stencil_cell(c, width, k - 1));
        assert forall|i: int, j: int| 0 <= i < head.len() && 0 <= j < tail.len() implies head[i]
            != tail[j] by {
            if head[i] == tail[j] {
                let p = head[i];
                assert(head.contains(p));
                assert(tail.contains(p));
                lemma_gather_contains(buckets, c, width, (k - 1) as nat, p);
                let m = choose|m: int|
                    0 <= m < k - 1 && (#[trigger] buckets[stencil_cell(c, width, m)]).contains(p);
                lemma_position_bounds(c.x - 1 + m / 3, c.y - 1 + m % 3, width, height);
                lemma_occupants_contains(coords, width, stencil_cell(c, width, m), p);
                lemma_occupants_contains(coords, width, stencil_cell(c, width, k - 1), p);
                lemma_position_injective(
                    c.x - 1 + m / 3,
                    c.y - 1 + m % 3,
                    c.x - 1 + (k - 1) / 3,
                    c.y - 1 + (k - 1) % 3,
                    width,
                );
            }
        }
        lemma_no_dup_in_concat(head, tail);
    }
}

/// The 3x3 block around a cell offers each particle at most once.
pub proof fn lemma_stencil_no_duplicates(
    buckets: Seq<Seq<usize>>,
    coords: Seq<CellCoord>,
    width: int,
    height: int,
    c: CellCoord,
)
    requires
        files(buckets, coords, width, height),
        coords.len() <= usize::MAX,
        interior(c, width, height),
    ensures
        stencil(buckets, c, width).no_duplicates(),
{
    lemma_gather_no_duplicates(buckets, coords, width, height, c, 9);
}

/// The 3x3 block around a cell never offers more candidates than there are
/// particles.
pub proof fn lemma_stencil_is_short(
    buckets: Seq<Seq<usize>>,
    coords: Seq<CellCoord>,
    width: int,
    height: int,
    c: CellCoord,
)
    requires
        files(buckets, coords, width, height),
        coords.len() <= usize::MAX,
        interior(c, width, height),
    ensures
        stencil(buckets, c, width).len() <= coords.len(),
{
    let found = stencil(buckets, c, width);
    lemma_stencil_no_duplicates(buckets, coords, width, height, c);
    assert forall|j: usize| found.contains(j) implies indices(coords.len()).contains(j) by {
        lemma_stencil_contains(buckets, coords, width, height, c, j);
        assert(indices(coords.len())[j as int] == j);
    }
    lemma_no_duplicates_is_short(found, indices(coords.len()));
}

/// A sequence without repeats is no longer than one that holds all of its
/// elements.
proof fn lemma_no_duplicates_is_short<A>(s: Seq<A>, all: Seq<A>)
    requires
        s.no_duplicates(),
        forall|a: A| s.contains(a) ==> all.contains(a),
    ensures
        s.len() <= all.len(),
{
    s.unique_seq_to_set();
    all.lemma_cardinality_of_set();
    assert(s.to_set().subset_of(all.to_set())) by {
        assert forall|a: A| s.to_set().contains(a) implies all.to_set().contains(a) by {
            assert(s.contains(a));
        }
    }
    vstd::set_lib::lemma_len_subset(s.to_set(), all.to_set());
}

/// Merging raw coordinates into the grid never pulls touching cells apart.
pub proof fn lemma_clamp_keeps_adjacent(a: CellCoord, b: CellCoord, width: int, height: int)
    requires
        width >= 3,
        height >= 3,
        adjacent(a, b),
    ensures
        adjacent(clamp_cell(a, width, height), clamp_cell(b, width, height)),
{
}

} // verus!
