//! Blue-noise sampling of lattice points in a square region: accepted points
//! keep their distance, and the sampler stops when no accepted point can get
//! another neighbour.
//!
//! The sampler decides; what is random comes from outside. Candidates are
//! handed in one at a time, and whole-number draws are taken from a
//! generator that the caller owns.

use vstd::prelude::*;
use vstd::arithmetic::div_mod::{lemma_div_is_ordered, lemma_div_pos_is_pos};
use crate::poisson_model::{
    cell_fits, cell_of, distance_squared, lemma_same_cell_is_too_close, lemma_with_point_keeps_inv,
    Offer, Point, Request, SamplerModel,
};
use crate::random::uniform_below;

verus! {

/// The most background cells a sampler is made with.
pub const MAX_GRID_CELLS: u64 = 0x100_0000;

/// Why a sampler was not made.
#[derive(Clone, Copy, Debug, PartialEq, Eq, Structural)]
pub enum SamplerConfigError {
    /// The region has no points, or needs more than `MAX_GRID_CELLS`
    /// background cells.
    InvalidRegionSize,
    /// The separation is zero.
    InvalidMinDistance,
    /// No attempt is allowed per point.
    InvalidAttemptBudget,
}

/// The side of the background cells for the separation `min_distance`.
pub open spec fn cell_side(min_distance: int) -> int {
    choose|cell: int| cell_fits(min_distance, cell)
}

/// The number of background cells along one side of the region.
pub open spec fn cells_along(region_size: int, min_distance: int) -> int {
    (region_size - 1) / cell_side(min_distance) + 1
}

/// Only one cell side fits a separation.
pub proof fn lemma_cell_side_is_unique(min_distance: int, a: int, b: int)
    requires
        cell_fits(min_distance, a),
        cell_fits(min_distance, b),
    ensures
        a == b,
        cell_side(min_distance) == a,
{
    let r = min_distance;
    if a < b {
        assert(false) by (nonlinear_arith)
            requires
                1 <= a < b,
                2 * b * b <= r * r,
                r * r < 2 * (a + 1) * (a + 1),
        ;
    }
    if b < a {
        assert(false) by (nonlinear_arith)
            requires
                1 <= b < a,
                2 * a * a <= r * r,
                r * r < 2 * (b + 1) * (b + 1),
        ;
    }
    let chosen = cell_side(min_distance);
    assert(cell_fits(min_distance, chosen));
    if chosen < a {
        assert(false) by (nonlinear_arith)
            requires
                1 <= chosen < a,
                2 * a * a <= r * r,
                r * r < 2 * (chosen + 1) * (chosen + 1),
        ;
    }
    if a < chosen {
        assert(false) by (nonlinear_arith)
            requires
                1 <= a < chosen,
                2 * chosen * chosen <= r * r,
                r * r < 2 * (a + 1) * (a + 1),
        ;
    }
}

/// Computes the side of the background cells: the whole part of
/// `min_distance / √2`, and 1 where that would be 0.
pub fn cell_size_for(min_distance: u32) -> (cell: u32)
    requires
        min_distance >= 1,
    ensures
        cell_fits(min_distance as int, cell as int),
        cell == cell_side(min_distance as int),
        1 <= cell <= min_distance,
{
    if min_distance < 2 {
        proof {
            lemma_cell_side_is_unique(min_distance as int, 1, 1);
        }
        return 1;
    }
    let r: u128 = min_distance as u128;
    assert(r * r <= 0x1_0000_0000_0000_0000) by (nonlinear_arith)
        requires
            0 <= r <= 0x1_0000_0000,
    ;
    let target: u128 = r * r;
    let mut lo: u128 = 1;
    let mut hi: u128 = r;
    assert(2 * lo * lo <= target) by (nonlinear_arith)
        requires
            lo == 1,
            target == r * r,
            r >= 2,
    ;
    assert(target < 2 * hi * hi) by (nonlinear_arith)
        requires
            hi == r,
            target == r * r,
            r >= 2,
    ;
    while hi - lo > 1
        invariant
            1 <= lo < hi <= r,
            r == min_distance,
            target == r * r,
            2 * lo * lo <= target,
            target < 2 * hi * hi,
        decreases hi - lo,
    {
        let mid: u128 = lo + (hi - lo) / 2;
        assert(2 * mid * mid <= 0x2_0000_0000_0000_0000) by (nonlinear_arith)
            requires
                0 <= mid <= 0x1_0000_0000,
        ;
        if 2 * mid * mid <= target {
            lo = mid;
        } else {
            hi = mid;
        }
    }
    proof {
        assert(hi == lo + 1);
        assert(cell_fits(min_distance as int, lo as int));
        lemma_cell_side_is_unique(min_distance as int, lo as int, lo as int);
    }
    lo as u32
}

/// A blue-noise sampler for the square region `0..region_size` in both
/// coordinates.
pub struct PoissonDiskSampler {
    region_size: u32,
    min_distance: u32,
    max_attempts: u32,
    cell_size: u32,
    cells_per_side: usize,
    grid: Vec<Vec<Option<Point>>>,
    points: Vec<Point>,
    active: Vec<Point>,
    selected: Option<usize>,
    attempts: u32,
}

impl PoissonDiskSampler {
    /// What the sampler holds, as mathematics.
    pub closed spec fn model(&self) -> SamplerModel {
        SamplerModel {
            region_size: self.region_size as int,
            min_distance: self.min_distance as int,
            max_attempts: self.max_attempts as int,
            cell_size: self.cell_size as int,
            points: self.points@,
            active: self.active@,
            selected: match self.selected {
                Some(s) => Some(s as int),
                None => None,
            },
            attempts: self.attempts as int,
        }
    }

    spec fn entry(&self, a: int, b: int) -> Option<Point> {
        self.grid@[a]@[b]
    }

    spec fn home(&self, p: Point) -> Option<Point> {
        self.entry(cell_of(p.x as int, self.cell_size as int), cell_of(p.y as int, self.cell_size as int))
    }

    spec fn grid_ok(&self) -> bool {
        &&& self.cells_per_side as int == (self.region_size - 1) / (self.cell_size as int) + 1
        &&& self.grid@.len() == self.cells_per_side
        &&& forall|a: int|
            0 <= a < self.cells_per_side ==> (#[trigger] self.grid@[a])@.len()
                == self.cells_per_side
        &&& forall|i: int|
            0 <= i < self.points@.len() ==> self.home(#[trigger] self.points@[i]) == Some(
                self.points@[i],
            )
        &&& forall|a: int, b: int|
            0 <= a < self.cells_per_side && 0 <= b < self.cells_per_side ==> (
            #[trigger] self.entry(a, b) matches Some(q) ==> self.points@.contains(q) && cell_of(
                q.x as int,
                self.cell_size as int,
            ) == a && cell_of(q.y as int, self.cell_size as int) == b)
    }

    /// The background grid agrees with the accepted points, and the state
    /// has the properties common to all reachable states.
    pub closed spec fn wf(&self) -> bool {
        &&& self.model().inv()
        &&& self.grid_ok()
    }

    /// The grid stays in agreement with the points when neither changes.
    proof fn lemma_grid_ok_carries_over(&self, after: &PoissonDiskSampler)
        requires
            self.grid_ok(),
            after.grid == self.grid,
            after.points == self.points,
            after.cell_size == self.cell_size,
            after.region_size == self.region_size,
            after.cells_per_side == self.cells_per_side,
        ensures
            after.grid_ok(),
    {
        assert forall|i: int| 0 <= i < after.points@.len() implies after.home(
            #[trigger] after.points@[i],
        ) == Some(after.points@[i]) by {
            assert(self.home(self.points@[i]) == Some(self.points@[i]));
        }
        assert forall|a: int, b: int|
            0 <= a < after.cells_per_side && 0 <= b < after.cells_per_side implies (
        #[trigger] after.entry(a, b) matches Some(q) ==> after.points@.contains(q) && cell_of(
            q.x as int,
            after.cell_size as int,
        ) == a && cell_of(q.y as int, after.cell_size as int) == b) by {
            assert(after.entry(a, b) == self.entry(a, b));
        }
    }

    /// The background grid, cell by cell: `grid_view()[a][b]` is the point
    /// held by the cell in column `a` and row `b`, if it holds one.
    pub closed spec fn grid_view(&self) -> Seq<Seq<Option<Point>>> {
        Seq::new(self.grid@.len(), |a: int| self.grid@[a]@)
    }

    /// A well-formed sampler holds nothing that its model does not fix: two
    /// that have the same model have the same background grid, cell for
    /// cell. Every step gives the model afterwards as a function of the model
    /// before and the value handed in, so with the same parameters and the
    /// same draws two samplers go through the same states and end with the
    /// same points.
    pub proof fn lemma_model_fixes_grid(&self, other: &PoissonDiskSampler)
        requires
            self.wf(),
            other.wf(),
            self.model() == other.model(),
        ensures
            self.grid_view() == other.grid_view(),
    {
        let n = self.cells_per_side as int;
        assert(other.cells_per_side as int == n);
        assert forall|a: int| 0 <= a < n implies self.grid@[a]@ == other.grid@[a]@ by {
            assert forall|b: int| 0 <= b < n implies self.grid@[a]@[b] == other.grid@[a]@[b] by {
                let mine = self.entry(a, b);
                let theirs = other.entry(a, b);
                if mine is Some {
                    let q = mine.unwrap();
                    assert(self.points@.contains(q));
                    let w = choose|w: int| 0 <= w < self.points@.len() && self.points@[w] == q;
                    assert(other.home(other.points@[w]) == Some(q));
                }
                if theirs is Some {
                    let q = theirs.unwrap();
                    assert(other.points@.contains(q));
                    let w = choose|w: int| 0 <= w < other.points@.len() && other.points@[w] == q;
                    assert(self.home(self.points@[w]) == Some(q));
                }
            }
            assert(self.grid@[a]@ =~= other.grid@[a]@);
        }
        assert(self.grid_view() =~= other.grid_view());
    }

    /// A well-formed sampler is in a state with the common properties.
    pub proof fn lemma_wf_gives_inv(&self)
        requires
            self.wf(),
        ensures
            self.model().inv(),
    {
    }

    /// A sampler for the region of side `region_size`, the separation
    /// `min_distance` and `max_attempts` candidates per selected point, with
    /// no point yet. The parameters are checked here and nowhere later.
    pub fn new(region_size: u32, min_distance: u32, max_attempts: u32) -> (result: Result<
        PoissonDiskSampler,
        SamplerConfigError,
    >)
        ensures
            result == Err::<PoissonDiskSampler, SamplerConfigError>(
                SamplerConfigError::InvalidRegionSize,
            ) <==> region_size == 0 || (min_distance > 0 && max_attempts > 0 && cells_along(
                region_size as int,
                min_distance as int,
            ) * cells_along(region_size as int, min_distance as int) > MAX_GRID_CELLS),
            result == Err::<PoissonDiskSampler, SamplerConfigError>(
                SamplerConfigError::InvalidMinDistance,
            ) <==> region_size > 0 && min_distance == 0,
            result == Err::<PoissonDiskSampler, SamplerConfigError>(
                SamplerConfigError::InvalidAttemptBudget,
            ) <==> region_size > 0 && min_distance > 0 && max_attempts == 0,
            result matches Ok(sampler) ==> sampler.wf() && sampler.model() == SamplerModel::fresh(
                region_size as int,
                min_distance as int,
                max_attempts as int,
                cell_side(min_distance as int),
            ),
    {
        if region_size == 0 {
            return Err(SamplerConfigError::InvalidRegionSize);
        }
        if min_distance == 0 {
            return Err(SamplerConfigError::InvalidMinDistance);
        }
        if max_attempts == 0 {
            return Err(SamplerConfigError::InvalidAttemptBudget);
        }
        let cell_size: u32 = cell_size_for(min_distance);
        let along: u64 = ((region_size - 1) / cell_size) as u64 + 1;
        assert(along as u128 * along as u128 <= 0x1_0000_0000_0000_0000) by (nonlinear_arith)
            requires
                0 <= along <= 0x1_0000_0000,
        ;
        let total: u128 = along as u128 * along as u128;
        if total > MAX_GRID_CELLS as u128 {
            return Err(SamplerConfigError::InvalidRegionSize);
        }
        assert(along <= 0x100_0000) by (nonlinear_arith)
            requires
                along as u128 * along as u128 <= 0x100_0000,
                along >= 1,
        ;
        let cells_per_side: usize = along as usize;
        let mut grid: Vec<Vec<Option<Point>>> = Vec::new();
        let mut a: usize = 0;
        while a < cells_per_side
            invariant
                a <= cells_per_side,
                grid@.len() == a,
                forall|i: int| 0 <= i < a ==> (#[trigger] grid@[i])@.len() == cells_per_side,
                forall|i: int, j: int|
                    0 <= i < a && 0 <= j < cells_per_side ==> (#[trigger] grid@[i]@[j]) is None,
            decreases cells_per_side - a,
        {
            let mut row: Vec<Option<Point>> = Vec::new();
            let mut b: usize = 0;
            while b < cells_per_side
                invariant
                    b <= cells_per_side,
                    row@.len() == b,
                    forall|j: int| 0 <= j < b ==> (#[trigger] row@[j]) is None,
                decreases cells_per_side - b,
            {
                row.push(None);
                b = b + 1;
            }
            grid.push(row);
            a = a + 1;
        }
        let sampler = PoissonDiskSampler {
            region_size,
            min_distance,
            max_attempts,
            cell_size,
            cells_per_side,
            grid,
            points: Vec::new(),
            active: Vec::new(),
            selected: None,
            attempts: 0,
        };
        proof {
            assert(sampler.model() =~= SamplerModel::fresh(
                region_size as int,
                min_distance as int,
                max_attempts as int,
                cell_side(min_distance as int),
            ));
            assert forall|a: int, b: int|
                0 <= a < sampler.cells_per_side && 0 <= b < sampler.cells_per_side implies (
            #[trigger] sampler.entry(a, b) matches Some(q) ==> sampler.points@.contains(q)
                && cell_of(q.x as int, sampler.cell_size as int) == a && cell_of(
                q.y as int,
                sampler.cell_size as int,
            ) == b) by {
                assert(sampler.grid@[a]@[b] is None);
            }
        }
        Ok(sampler)
    }

    /// The cell index of a coordinate that lies in the region.
    fn cell_index(&self, v: i64) -> (index: usize)
        requires
            self.wf(),
            0 <= v < self.region_size,
        ensures
            index == cell_of(v as int, self.cell_size as int),
            index < self.cells_per_side,
    {
        proof {
            lemma_div_is_ordered(v as int, self.region_size - 1, self.cell_size as int);
            lemma_div_pos_is_pos(v as int, self.cell_size as int);
        }
        (v / self.cell_size as i64) as usize
    }

    /// Whether `p`, a point of the region, is nearer to `q`, another, than
    /// the separation.
    fn too_close(&self, p: Point, q: Point) -> (close: bool)
        requires
            self.wf(),
            self.model().in_region(p),
            self.model().in_region(q),
        ensures
            close == (distance_squared(q, p) < self.min_distance * self.min_distance),
    {
        let dx: i128 = q.x as i128 - p.x as i128;
        let dy: i128 = q.y as i128 - p.y as i128;
        let r: i128 = self.min_distance as i128;
        assert(0 <= dx * dx <= 0x1_0000_0000_0000_0000 && 0 <= dy * dy <= 0x1_0000_0000_0000_0000
            && 0 <= r * r <= 0x1_0000_0000_0000_0000) by (nonlinear_arith)
            requires
                -0x1_0000_0000 <= dx <= 0x1_0000_0000,
                -0x1_0000_0000 <= dy <= 0x1_0000_0000,
                0 <= r <= 0x1_0000_0000,
        ;
        dx * dx + dy * dy < r * r
    }

    /// Whether a candidate is valid: it lies in the region, and no accepted
    /// point in its own background cell or the eight around it is closer
    /// than the separation.
    pub fn is_valid_point(&self, p: Point) -> (valid: bool)
        requires
            self.wf(),
        ensures
            valid == self.model().accepts(p),
    {
        if p.x < 0 || p.x >= self.region_size as i64 || p.y < 0 || p.y >= self.region_size as i64 {
            return false;
        }
        let cx: usize = self.cell_index(p.x);
        let cy: usize = self.cell_index(p.y);
        let i0: usize = if cx > 0 {
            cx - 1
        } else {
            0
        };
        let i1: usize = if cx + 1 < self.cells_per_side {
            cx + 1
        } else {
            cx
        };
        let j0: usize = if cy > 0 {
            cy - 1
        } else {
            0
        };
        let j1: usize = if cy + 1 < self.cells_per_side {
            cy + 1
        } else {
            cy
        };
        let ghost m = self.model();
        let mut i: usize = i0;
        while i <= i1
            invariant
                self.wf(),
                m == self.model(),
                m.in_region(p),
                i0 <= i <= i1 + 1,
                i1 < self.cells_per_side,
                j0 <= j1 < self.cells_per_side,
                cx == cell_of(p.x as int, m.cell_size),
                cy == cell_of(p.y as int, m.cell_size),
                i0 + 1 >= cx && i1 <= cx + 1,
                j0 + 1 >= cy && j1 <= cy + 1,
                forall|a: int, b: int|
                    i0 <= a < i && j0 <= b <= j1 ==> (#[trigger] self.entry(a, b) matches Some(q)
                        ==> distance_squared(q, p) >= m.min_distance * m.min_distance),
            decreases i1 + 1 - i,
        {
            let mut j: usize = j0;
            while j <= j1
                invariant
                    self.wf(),
                    m == self.model(),
                    m.in_region(p),
                    i0 <= i <= i1,
                    i1 < self.cells_per_side,
                    j0 <= j <= j1 + 1,
                    j1 < self.cells_per_side,
                    cx == cell_of(p.x as int, m.cell_size),
                    cy == cell_of(p.y as int, m.cell_size),
                    i0 + 1 >= cx && i1 <= cx + 1,
                    j0 + 1 >= cy && j1 <= cy + 1,
                    forall|a: int, b: int|
                        i0 <= a < i && j0 <= b <= j1 ==> (#[trigger] self.entry(a, b) matches Some(
                            q,
                        ) ==> distance_squared(q, p) >= m.min_distance * m.min_distance),
                    forall|b: int|
                        j0 <= b < j ==> (#[trigger] self.entry(i as int, b) matches Some(q)
                            ==> distance_squared(q, p) >= m.min_distance * m.min_distance),
                decreases j1 + 1 - j,
            {
                match self.grid[i][j] {
                    Some(q) => {
                        proof {
                            assert(self.entry(i as int, j as int) == Some(q));
                            assert(self.points@.contains(q));
                            let w = choose|w: int| 0 <= w < self.points@.len() && self.points@[w] == q;
                            assert(m.in_region(m.points[w]));
                        }
                        if self.too_close(p, q) {
                            proof {
                                let w = choose|w: int|
                                    0 <= w < self.points@.len() && self.points@[w] == q;
                                assert(m.neighbours(m.points[w], p));
                                assert(!m.clear_of(p, m.points[w]));
                            }
                            return false;
                        }
                    },
                    None => {},
                }
                j = j + 1;
            }
            i = i + 1;
        }
        proof {
            assert forall|w: int| 0 <= w < m.points.len() implies m.clear_of(
                p,
                #[trigger] m.points[w],
            ) by {
                let q = m.points[w];
                if m.neighbours(q, p) {
                    let a = cell_of(q.x as int, m.cell_size);
                    let b = cell_of(q.y as int, m.cell_size);
                    assert(m.in_region(q));
                    lemma_div_is_ordered(q.x as int, self.region_size - 1, self.cell_size as int);
                    lemma_div_pos_is_pos(q.x as int, self.cell_size as int);
                    lemma_div_is_ordered(q.y as int, self.region_size - 1, self.cell_size as int);
                    lemma_div_pos_is_pos(q.y as int, self.cell_size as int);
                    assert(self.home(self.points@[w]) == Some(q));
                    assert(self.entry(a, b) == Some(q));
                    assert(i0 <= a <= i1 && j0 <= b <= j1);
                }
            }
        }
        true
    }

    /// Accepts a valid point: it becomes the last point of the output and of
    /// the active list and takes its background cell.
    fn insert_point(&mut self, p: Point)
        requires
            old(self).wf(),
            old(self).model().accepts(p),
        ensures
            final(self).wf(),
            final(self).model() == old(self).model().with_point(p),
    {
        let cx: usize = self.cell_index(p.x);
        let cy: usize = self.cell_index(p.y);
        let ghost m = self.model();
        proof {
            if self.entry(cx as int, cy as int) is Some {
                let q = self.entry(cx as int, cy as int).unwrap();
                assert(self.points@.contains(q));
                let w = choose|w: int| 0 <= w < self.points@.len() && self.points@[w] == q;
                assert(m.clear_of(p, m.points[w]));
                lemma_same_cell_is_too_close(m, q, p);
                assert(false);
            }
            lemma_with_point_keeps_inv(m, p);
        }
        self.grid[cx][cy] = Some(p);
        self.points.push(p);
        self.active.push(p);
        self.selected = None;
        self.attempts = 0;
        proof {
            assert(self.model() =~= m.with_point(p));
            assert forall|i: int| 0 <= i < self.points@.len() implies self.home(
                #[trigger] self.points@[i],
            ) == Some(self.points@[i]) by {
                if i < old(self).points@.len() {
                    let u = old(self).points@[i];
                    assert(old(self).home(u) == Some(u));
                    let a = cell_of(u.x as int, self.cell_size as int);
                    let b = cell_of(u.y as int, self.cell_size as int);
                    if a == cx && b == cy {
                        assert(old(self).entry(cx as int, cy as int) == Some(u));
                        assert(false);
                    }
                    assert(m.in_region(m.points[i]));
                    lemma_div_is_ordered(u.x as int, self.region_size - 1, self.cell_size as int);
                    lemma_div_pos_is_pos(u.x as int, self.cell_size as int);
                    lemma_div_is_ordered(u.y as int, self.region_size - 1, self.cell_size as int);
                    lemma_div_pos_is_pos(u.y as int, self.cell_size as int);
                    assert(self.entry(a, b) == old(self).entry(a, b));
                }
            }
            assert forall|a: int, b: int|
                0 <= a < self.cells_per_side && 0 <= b < self.cells_per_side implies (
            #[trigger] self.entry(a, b) matches Some(q) ==> self.points@.contains(q) && cell_of(
                q.x as int,
                self.cell_size as int,
            ) == a && cell_of(q.y as int, self.cell_size as int) == b) by {
                if a == cx && b == cy {
                    assert(self.points@[old(self).points@.len() as int] == p);
                } else {
                    assert(self.entry(a, b) == old(self).entry(a, b));
                    if old(self).entry(a, b) is Some {
                        let q = old(self).entry(a, b).unwrap();
                        assert(old(self).points@.contains(q));
                        let w = choose|w: int|
                            0 <= w < old(self).points@.len() && old(self).points@[w] == q;
                        assert(self.points@[w] == q);
                    }
                }
            }
        }
    }

    /// Places `first` as the first point, if the sampler has none yet and
    /// `first` lies in the region; otherwise changes nothing. Tells whether
    /// the point was placed.
    pub fn start_at(&mut self, first: Point) -> (placed: bool)
        requires
            old(self).wf(),
        ensures
            final(self).wf(),
            placed == old(self).model().takes_first(first),
            final(self).model() == old(self).model().first(first),
    {
        if self.points.len() != 0 {
            return false;
        }
        if first.x < 0 || first.x >= self.region_size as i64 || first.y < 0 || first.y
            >= self.region_size as i64 {
            return false;
        }
        self.insert_point(first);
        true
    }

    /// Draws the first point from `rng`, each coordinate from the whole
    /// numbers of the region, and places it if the sampler has no point yet.
    /// Tells whether a point was placed.
    pub fn start(&mut self, rng: &mut rand::rngs::StdRng) -> (placed: bool)
        requires
            old(self).wf(),
        ensures
            final(self).wf(),
            placed == (old(self).model().points.len() == 0),
            !placed ==> final(self).model() == old(self).model(),
            placed ==> exists|first: Point|
                old(self).model().in_region(first) && #[trigger] old(self).model().first(first)
                    == final(self).model(),
    {
        if self.points.len() != 0 {
            return false;
        }
        let x: u64 = uniform_below(rng, self.region_size as u64);
        let y: u64 = uniform_below(rng, self.region_size as u64);
        let first = Point { x: x as i64, y: y as i64 };
        let placed = self.start_at(first);
        proof {
            assert(old(self).model().in_region(first));
            assert(old(self).model().first(first) == self.model());
        }
        placed
    }

    /// Selects the active point at `index` as the one to find a neighbour
    /// for, if no point is selected and `index` is in the active list;
    /// otherwise changes nothing. Gives the selected point.
    pub fn select_at(&mut self, index: usize) -> (selected: Option<Point>)
        requires
            old(self).wf(),
        ensures
            final(self).wf(),
            final(self).model() == old(self).model().pick(index as int),
            selected == (if old(self).model().takes_pick(index as int) {
                Some(old(self).model().active[index as int])
            } else {
                None
            }),
    {
        if self.selected.is_some() || index >= self.active.len() {
            return None;
        }
        self.selected = Some(index);
        self.attempts = 0;
        proof {
            assert(self.model() =~= old(self).model().pick(index as int));
            old(self).lemma_grid_ok_carries_over(self);
        }
        Some(self.active[index])
    }

    /// Draws an index into the active list from `rng` and selects the point
    /// there, if no point is selected and the active list is not empty;
    /// otherwise changes nothing. Gives the selected point.
    pub fn select(&mut self, rng: &mut rand::rngs::StdRng) -> (selected: Option<Point>)
        requires
            old(self).wf(),
        ensures
            final(self).wf(),
            selected is Some <==> old(self).model().selected is None && old(
                self,
            ).model().active.len() > 0,
            selected is None ==> final(self).model() == old(self).model(),
            selected matches Some(p) ==> exists|index: int|
                0 <= index < old(self).model().active.len() && #[trigger] old(self).model().pick(
                    index,
                ) == final(self).model() && old(self).model().active[index] == p,
    {
        if self.selected.is_some() || self.active.len() == 0 {
            return None;
        }
        let index: u64 = uniform_below(rng, self.active.len() as u64);
        let selected = self.select_at(index as usize);
        proof {
            assert(old(self).model().pick(index as int) == self.model());
        }
        selected
    }

    /// Takes a candidate for the selected point. A valid candidate is
    /// accepted and ends the selection. One that is not valid counts as an
    /// attempt; with the last attempt the selected point leaves the active
    /// list, though it stays in the output, and the selection ends. With no
    /// point selected nothing changes.
    pub fn offer(&mut self, candidate: Point) -> (outcome: Offer)
        requires
            old(self).wf(),
        ensures
            final(self).wf(),
            outcome == old(self).model().offer_outcome(candidate),
            final(self).model() == old(self).model().offer(candidate),
    {
        let index: usize = match self.selected {
            Some(index) => index,
            None => {
                return Offer::Idle;
            },
        };
        if self.is_valid_point(candidate) {
            self.insert_point(candidate);
            return Offer::Accepted;
        }
        if self.attempts + 1 < self.max_attempts {
            self.attempts = self.attempts + 1;
            proof {
                assert(self.model() =~= old(self).model().offer(candidate));
                old(self).lemma_grid_ok_carries_over(self);
            }
            return Offer::Rejected;
        }
        let _ = self.active.remove(index);
        self.selected = None;
        self.attempts = 0;
        proof {
            assert(self.model() =~= old(self).model().offer(candidate));
            crate::poisson_model::lemma_step_keeps_inv(
                old(self).model(),
                crate::poisson_model::Draw::Candidate(candidate),
            );
            old(self).lemma_grid_ok_carries_over(self);
        }
        Offer::Exhausted
    }

    /// What the sampler needs next from outside.
    pub fn next_request(&self) -> (request: Request)
        requires
            self.wf(),
        ensures
            request == self.model().wants(),
    {
        if self.points.len() == 0 {
            Request::FirstPoint
        } else {
            match self.selected {
                Some(index) => Request::Candidate { around: self.active[index] },
                None => {
                    if self.active.len() > 0 {
                        Request::ActiveIndex { below: self.active.len() }
                    } else {
                        Request::Finished
                    }
                },
            }
        }
    }

    /// Whether a first point was placed and no accepted point can get
    /// another neighbour.
    pub fn is_finished(&self) -> (finished: bool)
        ensures
            finished == self.model().finished(),
    {
        self.points.len() > 0 && self.active.len() == 0
    }

    /// The accepted points, in the order of acceptance.
    pub fn points(&self) -> (points: &Vec<Point>)
        ensures
            points@ == self.model().points,
    {
        &self.points
    }

    /// Ends the sampling and hands out the accepted points, in the order of
    /// acceptance.
    pub fn into_points(self) -> (points: Vec<Point>)
        ensures
            points@ == self.model().points,
    {
        self.points
    }

    /// The accepted points that may still get neighbours.
    pub fn active(&self) -> (active: &Vec<Point>)
        ensures
            active@ == self.model().active,
    {
        &self.active
    }

    /// The point a neighbour is being sought for, if one is selected.
    pub fn selected_point(&self) -> (p: Option<Point>)
        requires
            self.wf(),
        ensures
            p == (match self.model().selected {
                Some(s) => Some(self.model().active[s]),
                None => None,
            }),
    {
        match self.selected {
            Some(index) => Some(self.active[index]),
            None => None,
        }
    }

    /// Candidates already refused for the selected point.
    pub fn attempts_made(&self) -> (n: u32)
        ensures
            n == self.model().attempts,
    {
        self.attempts
    }

    /// Side of the region.
    pub fn region_size(&self) -> (n: u32)
        ensures
            n == self.model().region_size,
    {
        self.region_size
    }

    /// The separation asked for.
    pub fn min_distance(&self) -> (n: u32)
        ensures
            n == self.model().min_distance,
    {
        self.min_distance
    }

    /// Candidates tried per selected point before it is given up.
    pub fn max_attempts(&self) -> (n: u32)
        ensures
            n == self.model().max_attempts,
    {
        self.max_attempts
    }

    /// Side of a background cell.
    pub fn cell_size(&self) -> (n: u32)
        ensures
            n == self.model().cell_size,
    {
        self.cell_size
    }
}

} // verus!
