//! The mathematics of blue-noise sampling on the integer lattice: what a
//! sampler holds, how one draw changes it, and what every state it can reach
//! has in common.

use vstd::prelude::*;
use vstd::arithmetic::div_mod::{
    lemma_div_is_ordered, lemma_div_pos_is_pos, lemma_fundamental_div_mod, lemma_mod_bound,
};
use vstd::set_lib::{lemma_int_range, lemma_len_subset, set_int_range};

verus! {

/// A point of the integer lattice.
#[derive(Clone, Copy, Debug, PartialEq, Eq, Hash, Structural)]
pub struct Point {
    pub x: i64,
    pub y: i64,
}

/// What became of a candidate.
#[derive(Clone, Copy, Debug, PartialEq, Eq, Structural)]
pub enum Offer {
    /// No active point was selected; the candidate was ignored.
    Idle,
    /// The candidate was valid and is now part of the output.
    Accepted,
    /// The candidate was not valid; the selected point has attempts left.
    Rejected,
    /// The candidate was not valid and it was the last attempt; the selected
    /// point has left the active list.
    Exhausted,
}

/// What a sampler needs next from outside.
#[derive(Clone, Copy, Debug, PartialEq, Eq, Structural)]
pub enum Request {
    /// A first point, anywhere in the region.
    FirstPoint,
    /// An index into the active list, below `below`.
    ActiveIndex { below: usize },
    /// A candidate near `around`, the selected active point.
    Candidate { around: Point },
    /// Nothing: sampling has ended.
    Finished,
}

/// One value that comes from outside the sampler.
pub enum Draw {
    /// The first point.
    First(Point),
    /// An index into the active list.
    Pick(int),
    /// A candidate near the selected active point.
    Candidate(Point),
}

/// Square of the distance between two points.
pub open spec fn distance_squared(p: Point, q: Point) -> int {
    (p.x - q.x) * (p.x - q.x) + (p.y - q.y) * (p.y - q.y)
}

/// Index, along one axis, of the background cell that holds the coordinate
/// `v` when cells are `cell` wide.
pub open spec fn cell_of(v: int, cell: int) -> int {
    v / cell
}

/// Whether `cell` is the side of the background cells for the separation
/// `min_distance`: the largest whole number not above `min_distance / √2`,
/// and 1 where that would be 0.
pub open spec fn cell_fits(min_distance: int, cell: int) -> bool {
    &&& cell >= 1
    &&& (cell == 1 || 2 * cell * cell <= min_distance * min_distance)
    &&& min_distance * min_distance < 2 * (cell + 1) * (cell + 1)
}

/// What a sampler holds, as mathematics.
pub struct SamplerModel {
    /// Side of the square region; points have both coordinates in
    /// `0..region_size`.
    pub region_size: int,
    /// The separation asked for.
    pub min_distance: int,
    /// Candidates tried per selected point before it is given up.
    pub max_attempts: int,
    /// Side of a background cell.
    pub cell_size: int,
    /// The accepted points, in the order of acceptance.
    pub points: Seq<Point>,
    /// The accepted points that may still get neighbours.
    pub active: Seq<Point>,
    /// Index into `active` of the point being tried, if one is.
    pub selected: Option<int>,
    /// Candidates already refused for the selected point.
    pub attempts: int,
}

impl SamplerModel {
    /// Whether `p` lies in the region.
    pub open spec fn in_region(self, p: Point) -> bool {
        0 <= p.x < self.region_size && 0 <= p.y < self.region_size
    }

    /// Whether the background cells of `p` and `q` are the same or touch, by
    /// a side or by a corner.
    pub open spec fn neighbours(self, p: Point, q: Point) -> bool {
        &&& -1 <= cell_of(p.x as int, self.cell_size) - cell_of(q.x as int, self.cell_size) <= 1
        &&& -1 <= cell_of(p.y as int, self.cell_size) - cell_of(q.y as int, self.cell_size) <= 1
    }

    /// Whether `p` is far enough from `q`, or lies in a cell that does not
    /// touch the cell of `q`.
    pub open spec fn clear_of(self, p: Point, q: Point) -> bool {
        self.neighbours(q, p) ==> distance_squared(q, p) >= self.min_distance * self.min_distance
    }

    /// Whether a candidate is valid: it lies in the region and no accepted
    /// point in its own or a touching cell is closer than the separation.
    pub open spec fn accepts(self, p: Point) -> bool {
        &&& self.in_region(p)
        &&& forall|i: int| 0 <= i < self.points.len() ==> self.clear_of(p, #[trigger] self.points[i])
    }

    /// Whether nothing is left to do: a first point was placed and the
    /// active list has run empty.
    pub open spec fn finished(self) -> bool {
        self.points.len() > 0 && self.active.len() == 0
    }

    /// What every reachable state has in common.
    pub open spec fn inv(self) -> bool {
        &&& self.region_size >= 1
        &&& self.min_distance >= 1
        &&& self.max_attempts >= 1
        &&& cell_fits(self.min_distance, self.cell_size)
        &&& forall|i: int| 0 <= i < self.points.len() ==> self.in_region(#[trigger] self.points[i])
        &&& forall|i: int, j: int|
            0 <= i < self.points.len() && 0 <= j < self.points.len() && i != j ==> self.clear_of(
                #[trigger] self.points[i],
                #[trigger] self.points[j],
            )
        &&& forall|a: int|
            0 <= a < self.active.len() ==> self.points.contains(#[trigger] self.active[a])
        &&& (self.selected matches Some(s) ==> 0 <= s < self.active.len())
        &&& 0 <= self.attempts < self.max_attempts
        &&& (self.selected is None ==> self.attempts == 0)
    }

    /// A sampler before its first point.
    pub open spec fn fresh(region_size: int, min_distance: int, max_attempts: int, cell_size: int)
        -> SamplerModel {
        SamplerModel {
            region_size,
            min_distance,
            max_attempts,
            cell_size,
            points: Seq::empty(),
            active: Seq::empty(),
            selected: None,
            attempts: 0,
        }
    }

    /// The state with `p` accepted: last in the output and last in the
    /// active list, with no point selected.
    pub open spec fn with_point(self, p: Point) -> SamplerModel {
        SamplerModel {
            points: self.points.push(p),
            active: self.active.push(p),
            selected: None,
            attempts: 0,
            ..self
        }
    }

    /// Whether `p` can be placed as the first point.
    pub open spec fn takes_first(self, p: Point) -> bool {
        self.points.len() == 0 && self.in_region(p)
    }

    /// The state after `p` was offered as the first point.
    pub open spec fn first(self, p: Point) -> SamplerModel {
        if self.takes_first(p) {
            self.with_point(p)
        } else {
            self
        }
    }

    /// Whether the active point at `index` can be selected.
    pub open spec fn takes_pick(self, index: int) -> bool {
        self.selected is None && 0 <= index < self.active.len()
    }

    /// The state after the active point at `index` was picked.
    pub open spec fn pick(self, index: int) -> SamplerModel {
        if self.takes_pick(index) {
            SamplerModel { selected: Some(index), attempts: 0, ..self }
        } else {
            self
        }
    }

    /// What becomes of the candidate `candidate`.
    pub open spec fn offer_outcome(self, candidate: Point) -> Offer {
        if self.selected is None {
            Offer::Idle
        } else if self.accepts(candidate) {
            Offer::Accepted
        } else if self.attempts + 1 < self.max_attempts {
            Offer::Rejected
        } else {
            Offer::Exhausted
        }
    }

    /// The state after the candidate `candidate` was offered.
    pub open spec fn offer(self, candidate: Point) -> SamplerModel {
        match self.offer_outcome(candidate) {
            Offer::Idle => self,
            Offer::Accepted => self.with_point(candidate),
            Offer::Rejected => SamplerModel { attempts: self.attempts + 1, ..self },
            Offer::Exhausted => SamplerModel {
                active: self.active.remove(self.selected.unwrap()),
                selected: None,
                attempts: 0,
                ..self
            },
        }
    }

    /// What the sampler needs next: a first point while it has none, a
    /// candidate while a point is selected, an index while the active list
    /// has points, and nothing after that.
    pub open spec fn wants(self) -> Request {
        if self.points.len() == 0 {
            Request::FirstPoint
        } else if self.selected is Some {
            Request::Candidate { around: self.active[self.selected.unwrap()] }
        } else if self.active.len() > 0 {
            Request::ActiveIndex { below: self.active.len() as usize }
        } else {
            Request::Finished
        }
    }

    /// Whether `draw` is of the kind the sampler needs next and can be used:
    /// a first point of the region, an index into the active list, or any
    /// candidate.
    pub open spec fn answered_by(self, draw: Draw) -> bool {
        match (self.wants(), draw) {
            (Request::FirstPoint, Draw::First(p)) => self.in_region(p),
            (Request::ActiveIndex { .. }, Draw::Pick(index)) => 0 <= index < self.active.len(),
            (Request::Candidate { .. }, Draw::Candidate(_)) => true,
            _ => false,
        }
    }

    /// Background cells along one side of the region.
    pub open spec fn cells_along(self) -> int {
        (self.region_size - 1) / self.cell_size + 1
    }

    /// Number of the background cell of `p`, counted column by column.
    pub open spec fn cell_number(self, p: Point) -> int {
        cell_of(p.x as int, self.cell_size) * self.cells_along() + cell_of(
            p.y as int,
            self.cell_size,
        )
    }

    /// Background cells that hold no point yet.
    pub open spec fn free_cells(self) -> int {
        self.cells_along() * self.cells_along() - self.points.len()
    }

    /// What is left of the attempts, counted so that selecting a point
    /// already uses something up.
    pub open spec fn patience(self) -> int {
        2 * (self.max_attempts - self.attempts) + (if self.selected is None {
            1int
        } else {
            0int
        })
    }

    /// Whether `later` is nearer to the end than `self`: it has fewer free
    /// cells, or as many and a shorter active list, or as many of both and
    /// less patience.
    pub open spec fn nearer_to_end(self, later: SamplerModel) -> bool {
        ||| later.free_cells() < self.free_cells()
        ||| (later.free_cells() == self.free_cells() && later.active.len() < self.active.len())
        ||| (later.free_cells() == self.free_cells() && later.active.len() == self.active.len()
            && later.patience() < self.patience())
    }

    /// The state after one draw.
    pub open spec fn step(self, draw: Draw) -> SamplerModel {
        match draw {
            Draw::First(p) => self.first(p),
            Draw::Pick(index) => self.pick(index),
            Draw::Candidate(p) => self.offer(p),
        }
    }

    /// The state after the draws `draws`, taken in order.
    pub open spec fn run(self, draws: Seq<Draw>) -> SamplerModel
        decreases draws.len(),
    {
        if draws.len() == 0 {
            self
        } else {
            self.run(draws.drop_last()).step(draws.last())
        }
    }
}

/// The distance from `p` to `q` is the distance from `q` to `p`.
pub proof fn lemma_distance_is_symmetric(p: Point, q: Point)
    ensures
        distance_squared(p, q) == distance_squared(q, p),
{
    let dx = p.x - q.x;
    let dy = p.y - q.y;
    assert(dx * dx == (-dx) * (-dx)) by (nonlinear_arith);
    assert(dy * dy == (-dy) * (-dy)) by (nonlinear_arith);
}

/// Two points in the same background cell are closer than the separation.
pub proof fn lemma_same_cell_is_too_close(m: SamplerModel, p: Point, q: Point)
    requires
        m.min_distance >= 1,
        cell_fits(m.min_distance, m.cell_size),
        cell_of(p.x as int, m.cell_size) == cell_of(q.x as int, m.cell_size),
        cell_of(p.y as int, m.cell_size) == cell_of(q.y as int, m.cell_size),
    ensures
        distance_squared(p, q) < m.min_distance * m.min_distance,
{
    let c = m.cell_size;
    let r = m.min_distance;
    lemma_fundamental_div_mod(p.x as int, c);
    lemma_fundamental_div_mod(q.x as int, c);
    lemma_fundamental_div_mod(p.y as int, c);
    lemma_fundamental_div_mod(q.y as int, c);
    lemma_mod_bound(p.x as int, c);
    lemma_mod_bound(q.x as int, c);
    lemma_mod_bound(p.y as int, c);
    lemma_mod_bound(q.y as int, c);
    let dx = p.x - q.x;
    let dy = p.y - q.y;
    assert(dx == (p.x as int % c) - (q.x as int % c));
    assert(dy == (p.y as int % c) - (q.y as int % c));
    assert(-(c - 1) <= dx <= c - 1);
    assert(-(c - 1) <= dy <= c - 1);
    assert(dx * dx + dy * dy < r * r) by (nonlinear_arith)
        requires
            -(c - 1) <= dx <= c - 1,
            -(c - 1) <= dy <= c - 1,
            c >= 1,
            r >= 1,
            c == 1 || 2 * c * c <= r * r,
    ;
}

/// Two points whose background cells do not touch are farther apart than a
/// cell is wide.
pub proof fn lemma_distant_cells_are_apart(m: SamplerModel, p: Point, q: Point)
    requires
        m.cell_size >= 1,
        !m.neighbours(p, q),
    ensures
        distance_squared(p, q) >= (m.cell_size + 1) * (m.cell_size + 1),
        p.x - q.x > m.cell_size || q.x - p.x > m.cell_size || p.y - q.y > m.cell_size || q.y - p.y
            > m.cell_size,
{
    let c = m.cell_size;
    lemma_fundamental_div_mod(p.x as int, c);
    lemma_fundamental_div_mod(q.x as int, c);
    lemma_fundamental_div_mod(p.y as int, c);
    lemma_fundamental_div_mod(q.y as int, c);
    lemma_mod_bound(p.x as int, c);
    lemma_mod_bound(q.x as int, c);
    lemma_mod_bound(p.y as int, c);
    lemma_mod_bound(q.y as int, c);
    let dx = p.x - q.x;
    let dy = p.y - q.y;
    let kx = cell_of(p.x as int, c) - cell_of(q.x as int, c);
    let ky = cell_of(p.y as int, c) - cell_of(q.y as int, c);
    let ex = (p.x as int % c) - (q.x as int % c);
    let ey = (p.y as int % c) - (q.y as int % c);
    assert(dx == c * kx + ((p.x as int % c) - (q.x as int % c))) by (nonlinear_arith)
        requires
            p.x == c * (cell_of(p.x as int, c)) + (p.x as int % c),
            q.x == c * (cell_of(q.x as int, c)) + (q.x as int % c),
            dx == p.x - q.x,
            kx == cell_of(p.x as int, c) - cell_of(q.x as int, c),
    ;
    assert(dy == c * ky + ((p.y as int % c) - (q.y as int % c))) by (nonlinear_arith)
        requires
            p.y == c * (cell_of(p.y as int, c)) + (p.y as int % c),
            q.y == c * (cell_of(q.y as int, c)) + (q.y as int % c),
            dy == p.y - q.y,
            ky == cell_of(p.y as int, c) - cell_of(q.y as int, c),
    ;
    if kx >= 2 || kx <= -2 {
        assert(dx >= c + 1 || dx <= -(c + 1)) by (nonlinear_arith)
            requires
                kx >= 2 || kx <= -2,
                c >= 1,
                -(c - 1) <= ex <= c - 1,
                dx == c * kx + ex,
        ;
        assert(dx * dx + dy * dy >= (c + 1) * (c + 1)) by (nonlinear_arith)
            requires
                dx >= c + 1 || dx <= -(c + 1),
                c >= 1,
        ;
    } else {
        assert(ky >= 2 || ky <= -2);
        assert(dy >= c + 1 || dy <= -(c + 1)) by (nonlinear_arith)
            requires
                ky >= 2 || ky <= -2,
                c >= 1,
                -(c - 1) <= ey <= c - 1,
                dy == c * ky + ey,
        ;
        assert(dx * dx + dy * dy >= (c + 1) * (c + 1)) by (nonlinear_arith)
            requires
                dy >= c + 1 || dy <= -(c + 1),
                c >= 1,
        ;
    }
}

/// A fresh sampler with sound parameters is in a state that has the common
/// properties.
pub proof fn lemma_fresh_has_inv(
    region_size: int,
    min_distance: int,
    max_attempts: int,
    cell_size: int,
)
    requires
        region_size >= 1,
        min_distance >= 1,
        max_attempts >= 1,
        cell_fits(min_distance, cell_size),
    ensures
        SamplerModel::fresh(region_size, min_distance, max_attempts, cell_size).inv(),
{
}

/// Accepting a valid candidate keeps the common properties.
pub proof fn lemma_with_point_keeps_inv(m: SamplerModel, p: Point)
    requires
        m.inv(),
        m.accepts(p),
    ensures
        m.with_point(p).inv(),
{
    let n = m.with_point(p);
    let last = m.points.len() as int;
    assert forall|i: int, j: int|
        0 <= i < n.points.len() && 0 <= j < n.points.len() && i != j implies n.clear_of(
        #[trigger] n.points[i],
        #[trigger] n.points[j],
    ) by {
        if i == last {
            assert(m.clear_of(p, m.points[j]));
        } else if j == last {
            assert(m.clear_of(p, m.points[i]));
            lemma_distance_is_symmetric(p, m.points[i]);
        } else {
            assert(m.clear_of(m.points[i], m.points[j]));
        }
    }
    assert forall|a: int| 0 <= a < n.active.len() implies n.points.contains(
        #[trigger] n.active[a],
    ) by {
        if a < m.active.len() {
            assert(m.points.contains(m.active[a]));
            let w = choose|w: int| 0 <= w < m.points.len() && m.points[w] == m.active[a];
            assert(n.points[w] == n.active[a]);
        } else {
            assert(n.points[last] == n.active[a]);
        }
    }
}

/// Every draw keeps the common properties.
pub proof fn lemma_step_keeps_inv(m: SamplerModel, draw: Draw)
    requires
        m.inv(),
    ensures
        m.step(draw).inv(),
{
    match draw {
        Draw::First(p) => {
            if m.takes_first(p) {
                lemma_with_point_keeps_inv(m, p);
            }
        },
        Draw::Pick(index) => {},
        Draw::Candidate(p) => {
            match m.offer_outcome(p) {
                Offer::Idle => {},
                Offer::Accepted => {
                    lemma_with_point_keeps_inv(m, p);
                },
                Offer::Rejected => {},
                Offer::Exhausted => {
                    let n = m.offer(p);
                    let s = m.selected.unwrap();
                    assert forall|a: int| 0 <= a < n.active.len() implies n.points.contains(
                        #[trigger] n.active[a],
                    ) by {
                        if a < s {
                            assert(n.active[a] == m.active[a]);
                        } else {
                            assert(n.active[a] == m.active[a + 1]);
                        }
                    }
                },
            }
        },
    }
}

/// Whatever is drawn, the state after any number of draws has the common
/// properties.
pub proof fn lemma_run_keeps_inv(m: SamplerModel, draws: Seq<Draw>)
    requires
        m.inv(),
    ensures
        m.run(draws).inv(),
    decreases draws.len(),
{
    if draws.len() > 0 {
        lemma_run_keeps_inv(m, draws.drop_last());
        lemma_step_keeps_inv(m.run(draws.drop_last()), draws.last());
    }
}

/// No accepted point lies outside the region.
pub proof fn lemma_points_lie_in_region(m: SamplerModel, i: int)
    requires
        m.inv(),
        0 <= i < m.points.len(),
    ensures
        0 <= m.points[i].x < m.region_size,
        0 <= m.points[i].y < m.region_size,
{
}

/// Two accepted points whose background cells are the same or touch are at
/// least the separation apart.
pub proof fn lemma_neighbouring_points_keep_distance(m: SamplerModel, i: int, j: int)
    requires
        m.inv(),
        0 <= i < m.points.len(),
        0 <= j < m.points.len(),
        i != j,
        m.neighbours(m.points[i], m.points[j]),
    ensures
        distance_squared(m.points[i], m.points[j]) >= m.min_distance * m.min_distance,
{
    assert(m.clear_of(m.points[j], m.points[i]));
}

/// No background cell holds two accepted points.
pub proof fn lemma_points_lie_in_distinct_cells(m: SamplerModel, i: int, j: int)
    requires
        m.inv(),
        0 <= i < m.points.len(),
        0 <= j < m.points.len(),
        i != j,
    ensures
        cell_of(m.points[i].x as int, m.cell_size) != cell_of(m.points[j].x as int, m.cell_size)
            || cell_of(m.points[i].y as int, m.cell_size) != cell_of(
            m.points[j].y as int,
            m.cell_size,
        ),
{
    let p = m.points[i];
    let q = m.points[j];
    if cell_of(p.x as int, m.cell_size) == cell_of(q.x as int, m.cell_size) && cell_of(
        p.y as int,
        m.cell_size,
    ) == cell_of(q.y as int, m.cell_size) {
        lemma_same_cell_is_too_close(m, p, q);
        lemma_neighbouring_points_keep_distance(m, i, j);
    }
}

/// Any two accepted points are farther apart than the separation divided by
/// the square root of two.
pub proof fn lemma_every_pair_is_apart(m: SamplerModel, i: int, j: int)
    requires
        m.inv(),
        0 <= i < m.points.len(),
        0 <= j < m.points.len(),
        i != j,
    ensures
        2 * distance_squared(m.points[i], m.points[j]) > m.min_distance * m.min_distance,
{
    let p = m.points[i];
    let q = m.points[j];
    let r = m.min_distance;
    let c = m.cell_size;
    let d = distance_squared(p, q);
    if m.neighbours(p, q) {
        lemma_neighbouring_points_keep_distance(m, i, j);
        assert(2 * d > r * r) by (nonlinear_arith)
            requires
                d >= r * r,
                r >= 1,
        ;
    } else {
        lemma_distant_cells_are_apart(m, p, q);
        assert(2 * d > r * r) by (nonlinear_arith)
            requires
                d >= (c + 1) * (c + 1),
                r * r < 2 * (c + 1) * (c + 1),
        ;
    }
}

/// The background cell of a point of the region has a number below the
/// count of cells.
pub proof fn lemma_cell_number_in_range(m: SamplerModel, p: Point)
    requires
        m.region_size >= 1,
        m.cell_size >= 1,
        m.in_region(p),
    ensures
        0 <= cell_of(p.x as int, m.cell_size) < m.cells_along(),
        0 <= cell_of(p.y as int, m.cell_size) < m.cells_along(),
        0 <= m.cell_number(p) < m.cells_along() * m.cells_along(),
{
    let n = m.cells_along();
    let a = cell_of(p.x as int, m.cell_size);
    let b = cell_of(p.y as int, m.cell_size);
    lemma_div_is_ordered(p.x as int, m.region_size - 1, m.cell_size);
    lemma_div_pos_is_pos(p.x as int, m.cell_size);
    lemma_div_is_ordered(p.y as int, m.region_size - 1, m.cell_size);
    lemma_div_pos_is_pos(p.y as int, m.cell_size);
    assert(0 <= a * n + b < n * n) by (nonlinear_arith)
        requires
            0 <= a < n,
            0 <= b < n,
    ;
}

/// The region saturates: there are never more accepted points than
/// background cells.
pub proof fn lemma_point_count_is_bounded(m: SamplerModel)
    requires
        m.inv(),
    ensures
        m.points.len() <= m.cells_along() * m.cells_along(),
        m.free_cells() >= 0,
{
    let n = m.cells_along();
    let numbers = Seq::new(m.points.len(), |i: int| m.cell_number(m.points[i]));
    assert forall|i: int, j: int|
        0 <= i < numbers.len() && 0 <= j < numbers.len() && i != j implies numbers[i]
        != numbers[j] by {
        let p = m.points[i];
        let q = m.points[j];
        lemma_points_lie_in_distinct_cells(m, i, j);
        lemma_cell_number_in_range(m, p);
        lemma_cell_number_in_range(m, q);
        let a = cell_of(p.x as int, m.cell_size);
        let b = cell_of(p.y as int, m.cell_size);
        let c = cell_of(q.x as int, m.cell_size);
        let d = cell_of(q.y as int, m.cell_size);
        if a * n + b == c * n + d {
            assert(a == c && b == d) by (nonlinear_arith)
                requires
                    a * n + b == c * n + d,
                    0 <= b < n,
                    0 <= d < n,
            ;
        }
    }
    assert(numbers.no_duplicates());
    numbers.unique_seq_to_set();
    assert(n >= 1) by {
        lemma_div_pos_is_pos(m.region_size - 1, m.cell_size);
    }
    assert(0 <= n * n) by (nonlinear_arith)
        requires
            n >= 1,
    ;
    lemma_int_range(0, n * n);
    assert(numbers.to_set().subset_of(set_int_range(0, n * n))) by {
        assert forall|v: int| numbers.to_set().contains(v) implies set_int_range(
            0,
            n * n,
        ).contains(v) by {
            let i = choose|i: int| 0 <= i < numbers.len() && numbers[i] == v;
            lemma_cell_number_in_range(m, m.points[i]);
        }
    }
    lemma_len_subset(numbers.to_set(), set_int_range(0, n * n));
}

/// Sampling ends: every draw that changes the state brings it nearer to
/// the end, and the three counts that measure this never fall below zero.
pub proof fn lemma_step_makes_progress(m: SamplerModel, draw: Draw)
    requires
        m.inv(),
        m.step(draw) != m,
    ensures
        m.nearer_to_end(m.step(draw)),
        m.step(draw).free_cells() >= 0,
        m.step(draw).patience() >= 0,
{
    lemma_step_keeps_inv(m, draw);
    lemma_point_count_is_bounded(m.step(draw));
}

/// A point once accepted stays in the output, at its place: every draw
/// leaves the points as they were or adds one at the end.
pub proof fn lemma_points_only_grow(m: SamplerModel, draw: Draw)
    ensures
        m.step(draw).points == m.points || (exists|p: Point|
            #[trigger] m.points.push(p) == m.step(draw).points),
        m.points.is_prefix_of(m.step(draw).points),
{
    let n = m.step(draw);
    if n.points != m.points {
        match draw {
            Draw::First(p) => {
                assert(m.points.push(p) == n.points);
            },
            Draw::Pick(index) => {},
            Draw::Candidate(p) => {
                assert(m.points.push(p) == n.points);
            },
        }
    }
}

/// Once sampling has ended no draw changes anything.
pub proof fn lemma_finished_is_final(m: SamplerModel, draw: Draw)
    requires
        m.inv(),
        m.finished(),
    ensures
        m.step(draw) == m,
{
}

/// A draw that answers what the sampler needs is never lost: it changes the
/// state, and so brings the sampling nearer to its end.
pub proof fn lemma_answer_makes_progress(m: SamplerModel, draw: Draw)
    requires
        m.inv(),
        m.answered_by(draw),
    ensures
        m.step(draw) != m,
        m.nearer_to_end(m.step(draw)),
{
    let n = m.step(draw);
    match draw {
        Draw::First(p) => {
            assert(n.points.len() == m.points.len() + 1);
        },
        Draw::Pick(index) => {
            assert(n.selected is Some);
        },
        Draw::Candidate(p) => {
            match m.offer_outcome(p) {
                Offer::Idle => {},
                Offer::Accepted => {
                    assert(n.points.len() == m.points.len() + 1);
                },
                Offer::Rejected => {},
                Offer::Exhausted => {
                    assert(n.active.len() == m.active.len() - 1);
                },
            }
        },
    }
    lemma_step_makes_progress(m, draw);
}

/// The sampler asks for nothing exactly when sampling has ended.
pub proof fn lemma_finished_wants_nothing(m: SamplerModel)
    requires
        m.inv(),
    ensures
        m.wants() == Request::Finished <==> m.finished(),
{
}

/// Whether `i` is the index, along one axis, of the cell of side
/// `min_distance / √2` that holds the coordinate `v`: `i` cells end at or
/// before `v`, and `i + 1` cells end after it.
pub open spec fn is_fine_cell(v: int, min_distance: int, i: int) -> bool {
    &&& i >= 0
    &&& i * i * (min_distance * min_distance) <= 2 * (v * v)
    &&& 2 * (v * v) < (i + 1) * (i + 1) * (min_distance * min_distance)
}

/// Index, along one axis, of the cell of side `min_distance / √2` that holds
/// the coordinate `v`.
pub open spec fn fine_cell(v: int, min_distance: int) -> int {
    choose|i: int| is_fine_cell(v, min_distance, i)
}

proof fn lemma_fine_cell_search(v: int, r: int, k: int)
    requires
        v >= 0,
        r >= 1,
        k >= 0,
        k * k * (r * r) <= 2 * (v * v),
    ensures
        exists|i: int| is_fine_cell(v, r, i),
    decreases 2 * v + 1 - k,
{
    if 2 * (v * v) < (k + 1) * (k + 1) * (r * r) {
        assert(is_fine_cell(v, r, k));
    } else {
        assert(k < 2 * v + 1) by (nonlinear_arith)
            requires
                v >= 0,
                r >= 1,
                k >= 0,
                k * k * (r * r) <= 2 * (v * v),
        ;
        lemma_fine_cell_search(v, r, k + 1);
    }
}

/// Every coordinate that is not negative lies in a cell of side
/// `min_distance / √2`.
pub proof fn lemma_fine_cell_exists(v: int, min_distance: int)
    requires
        v >= 0,
        min_distance >= 1,
    ensures
        is_fine_cell(v, min_distance, fine_cell(v, min_distance)),
{
    assert(0 * 0 * (min_distance * min_distance) <= 2 * (v * v)) by (nonlinear_arith)
        requires
            v >= 0,
    ;
    lemma_fine_cell_search(v, min_distance, 0);
}

/// Two coordinates at least `min_distance / √2` apart do not lie in the same
/// cell of that side.
proof fn lemma_fine_cells_differ(a: int, b: int, r: int, i: int)
    requires
        0 <= b <= a,
        r >= 1,
        2 * ((a - b) * (a - b)) >= r * r,
        is_fine_cell(b, r, i),
    ensures
        !is_fine_cell(a, r, i),
{
    let e = a - b;
    let rr = r * r;
    let x = 2 * (b * b);
    let y = 2 * (e * e);
    let u = 2 * b * e;
    let w = i * rr;
    assert(i * i * rr == i * w) by (nonlinear_arith)
        requires
            w == i * rr,
    ;
    assert(u * u == x * y) by (nonlinear_arith)
        requires
            u == 2 * b * e,
            x == 2 * (b * b),
            y == 2 * (e * e),
    ;
    assert(w * w == (i * w) * rr) by (nonlinear_arith)
        requires
            w == i * rr,
    ;
    assert(x * y >= (i * w) * rr) by (nonlinear_arith)
        requires
            x >= i * w,
            y >= rr,
            i * w >= 0,
            rr >= 0,
            x >= 0,
    ;
    assert(u >= w) by (nonlinear_arith)
        requires
            u * u >= w * w,
            u >= 0,
            w >= 0,
    ;
    assert(2 * (a * a) == x + 2 * u + y) by (nonlinear_arith)
        requires
            a == b + e,
            x == 2 * (b * b),
            y == 2 * (e * e),
            u == 2 * b * e,
    ;
    assert((i + 1) * (i + 1) * rr == i * w + 2 * w + rr) by (nonlinear_arith)
        requires
            w == i * rr,
    ;
}

/// A coordinate of the region lies in one of the first `n` cells of side
/// `min_distance / √2` when `n` such cells cover the side of the region.
proof fn lemma_fine_cell_in_range(v: int, region: int, r: int, n: int, i: int)
    requires
        0 <= v < region,
        r >= 1,
        n >= 0,
        n * n * (r * r) >= 2 * (region * region),
        is_fine_cell(v, r, i),
    ensures
        0 <= i < n,
{
    let rr = r * r;
    assert(2 * (v * v) < 2 * (region * region)) by (nonlinear_arith)
        requires
            0 <= v < region,
    ;
    assert(rr >= 1) by (nonlinear_arith)
        requires
            r >= 1,
            rr == r * r,
    ;
    assert(i < n) by (nonlinear_arith)
        requires
            i >= 0,
            n >= 0,
            rr >= 1,
            i * i * rr < n * n * rr,
    ;
}

/// No cell of side `min_distance / √2` holds two accepted points.
pub proof fn lemma_points_lie_in_distinct_fine_cells(m: SamplerModel, i: int, j: int)
    requires
        m.inv(),
        0 <= i < m.points.len(),
        0 <= j < m.points.len(),
        i != j,
    ensures
        fine_cell(m.points[i].x as int, m.min_distance) != fine_cell(
            m.points[j].x as int,
            m.min_distance,
        ) || fine_cell(m.points[i].y as int, m.min_distance) != fine_cell(
            m.points[j].y as int,
            m.min_distance,
        ),
{
    let p = m.points[i];
    let q = m.points[j];
    let r = m.min_distance;
    let c = m.cell_size;
    let dx = p.x - q.x;
    let dy = p.y - q.y;
    assert(m.in_region(p) && m.in_region(q));
    assert(2 * (dx * dx) >= r * r || 2 * (dy * dy) >= r * r) by {
        if m.neighbours(p, q) {
            lemma_neighbouring_points_keep_distance(m, i, j);
        } else {
            lemma_distant_cells_are_apart(m, p, q);
            assert(2 * (dx * dx) >= r * r || 2 * (dy * dy) >= r * r) by (nonlinear_arith)
                requires
                    dx > c || -dx > c || dy > c || -dy > c,
                    c >= 1,
                    r * r < 2 * (c + 1) * (c + 1),
            ;
        }
    }
    lemma_fine_cell_exists(p.x as int, r);
    lemma_fine_cell_exists(q.x as int, r);
    lemma_fine_cell_exists(p.y as int, r);
    lemma_fine_cell_exists(q.y as int, r);
    if 2 * (dx * dx) >= r * r {
        if p.x >= q.x {
            lemma_fine_cells_differ(p.x as int, q.x as int, r, fine_cell(q.x as int, r));
        } else {
            assert((q.x - p.x) * (q.x - p.x) == dx * dx) by (nonlinear_arith)
                requires
                    dx == p.x - q.x,
            ;
            lemma_fine_cells_differ(q.x as int, p.x as int, r, fine_cell(p.x as int, r));
        }
    } else {
        if p.y >= q.y {
            lemma_fine_cells_differ(p.y as int, q.y as int, r, fine_cell(q.y as int, r));
        } else {
            assert((q.y - p.y) * (q.y - p.y) == dy * dy) by (nonlinear_arith)
                requires
                    dy == p.y - q.y,
            ;
            lemma_fine_cells_differ(q.y as int, p.y as int, r, fine_cell(p.y as int, r));
        }
    }
}

/// The region saturates at one point per cell of side `min_distance / √2`:
/// when `n` such cells cover the side of the region, there are never more
/// than `n * n` accepted points.
pub proof fn lemma_point_count_within_fine_cells(m: SamplerModel, n: int)
    requires
        m.inv(),
        n >= 0,
        n * n * (m.min_distance * m.min_distance) >= 2 * (m.region_size * m.region_size),
    ensures
        m.points.len() <= n * n,
{
    let r = m.min_distance;
    let numbers = Seq::new(
        m.points.len(),
        |i: int| fine_cell(m.points[i].x as int, r) * n + fine_cell(m.points[i].y as int, r),
    );
    assert forall|i: int| 0 <= i < numbers.len() implies 0 <= #[trigger] numbers[i] < n * n by {
        let p = m.points[i];
        assert(m.in_region(p));
        lemma_fine_cell_exists(p.x as int, r);
        lemma_fine_cell_exists(p.y as int, r);
        let a = fine_cell(p.x as int, r);
        let b = fine_cell(p.y as int, r);
        lemma_fine_cell_in_range(p.x as int, m.region_size, r, n, a);
        lemma_fine_cell_in_range(p.y as int, m.region_size, r, n, b);
        assert(0 <= a * n + b < n * n) by (nonlinear_arith)
            requires
                0 <= a < n,
                0 <= b < n,
        ;
    }
    assert forall|i: int, j: int|
        0 <= i < numbers.len() && 0 <= j < numbers.len() && i != j implies numbers[i]
        != numbers[j] by {
        let p = m.points[i];
        let q = m.points[j];
        assert(m.in_region(p) && m.in_region(q));
        lemma_points_lie_in_distinct_fine_cells(m, i, j);
        lemma_fine_cell_exists(p.x as int, r);
        lemma_fine_cell_exists(p.y as int, r);
        lemma_fine_cell_exists(q.x as int, r);
        lemma_fine_cell_exists(q.y as int, r);
        let a = fine_cell(p.x as int, r);
        let b = fine_cell(p.y as int, r);
        let c = fine_cell(q.x as int, r);
        let d = fine_cell(q.y as int, r);
        lemma_fine_cell_in_range(p.y as int, m.region_size, r, n, b);
        lemma_fine_cell_in_range(q.y as int, m.region_size, r, n, d);
        if a * n + b == c * n + d {
            assert(a == c && b == d) by (nonlinear_arith)
                requires
                    a * n + b == c * n + d,
                    0 <= b < n,
                    0 <= d < n,
            ;
        }
    }
    assert(numbers.no_duplicates());
    numbers.unique_seq_to_set();
    assert(0 <= n * n) by (nonlinear_arith)
        requires
            n >= 0,
    ;
    lemma_int_range(0, n * n);
    assert(numbers.to_set().subset_of(set_int_range(0, n * n))) by {
        assert forall|v: int| numbers.to_set().contains(v) implies set_int_range(
            0,
            n * n,
        ).contains(v) by {
            let i = choose|i: int| 0 <= i < numbers.len() && numbers[i] == v;
            assert(0 <= numbers[i] < n * n);
        }
    }
    lemma_len_subset(numbers.to_set(), set_int_range(0, n * n));
}

} // verus!
