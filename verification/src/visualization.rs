//! Lines and points for drawing the flow.

use crate::dem::{lemma_cell_coordinates, lemma_index_in_range};
use crate::direction::FlowDirection;
use crate::flow::{copy_of, FlowModel, Slope};
use crate::sorting::{is_ranked, ranked_indices};
use crate::streams::{portion, portion_of};
use vstd::prelude::*;

verus! {

/// The coordinate a quarter of the way from `a` to `b`, rounded down to a
/// whole number.
pub open spec fn quarter_way(a: usize, b: usize) -> usize {
    ((3 * a + b) / 4) as usize
}

/// The coordinate a quarter of the way from `a` to `b` lies between the
/// two.
pub proof fn lemma_quarter_way_between(a: usize, b: usize)
    ensures
        a <= b ==> a <= quarter_way(a, b) <= b,
        b <= a ==> b <= quarter_way(a, b) <= a,
        (3 * a + b) / 4 <= usize::MAX,
{
}

/// Every coordinate of the line lies between `low` and `high`.
pub open spec fn within(line: Seq<(usize, usize)>, low: (usize, usize), high: (usize, usize)) -> bool {
    forall|k: int|
        0 <= k < line.len() ==> low.0 <= (#[trigger] line[k]).0 <= high.0 && low.1 <= line[k].1
            <= high.1
}

/// Cutting corners keeps a line inside every box that holds it.
pub proof fn lemma_cut_stays_within(
    line: Seq<(usize, usize)>,
    iterations: nat,
    low: (usize, usize),
    high: (usize, usize),
)
    requires
        within(line, low, high),
    ensures
        within(cut_repeatedly(line, iterations), low, high),
    decreases iterations,
{
    if iterations > 0 {
        let cut = corner_cut(line);
        assert forall|k: int| 0 <= k < cut.len() implies low.0 <= (#[trigger] cut[k]).0 <= high.0
            && low.1 <= cut[k].1 <= high.1 by {
            if k == 0 {
                assert(cut[k] == line[0]);
            } else if k == 2 * line.len() - 1 {
                assert(cut[k] == line[line.len() - 1]);
            } else {
                let from = line[(k - 1) / 2];
                let to = line[(k - 1) / 2 + 1];
                lemma_quarter_way_between(from.0, to.0);
                lemma_quarter_way_between(from.1, to.1);
                lemma_quarter_way_between(to.0, from.0);
                lemma_quarter_way_between(to.1, from.1);
            }
        }
        lemma_cut_stays_within(cut, (iterations - 1) as nat, low, high);
    }
}

/// Smoothing keeps a line inside every box that holds it: no point leaves
/// the segments that it was cut from.
pub proof fn lemma_smoothing_stays_within(
    line: Seq<(usize, usize)>,
    iterations: nat,
    low: (usize, usize),
    high: (usize, usize),
)
    requires
        within(line, low, high),
    ensures
        within(smoothed(line, iterations), low, high),
{
    lemma_cut_stays_within(line, iterations, low, high);
}

/// The point a quarter of the way from `p` to `q`.
pub open spec fn quarter_point(p: (usize, usize), q: (usize, usize)) -> (usize, usize) {
    (quarter_way(p.0, q.0), quarter_way(p.1, q.1))
}

/// The line with its corners cut once: the first point, then for every
/// segment the points a quarter and three quarters of the way along it,
/// then the last point.
pub open spec fn corner_cut(line: Seq<(usize, usize)>) -> Seq<(usize, usize)> {
    Seq::new(
        2 * line.len(),
        |k: int|
            if k == 0 {
                line[0]
            } else if k == 2 * line.len() - 1 {
                line[line.len() - 1]
            } else if (k - 1) % 2 == 0 {
                quarter_point(line[(k - 1) / 2], line[(k - 1) / 2 + 1])
            } else {
                quarter_point(line[(k - 1) / 2 + 1], line[(k - 1) / 2])
            },
    )
}

/// The line with its corners cut `iterations` times.
pub open spec fn cut_repeatedly(line: Seq<(usize, usize)>, iterations: nat) -> Seq<(usize, usize)>
    decreases iterations,
{
    if iterations == 0 {
        line
    } else {
        cut_repeatedly(corner_cut(line), (iterations - 1) as nat)
    }
}

/// The line smoothed: a line of fewer than three points stays as it is,
/// any other has its corners cut `iterations` times.
pub open spec fn smoothed(line: Seq<(usize, usize)>, iterations: nat) -> Seq<(usize, usize)> {
    if line.len() < 3 {
        line
    } else {
        cut_repeatedly(line, iterations)
    }
}

/// Cutting corners keeps the first and the last point, and doubles the
/// number of points each time.
pub proof fn lemma_cut_keeps_ends(line: Seq<(usize, usize)>, iterations: nat)
    requires
        line.len() > 0,
    ensures
        cut_repeatedly(line, iterations).len() >= line.len(),
        cut_repeatedly(line, iterations).first() == line.first(),
        cut_repeatedly(line, iterations).last() == line.last(),
    decreases iterations,
{
    if iterations > 0 {
        lemma_cut_keeps_ends(corner_cut(line), (iterations - 1) as nat);
    }
}

/// Smoothing never moves the first or the last point of a line.
pub proof fn lemma_smoothing_keeps_ends(line: Seq<(usize, usize)>, iterations: nat)
    requires
        line.len() > 0,
    ensures
        smoothed(line, iterations).len() >= line.len(),
        smoothed(line, iterations).first() == line.first(),
        smoothed(line, iterations).last() == line.last(),
{
    lemma_cut_keeps_ends(line, iterations);
}

/// The coordinate a quarter of the way from `a` to `b`, rounded down.
fn quarter(a: usize, b: usize) -> (r: usize)
    ensures
        r == quarter_way(a, b),
{
    proof {
        lemma_quarter_way_between(a, b);
    }
    let wide: u128 = (3 * (a as u128) + (b as u128)) / 4;
    wide as usize
}

/// Cuts the corners of a line once.
fn cut_corners(line: &Vec<(usize, usize)>) -> (r: Vec<(usize, usize)>)
    requires
        line@.len() >= 1,
    ensures
        r@ == corner_cut(line@),
{
    let mut cut: Vec<(usize, usize)> = Vec::new();
    cut.push(line[0]);
    let mut i: usize = 0;
    while i < line.len() - 1
        invariant
            line@.len() >= 1,
            i <= line@.len() - 1,
            cut@.len() == 1 + 2 * i,
            forall|k: int| 0 <= k < cut@.len() ==> cut@[k] == corner_cut(line@)[k],
        decreases line@.len() - i,
    {
        let from: (usize, usize) = line[i];
        let to: (usize, usize) = line[i + 1];
        let q: (usize, usize) = (quarter(from.0, to.0), quarter(from.1, to.1));
        let r: (usize, usize) = (quarter(to.0, from.0), quarter(to.1, from.1));
        cut.push(q);
        cut.push(r);
        i += 1;
    }
    cut.push(line[line.len() - 1]);
    assert(cut@ =~= corner_cut(line@));
    cut
}

/// Smooths every line of three points or more by cutting its corners
/// `iterations` times. The coordinates are rounded down to whole numbers;
/// no point leaves the segment that it was cut from, and the first and the
/// last point of every line stay where they are.
pub fn smooth_stream_polylines(polylines: &mut Vec<Vec<(usize, usize)>>, iterations: usize)
    ensures
        final(polylines)@.len() == old(polylines)@.len(),
        forall|l: int|
            0 <= l < final(polylines)@.len() ==> (#[trigger] final(polylines)@[l])@ == smoothed(
                old(polylines)@[l]@,
                iterations as nat,
            ),
        forall|l: int|
            0 <= l < final(polylines)@.len() && old(polylines)@[l]@.len() > 0 ==> {
                &&& (#[trigger] final(polylines)@[l])@.len() >= old(polylines)@[l]@.len()
                &&& final(polylines)@[l]@.first() == old(polylines)@[l]@.first()
                &&& final(polylines)@[l]@.last() == old(polylines)@[l]@.last()
            },
        forall|l: int, low: (usize, usize), high: (usize, usize)|
            0 <= l < final(polylines)@.len() && #[trigger] within(old(polylines)@[l]@, low, high)
                ==> within(final(polylines)@[l]@, low, high),
{
    let count: usize = polylines.len();
    let mut l: usize = 0;
    while l < count
        invariant
            l <= count,
            count == polylines@.len(),
            count == old(polylines)@.len(),
            forall|j: int|
                0 <= j < l ==> (#[trigger] polylines@[j])@ == smoothed(
                    old(polylines)@[j]@,
                    iterations as nat,
                ),
            forall|j: int| l <= j < count ==> polylines@[j] == old(polylines)@[j],
        decreases count - l,
    {
        if polylines[l].len() >= 3 {
            let smooth: Vec<(usize, usize)> = cut_corners_of(polylines, l, iterations);
            polylines.set(l, smooth);
        }
        l += 1;
    }
    proof {
        assert forall|l: int|
            0 <= l < polylines@.len() && old(polylines)@[l]@.len() > 0 implies {
            &&& (#[trigger] polylines@[l])@.len() >= old(polylines)@[l]@.len()
            &&& polylines@[l]@.first() == old(polylines)@[l]@.first()
            &&& polylines@[l]@.last() == old(polylines)@[l]@.last()
        } by {
            lemma_smoothing_keeps_ends(old(polylines)@[l]@, iterations as nat);
        }
        assert forall|l: int, low: (usize, usize), high: (usize, usize)|
            0 <= l < polylines@.len() && #[trigger] within(
                old(polylines)@[l]@,
                low,
                high,
            ) implies within(polylines@[l]@, low, high) by {
            lemma_smoothing_stays_within(old(polylines)@[l]@, iterations as nat, low, high);
        }
    }
}

/// Line `l` with its corners cut `iterations` times.
fn cut_corners_of(polylines: &Vec<Vec<(usize, usize)>>, l: usize, iterations: usize) -> (r: Vec<
    (usize, usize),
>)
    requires
        l < polylines@.len(),
        polylines@[l as int]@.len() >= 1,
    ensures
        r@ == cut_repeatedly(polylines@[l as int]@, iterations as nat),
{
    let mut line: Vec<(usize, usize)> = cut_once_or_copy(&polylines[l], iterations > 0);
    let mut round: usize = 1;
    while round < iterations
        invariant
            1 <= round,
            iterations > 0 ==> round <= iterations,
            line@.len() >= 1,
            iterations > 0 ==> cut_repeatedly(polylines@[l as int]@, iterations as nat)
                == cut_repeatedly(line@, (iterations - round) as nat),
            iterations == 0 ==> line@ == polylines@[l as int]@,
        decreases iterations - round,
    {
        line = cut_corners(&line);
        round += 1;
    }
    line
}

/// The line with its corners cut once where `cut` holds, else a copy of
/// it.
fn cut_once_or_copy(line: &Vec<(usize, usize)>, cut: bool) -> (r: Vec<(usize, usize)>)
    requires
        line@.len() >= 1,
    ensures
        r@ == if cut {
            corner_cut(line@)
        } else {
            line@
        },
{
    if cut {
        cut_corners(line)
    } else {
        copy_of(line)
    }
}

/// The columns and rows of the cells of a course.
pub open spec fn points_of(model: &FlowModel, course: Seq<int>) -> Seq<(usize, usize)> {
    Seq::new(course.len(), |k: int| model.dem@.point(course[k]))
}

/// The stream lines for drawing, for an accumulation of
/// `threshold_percentile` millionths of the largest accumulation or more,
/// smoothed `smooth_iterations` times. Each cell that carries that much
/// starts a line, row by row, unless an earlier line has claimed it. A line
/// follows the flow from cell to cell and ends before the first cell that
/// carries less or is claimed already, or where no cell lies downstream.
/// Lines of a single cell are dropped.
pub fn generate_stream_network(
    flow_model: &FlowModel,
    threshold_percentile: u32,
    smooth_iterations: usize,
) -> (r: Vec<Vec<(usize, usize)>>)
    requires
        flow_model.wf(),
    ensures
        ({
            let threshold = portion(flow_model.largest(flow_model.cells()), threshold_percentile);
            let seeds = flow_model.cells_reaching(threshold, flow_model.cells());
            let courses = flow_model.traced(threshold, seeds, seeds.len() as int, false).0;
            &&& r@.len() == courses.len()
            &&& forall|l: int|
                0 <= l < r@.len() ==> (#[trigger] r@[l])@ == smoothed(
                    points_of(flow_model, courses[l]),
                    smooth_iterations as nat,
                )
        }),
{
    let max_flow: u64 = flow_model.max_accumulation();
    let ghost level = portion(max_flow, threshold_percentile);
    let ghost seeds = flow_model.cells_reaching(level, flow_model.cells());
    let ghost courses = flow_model.traced(level, seeds, seeds.len() as int, false).0;
    match portion_of(max_flow, threshold_percentile) {
        Some(threshold) => {
            let stream_cells: Vec<usize> = flow_model.cells_at_or_above(threshold);
            let mut polylines: Vec<Vec<(usize, usize)>> = flow_model.trace_lines(
                threshold,
                &stream_cells,
                false,
            );
            let ghost traced = polylines@;
            smooth_stream_polylines(&mut polylines, smooth_iterations);
            proof {
                assert forall|l: int| 0 <= l < polylines@.len() implies (#[trigger] polylines@[l])@
                    == smoothed(points_of(flow_model, courses[l]), smooth_iterations as nat) by {
                    assert(flow_model.dem@.is_line(traced[l]@, courses[l]));
                    assert(traced[l]@ =~= points_of(flow_model, courses[l]));
                }
            }
            polylines
        },
        None => {
            proof {
                flow_model.lemma_none_reach(level, flow_model.cells());
            }
            Vec::new()
        },
    }
}

impl FlowModel {
    /// The neighbour at place `k` around cell `i`, where its stored
    /// direction points at cell `i`.
    pub open spec fn feeder(&self, i: int, k: int) -> Option<int> {
        match self.dem@.neighbor(i, FlowDirection::spec_from_octant(k)) {
            Some(j) => if self.dem@.neighbor(j, self.flow_directions@[j]) == Some(i) {
                Some(j)
            } else {
                None
            },
            None => None,
        }
    }

    /// How many of the neighbours at the first `k` places around cell `i`
    /// point at it.
    pub open spec fn feeders(&self, i: int, k: int) -> int
        decreases k,
    {
        if k <= 0 {
            0
        } else {
            self.feeders(i, k - 1) + if self.feeder(i, k - 1) is Some {
                1int
            } else {
                0int
            }
        }
    }

    /// The largest accumulation among the neighbours at the first `k`
    /// places around cell `i` that point at it; 0 where none does.
    pub open spec fn largest_feed(&self, i: int, k: int) -> u64
        decreases k,
    {
        if k <= 0 {
            0
        } else {
            let before = self.largest_feed(i, k - 1);
            match self.feeder(i, k - 1) {
                Some(j) => if self.flow_accumulation@[j] > before {
                    self.flow_accumulation@[j]
                } else {
                    before
                },
                None => before,
            }
        }
    }

    /// Cell `i` is worth marking on a stream: streams join in it, or its
    /// largest tributary brings more than four fifths of its accumulation,
    /// or its column and row add up to a multiple of 20.
    pub open spec fn stream_feature(&self, i: int) -> bool {
        ||| self.feeders(i, 8) > 1
        ||| self.largest_feed(i, 8) * 5 > self.flow_accumulation@[i] * 4
        ||| (self.dem@.col(i) + self.dem@.row(i)) % 20 == 0
    }

    /// Cell `i` is a point at which to release particles: it has data, it
    /// carries more than a hundredth of the largest accumulation, its water
    /// flows on, and it is worth marking on a stream.
    pub open spec fn is_spawn(&self, i: int) -> bool {
        &&& self.dem@.valid(i)
        &&& self.flow_accumulation@[i] * 100 > self.largest(self.cells())
        &&& self.flow_directions@[i] != FlowDirection::NoFlow
        &&& self.stream_feature(i)
    }

    /// The cells before `upto` at which to release particles, in the order
    /// of their indices.
    pub open spec fn spawn_cells(&self, upto: int) -> Seq<int>
        decreases upto,
    {
        if upto <= 0 {
            Seq::empty()
        } else if self.is_spawn(upto - 1) {
            self.spawn_cells(upto - 1).push(upto - 1)
        } else {
            self.spawn_cells(upto - 1)
        }
    }

    /// The accumulation of each of `cells`.
    pub open spec fn flows_of(&self, cells: Seq<int>) -> Seq<u64> {
        Seq::new(cells.len(), |k: int| self.flow_accumulation@[cells[k]])
    }
}

/// Whether the cell at `(x, y)` is worth marking on a stream.
pub fn is_stream_feature(flow_model: &FlowModel, x: usize, y: usize) -> (r: bool)
    requires
        flow_model.wf(),
        x < flow_model.dem.width,
        y < flow_model.dem.height,
    ensures
        r == flow_model.stream_feature(flow_model.dem@.index(x as int, y as int)),
{
    let width: usize = flow_model.dem.width;
    let height: usize = flow_model.dem.height;
    proof {
        lemma_index_in_range(width as int, height as int, x as int, y as int);
    }
    let idx: usize = y * width + x;
    let cell_flow: u64 = flow_model.flow_accumulation[idx];
    let mut inflow_count: usize = 0;
    let mut max_inflow: u64 = 0;
    let mut k: usize = 0;
    while k < 8
        invariant
            flow_model.wf(),
            width == flow_model.dem.width,
            height == flow_model.dem.height,
            x < width,
            y < height,
            idx == y * width + x,
            idx < flow_model.cells(),
            idx % width == x,
            idx / width == y,
            k <= 8,
            inflow_count == flow_model.feeders(idx as int, k as int),
            inflow_count <= k,
            max_inflow == flow_model.largest_feed(idx as int, k as int),
        decreases 8 - k,
    {
        if let Some((nx, ny)) = flow_model.dem.neighbor(x, y, FlowDirection::from_octant(k)) {
            proof {
                lemma_index_in_range(width as int, height as int, nx as int, ny as int);
            }
            let n_idx: usize = ny * width + nx;
            let n_flow: u64 = flow_model.flow_accumulation[n_idx];
            let n_dir: FlowDirection = flow_model.flow_directions[n_idx];
            if let Some((tx, ty)) = flow_model.dem.neighbor(nx, ny, n_dir) {
                proof {
                    lemma_index_in_range(width as int, height as int, tx as int, ty as int);
                }
                if tx == x && ty == y {
                    inflow_count += 1;
                    if n_flow > max_inflow {
                        max_inflow = n_flow;
                    }
                }
            }
        }
        k += 1;
    }
    inflow_count > 1 || (max_inflow as u128) * 5 > (cell_flow as u128) * 4 || (x as u128 + y as u128)
        % 20 == 0
}

/// What a renderer needs to draw the flow.
pub struct WaterFlowVisualizationData {
    /// Number of columns of the grid.
    pub width: usize,
    /// Number of rows of the grid.
    pub height: usize,
    /// Flow accumulation per cell.
    pub flow_accumulation: Vec<u64>,
    /// Slope per cell.
    pub slopes: Vec<Slope>,
    /// The points at which to release particles.
    pub spawn_points: Vec<(usize, usize)>,
}

impl WaterFlowVisualizationData {
    /// Empty data for a grid of `width` by `height` cells; `None` where the
    /// number of cells does not fit.
    pub fn new(width: usize, height: usize) -> (r: Option<Self>)
        ensures
            r is Some <==> width * height <= usize::MAX,
            r matches Some(data) ==> {
                &&& data.width == width
                &&& data.height == height
                &&& data.flow_accumulation@ == Seq::new((width * height) as nat, |i: int| 0u64)
                &&& data.slopes@ == Seq::new(
                    (width * height) as nat,
                    |i: int| Slope { drop: 0, diagonal: false },
                )
                &&& data.spawn_points@.len() == 0
            },
    {
        match width.checked_mul(height) {
            Some(size) => {
                let flow_accumulation: Vec<u64> = crate::flow::filled(0u64, size);
                let slopes: Vec<Slope> = crate::flow::filled(Slope::flat(), size);
                assert(flow_accumulation@ =~= Seq::new((width * height) as nat, |i: int| 0u64));
                assert(slopes@ =~= Seq::new(
                    (width * height) as nat,
                    |i: int| Slope { drop: 0, diagonal: false },
                ));
                Some(
                    WaterFlowVisualizationData {
                        width,
                        height,
                        flow_accumulation,
                        slopes,
                        spawn_points: Vec::new(),
                    },
                )
            },
            None => None,
        }
    }
}

/// `kept` holds the points of the `cap` cells with the largest accumulation
/// among `cells`, the largest first and, among equal accumulations, in the
/// order of `cells`.
pub open spec fn is_pick(
    model: &FlowModel,
    kept: Seq<(usize, usize)>,
    cells: Seq<int>,
    cap: int,
) -> bool {
    exists|order: Seq<usize>|
        {
            &&& #[trigger] is_ranked(order, model.flows_of(cells), 0)
            &&& kept.len() == cap
            &&& cap <= order.len()
            &&& forall|q: int| 0 <= q < cap ==> #[trigger] kept[q] == model.dem@.point(cells[order[q] as int])
        }
}

/// `points` are the points at which to release particles: all the cells
/// that qualify, row by row, where they are 1000 at most, and else the 1000
/// of them with the largest accumulation.
pub open spec fn are_spawn_points(model: &FlowModel, points: Seq<(usize, usize)>) -> bool {
    let cells = model.spawn_cells(model.cells());
    if cells.len() <= 1000 {
        model.dem@.is_line(points, cells)
    } else {
        is_pick(model, points, cells, 1000)
    }
}

/// The data for drawing the flow: the accumulation and the slope of every
/// cell, and the points at which to release particles. There are at most
/// 1000 such points: where more cells qualify, those with the largest
/// accumulation are kept.
pub fn generate_visualization_data(flow_model: &FlowModel) -> (r: WaterFlowVisualizationData)
    requires
        flow_model.wf(),
    ensures
        r.width == flow_model.dem.width,
        r.height == flow_model.dem.height,
        r.flow_accumulation@ == flow_model.flow_accumulation@,
        r.slopes@ == flow_model.slopes@,
        are_spawn_points(flow_model, r.spawn_points@),
{
    let width: usize = flow_model.dem.width;
    let height: usize = flow_model.dem.height;
    let n: usize = flow_model.dem.data.len();
    let max_flow: u64 = flow_model.max_accumulation();
    let mut spawn_points: Vec<(usize, usize)> = Vec::new();
    let mut flows: Vec<u64> = Vec::new();
    let mut idx: usize = 0;
    while idx < n
        invariant
            flow_model.wf(),
            idx <= n,
            n == flow_model.cells(),
            width == flow_model.dem.width,
            height == flow_model.dem.height,
            max_flow == flow_model.largest(flow_model.cells()),
            flow_model.dem@.is_line(spawn_points@, flow_model.spawn_cells(idx as int)),
            flows@ == flow_model.flows_of(flow_model.spawn_cells(idx as int)),
            forall|k: int|
                0 <= k < flow_model.spawn_cells(idx as int).len() ==> 0
                    <= #[trigger] flow_model.spawn_cells(idx as int)[k] < idx,
        decreases n - idx,
    {
        let x: usize = idx % width;
        let y: usize = idx / width;
        proof {
            lemma_cell_coordinates(width as int, height as int, idx as int);
        }
        if flow_model.dem.get_elevation(x, y).is_some() {
            let flow: u64 = flow_model.flow_accumulation[idx];
            if (flow as u128) * 100 > max_flow as u128 {
                if flow_model.flow_directions[idx] != FlowDirection::NoFlow {
                    if is_stream_feature(flow_model, x, y) {
                        let ghost before = flow_model.spawn_cells(idx as int);
                        spawn_points.push((x, y));
                        flows.push(flow);
                        assert(flows@ =~= flow_model.flows_of(before.push(idx as int)));
                    }
                }
            }
        }
        idx += 1;
    }
    if spawn_points.len() > 1000 {
        let ghost cells = flow_model.spawn_cells(n as int);
        let order: Vec<usize> = ranked_indices(&flows, 0);
        let mut kept: Vec<(usize, usize)> = Vec::new();
        let mut q: usize = 0;
        while q < 1000
            invariant
                q <= 1000,
                order@.len() == spawn_points@.len(),
                spawn_points@.len() > 1000,
                kept@.len() == q,
                is_ranked(order@, flows@, 0),
                flows@.len() == spawn_points@.len(),
                forall|j: int| 0 <= j < q ==> #[trigger] kept@[j] == spawn_points@[order@[j] as int],
            decreases 1000 - q,
        {
            assert(order@[q as int] < flows@.len());
            kept.push(spawn_points[order[q]]);
            q += 1;
        }
        spawn_points = kept;
    }
    WaterFlowVisualizationData {
        width,
        height,
        flow_accumulation: copy_of(&flow_model.flow_accumulation),
        slopes: copy_of(&flow_model.slopes),
        spawn_points,
    }
}

} // verus!
