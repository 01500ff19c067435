//! Stream extraction: the cells that carry enough water, and the lines
//! along which that water runs.

use crate::dem::{lemma_cell_coordinates, lemma_index_in_range, Terrain};
use crate::flow::{copy_of, filled, FlowModel, UNIT};
use crate::sorting::{is_ranked, ranked_indices};
use vstd::prelude::*;

verus! {

/// The least whole number that is at least `share` millionths of `most`.
pub open spec fn portion(most: u64, share: u32) -> int {
    (most * share + UNIT - 1) / (UNIT as int)
}

/// A whole number reaches `share` millionths of `most` exactly when it
/// reaches `portion(most, share)`.
pub proof fn lemma_portion(most: u64, share: u32, amount: int)
    ensures
        amount >= portion(most, share) <==> amount * UNIT >= most * share,
{
    let total = most * share;
    let unit = UNIT as int;
    vstd::arithmetic::div_mod::lemma_fundamental_div_mod(total + unit - 1, unit);
    vstd::arithmetic::div_mod::lemma_mod_bound(total + unit - 1, unit);
    let q = (total + unit - 1) / unit;
    assert(amount >= q <==> amount * unit >= total) by (nonlinear_arith)
        requires
            unit > 0,
            total + unit - 1 == unit * q + (total + unit - 1) % unit,
            0 <= (total + unit - 1) % unit < unit,
    ;
}

/// The least whole number that is at least `share` millionths of `most`;
/// `None` where that does not fit.
pub fn portion_of(most: u64, share: u32) -> (r: Option<u64>)
    ensures
        r == if portion(most, share) <= u64::MAX {
            Some(portion(most, share) as u64)
        } else {
            None
        },
{
    assert(most * share <= u64::MAX * u32::MAX) by (nonlinear_arith)
        requires
            most <= u64::MAX,
            share <= u32::MAX,
    ;
    let total: u128 = (most as u128) * (share as u128);
    let least: u128 = (total + (UNIT as u128) - 1) / (UNIT as u128);
    if least <= u64::MAX as u128 {
        Some(least as u64)
    } else {
        None
    }
}

/// The indices in `seeds`, as whole numbers.
pub open spec fn as_cells(seeds: Seq<usize>) -> Seq<int> {
    Seq::new(seeds.len(), |k: int| seeds[k] as int)
}

impl Terrain {
    /// The column and row of cell `i`.
    pub open spec fn point(self, i: int) -> (usize, usize) {
        (self.col(i) as usize, self.row(i) as usize)
    }

    /// `line` gives the columns and rows of `cells`, one by one.
    pub open spec fn is_line(self, line: Seq<(usize, usize)>, cells: Seq<int>) -> bool {
        &&& line.len() == cells.len()
        &&& forall|k: int| 0 <= k < line.len() ==> #[trigger] line[k] == self.point(cells[k])
    }

    /// `lines` give the columns and rows of `courses`, one by one.
    pub open spec fn are_lines(self, lines: Seq<Vec<(usize, usize)>>, courses: Seq<Seq<int>>) -> bool {
        &&& lines.len() == courses.len()
        &&& forall|l: int| 0 <= l < lines.len() ==> self.is_line((#[trigger] lines[l])@, courses[l])
    }
}

impl FlowModel {
    /// The cells before `upto` whose accumulation reaches `threshold`, in
    /// the order of their indices.
    pub open spec fn cells_reaching(&self, threshold: int, upto: int) -> Seq<int>
        decreases upto,
    {
        if upto <= 0 {
            Seq::empty()
        } else if self.flow_accumulation@[upto - 1] >= threshold {
            self.cells_reaching(threshold, upto - 1).push(upto - 1)
        } else {
            self.cells_reaching(threshold, upto - 1)
        }
    }

    /// The largest accumulation among the cells before `upto`; 0 where
    /// there is none.
    pub open spec fn largest(&self, upto: int) -> u64
        decreases upto,
    {
        if upto <= 0 {
            0
        } else if self.flow_accumulation@[upto - 1] > self.largest(upto - 1) {
            self.flow_accumulation@[upto - 1]
        } else {
            self.largest(upto - 1)
        }
    }

    /// No cell before `upto` holds more than the largest accumulation, and
    /// some cell holds it.
    pub proof fn lemma_largest(&self, upto: int)
        requires
            0 <= upto <= self.flow_accumulation@.len(),
        ensures
            forall|i: int| 0 <= i < upto ==> self.flow_accumulation@[i] <= self.largest(upto),
            upto > 0 ==> exists|i: int|
                0 <= i < upto && self.flow_accumulation@[i] == self.largest(upto),
        decreases upto,
    {
        if upto > 0 {
            self.lemma_largest(upto - 1);
            if self.flow_accumulation@[upto - 1] > self.largest(upto - 1) || upto == 1 {
                assert(self.flow_accumulation@[upto - 1] == self.largest(upto));
            } else {
                let i = choose|i: int|
                    0 <= i < upto - 1 && self.flow_accumulation@[i] == self.largest(upto - 1);
                assert(self.flow_accumulation@[i] == self.largest(upto));
            }
        }
    }

    /// The largest accumulation of any cell.
    pub fn max_accumulation(&self) -> (most: u64)
        requires
            self.wf(),
        ensures
            most == self.largest(self.cells()),
    {
        let n: usize = self.flow_accumulation.len();
        let mut most: u64 = 0;
        let mut i: usize = 0;
        while i < n
            invariant
                i <= n,
                n == self.flow_accumulation@.len(),
                most == self.largest(i as int),
            decreases n - i,
        {
            if self.flow_accumulation[i] > most {
                most = self.flow_accumulation[i];
            }
            i += 1;
        }
        most
    }

    /// The cells whose accumulation reaches `threshold`, row by row.
    pub fn extract_stream_network(&self, threshold: u64) -> (r: Vec<(usize, usize)>)
        requires
            self.wf(),
        ensures
            self.dem@.is_line(r@, self.cells_reaching(threshold as int, self.cells())),
    {
        let width: usize = self.dem.width;
        let height: usize = self.dem.height;
        let n: usize = self.dem.data.len();
        let mut streams: Vec<(usize, usize)> = Vec::new();
        let mut idx: usize = 0;
        while idx < n
            invariant
                self.wf(),
                idx <= n,
                n == self.cells(),
                width == self.dem.width,
                height == self.dem.height,
                self.dem@.is_line(streams@, self.cells_reaching(threshold as int, idx as int)),
            decreases n - idx,
        {
            if self.flow_accumulation[idx] >= threshold {
                streams.push((idx % width, idx / width));
            }
            idx += 1;
        }
        streams
    }

    /// The cells whose accumulation reaches `percentile` millionths of the
    /// largest accumulation, row by row.
    pub fn get_major_streams(&self, percentile: u32) -> (r: Vec<(usize, usize)>)
        requires
            self.wf(),
        ensures
            self.dem@.is_line(
                r@,
                self.cells_reaching(portion(self.largest(self.cells()), percentile), self.cells()),
            ),
    {
        let max_flow: u64 = self.max_accumulation();
        match portion_of(max_flow, percentile) {
            Some(threshold) => self.extract_stream_network(threshold),
            None => {
                proof {
                    self.lemma_none_reach(portion(max_flow, percentile), self.cells());
                }
                Vec::new()
            },
        }
    }

    /// No cell reaches a threshold that lies above every `u64`.
    pub proof fn lemma_none_reach(&self, threshold: int, upto: int)
        requires
            threshold > u64::MAX,
        ensures
            self.cells_reaching(threshold, upto) == Seq::<int>::empty(),
        decreases upto,
    {
        if upto > 0 {
            self.lemma_none_reach(threshold, upto - 1);
        }
    }

    /// How far cell `i` lies above the lowest elevation there can be.
    pub open spec fn depth(&self, i: int) -> nat {
        if 0 <= i < self.cells() {
            (self.dem.data@[i] - i32::MIN) as nat
        } else {
            0
        }
    }

    /// A course that reaches cell `d` ends there: the cell carries too
    /// little water, or a course has claimed it already.
    pub open spec fn ends_at(&self, threshold: int, marks: Seq<bool>, d: int) -> bool {
        self.flow_accumulation@[d] < threshold || marks[d]
    }

    /// The cells of the course that starts at cell `cur`: it follows the
    /// flow from cell to cell and claims each cell it passes, until no cell
    /// lies downstream or the cell downstream ends it. Where `join` holds,
    /// the cell that ends the course is its last cell.
    pub open spec fn course(&self, threshold: int, marks: Seq<bool>, cur: int, join: bool) -> Seq<
        int,
    >
        decreases self.depth(cur),
    {
        match self.downstream(cur) {
            Some(d) => if !self.pours(cur, d) {
                seq![cur]
            } else if self.ends_at(threshold, marks.update(cur, true), d) {
                if join {
                    seq![cur, d]
                } else {
                    seq![cur]
                }
            } else {
                seq![cur] + self.course(threshold, marks.update(cur, true), d, join)
            },
            None => seq![cur],
        }
    }

    /// The claims once the course from cell `cur` has run.
    pub open spec fn claims(&self, threshold: int, marks: Seq<bool>, cur: int) -> Seq<bool>
        decreases self.depth(cur),
    {
        match self.downstream(cur) {
            Some(d) => if !self.pours(cur, d) || self.ends_at(
                threshold,
                marks.update(cur, true),
                d,
            ) {
                marks.update(cur, true)
            } else {
                self.claims(threshold, marks.update(cur, true), d)
            },
            None => marks.update(cur, true),
        }
    }

    /// A course starts at its first cell and follows the flow from cell to
    /// cell; every cell that it passes before its last, but for the first,
    /// carries the threshold and was not claimed before.
    pub proof fn lemma_course_follows_flow(
        &self,
        threshold: int,
        marks: Seq<bool>,
        cur: int,
        join: bool,
    )
        requires
            self.wf(),
            0 <= cur < self.cells(),
            marks.len() == self.cells(),
        ensures
            ({
                let course = self.course(threshold, marks, cur, join);
                &&& course.len() >= 1
                &&& course[0] == cur
                &&& forall|k: int|
                    0 <= k < course.len() - 1 ==> self.downstream(#[trigger] course[k]) == Some(
                        course[k + 1],
                    )
                &&& forall|k: int|
                    1 <= k < course.len() - 1 ==> self.flow_accumulation@[#[trigger] course[k]]
                        >= threshold && !marks[course[k]]
                &&& forall|k: int| 0 <= k < course.len() ==> 0 <= #[trigger] course[k] < self.cells()
            }),
        decreases self.depth(cur),
    {
        let course = self.course(threshold, marks, cur, join);
        if let Some(d) = self.downstream(cur) {
            self.lemma_flow_descends(cur);
            let here = marks.update(cur, true);
            if !self.ends_at(threshold, here, d) {
                self.lemma_course_follows_flow(threshold, here, d, join);
                let rest = self.course(threshold, here, d, join);
                assert(course =~= seq![cur] + rest);
                assert forall|k: int| 0 <= k < course.len() - 1 implies self.downstream(
                    #[trigger] course[k],
                ) == Some(course[k + 1]) by {
                    if k > 0 {
                        assert(course[k] == rest[k - 1]);
                        assert(course[k + 1] == rest[k - 1 + 1]);
                    }
                }
                assert forall|k: int| 1 <= k < course.len() - 1 implies self.flow_accumulation@[
                #[trigger] course[k]] >= threshold && !marks[course[k]] by {
                    assert(course[k] == rest[k - 1]);
                    if k > 1 {
                        assert(self.flow_accumulation@[rest[k - 1]] >= threshold
                            && !here[rest[k - 1]]);
                    }
                }
                assert forall|k: int| 0 <= k < course.len() implies 0 <= #[trigger] course[k]
                    < self.cells() by {
                    if k > 0 {
                        assert(course[k] == rest[k - 1]);
                    }
                }
            }
        }
    }

    /// The courses found from the first `k` seeds, and the claims they
    /// leave. A seed that is claimed already starts no course, and a course
    /// of a single cell is dropped.
    pub open spec fn traced(&self, threshold: int, seeds: Seq<int>, k: int, join: bool) -> (
        Seq<Seq<int>>,
        Seq<bool>,
    )
        decreases k,
    {
        if k <= 0 {
            (Seq::empty(), Seq::new(self.cells() as nat, |i: int| false))
        } else {
            let (lines, marks) = self.traced(threshold, seeds, k - 1, join);
            let seed = seeds[k - 1];
            if marks[seed] {
                (lines, marks)
            } else {
                let line = self.course(threshold, marks, seed, join);
                (
                    if line.len() >= 2 {
                        lines.push(line)
                    } else {
                        lines
                    },
                    self.claims(threshold, marks, seed),
                )
            }
        }
    }

    /// Follows the flow from each seed in turn and returns the courses
    /// found, as lines of columns and rows.
    pub fn trace_lines(&self, threshold: u64, seeds: &Vec<usize>, join: bool) -> (r: Vec<
        Vec<(usize, usize)>,
    >)
        requires
            self.wf(),
            forall|k: int| 0 <= k < seeds@.len() ==> seeds@[k] < self.cells(),
        ensures
            self.dem@.are_lines(
                r@,
                self.traced(threshold as int, as_cells(seeds@), seeds@.len() as int, join).0,
            ),
            forall|l: int| 0 <= l < r@.len() ==> (#[trigger] r@[l])@.len() >= 2,
    {
        let width: usize = self.dem.width;
        let height: usize = self.dem.height;
        let n: usize = self.dem.data.len();
        let ghost level = threshold as int;
        let ghost starts = as_cells(seeds@);
        let mut visited: Vec<bool> = filled(false, n);
        let mut polylines: Vec<Vec<(usize, usize)>> = Vec::new();
        assert(visited@ =~= self.traced(level, starts, 0, join).1);
        let mut k: usize = 0;
        while k < seeds.len()
            invariant
                self.wf(),
                k <= seeds@.len(),
                n == self.cells(),
                width == self.dem.width,
                height == self.dem.height,
                level == threshold as int,
                starts == as_cells(seeds@),
                forall|k: int| 0 <= k < seeds@.len() ==> seeds@[k] < self.cells(),
                visited@ == self.traced(level, starts, k as int, join).1,
                visited@.len() == n,
                self.dem@.are_lines(polylines@, self.traced(level, starts, k as int, join).0),
                forall|l: int| 0 <= l < polylines@.len() ==> (#[trigger] polylines@[l])@.len() >= 2,
            decreases seeds@.len() - k,
        {
            let seed: usize = seeds[k];
            assert(starts[k as int] == seed as int);
            let ghost lines0 = self.traced(level, starts, k as int, join).0;
            if !visited[seed] {
                let ghost marks0 = visited@;
                let mut polyline: Vec<(usize, usize)> = Vec::new();
                let mut cur: usize = seed;
                let mut running: bool = true;
                let ghost mut passed: Seq<int> = Seq::empty();
                while running
                    invariant
                        self.wf(),
                        n == self.cells(),
                        width == self.dem.width,
                        height == self.dem.height,
                        level == threshold as int,
                        cur < n,
                        visited@.len() == n,
                        marks0.len() == n,
                        self.dem@.is_line(polyline@, passed),
                        running ==> self.course(level, marks0, seed as int, join) == passed
                            + self.course(level, visited@, cur as int, join),
                        running ==> self.claims(level, marks0, seed as int) == self.claims(
                            level,
                            visited@,
                            cur as int,
                        ),
                        !running ==> self.course(level, marks0, seed as int, join) == passed,
                        !running ==> self.claims(level, marks0, seed as int) == visited@,
                    decreases self.depth(cur as int), if running { 1int } else { 0int },
                {
                    let x: usize = cur % width;
                    let y: usize = cur / width;
                    let ghost here = visited@;
                    let ghost sofar = passed;
                    proof {
                        lemma_cell_coordinates(width as int, height as int, cur as int);
                    }
                    visited.set(cur, true);
                    polyline.push((x, y));
                    proof {
                        passed = passed.push(cur as int);
                    }
                    match self.get_downstream_cell(x, y) {
                        Some((dx, dy)) => {
                            proof {
                                lemma_index_in_range(
                                    width as int,
                                    height as int,
                                    dx as int,
                                    dy as int,
                                );
                                self.lemma_flow_descends(cur as int);
                            }
                            let down: usize = dy * width + dx;
                            if self.flow_accumulation[down] < threshold || visited[down] {
                                if join {
                                    polyline.push((dx, dy));
                                    proof {
                                        passed = passed.push(down as int);
                                    }
                                }
                                running = false;
                                assert(self.course(level, marks0, seed as int, join) =~= passed);
                            } else {
                                assert(self.course(level, marks0, seed as int, join) =~= passed
                                    + self.course(level, visited@, down as int, join));
                                cur = down;
                            }
                        },
                        None => {
                            running = false;
                            assert(self.course(level, marks0, seed as int, join) =~= passed);
                        },
                    }
                }
                if polyline.len() >= 2 {
                    polylines.push(polyline);
                }
            }
            k += 1;
        }
        polylines
    }

    /// `seeds` lists the cells whose accumulation reaches `threshold`, each
    /// once, from the largest accumulation down and, among equal
    /// accumulations, in the order of their indices.
    pub open spec fn is_ranking(&self, seeds: Seq<int>, threshold: int) -> bool {
        &&& forall|a: int|
            0 <= a < seeds.len() ==> 0 <= #[trigger] seeds[a] < self.cells()
                && self.flow_accumulation@[seeds[a]] >= threshold
        &&& forall|i: int|
            0 <= i < self.cells() && #[trigger] self.flow_accumulation@[i] >= threshold
                ==> seeds.contains(i)
        &&& forall|a: int, b: int|
            0 <= a < b < seeds.len() ==> {
                ||| self.flow_accumulation@[#[trigger] seeds[a]] > self.flow_accumulation@[
                #[trigger] seeds[b]]
                ||| self.flow_accumulation@[seeds[a]] == self.flow_accumulation@[seeds[b]]
                    && seeds[a] < seeds[b]
            }
    }

    /// `lines` are the courses that start, in order, at the cells whose
    /// accumulation reaches `threshold`, the largest accumulation first.
    pub open spec fn is_trace(&self, lines: Seq<Vec<(usize, usize)>>, threshold: int) -> bool {
        exists|seeds: Seq<int>|
            #![trigger self.is_ranking(seeds, threshold)]
            self.is_ranking(seeds, threshold) && self.dem@.are_lines(
                lines,
                self.traced(threshold, seeds, seeds.len() as int, true).0,
            )
    }

    /// The cells whose accumulation reaches `threshold`, from the largest
    /// accumulation down.
    pub fn rank_cells(&self, threshold: u64) -> (seeds: Vec<usize>)
        requires
            self.wf(),
        ensures
            self.is_ranking(as_cells(seeds@), threshold as int),
            forall|k: int| 0 <= k < seeds@.len() ==> seeds@[k] < self.cells(),
    {
        let seeds: Vec<usize> = ranked_indices(&self.flow_accumulation, threshold);
        proof {
            let ranked = as_cells(seeds@);
            assert forall|i: int|
                0 <= i < self.cells() && #[trigger] self.flow_accumulation@[i]
                    >= threshold implies ranked.contains(i) by {
                assert(seeds@.contains(i as usize));
                let b = choose|b: int| 0 <= b < seeds@.len() && seeds@[b] == i as usize;
                assert(ranked[b] == i);
            }
            assert forall|a: int, b: int| 0 <= a < b < ranked.len() implies {
                ||| self.flow_accumulation@[#[trigger] ranked[a]] > self.flow_accumulation@[
                #[trigger] ranked[b]]
                ||| self.flow_accumulation@[ranked[a]] == self.flow_accumulation@[ranked[b]]
                    && ranked[a] < ranked[b]
            } by {
                assert(seeds@[a] == ranked[a] && seeds@[b] == ranked[b]);
            }
        }
        seeds
    }

    /// The stream lines for an accumulation of `threshold` or more. Each
    /// cell that carries that much starts a line, the cell with the largest
    /// accumulation first, unless an earlier line has claimed it. A line
    /// follows the flow from cell to cell and ends with the first cell that
    /// has no cell downstream, carries less than `threshold`, or is claimed
    /// already. Lines of a single cell are dropped.
    pub fn trace_streams(&self, threshold: u64) -> (r: Vec<Vec<(usize, usize)>>)
        requires
            self.wf(),
        ensures
            self.is_trace(r@, threshold as int),
            forall|l: int| 0 <= l < r@.len() ==> (#[trigger] r@[l])@.len() >= 2,
            threshold > self.largest(self.cells()) ==> r@.len() == 0,
    {
        let seeds: Vec<usize> = self.rank_cells(threshold);
        proof {
            let ranked = as_cells(seeds@);
            if threshold > self.largest(self.cells()) {
                self.lemma_largest(self.cells());
                if ranked.len() > 0 {
                    assert(self.flow_accumulation@[ranked[0]] >= threshold);
                }
                assert(self.traced(threshold as int, ranked, 0, true).0.len() == 0);
            }
        }
        self.trace_lines(threshold, &seeds, true)
    }

    /// The stream lines for an accumulation of `threshold_percentile`
    /// millionths of the largest accumulation or more.
    pub fn extract_high_quality_streams(&self, threshold_percentile: u32) -> (r: Vec<
        Vec<(usize, usize)>,
    >)
        requires
            self.wf(),
        ensures
            self.is_trace(r@, portion(self.largest(self.cells()), threshold_percentile)),
            forall|l: int| 0 <= l < r@.len() ==> (#[trigger] r@[l])@.len() >= 2,
            portion(self.largest(self.cells()), threshold_percentile) > self.largest(self.cells())
                ==> r@.len() == 0,
    {
        let max_flow: u64 = self.max_accumulation();
        match portion_of(max_flow, threshold_percentile) {
            Some(threshold) => self.trace_streams(threshold),
            None => {
                proof {
                    let level = portion(max_flow, threshold_percentile);
                    let none = Seq::<int>::empty();
                    assert(self.is_ranking(none, level));
                    assert(self.traced(level, none, 0, true).0.len() == 0);
                }
                Vec::new()
            },
        }
    }

    /// The accumulation of the cell at `point`; 0 where the point names no
    /// cell.
    pub open spec fn flow_at(&self, point: (usize, usize)) -> int {
        let i = point.1 * self.dem.width + point.0;
        if i < self.flow_accumulation@.len() {
            self.flow_accumulation@[i] as int
        } else {
            0
        }
    }

    /// The weight of a line: six times the mean accumulation at up to three
    /// points spread evenly along it, which is a whole number, and at most
    /// `u64::MAX`. A line without points weighs nothing.
    pub open spec fn importance(&self, line: Seq<(usize, usize)>) -> int {
        if line.len() == 0 {
            0
        } else {
            let samples: int = if line.len() < 3 {
                line.len() as int
            } else {
                3
            };
            let step = line.len() as int / samples;
            let total = self.flow_at(line[0]) + (if samples >= 2 {
                self.flow_at(line[step])
            } else {
                0
            }) + (if samples >= 3 {
                self.flow_at(line[2 * step])
            } else {
                0
            });
            let six_means = total * (6int / samples);
            if six_means > u64::MAX {
                u64::MAX as int
            } else {
                six_means
            }
        }
    }

    /// The accumulation of the cell at `point`; 0 where the point names no
    /// cell.
    fn sample(&self, point: (usize, usize)) -> (r: u64)
        ensures
            r == self.flow_at(point),
    {
        assert(point.1 * self.dem.width <= 0xffff_ffff_ffff_ffff * 0xffff_ffff_ffff_ffff)
            by (nonlinear_arith)
            requires
                point.1 <= 0xffff_ffff_ffff_ffff,
                self.dem.width <= 0xffff_ffff_ffff_ffff,
        ;
        let i: u128 = (point.1 as u128) * (self.dem.width as u128) + (point.0 as u128);
        if i < self.flow_accumulation.len() as u128 {
            self.flow_accumulation[i as usize]
        } else {
            0
        }
    }

    /// The weight of a line, by which lines are ranked.
    pub fn calculate_polyline_importance(&self, polyline: &Vec<(usize, usize)>) -> (r: u64)
        ensures
            r == self.importance(polyline@),
    {
        if polyline.len() == 0 {
            return 0;
        }
        let num_samples: usize = if polyline.len() < 3 {
            polyline.len()
        } else {
            3
        };
        let step: usize = polyline.len() / num_samples;
        assert(2 * step < polyline@.len() || num_samples < 3);
        assert(step < polyline@.len() || num_samples < 2);
        let mut total: u128 = self.sample(polyline[0]) as u128;
        if num_samples >= 2 {
            total = total + self.sample(polyline[step]) as u128;
        }
        if num_samples >= 3 {
            total = total + self.sample(polyline[2 * step]) as u128;
        }
        let factor: u128 = if num_samples == 1 {
            6
        } else if num_samples == 2 {
            3
        } else {
            2
        };
        assert(factor == 6int / (num_samples as int)) by {
            assert(6int / 1 == 6 && 6int / 2 == 3 && 6int / 3 == 2);
        }
        assert(total * factor <= 18 * 0xffff_ffff_ffff_ffff) by (nonlinear_arith)
            requires
                0 <= total <= 3 * 0xffff_ffff_ffff_ffff,
                1 <= factor <= 6,
        ;
        let six_means: u128 = total * factor;
        if six_means > u64::MAX as u128 {
            u64::MAX
        } else {
            six_means as u64
        }
    }

    /// The weight of each of `lines`.
    pub open spec fn weights(&self, lines: Seq<Vec<(usize, usize)>>) -> Seq<u64> {
        Seq::new(lines.len(), |l: int| self.importance(lines[l]@) as u64)
    }

    /// `kept` holds the `cap` weightiest of `lines`, or all of them where
    /// they are fewer, the weightiest first and, among equal weights, the
    /// earlier line first.
    pub open spec fn is_selection(
        &self,
        kept: Seq<Vec<(usize, usize)>>,
        lines: Seq<Vec<(usize, usize)>>,
        cap: int,
    ) -> bool {
        exists|order: Seq<usize>|
            {
                &&& #[trigger] is_ranked(order, self.weights(lines), 0)
                &&& order.len() == lines.len()
                &&& kept.len() == if lines.len() < cap {
                    lines.len() as int
                } else {
                    cap
                }
                &&& forall|q: int| 0 <= q < kept.len() ==> (#[trigger] kept[q])@ == lines[order[q] as int]@
            }
    }

    /// `level` holds the threshold that is `share` millionths of the
    /// largest accumulation, or `u64::MAX` where that does not fit, and the
    /// `cap` weightiest stream lines for that share.
    pub open spec fn is_level(
        &self,
        level: (Vec<Vec<(usize, usize)>>, u64),
        share: u32,
        cap: int,
    ) -> bool {
        let threshold = portion(self.largest(self.cells()), share);
        &&& level.1 == if threshold <= u64::MAX {
            threshold
        } else {
            u64::MAX as int
        }
        &&& exists|lines: Seq<Vec<(usize, usize)>>|
            #![trigger self.is_trace(lines, threshold)]
            self.is_trace(lines, threshold) && self.is_selection(level.0@, lines, cap)
    }

    /// The `cap` weightiest of `lines`, the weightiest first.
    pub fn select_streams(&self, lines: &Vec<Vec<(usize, usize)>>, cap: usize) -> (kept: Vec<
        Vec<(usize, usize)>,
    >)
        ensures
            self.is_selection(kept@, lines@, cap as int),
    {
        let mut weights: Vec<u64> = Vec::new();
        let mut l: usize = 0;
        while l < lines.len()
            invariant
                l <= lines@.len(),
                weights@.len() == l,
                forall|j: int| 0 <= j < l ==> weights@[j] == self.importance(lines@[j]@),
            decreases lines@.len() - l,
        {
            weights.push(self.calculate_polyline_importance(&lines[l]));
            l += 1;
        }
        assert(weights@ =~= self.weights(lines@));
        let order: Vec<usize> = ranked_indices(&weights, 0);
        let count: usize = if lines.len() < cap {
            lines.len()
        } else {
            cap
        };
        let mut kept: Vec<Vec<(usize, usize)>> = Vec::new();
        let mut q: usize = 0;
        while q < count
            invariant
                q <= count,
                count <= order@.len(),
                order@.len() == lines@.len(),
                kept@.len() == q,
                forall|a: int| 0 <= a < order@.len() ==> (#[trigger] order@[a]) < lines@.len(),
                forall|j: int| 0 <= j < q ==> (#[trigger] kept@[j])@ == lines@[order@[j] as int]@,
            decreases count - q,
        {
            kept.push(copy_of(&lines[order[q]]));
            q += 1;
        }
        kept
    }

    /// The stream network at two levels of detail, the coarser first: the
    /// 150 weightiest stream lines for a threshold of 5 % of the largest
    /// accumulation, then for 1 % of it.
    pub fn extract_hierarchical_streams(&self) -> (r: Vec<(Vec<Vec<(usize, usize)>>, u64)>)
        requires
            self.wf(),
        ensures
            r@.len() == 2,
            self.is_level(r@[0], 50_000, 150),
            self.is_level(r@[1], 10_000, 150),
    {
        let mut shares: Vec<u32> = Vec::new();
        shares.push(50_000);
        shares.push(10_000);
        self.extract_stream_levels(&shares, 150)
    }

    /// The stream network at the levels of detail asked for: for each of
    /// the shares of the largest accumulation, in millionths, the
    /// threshold that it gives and the `cap` weightiest stream lines for
    /// it.
    pub fn extract_stream_levels(&self, shares: &Vec<u32>, cap: usize) -> (r: Vec<
        (Vec<Vec<(usize, usize)>>, u64),
    >)
        requires
            self.wf(),
        ensures
            r@.len() == shares@.len(),
            forall|l: int|
                0 <= l < r@.len() ==> self.is_level(#[trigger] r@[l], shares@[l], cap as int),
    {
        let max_flow: u64 = self.max_accumulation();
        let mut levels: Vec<(Vec<Vec<(usize, usize)>>, u64)> = Vec::new();
        let mut l: usize = 0;
        while l < shares.len()
            invariant
                self.wf(),
                max_flow == self.largest(self.cells()),
                l <= shares@.len(),
                levels@.len() == l,
                forall|j: int|
                    0 <= j < l ==> self.is_level(#[trigger] levels@[j], shares@[j], cap as int),
            decreases shares@.len() - l,
        {
            let level = self.extract_level(max_flow, shares[l], cap);
            levels.push(level);
            l += 1;
        }
        levels
    }

    /// One level of detail: the threshold that is `share` millionths of
    /// `max_flow`, and the `cap` weightiest stream lines for it.
    fn extract_level(&self, max_flow: u64, share: u32, cap: usize) -> (level: (
        Vec<Vec<(usize, usize)>>,
        u64,
    ))
        requires
            self.wf(),
            max_flow == self.largest(self.cells()),
        ensures
            self.is_level(level, share, cap as int),
    {
        let polylines: Vec<Vec<(usize, usize)>> = self.extract_high_quality_streams(share);
        let kept: Vec<Vec<(usize, usize)>> = self.select_streams(&polylines, cap);
        let threshold: u64 = match portion_of(max_flow, share) {
            Some(threshold) => threshold,
            None => u64::MAX,
        };
        assert(self.is_trace(polylines@, portion(max_flow, share)) && self.is_selection(
            kept@,
            polylines@,
            cap as int,
        ));
        (kept, threshold)
    }

    /// The cells whose accumulation reaches `threshold`, in the order of
    /// their indices.
    pub fn cells_at_or_above(&self, threshold: u64) -> (r: Vec<usize>)
        requires
            self.wf(),
        ensures
            as_cells(r@) == self.cells_reaching(threshold as int, self.cells()),
            forall|k: int| 0 <= k < r@.len() ==> r@[k] < self.cells(),
    {
        let n: usize = self.flow_accumulation.len();
        let mut found: Vec<usize> = Vec::new();
        let mut idx: usize = 0;
        while idx < n
            invariant
                idx <= n,
                n == self.flow_accumulation@.len(),
                as_cells(found@) == self.cells_reaching(threshold as int, idx as int),
                forall|k: int| 0 <= k < found@.len() ==> found@[k] < idx,
            decreases n - idx,
        {
            if self.flow_accumulation[idx] >= threshold {
                let ghost earlier = found@;
                found.push(idx);
                assert(as_cells(found@) =~= as_cells(earlier).push(idx as int));
            }
            idx += 1;
        }
        found
    }
}

} // verus!
