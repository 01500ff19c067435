//! Stream lines meet only where one of them ends: no cell is passed by two
//! lines, nor twice by one.

use crate::dem::{lemma_cell_coordinates, Terrain};
use crate::flow::FlowModel;
use vstd::prelude::*;

verus! {

/// No cell is passed twice: two places, each before the end of its course,
/// that hold the same cell are the same place of the same course.
pub open spec fn passed_once(courses: Seq<Seq<int>>) -> bool {
    forall|a: int, p: int, b: int, q: int|
        #![trigger courses[a][p], courses[b][q]]
        0 <= a < courses.len() && 0 <= b < courses.len() && 0 <= p < courses[a].len() - 1 && 0
            <= q < courses[b].len() - 1 && courses[a][p] == courses[b][q] ==> a == b && p == q
}

/// Every cell that a course passes before its end is a cell of the grid
/// and is claimed.
pub open spec fn passed_are_claimed(courses: Seq<Seq<int>>, marks: Seq<bool>) -> bool {
    forall|a: int, p: int|
        0 <= a < courses.len() && 0 <= p < courses[a].len() - 1 ==> 0 <= #[trigger] courses[a][p]
            < marks.len() && marks[courses[a][p]]
}

/// Two cells of a grid at the same column and row are the same cell.
pub proof fn lemma_point_names_one_cell(t: Terrain, i: int, j: int)
    requires
        t.wf(),
        t.width <= usize::MAX,
        t.height <= usize::MAX,
        0 <= i < t.cells.len(),
        0 <= j < t.cells.len(),
        t.point(i) == t.point(j),
    ensures
        i == j,
{
    lemma_cell_coordinates(t.width as int, t.height as int, i);
    lemma_cell_coordinates(t.width as int, t.height as int, j);
}

impl FlowModel {
    /// Claims are never withdrawn, and the course from a cell claims every
    /// cell that it passes before its end.
    pub proof fn lemma_course_claims(&self, threshold: int, marks: Seq<bool>, cur: int, join: bool)
        requires
            self.wf(),
            0 <= cur < self.cells(),
            marks.len() == self.cells(),
        ensures
            ({
                let course = self.course(threshold, marks, cur, join);
                let claims = self.claims(threshold, marks, cur);
                &&& claims.len() == marks.len()
                &&& forall|c: int| 0 <= c < marks.len() && marks[c] ==> #[trigger] claims[c]
                &&& forall|k: int| 0 <= k < course.len() - 1 ==> claims[#[trigger] course[k]]
            }),
        decreases self.depth(cur),
    {
        let course = self.course(threshold, marks, cur, join);
        let here = marks.update(cur, true);
        if let Some(d) = self.downstream(cur) {
            self.lemma_flow_descends(cur);
            if !self.ends_at(threshold, here, d) {
                self.lemma_course_claims(threshold, here, d, join);
                let rest = self.course(threshold, here, d, join);
                let claims = self.claims(threshold, here, d);
                assert(course =~= seq![cur] + rest);
                assert(here[cur]);
                assert forall|k: int| 0 <= k < course.len() - 1 implies claims[
                #[trigger] course[k]] by {
                    if k > 0 {
                        assert(course[k] == rest[k - 1]);
                    }
                }
            }
        }
    }

    /// Along a course the ground descends, so no cell occurs in it twice.
    pub proof fn lemma_course_descends(
        &self,
        threshold: int,
        marks: Seq<bool>,
        cur: int,
        join: bool,
        p: int,
        q: int,
    )
        requires
            self.wf(),
            0 <= cur < self.cells(),
            marks.len() == self.cells(),
            0 <= p < q < self.course(threshold, marks, cur, join).len(),
        ensures
            self.dem.data@[self.course(threshold, marks, cur, join)[p]] > self.dem.data@[self.course(
                threshold,
                marks,
                cur,
                join,
            )[q]],
        decreases q,
    {
        let course = self.course(threshold, marks, cur, join);
        self.lemma_course_follows_flow(threshold, marks, cur, join);
        assert(self.downstream(course[q - 1]) == Some(course[q - 1 + 1]));
        assert(0 <= course[q - 1] < self.cells());
        self.lemma_flow_descends(course[q - 1]);
        if p < q - 1 {
            self.lemma_course_descends(threshold, marks, cur, join, p, q - 1);
        }
    }

    /// However many seeds have been followed, every cell that a course
    /// passes before its end is claimed, and no cell is passed twice.
    pub proof fn lemma_traced_apart(&self, threshold: int, seeds: Seq<int>, k: int, join: bool)
        requires
            self.wf(),
            0 <= k <= seeds.len(),
            forall|j: int| 0 <= j < seeds.len() ==> 0 <= #[trigger] seeds[j] < self.cells(),
        ensures
            self.traced(threshold, seeds, k, join).1.len() == self.cells(),
            passed_are_claimed(
                self.traced(threshold, seeds, k, join).0,
                self.traced(threshold, seeds, k, join).1,
            ),
            passed_once(self.traced(threshold, seeds, k, join).0),
        decreases k,
    {
        if k > 0 {
            self.lemma_traced_apart(threshold, seeds, k - 1, join);
            let (before, marks) = self.traced(threshold, seeds, k - 1, join);
            let (after, claims) = self.traced(threshold, seeds, k, join);
            let seed = seeds[k - 1];
            if !marks[seed] {
                let line = self.course(threshold, marks, seed, join);
                self.lemma_course_follows_flow(threshold, marks, seed, join);
                self.lemma_course_claims(threshold, marks, seed, join);
                assert forall|p: int| 0 <= p < line.len() - 1 implies !marks[#[trigger] line[p]] by {
                    if p > 0 {
                        assert(self.flow_accumulation@[line[p]] >= threshold && !marks[line[p]]);
                    }
                }
                assert forall|p: int, q: int|
                    0 <= p < line.len() - 1 && 0 <= q < line.len() - 1 && #[trigger] line[p]
                        == #[trigger] line[q] implies p == q by {
                    if p < q {
                        self.lemma_course_descends(threshold, marks, seed, join, p, q);
                    } else if q < p {
                        self.lemma_course_descends(threshold, marks, seed, join, q, p);
                    }
                }
                assert(passed_are_claimed(after, claims)) by {
                    assert forall|a: int, p: int|
                        0 <= a < after.len() && 0 <= p < after[a].len() - 1 implies 0
                            <= #[trigger] after[a][p] < claims.len() && claims[after[a][p]] by {
                        if a < before.len() {
                            assert(after[a] == before[a]);
                            assert(marks[before[a][p]]);
                        } else {
                            assert(after[a] == line);
                            assert(0 <= line[p] < self.cells());
                        }
                    }
                }
                assert(passed_once(after)) by {
                    assert forall|a: int, p: int, b: int, q: int|
                        #![trigger after[a][p], after[b][q]]
                        0 <= a < after.len() && 0 <= b < after.len() && 0 <= p < after[a].len() - 1
                            && 0 <= q < after[b].len() - 1 && after[a][p]
                            == after[b][q] implies a == b && p == q by {
                        if a < before.len() {
                            assert(after[a] == before[a]);
                            assert(marks[before[a][p]]);
                        } else {
                            assert(after[a] == line);
                            assert(!marks[line[p]]);
                        }
                        if b < before.len() {
                            assert(after[b] == before[b]);
                            assert(marks[before[b][q]]);
                        } else {
                            assert(after[b] == line);
                            assert(!marks[line[q]]);
                        }
                        if a < before.len() && b < before.len() {
                            assert(before[a][p] == before[b][q]);
                        }
                    }
                }
            }
        }
    }

    /// Stream lines meet only where one of them ends: a point that two
    /// traced lines hold before their ends, or one line at two places, is
    /// the same place of the same line.
    pub proof fn lemma_lines_meet_at_ends(
        &self,
        lines: Seq<Vec<(usize, usize)>>,
        threshold: int,
        a: int,
        p: int,
        b: int,
        q: int,
    )
        requires
            self.wf(),
            self.is_trace(lines, threshold),
            0 <= a < lines.len(),
            0 <= b < lines.len(),
            0 <= p < lines[a]@.len() - 1,
            0 <= q < lines[b]@.len() - 1,
            lines[a]@[p] == lines[b]@[q],
        ensures
            a == b,
            p == q,
    {
        let seeds = choose|seeds: Seq<int>|
            #![trigger self.is_ranking(seeds, threshold)]
            self.is_ranking(seeds, threshold) && self.dem@.are_lines(
                lines,
                self.traced(threshold, seeds, seeds.len() as int, true).0,
            );
        let (courses, marks) = self.traced(threshold, seeds, seeds.len() as int, true);
        assert forall|j: int| 0 <= j < seeds.len() implies 0 <= #[trigger] seeds[j]
            < self.cells() by {}
        self.lemma_traced_apart(threshold, seeds, seeds.len() as int, true);
        assert(self.dem@.is_line(lines[a]@, courses[a]));
        assert(self.dem@.is_line(lines[b]@, courses[b]));
        assert(lines[a]@[p] == self.dem@.point(courses[a][p]));
        assert(lines[b]@[q] == self.dem@.point(courses[b][q]));
        assert(0 <= courses[a][p] < marks.len());
        assert(0 <= courses[b][q] < marks.len());
        lemma_point_names_one_cell(self.dem@, courses[a][p], courses[b][q]);
    }
}

} // verus!
