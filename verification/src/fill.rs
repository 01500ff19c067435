//! Drainage conditioning: sinks are filled by a flood that starts on the rim
//! of the grid and always advances from its lowest cell.

use crate::dem::{lemma_cell_coordinates, lemma_index_in_range, DigitalElevationModel, Terrain};
use crate::heap::{PriorityItem, PriorityQueue};
use vstd::multiset::Multiset;
use vstd::prelude::*;

verus! {

/// The ways of removing sinks.
#[derive(Clone, Copy, Debug, PartialEq, Eq, Structural)]
pub enum SinkTreatmentMethod {
    /// Fill every sink to the level at which it spills.
    CompletelyFill,
    /// Fill, and tilt what was filled by this much a step.
    EpsilonFill(i32),
    /// Cut a way out of a sink through at most this many cells.
    Breach(usize),
    /// Cut where that is short enough, and fill elsewhere.
    Combined(i32, usize),
}

/// Bookkeeping of a flood in progress, kept for the proof only.
struct Flood {
    /// Cells that have entered the queue.
    closed: Seq<bool>,
    /// Cells that have left the queue and whose neighbours are all closed.
    done: Seq<bool>,
    /// For each closed cell, a walk to the rim that never steps upward and
    /// passes through closed cells only.
    paths: Seq<Seq<int>>,
    /// No queued entry lies below this elevation.
    floor: int,
    /// Rim cells below this index have been looked at.
    seeded: int,
    /// The closed cells as a set.
    members: Set<int>,
    /// How many entries have left the queue.
    popped: nat,
}

spec fn path_ok(t: Terrain, closed: Seq<bool>, path: Seq<int>, i: int) -> bool {
    &&& t.descends(path)
    &&& path[0] == i
    &&& forall|k: int| 0 <= k < path.len() ==> closed[#[trigger] path[k]]
}

spec fn inv_shape(before: Terrain, dem: DigitalElevationModel, fl: Flood) -> bool {
    let n = dem.data@.len() as int;
    &&& dem.wf()
    &&& before.wf()
    &&& dem@.at_least(before)
    &&& fl.closed.len() == n
    &&& fl.done.len() == n
    &&& fl.paths.len() == n
    &&& 0 <= fl.seeded <= n
    &&& forall|i: int| 0 <= i < n && !fl.closed[i] ==> #[trigger] dem@.cells[i] == before.cells[i]
    &&& forall|i: int| 0 <= i < n && #[trigger] fl.closed[i] ==> dem@.valid(i)
    &&& forall|i: int|
        0 <= i < fl.seeded && dem@.valid(i) && #[trigger] dem@.on_boundary(i) ==> fl.closed[i]
    &&& forall|i: int| 0 <= i < n && #[trigger] fl.done[i] ==> fl.closed[i]
    &&& fl.members.finite()
    &&& forall|i: int| #[trigger] fl.members.contains(i) <==> (0 <= i < n && fl.closed[i])
}

spec fn inv_paths(dem: DigitalElevationModel, fl: Flood) -> bool {
    forall|i: int|
        0 <= i < fl.closed.len() && #[trigger] fl.closed[i] ==> path_ok(
            dem@,
            fl.closed,
            fl.paths[i],
            i,
        )
}

spec fn inv_done(dem: DigitalElevationModel, fl: Flood) -> bool {
    forall|i: int, j: int|
        0 <= i < fl.done.len() && fl.done[i] && #[trigger] dem@.adjacent(i, j) && dem@.valid(j)
            ==> fl.closed[j]
}

spec fn entry(dem: DigitalElevationModel, i: int) -> PriorityItem {
    PriorityItem { elevation: dem.data@[i], index: i as usize }
}

spec fn inv_queue(
    dem: DigitalElevationModel,
    fl: Flood,
    queue: Multiset<PriorityItem>,
    current: Option<int>,
) -> bool {
    let n = dem.data@.len() as int;
    &&& forall|e: PriorityItem| #[trigger]
        queue.count(e) > 0 ==> {
            &&& e.index < n
            &&& fl.closed[e.index as int]
            &&& !fl.done[e.index as int]
            &&& e.elevation == dem.data@[e.index as int]
            &&& e.elevation >= fl.floor
            &&& queue.count(e) == 1
            &&& current != Some(e.index as int)
        }
    &&& forall|i: int|
        0 <= i < n && fl.closed[i] && !fl.done[i] && current != Some(i) ==> queue.count(
            #[trigger] entry(dem, i),
        ) > 0
    &&& current matches Some(c) ==> {
        &&& 0 <= c < n
        &&& fl.closed[c]
        &&& !fl.done[c]
        &&& dem.data@[c] == fl.floor
    }
    &&& queue.len() + fl.popped == fl.members.len()
}

spec fn inv_least(before: Terrain, dem: DigitalElevationModel, fl: Flood) -> bool {
    forall|h: Terrain, q: int|
        0 <= q < fl.closed.len() && fl.closed[q] && h.at_least(before) && #[trigger] h.drains(q)
            ==> h.elev(q) >= dem.data@[q]
}

#[verifier::opaque]
spec fn flood_inv(
    before: Terrain,
    dem: DigitalElevationModel,
    fl: Flood,
    queue: Multiset<PriorityItem>,
    current: Option<int>,
) -> bool {
    &&& inv_shape(before, dem, fl)
    &&& inv_paths(dem, fl)
    &&& inv_done(dem, fl)
    &&& inv_queue(dem, fl, queue, current)
    &&& inv_least(before, dem, fl)
}

/// A walk that holds a closed cell has a first closed cell.
proof fn lemma_first_closed(path: Seq<int>, closed: Seq<bool>, upto: int) -> (j: int)
    requires
        0 <= upto < path.len(),
        forall|k: int| 0 <= k < path.len() ==> 0 <= #[trigger] path[k] < closed.len(),
        closed[path[upto]],
    ensures
        0 <= j <= upto,
        closed[path[j]],
        forall|k: int| 0 <= k < j ==> !closed[#[trigger] path[k]],
    decreases upto,
{
    if exists|k: int| 0 <= k < upto && closed[#[trigger] path[k]] {
        let k = choose|k: int| 0 <= k < upto && closed[#[trigger] path[k]];
        lemma_first_closed(path, closed, k)
    } else {
        upto
    }
}

/// The rest of a descending walk is a descending walk, and lies no higher
/// than where the walk began.
proof fn lemma_suffix_descends(t: Terrain, path: Seq<int>, j: int)
    requires
        t.descends(path),
        0 <= j < path.len(),
    ensures
        t.descends(path.subrange(j, path.len() as int)),
        path.subrange(j, path.len() as int)[0] == path[j],
        t.elev(path[j]) <= t.elev(path[0]),
    decreases j,
{
    let rest = path.subrange(j, path.len() as int);
    assert forall|k: int| 0 <= k < rest.len() implies t.valid(#[trigger] rest[k]) by {
        assert(rest[k] == path[j + k]);
    }
    assert forall|k: int| 0 <= k < rest.len() - 1 implies t.adjacent(
        #[trigger] rest[k],
        rest[k + 1],
    ) by {
        assert(rest[k] == path[j + k]);
        assert(t.adjacent(path[j + k], path[j + k + 1]));
    }
    assert forall|k: int| 0 <= k < rest.len() - 1 implies t.elev(rest[k + 1]) <= t.elev(
        #[trigger] rest[k],
    ) by {
        assert(rest[k] == path[j + k]);
        assert(t.elev(path[j + k + 1]) <= t.elev(path[j + k]));
    }
    assert(rest.last() == path.last());
    if j > 0 {
        lemma_suffix_descends(t, path, j - 1);
        assert(t.elev(path[j - 1 + 1]) <= t.elev(path[j - 1]));
    }
}

/// A walk that connects in one terrain connects in every terrain of the
/// same shape.
proof fn lemma_connects_same_shape(a: Terrain, b: Terrain, path: Seq<int>)
    requires
        a.same_shape(b),
        a.connects(path),
    ensures
        b.connects(path),
{
    assert forall|k: int| 0 <= k < path.len() implies b.valid(#[trigger] path[k]) by {
        assert(a.valid(path[k]));
    }
    assert forall|k: int| 0 <= k < path.len() - 1 implies b.adjacent(
        #[trigger] path[k],
        path[k + 1],
    ) by {
        assert(a.adjacent(path[k], path[k + 1]));
    }
}

/// A descending walk stays one when the terrain changes elsewhere.
proof fn lemma_path_frame(a: Terrain, b: Terrain, path: Seq<int>, changed: int)
    requires
        a.same_shape(b),
        a.descends(path),
        forall|i: int| 0 <= i < a.cells.len() && i != changed ==> a.cells[i] == b.cells[i],
        forall|k: int| 0 <= k < path.len() ==> #[trigger] path[k] != changed,
    ensures
        b.descends(path),
{
    lemma_connects_same_shape(a, b, path);
    assert forall|k: int| 0 <= k < path.len() - 1 implies b.elev(path[k + 1]) <= b.elev(
        #[trigger] path[k],
    ) by {
        assert(a.valid(path[k]));
        assert(a.valid(path[k + 1]));
        assert(a.elev(path[k + 1]) <= a.elev(path[k]));
    }
}

/// While cell `c` is being worked on, a terrain above the unfilled one in which
/// the open cell `n` drains has `n` no lower than the flood's floor.
proof fn lemma_pour_bound(
    before: Terrain,
    dem: DigitalElevationModel,
    fl: Flood,
    queue: Multiset<PriorityItem>,
    c: int,
    n: int,
    h: Terrain,
)
    requires
        flood_inv(before, dem, fl, queue, Some(c)),
        fl.seeded == dem.data@.len(),
        0 <= n < dem.data@.len(),
        !fl.closed[n],
        h.at_least(before),
        h.drains(n),
    ensures
        h.elev(n) >= fl.floor,
{
    reveal(flood_inv);
    let p = choose|p: Seq<int>| h.descends(p) && p[0] == n;
    let last = p.len() - 1;
    assert(h.valid(p[last]));
    assert(before.cells[p[last]] is Some);
    assert(dem@.cells[p[last]] is Some);
    assert(dem@.valid(p[last]));
    assert(dem@.on_boundary(p[last]));
    assert(fl.closed[p[last]]);
    assert forall|k: int| 0 <= k < p.len() implies 0 <= #[trigger] p[k] < fl.closed.len() by {
        assert(h.valid(p[k]));
    }
    let j = lemma_first_closed(p, fl.closed, last);
    assert(j >= 1);
    let q = p[j];
    let o = p[j - 1];
    assert(h.adjacent(p[j - 1], p[j - 1 + 1]));
    assert(dem@.adjacent(q, o));
    assert(h.valid(o));
    assert(before.cells[o] is Some);
    assert(dem@.valid(o));
    assert(!fl.closed[o]);
    assert(!fl.done[q]);
    if q != c {
        assert(queue.count(entry(dem, q)) > 0);
    }
    assert(dem.data@[q] >= fl.floor);
    lemma_suffix_descends(h, p, j);
    let rest = p.subrange(j, p.len() as int);
    assert(h.descends(rest) && rest[0] == q);
    assert(h.drains(q));
    assert(h.elev(q) >= dem.data@[q]);
}

/// How the flood's state changes when the open cell `n` is closed at
/// elevation `level`.
spec fn closes(
    dem0: DigitalElevationModel,
    dem1: DigitalElevationModel,
    fl0: Flood,
    fl1: Flood,
    q0: Multiset<PriorityItem>,
    q1: Multiset<PriorityItem>,
    current: Option<int>,
    n: int,
    level: i32,
) -> bool {
    &&& 0 <= n < dem0.data@.len()
    &&& !fl0.closed[n]
    &&& dem0@.valid(n)
    &&& dem1.data@ == dem0.data@.update(n, level)
    &&& dem1.width == dem0.width
    &&& dem1.height == dem0.height
    &&& dem1.resolution == dem0.resolution
    &&& dem1.no_data_value == dem0.no_data_value
    &&& dem1.no_data_value != Some(level)
    &&& level >= dem0.data@[n]
    &&& level >= fl0.floor
    &&& q1 == q0.insert(PriorityItem { elevation: level, index: n as usize })
    &&& fl1.closed == fl0.closed.update(n, true)
    &&& fl1.done == fl0.done
    &&& fl1.floor == fl0.floor
    &&& fl1.seeded == fl0.seeded
    &&& fl1.members == fl0.members.insert(n)
    &&& fl1.popped == fl0.popped
    &&& fl1.paths == fl0.paths.update(n, fl1.paths[n])
    &&& match current {
        None => level == dem0.data@[n] && dem0@.on_boundary(n) && fl1.paths[n] == seq![n],
        Some(c) => dem0@.adjacent(c, n) && level >= dem0.data@[c] && fl1.paths[n] == seq![n]
            + fl0.paths[c],
    }
}

/// Writing a sample that is not the no-data marker into a cell with data
/// changes that cell of the model and no other.
proof fn lemma_view_update(dem0: DigitalElevationModel, dem1: DigitalElevationModel, n: int, level: i32)
    requires
        0 <= n < dem0.data@.len(),
        dem0@.valid(n),
        dem1.data@ == dem0.data@.update(n, level),
        dem1.width == dem0.width,
        dem1.height == dem0.height,
        dem1.no_data_value == dem0.no_data_value,
        dem1.no_data_value != Some(level),
    ensures
        dem1@.same_shape(dem0@),
        dem0@.same_shape(dem1@),
        dem1@.cells == dem0@.cells.update(n, Some(level as int)),
        forall|i: int| 0 <= i < dem0@.cells.len() && i != n ==> dem0@.cells[i] == dem1@.cells[i],
{
    assert(dem1@.cells =~= dem0@.cells.update(n, Some(level as int)));
}

proof fn lemma_close_shape(
    before: Terrain,
    dem0: DigitalElevationModel,
    dem1: DigitalElevationModel,
    fl0: Flood,
    fl1: Flood,
    q0: Multiset<PriorityItem>,
    q1: Multiset<PriorityItem>,
    current: Option<int>,
    n: int,
    level: i32,
)
    requires
        inv_shape(before, dem0, fl0),
        closes(dem0, dem1, fl0, fl1, q0, q1, current, n, level),
    ensures
        inv_shape(before, dem1, fl1),
{
    let len = dem0.data@.len() as int;
    lemma_view_update(dem0, dem1, n, level);
    assert(dem1@.at_least(before)) by {
        assert forall|i: int| #[trigger] before.valid(i) implies dem1@.elev(i) >= before.elev(
            i,
        ) by {
            assert(dem0@.elev(i) >= before.elev(i));
            if i != n {
                assert(dem0@.cells[i] == dem1@.cells[i]);
            }
        }
        assert forall|i: int| 0 <= i < dem1@.cells.len() implies ((
        #[trigger] dem1@.cells[i]) is Some <==> before.cells[i] is Some) by {
            assert(dem0@.cells[i] is Some <==> before.cells[i] is Some);
        }
    }
    assert forall|i: int| 0 <= i < len && !fl1.closed[i] implies #[trigger] dem1@.cells[i]
        == before.cells[i] by {
        assert(dem0@.cells[i] == before.cells[i]);
    }
    assert forall|i: int| 0 <= i < len && #[trigger] fl1.closed[i] implies dem1@.valid(i) by {
        if i != n {
            assert(fl0.closed[i]);
            assert(dem0@.valid(i));
        }
    }
    assert forall|i: int|
        0 <= i < fl1.seeded && dem1@.valid(i) && #[trigger] dem1@.on_boundary(
            i,
        ) implies fl1.closed[i] by {
        if i != n {
            assert(dem0@.valid(i));
            assert(dem0@.on_boundary(i));
        }
    }
    assert forall|i: int| 0 <= i < len && #[trigger] fl1.done[i] implies fl1.closed[i] by {
        assert(fl0.closed[i]);
    }
    assert forall|i: int| #[trigger] fl1.members.contains(i) <==> (0 <= i < len
        && fl1.closed[i]) by {
        assert(fl0.members.contains(i) <==> (0 <= i < len && fl0.closed[i]));
    }
}

proof fn lemma_close_paths(
    before: Terrain,
    dem0: DigitalElevationModel,
    dem1: DigitalElevationModel,
    fl0: Flood,
    fl1: Flood,
    q0: Multiset<PriorityItem>,
    q1: Multiset<PriorityItem>,
    current: Option<int>,
    n: int,
    level: i32,
)
    requires
        inv_shape(before, dem0, fl0),
        inv_paths(dem0, fl0),
        current matches Some(c) ==> 0 <= c < fl0.closed.len() && fl0.closed[c],
        closes(dem0, dem1, fl0, fl1, q0, q1, current, n, level),
    ensures
        inv_paths(dem1, fl1),
{
    lemma_view_update(dem0, dem1, n, level);
    assert forall|i: int| 0 <= i < fl1.closed.len() && #[trigger] fl1.closed[i] implies path_ok(
        dem1@,
        fl1.closed,
        fl1.paths[i],
        i,
    ) by {
        if i != n {
            assert(fl0.closed[i]);
            let p = fl0.paths[i];
            assert(path_ok(dem0@, fl0.closed, p, i));
            lemma_path_frame(dem0@, dem1@, p, n);
        } else {
            let p = fl1.paths[n];
            match current {
                None => {
                    assert(p.len() == 1 && p[0] == n);
                    assert(dem1@.valid(n));
                    assert(dem1@.on_boundary(n));
                    assert(dem1@.descends(p));
                },
                Some(c) => {
                    let tail = fl0.paths[c];
                    assert(path_ok(dem0@, fl0.closed, tail, c));
                    lemma_path_frame(dem0@, dem1@, tail, n);
                    lemma_extend_path(dem1@, tail, n);
                    assert(dem0@.valid(c));
                    assert(dem0@.cells[c] == dem1@.cells[c]);
                    assert forall|k: int| 0 <= k < p.len() implies fl1.closed[#[trigger] p[k]] by {
                        if k > 0 {
                            assert(p[k] == tail[k - 1]);
                            assert(fl0.closed[tail[k - 1]]);
                        }
                    }
                },
            }
        }
    }
}

/// A descending walk grows by a touching cell in front that lies no lower
/// than its first cell.
proof fn lemma_extend_path(t: Terrain, tail: Seq<int>, n: int)
    requires
        t.descends(tail),
        t.valid(n),
        t.adjacent(tail[0], n),
        t.elev(n) >= t.elev(tail[0]),
    ensures
        t.descends(seq![n] + tail),
        (seq![n] + tail)[0] == n,
{
    let p = seq![n] + tail;
    assert forall|k: int| 0 <= k < p.len() implies t.valid(#[trigger] p[k]) by {
        if k > 0 {
            assert(p[k] == tail[k - 1]);
        }
    }
    assert forall|k: int| 0 <= k < p.len() - 1 implies t.adjacent(#[trigger] p[k], p[k + 1]) by {
        if k > 0 {
            assert(p[k] == tail[k - 1]);
            assert(p[k + 1] == tail[k - 1 + 1]);
            assert(t.adjacent(tail[k - 1], tail[k - 1 + 1]));
        } else {
            assert(p[1] == tail[0]);
        }
    }
    assert forall|k: int| 0 <= k < p.len() - 1 implies t.elev(p[k + 1]) <= t.elev(
        #[trigger] p[k],
    ) by {
        if k > 0 {
            assert(p[k] == tail[k - 1]);
            assert(p[k + 1] == tail[k - 1 + 1]);
            assert(t.elev(tail[k - 1 + 1]) <= t.elev(tail[k - 1]));
        } else {
            assert(p[1] == tail[0]);
        }
    }
    assert(p.last() == tail.last());
}

proof fn lemma_close_done(
    before: Terrain,
    dem0: DigitalElevationModel,
    dem1: DigitalElevationModel,
    fl0: Flood,
    fl1: Flood,
    q0: Multiset<PriorityItem>,
    q1: Multiset<PriorityItem>,
    current: Option<int>,
    n: int,
    level: i32,
)
    requires
        inv_shape(before, dem0, fl0),
        inv_done(dem0, fl0),
        closes(dem0, dem1, fl0, fl1, q0, q1, current, n, level),
    ensures
        inv_done(dem1, fl1),
{
    lemma_view_update(dem0, dem1, n, level);
    assert forall|i: int, j: int|
        0 <= i < fl1.done.len() && fl1.done[i] && #[trigger] dem1@.adjacent(i, j) && dem1@.valid(
            j,
        ) implies fl1.closed[j] by {
        assert(dem0@.adjacent(i, j));
        assert(dem0@.cells[j] is Some <==> dem1@.cells[j] is Some);
        assert(dem0@.valid(j));
    }
}

proof fn lemma_close_queue(
    before: Terrain,
    dem0: DigitalElevationModel,
    dem1: DigitalElevationModel,
    fl0: Flood,
    fl1: Flood,
    q0: Multiset<PriorityItem>,
    q1: Multiset<PriorityItem>,
    current: Option<int>,
    n: int,
    level: i32,
)
    requires
        inv_shape(before, dem0, fl0),
        inv_queue(dem0, fl0, q0, current),
        closes(dem0, dem1, fl0, fl1, q0, q1, current, n, level),
    ensures
        inv_queue(dem1, fl1, q1, current),
{
    broadcast use vstd::multiset::group_multiset_axioms;

    let len = dem0.data@.len() as int;
    let item = PriorityItem { elevation: level, index: n as usize };
    assert(q0.count(item) == 0) by {
        if q0.count(item) > 0 {
            assert(fl0.closed[item.index as int]);
        }
    }
    assert forall|e: PriorityItem| #[trigger] q1.count(e) > 0 implies {
        &&& e.index < len
        &&& fl1.closed[e.index as int]
        &&& !fl1.done[e.index as int]
        &&& e.elevation == dem1.data@[e.index as int]
        &&& e.elevation >= fl1.floor
        &&& q1.count(e) == 1
        &&& current != Some(e.index as int)
    } by {
        if e == item {
            if fl0.done[n] {
                assert(fl0.closed[n]);
            }
        } else {
            assert(q0.count(e) > 0);
        }
    }
    assert forall|i: int|
        0 <= i < len && fl1.closed[i] && !fl1.done[i] && current != Some(i) implies q1.count(
        #[trigger] entry(dem1, i),
    ) > 0 by {
        if i != n {
            assert(entry(dem1, i) == entry(dem0, i));
            assert(q0.count(entry(dem0, i)) > 0);
        } else {
            assert(entry(dem1, n) == item);
        }
    }
    assert(!fl0.members.contains(n));
}

proof fn lemma_close_least(
    before: Terrain,
    dem0: DigitalElevationModel,
    dem1: DigitalElevationModel,
    fl0: Flood,
    fl1: Flood,
    q0: Multiset<PriorityItem>,
    q1: Multiset<PriorityItem>,
    current: Option<int>,
    n: int,
    level: i32,
)
    requires
        inv_shape(before, dem0, fl0),
        inv_least(before, dem0, fl0),
        closes(dem0, dem1, fl0, fl1, q0, q1, current, n, level),
        forall|h: Terrain| h.at_least(before) && #[trigger] h.drains(n) ==> h.elev(n) >= level,
    ensures
        inv_least(before, dem1, fl1),
{
    assert forall|h: Terrain, q: int|
        0 <= q < fl1.closed.len() && fl1.closed[q] && h.at_least(before) && #[trigger] h.drains(
            q,
        ) implies h.elev(q) >= dem1.data@[q] by {
        if q != n {
            assert(fl0.closed[q]);
            assert(h.elev(q) >= dem0.data@[q]);
        }
    }
}

/// Closing one open cell keeps the flood's bookkeeping in order.
proof fn lemma_close(
    before: Terrain,
    dem0: DigitalElevationModel,
    dem1: DigitalElevationModel,
    fl0: Flood,
    fl1: Flood,
    q0: Multiset<PriorityItem>,
    q1: Multiset<PriorityItem>,
    current: Option<int>,
    n: int,
    level: i32,
)
    requires
        flood_inv(before, dem0, fl0, q0, current),
        closes(dem0, dem1, fl0, fl1, q0, q1, current, n, level),
        forall|h: Terrain| h.at_least(before) && #[trigger] h.drains(n) ==> h.elev(n) >= level,
    ensures
        flood_inv(before, dem1, fl1, q1, current),
{
    reveal(flood_inv);
    lemma_close_shape(before, dem0, dem1, fl0, fl1, q0, q1, current, n, level);
    lemma_close_paths(before, dem0, dem1, fl0, fl1, q0, q1, current, n, level);
    lemma_close_done(before, dem0, dem1, fl0, fl1, q0, q1, current, n, level);
    lemma_close_queue(before, dem0, dem1, fl0, fl1, q0, q1, current, n, level);
    lemma_close_least(before, dem0, dem1, fl0, fl1, q0, q1, current, n, level);
}

/// What the loops of the flood need to know of its bookkeeping.
proof fn lemma_flood_facts(
    before: Terrain,
    dem: DigitalElevationModel,
    fl: Flood,
    queue: Multiset<PriorityItem>,
    current: Option<int>,
)
    requires
        flood_inv(before, dem, fl, queue, current),
    ensures
        dem.wf(),
        before.wf(),
        dem@.same_shape(before),
        before.same_shape(dem@),
        fl.closed.len() == dem.data@.len(),
        fl.done.len() == dem.data@.len(),
        fl.paths.len() == dem.data@.len(),
        fl.members.finite(),
        fl.members.len() <= dem.data@.len(),
        queue.len() + fl.popped == fl.members.len(),
        forall|i: int|
            0 <= i < dem.data@.len() && !fl.closed[i] ==> #[trigger] dem@.cells[i]
                == before.cells[i],
        current matches Some(c) ==> 0 <= c < dem.data@.len() && fl.closed[c] && dem.data@[c]
            == fl.floor && dem@.valid(c),
{
    reveal(flood_inv);
    let n = dem.data@.len() as int;
    vstd::set_lib::lemma_int_range(0, n);
    assert(fl.members.subset_of(vstd::set_lib::set_int_range(0, n)));
    vstd::set_lib::lemma_len_subset(fl.members, vstd::set_lib::set_int_range(0, n));
}

/// Before anything is queued, the bookkeeping of the flood is in order.
proof fn lemma_flood_start(dem: DigitalElevationModel, fl: Flood, queue: Multiset<PriorityItem>)
    requires
        dem.wf(),
        queue == Multiset::<PriorityItem>::empty(),
        fl.closed.len() == dem.data@.len(),
        forall|i: int| 0 <= i < fl.closed.len() ==> !fl.closed[i],
        fl.done == Seq::new(dem.data@.len(), |i: int| false),
        fl.paths.len() == dem.data@.len(),
        fl.seeded == 0,
        fl.members == Set::<int>::empty(),
        fl.popped == 0,
    ensures
        flood_inv(dem@, dem, fl, queue, None),
{
    broadcast use vstd::multiset::group_multiset_axioms;

    reveal(flood_inv);
}

/// Looking at one more rim cell that is not to be queued changes nothing.
proof fn lemma_flood_skip(
    before: Terrain,
    dem: DigitalElevationModel,
    fl: Flood,
    queue: Multiset<PriorityItem>,
)
    requires
        flood_inv(before, dem, fl, queue, None),
        fl.seeded < dem.data@.len(),
        (dem@.valid(fl.seeded) && dem@.on_boundary(fl.seeded)) ==> fl.closed[fl.seeded],
    ensures
        flood_inv(before, dem, Flood { seeded: fl.seeded + 1, ..fl }, queue, None),
{
    reveal(flood_inv);
}

/// Taking a lowest entry out of the queue starts the work on its cell.
proof fn lemma_take(
    before: Terrain,
    dem: DigitalElevationModel,
    fl0: Flood,
    fl1: Flood,
    q0: Multiset<PriorityItem>,
    q1: Multiset<PriorityItem>,
    item: PriorityItem,
)
    requires
        flood_inv(before, dem, fl0, q0, None),
        q0.count(item) > 0,
        q1 == q0.remove(item),
        forall|other: PriorityItem| q0.count(other) > 0 ==> item.elevation <= other.elevation,
        fl1 == (Flood { floor: item.elevation as int, popped: fl0.popped + 1, ..fl0 }),
    ensures
        flood_inv(before, dem, fl1, q1, Some(item.index as int)),
        item.index < dem.data@.len(),
        item.elevation == dem.data@[item.index as int],
{
    reveal(flood_inv);
    broadcast use vstd::multiset::group_multiset_axioms;

    let len = dem.data@.len() as int;
    let c = item.index as int;
    assert forall|e: PriorityItem| #[trigger] q1.count(e) > 0 implies {
        &&& e.index < len
        &&& fl1.closed[e.index as int]
        &&& !fl1.done[e.index as int]
        &&& e.elevation == dem.data@[e.index as int]
        &&& e.elevation >= fl1.floor
        &&& q1.count(e) == 1
        &&& Some(c) != Some(e.index as int)
    } by {
        assert(q0.count(e) > 0);
        assert(e != item);
    }
    assert forall|i: int|
        0 <= i < len && fl1.closed[i] && !fl1.done[i] && Some(c) != Some(i) implies q1.count(
        #[trigger] entry(dem, i),
    ) > 0 by {
        assert(q0.count(entry(dem, i)) > 0);
        assert(entry(dem, i) != item);
    }
    assert(inv_queue(dem, fl1, q1, Some(c)));
    assert(inv_shape(before, dem, fl1));
    assert(inv_paths(dem, fl1));
    assert(inv_done(dem, fl1));
    assert(inv_least(before, dem, fl1));
}

/// Once every neighbour of the cell in work is closed, the cell is done.
proof fn lemma_finish(
    before: Terrain,
    dem: DigitalElevationModel,
    fl0: Flood,
    fl1: Flood,
    queue: Multiset<PriorityItem>,
    c: int,
)
    requires
        flood_inv(before, dem, fl0, queue, Some(c)),
        forall|j: int| #[trigger] dem@.adjacent(c, j) && dem@.valid(j) ==> fl0.closed[j],
        fl1 == (Flood { done: fl0.done.update(c, true), ..fl0 }),
    ensures
        flood_inv(before, dem, fl1, queue, None),
{
    reveal(flood_inv);
    let len = dem.data@.len() as int;
    assert forall|e: PriorityItem| #[trigger] queue.count(e) > 0 implies {
        &&& e.index < len
        &&& fl1.closed[e.index as int]
        &&& !fl1.done[e.index as int]
        &&& e.elevation == dem.data@[e.index as int]
        &&& e.elevation >= fl1.floor
        &&& queue.count(e) == 1
    } by {}
    assert(inv_queue(dem, fl1, queue, None));
    assert forall|i: int| 0 <= i < len && #[trigger] fl1.done[i] implies fl1.closed[i] by {
        if i != c {
            assert(fl0.done[i]);
        }
    }
    assert(inv_shape(before, dem, fl1));
    assert(inv_paths(dem, fl1));
    assert forall|i: int, j: int|
        0 <= i < fl1.done.len() && fl1.done[i] && #[trigger] dem@.adjacent(i, j) && dem@.valid(
            j,
        ) implies fl1.closed[j] by {
        if i != c {
            assert(fl0.done[i]);
        }
    }
    assert(inv_least(before, dem, fl1));
}

/// When the flood is over, every cell on a connecting walk is closed.
proof fn lemma_walk_closed(dem: DigitalElevationModel, fl: Flood, path: Seq<int>, k: int)
    requires
        dem.wf(),
        fl.closed.len() == dem.data@.len(),
        fl.done.len() == dem.data@.len(),
        fl.seeded == dem.data@.len(),
        forall|i: int|
            0 <= i < fl.seeded && dem@.valid(i) && #[trigger] dem@.on_boundary(i) ==> fl.closed[i],
        inv_done(dem, fl),
        forall|i: int| 0 <= i < fl.closed.len() && #[trigger] fl.closed[i] ==> fl.done[i],
        dem@.connects(path),
        0 <= k < path.len(),
    ensures
        fl.closed[path[k]],
    decreases path.len() - k,
{
    assert(dem@.valid(path[k]));
    if k == path.len() - 1 {
        assert(dem@.on_boundary(path[k]));
    } else {
        lemma_walk_closed(dem, fl, path, k + 1);
        assert(dem@.valid(path[k + 1]));
        assert(fl.done[path[k + 1]]);
        assert(dem@.adjacent(path[k], path[k + 1]));
        assert(dem@.adjacent(path[k + 1], path[k]));
    }
}

/// A flood that has run dry has filled the terrain.
proof fn lemma_flood_complete(
    before: Terrain,
    dem: DigitalElevationModel,
    fl: Flood,
    queue: Multiset<PriorityItem>,
)
    requires
        flood_inv(before, dem, fl, queue, None),
        queue.len() == 0,
        fl.seeded == dem.data@.len(),
    ensures
        dem@.is_fill_of(before),
{
    reveal(flood_inv);
    broadcast use vstd::multiset::group_multiset_axioms;

    let len = dem.data@.len() as int;
    let t = dem@;
    assert forall|i: int| 0 <= i < fl.closed.len() && #[trigger] fl.closed[i] implies fl.done[i] by {
        if !fl.done[i] {
            assert(queue.count(entry(dem, i)) > 0);
            assert(queue.len() > 0) by {
                vstd::multiset::lemma_multiset_empty_len(queue);
            }
        }
    }
    assert forall|i: int| before.valid(i) && #[trigger] before.reachable(i) implies t.drains(
        i,
    ) by {
        let walk = choose|walk: Seq<int>| before.connects(walk) && walk[0] == i;
        assert(before.same_shape(t));
        lemma_connects_same_shape(before, t, walk);
        lemma_walk_closed(dem, fl, walk, 0);
        assert(path_ok(t, fl.closed, fl.paths[i], i));
    }
    assert forall|i: int| before.valid(i) && !(#[trigger] before.reachable(i)) implies t.elev(i)
        == before.elev(i) by {
        if fl.closed[i] {
            assert(path_ok(t, fl.closed, fl.paths[i], i));
            lemma_connects_same_shape(t, before, fl.paths[i]);
        }
        assert(t.cells[i] == before.cells[i]);
    }
    assert forall|h: Terrain, i: int| h.at_least(before) && #[trigger] h.drains(i) implies h.elev(
        i,
    ) >= t.elev(i) by {
        let walk = choose|walk: Seq<int>| h.descends(walk) && walk[0] == i;
        assert(h.valid(walk[0]));
        assert(before.cells[i] is Some);
        assert(before.valid(i));
        if fl.closed[i] {
            assert(h.elev(i) >= dem.data@[i]);
            assert(t.valid(i));
        } else {
            assert(t.cells[i] == before.cells[i]);
        }
    }
}

/// The list of neighbours names every cell with data that touches cell
/// `c`, and no other.
spec fn covers(t: Terrain, c: int, list: Seq<(usize, usize)>) -> bool {
    &&& forall|k: int|
        0 <= k < list.len() ==> {
            &&& t.in_grid((#[trigger] list[k]).0 as int, list[k].1 as int)
            &&& t.valid(t.index(list[k].0 as int, list[k].1 as int))
            &&& t.adjacent(c, t.index(list[k].0 as int, list[k].1 as int))
        }
    &&& forall|j: int| #[trigger]
        t.adjacent(c, j) && t.valid(j) ==> exists|k: int|
            0 <= k < list.len() && t.index((#[trigger] list[k]).0 as int, list[k].1 as int) == j
}

proof fn lemma_neighbors_cover(dem: DigitalElevationModel, c: int, list: Seq<(usize, usize)>)
    requires
        dem.wf(),
        0 <= c < dem.data@.len(),
        forall|k: int|
            0 <= k < list.len() ==> dem.is_neighbor(
                dem@.col(c),
                dem@.row(c),
                (#[trigger] list[k]).0 as int,
                list[k].1 as int,
            ),
        forall|nx: int, ny: int|
            dem.is_neighbor(dem@.col(c), dem@.row(c), nx, ny) ==> exists|k: int|
                0 <= k < list.len() && #[trigger] list[k] == (nx as usize, ny as usize),
    ensures
        covers(dem@, c, list),
{
    let t = dem@;
    let w = dem.width as int;
    assert forall|k: int| 0 <= k < list.len() implies {
        &&& t.in_grid((#[trigger] list[k]).0 as int, list[k].1 as int)
        &&& t.valid(t.index(list[k].0 as int, list[k].1 as int))
        &&& t.adjacent(c, t.index(list[k].0 as int, list[k].1 as int))
    } by {
        let nx = list[k].0 as int;
        let ny = list[k].1 as int;
        assert(dem.is_neighbor(t.col(c), t.row(c), nx, ny));
        lemma_index_in_range(w, dem.height as int, nx, ny);
    }
    assert forall|j: int| #[trigger] t.adjacent(c, j) && t.valid(j) implies exists|k: int|
        0 <= k < list.len() && t.index((#[trigger] list[k]).0 as int, list[k].1 as int) == j by {
        let nx = t.col(j);
        let ny = t.row(j);
        lemma_cell_coordinates(w, dem.height as int, j);
        lemma_cell_coordinates(w, dem.height as int, c);
        assert(dem.spec_elevation(nx, ny) is Some);
        assert(dem.is_neighbor(t.col(c), t.row(c), nx, ny));
        let k = choose|k: int|
            0 <= k < list.len() && #[trigger] list[k] == (nx as usize, ny as usize);
        assert(t.index(list[k].0 as int, list[k].1 as int) == j);
    }
}

impl DigitalElevationModel {
    /// Queues the open cell `idx` at the level `level`, to which it has
    /// been raised where it lay lower.
    fn close_cell(
        &mut self,
        queue: &mut PriorityQueue,
        closed: &mut Vec<bool>,
        idx: usize,
        level: i32,
        Ghost(before): Ghost<Terrain>,
        Ghost(fl): Ghost<Flood>,
        Ghost(current): Ghost<Option<int>>,
    ) -> (next: Ghost<Flood>)
        requires
            flood_inv(before, *old(self), fl, old(queue)@, current),
            old(queue).wf(),
            old(closed)@ == fl.closed,
            idx < old(self).data@.len(),
            !fl.closed[idx as int],
            old(self)@.valid(idx as int),
            level >= old(self).data@[idx as int],
            match current {
                None => level == old(self).data@[idx as int] && old(self)@.on_boundary(idx as int)
                    && fl.floor == i32::MIN,
                Some(c) => old(self)@.adjacent(c, idx as int) && fl.seeded == old(self).data@.len()
                    && level == if old(self).data@[idx as int] < fl.floor {
                    fl.floor
                } else {
                    old(self).data@[idx as int] as int
                },
            },
        ensures
            flood_inv(before, *final(self), next@, final(queue)@, current),
            final(queue).wf(),
            final(closed)@ == next@.closed,
            next@.seeded == fl.seeded,
            next@.popped == fl.popped,
            next@.floor == fl.floor,
            next@.closed == fl.closed.update(idx as int, true),
            next@.members == fl.members.insert(idx as int),
            final(self).width == old(self).width,
            final(self).height == old(self).height,
            final(self).resolution == old(self).resolution,
            final(self).no_data_value == old(self).no_data_value,
            final(self).data@.len() == old(self).data@.len(),
            forall|i: int|
                0 <= i < final(self).data@.len() && i != idx ==> final(self).data@[i] == old(
                    self,
                ).data@[i],
            final(self)@.same_shape(old(self)@),
            old(self)@.same_shape(final(self)@),
    {
        let ghost dem0 = *self;
        let ghost q0 = queue@;
        proof {
            lemma_flood_facts(before, dem0, fl, q0, current);
        }
        if self.data[idx] < level {
            self.data.set(idx, level);
        }
        queue.push(PriorityItem { elevation: level, index: idx });
        closed.set(idx, true);
        let ghost tail = match current {
            None => Seq::<int>::empty(),
            Some(c) => fl.paths[c],
        };
        let ghost fl1 = Flood {
            closed: fl.closed.update(idx as int, true),
            members: fl.members.insert(idx as int),
            paths: fl.paths.update(idx as int, seq![idx as int] + tail),
            ..fl
        };
        proof {
            assert(self.data@ =~= dem0.data@.update(idx as int, level));
            assert(fl1.paths =~= fl.paths.update(idx as int, fl1.paths[idx as int]));
            assert(seq![idx as int] + Seq::<int>::empty() =~= seq![idx as int]);
            assert(before.valid(idx as int));
            assert(dem0@.cells[idx as int] == before.cells[idx as int]);
            assert forall|h: Terrain|
                h.at_least(before) && #[trigger] h.drains(idx as int) implies h.elev(idx as int)
                >= level by {
                if let Some(c) = current {
                    lemma_pour_bound(before, dem0, fl, q0, c, idx as int, h);
                }
            }
            lemma_close(before, dem0, *self, fl, fl1, q0, queue@, current, idx as int, level);
            lemma_view_update(dem0, *self, idx as int, level);
        }
        Ghost(fl1)
    }

    /// Removes the sinks of the grid in the way asked for. Every way fills
    /// them to the level at which they spill; the other ways leave the
    /// further treatment of the filled ground open, and their parameters
    /// are not used.
    pub fn process_sinks(&mut self, method: SinkTreatmentMethod)
        requires
            old(self).wf(),
        ensures
            final(self).wf(),
            final(self).width == old(self).width,
            final(self).height == old(self).height,
            final(self).resolution == old(self).resolution,
            final(self).no_data_value == old(self).no_data_value,
            final(self)@.is_fill_of(old(self)@),
    {
        match method {
            SinkTreatmentMethod::CompletelyFill => self.fill_sinks(),
            SinkTreatmentMethod::EpsilonFill(_) => self.fill_sinks(),
            SinkTreatmentMethod::Breach(_) => self.fill_sinks(),
            SinkTreatmentMethod::Combined(_, _) => self.fill_sinks(),
        }
    }

    /// Fills every sink: a flood enters from the rim of the grid and, always
    /// advancing from its lowest cell, raises each cell it reaches to the
    /// level it arrived at. No cell is lowered, and cells that no walk
    /// through cells with data joins to the rim are left alone.
    pub fn fill_sinks(&mut self)
        requires
            old(self).wf(),
        ensures
            final(self).wf(),
            final(self).width == old(self).width,
            final(self).height == old(self).height,
            final(self).resolution == old(self).resolution,
            final(self).no_data_value == old(self).no_data_value,
            final(self)@.is_fill_of(old(self)@),
    {
        let n: usize = self.data.len();
        let width: usize = self.width;
        let height: usize = self.height;
        let ghost before = self@;
        let ghost start = *self;
        let mut queue = PriorityQueue::new();
        let mut closed: Vec<bool> = Vec::new();
        let mut filled: usize = 0;
        while filled < n
            invariant
                filled <= n,
                closed@.len() == filled,
                forall|i: int| 0 <= i < filled ==> !closed@[i],
            decreases n - filled,
        {
            closed.push(false);
            filled += 1;
        }
        let ghost mut fl = Flood {
            closed: closed@,
            done: Seq::new(n as nat, |i: int| false),
            paths: Seq::new(n as nat, |i: int| Seq::<int>::empty()),
            floor: i32::MIN as int,
            seeded: 0,
            members: Set::<int>::empty(),
            popped: 0,
        };
        proof {
            lemma_flood_start(*self, fl, queue@);
        }
        let mut idx: usize = 0;
        while idx < n
            invariant
                flood_inv(before, *self, fl, queue@, None),
                self.wf(),
                queue.wf(),
                closed@ == fl.closed,
                closed@.len() == n,
                fl.seeded == idx,
                idx <= n,
                forall|i: int| idx <= i < n ==> !fl.closed[i],
                fl.floor == i32::MIN,
                n == self.data@.len(),
                width == self.width,
                height == self.height,
                self.width == start.width,
                self.height == start.height,
                self.resolution == start.resolution,
                self.no_data_value == start.no_data_value,
            decreases n - idx,
        {
            let x: usize = idx % width;
            let y: usize = idx / width;
            proof {
                lemma_cell_coordinates(width as int, height as int, idx as int);
            }
            let is_edge: bool = x == 0 || y == 0 || x == width - 1 || y == height - 1;
            let point: Option<i32> = self.get_elevation(x, y);
            if is_edge && point.is_some() {
                let next = self.close_cell(
                    &mut queue,
                    &mut closed,
                    idx,
                    point.unwrap(),
                    Ghost(before),
                    Ghost(fl),
                    Ghost(None),
                );
                proof {
                    fl = next@;
                    lemma_flood_facts(before, *self, fl, queue@, None);
                }
            }
            proof {
                lemma_flood_skip(before, *self, fl, queue@);
                fl = Flood { seeded: fl.seeded + 1, ..fl };
            }
            idx += 1;
        }
        while queue.len() > 0
            invariant
                flood_inv(before, *self, fl, queue@, None),
                self.wf(),
                queue.wf(),
                closed@ == fl.closed,
                closed@.len() == n,
                fl.seeded == n,
                n == self.data@.len(),
                width == self.width,
                height == self.height,
                self.width == start.width,
                self.height == start.height,
                self.resolution == start.resolution,
                self.no_data_value == start.no_data_value,
            decreases 2 * n - fl.members.len() - fl.popped,
        {
            let ghost q0 = queue@;
            let ghost fl_top = fl;
            proof {
                lemma_flood_facts(before, *self, fl, queue@, None);
            }
            let item: PriorityItem = queue.pop().unwrap();
            let c: usize = item.index;
            proof {
                let fl1 = Flood { floor: item.elevation as int, popped: fl.popped + 1, ..fl };
                lemma_take(before, *self, fl, fl1, q0, queue@, item);
                fl = fl1;
                lemma_cell_coordinates(width as int, height as int, c as int);
            }
            let cell_elev: i32 = self.data[c];
            let cx: usize = c % width;
            let cy: usize = c / width;
            let neighbors: Vec<(usize, usize)> = self.get_neighbors(cx, cy);
            proof {
                lemma_neighbors_cover(*self, c as int, neighbors@);
            }
            let mut k: usize = 0;
            while k < neighbors.len()
                invariant
                    flood_inv(before, *self, fl, queue@, Some(c as int)),
                    self.wf(),
                    queue.wf(),
                    closed@ == fl.closed,
                    closed@.len() == n,
                    fl.seeded == n,
                    n == self.data@.len(),
                    width == self.width,
                    height == self.height,
                    self.width == start.width,
                    self.height == start.height,
                    self.resolution == start.resolution,
                    self.no_data_value == start.no_data_value,
                    c < n,
                    cell_elev == self.data@[c as int],
                    cell_elev == fl.floor,
                    covers(self@, c as int, neighbors@),
                    k <= neighbors@.len(),
                    forall|kk: int|
                        0 <= kk < k ==> fl.closed[self@.index(
                            (#[trigger] neighbors@[kk]).0 as int,
                            neighbors@[kk].1 as int,
                        )],
                    fl.popped == fl_top.popped + 1,
                    fl_top.members.subset_of(fl.members),
                decreases neighbors@.len() - k,
            {
                let (nx, ny) = neighbors[k];
                proof {
                    lemma_index_in_range(width as int, height as int, nx as int, ny as int);
                }
                let n_idx: usize = ny * width + nx;
                if !closed[n_idx] {
                    let n_elev: i32 = self.data[n_idx];
                    let level: i32 = if n_elev < cell_elev {
                        cell_elev
                    } else {
                        n_elev
                    };
                    let ghost dem0 = *self;
                    let next = self.close_cell(
                        &mut queue,
                        &mut closed,
                        n_idx,
                        level,
                        Ghost(before),
                        Ghost(fl),
                        Ghost(Some(c as int)),
                    );
                    proof {
                        fl = next@;
                        lemma_covers_same_shape(dem0@, self@, c as int, neighbors@);
                        lemma_flood_facts(before, *self, fl, queue@, Some(c as int));
                    }
                }
                k += 1;
            }
            proof {
                let fl1 = Flood { done: fl.done.update(c as int, true), ..fl };
                assert forall|j: int| #[trigger]
                    self@.adjacent(c as int, j) && self@.valid(j) implies fl.closed[j] by {
                    let kk = choose|kk: int|
                        0 <= kk < neighbors@.len() && self@.index(
                            (#[trigger] neighbors@[kk]).0 as int,
                            neighbors@[kk].1 as int,
                        ) == j;
                }
                lemma_finish(before, *self, fl, fl1, queue@, c as int);
                fl = fl1;
                lemma_flood_facts(before, *self, fl, queue@, None);
                vstd::set_lib::lemma_len_subset(fl_top.members, fl.members);
            }
        }
        proof {
            lemma_flood_complete(before, *self, fl, queue@);
        }
    }
}

/// A list of neighbours stays one in every terrain of the same shape.
proof fn lemma_covers_same_shape(a: Terrain, b: Terrain, c: int, list: Seq<(usize, usize)>)
    requires
        a.same_shape(b),
        covers(a, c, list),
    ensures
        covers(b, c, list),
{
    assert forall|k: int| 0 <= k < list.len() implies {
        &&& b.in_grid((#[trigger] list[k]).0 as int, list[k].1 as int)
        &&& b.valid(b.index(list[k].0 as int, list[k].1 as int))
        &&& b.adjacent(c, b.index(list[k].0 as int, list[k].1 as int))
    } by {
        assert(a.valid(a.index(list[k].0 as int, list[k].1 as int)));
    }
    assert forall|j: int| #[trigger] b.adjacent(c, j) && b.valid(j) implies exists|k: int|
        0 <= k < list.len() && b.index((#[trigger] list[k]).0 as int, list[k].1 as int) == j by {
        assert(a.adjacent(c, j) && a.valid(j));
        let k = choose|k: int|
            0 <= k < list.len() && a.index((#[trigger] list[k]).0 as int, list[k].1 as int) == j;
        assert(b.index(list[k].0 as int, list[k].1 as int) == j);
    }
}

/// Filling never lowers a cell.
pub proof fn lemma_fill_never_lowers(before: Terrain, after: Terrain, i: int)
    requires
        after.is_fill_of(before),
        before.valid(i),
    ensures
        after.valid(i),
        after.elev(i) >= before.elev(i),
{
}

/// After filling, from every cell with data that some walk through cells
/// with data joins to the rim, a walk leads to the rim along which the
/// elevation never increases.
pub proof fn lemma_fill_drains(before: Terrain, after: Terrain, i: int)
    requires
        after.is_fill_of(before),
        before.valid(i),
        before.reachable(i),
    ensures
        after.drains(i),
{
}

/// A cell keeps or loses its way to the rim together in terrains of the
/// same shape.
proof fn lemma_reachable_same_shape(a: Terrain, b: Terrain, i: int)
    requires
        a.same_shape(b),
        a.reachable(i),
    ensures
        b.reachable(i),
{
    let walk = choose|walk: Seq<int>| a.connects(walk) && walk[0] == i;
    lemma_connects_same_shape(a, b, walk);
}

/// Filling a filled terrain changes nothing.
pub proof fn lemma_fill_is_idempotent(before: Terrain, once: Terrain, twice: Terrain)
    requires
        once.is_fill_of(before),
        twice.is_fill_of(once),
    ensures
        twice == once,
{
    assert forall|i: int| 0 <= i < once.cells.len() implies twice.cells[i] == once.cells[i] by {
        if once.valid(i) {
            assert(twice.valid(i));
            assert(before.valid(i));
            if once.reachable(i) {
                lemma_reachable_same_shape(once, before, i);
                assert(once.drains(i));
                assert(once.at_least(once));
                assert(once.elev(i) >= twice.elev(i));
                assert(twice.elev(i) >= once.elev(i));
            }
        }
    }
    assert(twice.cells =~= once.cells);
}

/// The fill of a terrain is unique.
pub proof fn lemma_fill_is_unique(before: Terrain, one: Terrain, other: Terrain)
    requires
        one.is_fill_of(before),
        other.is_fill_of(before),
    ensures
        one == other,
{
    assert forall|i: int| 0 <= i < one.cells.len() implies one.cells[i] == other.cells[i] by {
        if before.valid(i) {
            assert(one.valid(i) && other.valid(i));
            if before.reachable(i) {
                assert(one.drains(i));
                assert(other.drains(i));
                assert(one.elev(i) >= other.elev(i));
                assert(other.elev(i) >= one.elev(i));
            }
        }
    }
    assert(one.cells =~= other.cells);
}

} // verus!
