//! Flow routing: where the water of each cell goes.

use crate::dem::{lemma_cell_coordinates, lemma_index_in_range, DigitalElevationModel, Terrain};
pub use crate::direction::{FlowDirection, FlowMethod};
use vstd::prelude::*;

verus! {

/// The unit of angles and of shares: an angle of `UNIT` is an eighth of a
/// turn, and a share of `UNIT` is all of a cell's water.
pub const UNIT: u32 = 1_000_000;

/// A full turn in the unit of angles.
pub const FULL_TURN: u32 = 8_000_000;

/// The slope from a cell to one of its neighbours: the fall in elevation
/// over one cell size, or over one cell size times the square root of two
/// where the neighbour touches by a corner.
#[derive(Clone, Copy, Debug, PartialEq, Eq, Structural)]
pub struct Slope {
    /// The fall in elevation; 0 where the ground is level.
    pub drop: u32,
    /// Whether the neighbour touches by a corner.
    pub diagonal: bool,
}

/// Twice the square of a slope, in units of one over the squared cell
/// size: slopes compare as these numbers do.
pub open spec fn steepness_of(drop: int, diagonal: bool) -> int {
    if diagonal {
        drop * drop
    } else {
        2 * (drop * drop)
    }
}

impl Slope {
    /// Twice the square of this slope, in units of one over the squared
    /// cell size.
    pub open spec fn steepness(self) -> int {
        steepness_of(self.drop as int, self.diagonal)
    }

    /// Level ground.
    pub fn flat() -> (r: Self)
        ensures
            r == (Slope { drop: 0, diagonal: false }),
    {
        Slope { drop: 0, diagonal: false }
    }

    /// Whether this slope is strictly steeper than `other`.
    pub fn steeper_than(&self, other: &Slope) -> (r: bool)
        ensures
            r == (self.steepness() > other.steepness()),
    {
        let a: u64 = self.drop as u64;
        let b: u64 = other.drop as u64;
        assert(a * a <= 0xffff_ffff * 0xffff_ffff) by (nonlinear_arith)
            requires
                a <= 0xffff_ffff,
        ;
        assert(b * b <= 0xffff_ffff * 0xffff_ffff) by (nonlinear_arith)
            requires
                b <= 0xffff_ffff,
        ;
        let a2: u128 = (a * a) as u128;
        let b2: u128 = (b * b) as u128;
        let left: u128 = if self.diagonal {
            a2
        } else {
            2 * a2
        };
        let right: u128 = if other.diagonal {
            b2
        } else {
            2 * b2
        };
        left > right
    }
}

/// The sum of the first `k` shares.
pub open spec fn shares_sum(shares: Seq<u32>, k: int) -> int
    decreases k,
{
    if k <= 0 {
        0
    } else {
        shares_sum(shares, k - 1) + shares[k - 1]
    }
}

impl Terrain {
    /// `direction` is `NoFlow` or points from cell `i` to a strictly lower
    /// neighbour with data.
    pub open spec fn rests_or_falls(self, i: int, direction: FlowDirection) -> bool {
        direction != FlowDirection::NoFlow ==> self.fall(i, direction) > 0
    }

    /// `shares` are eight, they add up to `UNIT` at most, and only
    /// strictly lower neighbours of cell `i` with data have one.
    pub open spec fn gives_downhill(self, i: int, shares: Seq<u32>) -> bool {
        &&& shares.len() == 8
        &&& shares_sum(shares, 8) <= UNIT
        &&& forall|k: int|
            0 <= k < 8 && #[trigger] shares[k] > 0 ==> self.fall(
                i,
                FlowDirection::spec_from_octant(k),
            ) > 0
    }

    /// Twice the squared slope from cell `i` toward `direction`; 0 where
    /// the ground does not fall that way.
    pub open spec fn steepness(self, i: int, direction: FlowDirection) -> int {
        steepness_of(self.fall(i, direction), direction.spec_is_diagonal())
    }

    /// `direction` is where steepest descent sends the water of cell `i`:
    /// no neighbour lies lower where it is `NoFlow`; otherwise the ground
    /// falls that way, no neighbour offers a steeper slope, and none that is
    /// examined earlier offers an equal one.
    pub open spec fn is_d8_choice(self, i: int, direction: FlowDirection) -> bool {
        if direction == FlowDirection::NoFlow {
            forall|k: int|
                0 <= k < 8 ==> self.fall(i, #[trigger] FlowDirection::spec_from_octant(k)) == 0
        } else {
            &&& self.fall(i, direction) > 0
            &&& forall|k: int|
                0 <= k < 8 ==> self.steepness(i, #[trigger] FlowDirection::spec_from_octant(k))
                    <= self.steepness(i, direction)
            &&& forall|k: int|
                0 <= k < direction.spec_octant() ==> self.steepness(
                    i,
                    #[trigger] FlowDirection::spec_from_octant(k),
                ) < self.steepness(i, direction)
        }
    }
}

/// Steepest descent leaves no choice: two directions that both are where
/// it sends the water of a cell are the same.
pub proof fn lemma_d8_choice_is_unique(t: Terrain, i: int, one: FlowDirection, other: FlowDirection)
    requires
        t.is_d8_choice(i, one),
        t.is_d8_choice(i, other),
    ensures
        one == other,
{
    crate::direction::lemma_octant_round_trip(one);
    crate::direction::lemma_octant_round_trip(other);
    if one != FlowDirection::NoFlow && other != FlowDirection::NoFlow {
        let a = one.spec_octant();
        let b = other.spec_octant();
        assert(t.steepness(i, FlowDirection::spec_from_octant(a)) <= t.steepness(i, other));
        assert(t.steepness(i, FlowDirection::spec_from_octant(b)) <= t.steepness(i, one));
        if a < b {
            assert(t.steepness(i, FlowDirection::spec_from_octant(a)) < t.steepness(i, other));
        } else if b < a {
            assert(t.steepness(i, FlowDirection::spec_from_octant(b)) < t.steepness(i, one));
        }
    } else if one != FlowDirection::NoFlow {
        assert(t.fall(i, FlowDirection::spec_from_octant(one.spec_octant())) == 0);
    } else if other != FlowDirection::NoFlow {
        assert(t.fall(i, FlowDirection::spec_from_octant(other.spec_octant())) == 0);
    }
}

/// The flow model of a grid: for each cell the direction in which its
/// water leaves, the slope in that direction, and how many cells drain
/// through it.
pub struct FlowModel {
    pub dem: DigitalElevationModel,
    pub flow_directions: Vec<FlowDirection>,
    pub flow_accumulation: Vec<u64>,
    pub slopes: Vec<Slope>,
    /// Per cell the angle of flow, clockwise from east, once flow has been
    /// routed by angle.
    pub dinf_flow_angles: Option<Vec<u32>>,
    /// Per cell the share of its water that each of the eight neighbours
    /// receives, once flow has been routed by angle.
    pub dinf_flow_proportions: Option<Vec<Vec<u32>>>,
    /// Per cell the share of its water that each of the eight neighbours
    /// receives, once flow has been shared among all lower neighbours.
    pub mfd_flow_proportions: Option<Vec<Vec<u32>>>,
    pub flow_method: FlowMethod,
}

/// Among the first `k` shares, the place of the first largest one that is
/// not 0; 8 where all are 0.
pub open spec fn strongest(shares: Seq<u32>, k: int) -> int
    decreases k,
{
    if k <= 0 {
        8
    } else {
        let before = strongest(shares, k - 1);
        let most: int = if 0 <= before < k - 1 {
            shares[before] as int
        } else {
            0
        };
        if shares[k - 1] > most {
            k - 1
        } else {
            before
        }
    }
}

/// How an angle divides a cell's water between the two neighbours that
/// bracket it: the neighbour before the angle, its share, the neighbour
/// after the angle, and its share. The share of the neighbour after grows
/// in proportion to the angle's distance from the neighbour before. An
/// angle that points exactly at a neighbour other than east counts as the
/// end of the bracket before it.
pub open spec fn spec_split_angle(angle: u32) -> (int, int, int, int) {
    let turned = angle as int % (8 * UNIT);
    let first = if turned == 0 {
        0
    } else {
        (turned - 1) / (UNIT as int)
    };
    (first, UNIT - (turned - first * UNIT), (first + 1) % 8, turned - first * UNIT)
}

/// Divides a cell's water between the two neighbours that bracket `angle`.
pub fn split_angle(angle: u32) -> (r: (usize, u32, usize, u32))
    ensures
        (r.0 as int, r.1 as int, r.2 as int, r.3 as int) == spec_split_angle(angle),
        r.0 < 8,
        r.2 < 8,
        r.1 + r.3 == UNIT,
{
    let turned: u32 = angle % (8 * UNIT);
    let first: u32 = if turned == 0 {
        0
    } else {
        (turned - 1) / UNIT
    };
    let second: u32 = (first + 1) % 8;
    let after: u32 = turned - first * UNIT;
    (first as usize, UNIT - after, second as usize, after)
}

/// The strongest of the shares is one that is not 0.
pub proof fn lemma_strongest_positive(shares: Seq<u32>, k: int)
    requires
        0 <= k <= shares.len(),
    ensures
        strongest(shares, k) == 8 || (0 <= strongest(shares, k) < k && shares[strongest(
            shares,
            k,
        )] > 0),
    decreases k,
{
    if k > 0 {
        lemma_strongest_positive(shares, k - 1);
    }
}

impl Terrain {
    /// The shares that the angle of flow `angle` gives the eight neighbours
    /// of cell `i`: the two neighbours that bracket the angle divide the
    /// water as `spec_split_angle` says, but a neighbour that does not lie
    /// strictly lower, or has no data, or is missing, gets nothing; no
    /// other neighbour gets anything.
    pub open spec fn angle_shares(self, i: int, angle: u32) -> Seq<u32> {
        let split = spec_split_angle(angle);
        Seq::new(
            8,
            |k: int|
                if k == split.0 && self.fall(i, FlowDirection::spec_from_octant(k)) > 0 {
                    split.1 as u32
                } else if k == split.2 && self.fall(i, FlowDirection::spec_from_octant(k)) > 0 {
                    split.3 as u32
                } else {
                    0u32
                },
        )
    }
}

/// Full turns do not matter: an angle gives the shares that it gives less
/// the full turns in it.
pub proof fn lemma_turns_do_not_matter(t: Terrain, i: int, angle: u32)
    ensures
        angle % FULL_TURN < FULL_TURN,
        t.angle_shares(i, (angle % FULL_TURN) as u32) == t.angle_shares(i, angle),
{
    let less = (angle % FULL_TURN) as u32;
    assert(FULL_TURN == 8 * UNIT);
    vstd::arithmetic::div_mod::lemma_mod_twice(angle as int, FULL_TURN as int);
    assert(less as int % (8 * UNIT) == angle as int % (8 * UNIT));
    assert(spec_split_angle(less) == spec_split_angle(angle));
    assert(t.angle_shares(i, less) =~= t.angle_shares(i, angle));
}

/// The shares that an angle gives add up to a whole where both neighbours
/// that bracket the angle lie lower, to the share of the one that does
/// where only one does, and to nothing where neither does.
pub proof fn lemma_angle_shares_total(t: Terrain, i: int, angle: u32)
    ensures
        ({
            let split = spec_split_angle(angle);
            let before = t.fall(i, FlowDirection::spec_from_octant(split.0)) > 0;
            let after = t.fall(i, FlowDirection::spec_from_octant(split.2)) > 0;
            &&& 0 <= split.0 < 8 && 0 <= split.2 < 8 && split.0 != split.2
            &&& 0 <= split.1 <= UNIT && 0 <= split.3 <= UNIT && split.1 + split.3 == UNIT
            &&& shares_sum(t.angle_shares(i, angle), 8) == (if before {
                split.1
            } else {
                0
            }) + (if after {
                split.3
            } else {
                0
            })
            &&& 0 <= shares_sum(t.angle_shares(i, angle), 8) <= UNIT
        }),
{
    reveal_with_fuel(shares_sum, 9);
    let split = spec_split_angle(angle);
    let turned = angle as int % (8 * UNIT);
    assert(0 <= turned < 8 * UNIT);
    assert(0 <= split.0 < 8);
    assert(0 <= split.3 <= UNIT);
}

impl Terrain {
    /// Cell `i` has a neighbour with data that lies strictly lower.
    pub open spec fn has_lower_neighbor(self, i: int) -> bool {
        exists|k: int| 0 <= k < 8 && self.fall(i, #[trigger] FlowDirection::spec_from_octant(k)) > 0
    }

    /// `angle` points downhill from cell `i`: the ground falls toward each
    /// of the two neighbours that bracket the angle to which the angle
    /// gives a part of the water.
    pub open spec fn points_downhill(self, i: int, angle: u32) -> bool {
        let split = spec_split_angle(angle);
        &&& split.1 > 0 ==> self.fall(i, FlowDirection::spec_from_octant(split.0)) > 0
        &&& split.3 > 0 ==> self.fall(i, FlowDirection::spec_from_octant(split.2)) > 0
    }
}

/// Routing by angle is total: the shares of a cell add up to a whole at
/// most, to nothing where the cell has no lower neighbour, and to a whole
/// exactly where its angle points downhill.
pub proof fn lemma_angle_routing_is_total(t: Terrain, i: int, angle: u32)
    ensures
        0 <= shares_sum(t.angle_shares(i, angle), 8) <= UNIT,
        !t.has_lower_neighbor(i) ==> shares_sum(t.angle_shares(i, angle), 8) == 0,
        t.points_downhill(i, angle) <==> shares_sum(t.angle_shares(i, angle), 8) == UNIT,
        t.points_downhill(i, angle) ==> t.has_lower_neighbor(i),
{
    lemma_angle_shares_total(t, i, angle);
    let split = spec_split_angle(angle);
    if t.fall(i, FlowDirection::spec_from_octant(split.0)) > 0 {
        assert(t.has_lower_neighbor(i));
    }
    if t.fall(i, FlowDirection::spec_from_octant(split.2)) > 0 {
        assert(t.has_lower_neighbor(i));
    }
}

/// A vector of `n` copies of `value`.
pub(crate) fn filled<T: Copy>(value: T, n: usize) -> (r: Vec<T>)
    ensures
        r@.len() == n,
        forall|i: int| 0 <= i < n ==> r@[i] == value,
{
    let mut r: Vec<T> = Vec::new();
    let mut i: usize = 0;
    while i < n
        invariant
            i <= n,
            r@.len() == i,
            forall|j: int| 0 <= j < i ==> r@[j] == value,
        decreases n - i,
    {
        r.push(value);
        i += 1;
    }
    r
}

/// A copy of `source`.
pub(crate) fn copy_of<T: Copy>(source: &Vec<T>) -> (r: Vec<T>)
    ensures
        r@ == source@,
{
    let mut r: Vec<T> = Vec::new();
    let mut k: usize = 0;
    while k < source.len()
        invariant
            k <= source@.len(),
            r@ == source@.subrange(0, k as int),
        decreases source@.len() - k,
    {
        r.push(source[k]);
        assert(r@ =~= source@.subrange(0, k as int + 1));
        k += 1;
    }
    assert(r@ =~= source@);
    r
}

impl FlowModel {
    /// Number of cells.
    pub open spec fn cells(&self) -> int {
        self.dem.data@.len() as int
    }

    /// The slope from cell `i` toward `direction`; level where the ground
    /// does not fall that way.
    pub open spec fn slope_toward(&self, i: int, direction: FlowDirection) -> Slope {
        Slope {
            drop: self.dem@.fall(i, direction) as u32,
            diagonal: self.dem@.fall(i, direction) > 0 && direction.spec_is_diagonal(),
        }
    }

    /// The stored direction of cell `i` is `NoFlow` or points to a strictly
    /// lower neighbour with data.
    pub open spec fn routed_at(&self, i: int) -> bool {
        self.dem@.rests_or_falls(i, self.flow_directions@[i])
    }

    /// The grid is well formed, every per-cell array has one entry per
    /// cell, and water only ever leaves toward a strictly lower neighbour
    /// with data.
    pub open spec fn wf(&self) -> bool {
        &&& self.dem.wf()
        &&& self.flow_directions@.len() == self.cells()
        &&& self.flow_accumulation@.len() == self.cells()
        &&& self.slopes@.len() == self.cells()
        &&& forall|i: int|
            0 <= i < self.cells() ==> self.dem@.rests_or_falls(i, #[trigger] self.flow_directions@[i])
        &&& self.dinf_flow_angles matches Some(angles) ==> {
            &&& angles@.len() == self.cells()
            &&& forall|i: int| 0 <= i < self.cells() ==> #[trigger] angles@[i] < FULL_TURN
        }
        &&& self.dinf_flow_proportions matches Some(table) ==> {
            &&& table@.len() == self.cells()
            &&& forall|i: int|
                0 <= i < self.cells() ==> self.dem@.gives_downhill(i, (#[trigger] table@[i])@)
        }
        &&& self.mfd_flow_proportions matches Some(table) ==> {
            &&& table@.len() == self.cells()
            &&& forall|i: int|
                0 <= i < self.cells() ==> self.dem@.gives_downhill(i, (#[trigger] table@[i])@)
        }
    }

    /// A model of `dem` in which no cell has been routed yet.
    pub fn new(dem: DigitalElevationModel) -> (r: Self)
        requires
            dem.wf(),
        ensures
            r.wf(),
            r.dem == dem,
            r.flow_method == FlowMethod::D8,
            r.dinf_flow_angles is None,
            r.dinf_flow_proportions is None,
            r.mfd_flow_proportions is None,
            forall|i: int| 0 <= i < r.cells() ==> r.flow_directions@[i] == FlowDirection::NoFlow,
            forall|i: int| 0 <= i < r.cells() ==> r.flow_accumulation@[i] == 0,
            forall|i: int| 0 <= i < r.cells() ==> r.slopes@[i] == (Slope { drop: 0, diagonal: false }),
    {
        let cell_count: usize = dem.data.len();
        FlowModel {
            dem,
            flow_directions: filled(FlowDirection::NoFlow, cell_count),
            flow_accumulation: filled(0u64, cell_count),
            slopes: filled(Slope::flat(), cell_count),
            dinf_flow_angles: None,
            dinf_flow_proportions: None,
            mfd_flow_proportions: None,
            flow_method: FlowMethod::D8,
        }
    }

    /// Routes every cell with data toward its steepest lower neighbour.
    /// Slopes compare exactly: a neighbour that touches by a corner lies
    /// the square root of two times as far away as one that touches by an
    /// edge. Among equally steep neighbours the one examined first wins:
    /// east first, then clockwise.
    pub fn compute_flow_directions(&mut self)
        requires
            old(self).wf(),
        ensures
            final(self).wf(),
            final(self).dem == old(self).dem,
            final(self).flow_accumulation == old(self).flow_accumulation,
            final(self).flow_method == old(self).flow_method,
            final(self).dinf_flow_angles == old(self).dinf_flow_angles,
            final(self).dinf_flow_proportions == old(self).dinf_flow_proportions,
            final(self).mfd_flow_proportions == old(self).mfd_flow_proportions,
            forall|i: int|
                0 <= i < final(self).cells() ==> final(self).dem@.is_d8_choice(
                    i,
                    #[trigger] final(self).flow_directions@[i],
                ),
            forall|i: int|
                0 <= i < final(self).cells() ==> #[trigger] final(self).slopes@[i]
                    == final(self).slope_toward(i, final(self).flow_directions@[i]),
    {
        let width: usize = self.dem.width;
        let height: usize = self.dem.height;
        let n: usize = self.dem.data.len();
        let ghost t = self.dem@;
        let mut idx: usize = 0;
        while idx < n
            invariant
                idx <= n,
                n == self.cells(),
                width == self.dem.width,
                height == self.dem.height,
                t == self.dem@,
                self.dem == old(self).dem,
                self.dem.wf(),
                self.flow_accumulation == old(self).flow_accumulation,
                self.flow_method == old(self).flow_method,
                self.dinf_flow_angles == old(self).dinf_flow_angles,
                self.dinf_flow_proportions == old(self).dinf_flow_proportions,
                self.mfd_flow_proportions == old(self).mfd_flow_proportions,
                self.wf(),
                forall|i: int| 0 <= i < idx ==> t.is_d8_choice(i, #[trigger] self.flow_directions@[i]),
                forall|i: int|
                    0 <= i < idx ==> #[trigger] self.slopes@[i] == self.slope_toward(
                        i,
                        self.flow_directions@[i],
                    ),
            decreases n - idx,
        {
            let x: usize = idx % width;
            let y: usize = idx / width;
            proof {
                lemma_cell_coordinates(width as int, height as int, idx as int);
            }
            let (best_dir, best) = self.steepest_descent(x, y);
            let ghost prior = *self;
            self.flow_directions.set(idx, best_dir);
            self.slopes.set(idx, best);
            proof {
                assert(self.routed_at(idx as int));
                assert forall|i: int| 0 <= i < idx + 1 implies #[trigger] self.slopes@[i]
                    == self.slope_toward(i, self.flow_directions@[i]) by {
                    if i != idx {
                        assert(prior.slopes@[i] == prior.slope_toward(i, prior.flow_directions@[i]));
                    }
                }
            }
            idx += 1;
        }
    }

    /// The direction of steepest descent from `(x, y)` and the slope that
    /// way; `NoFlow` and level ground where no neighbour lies lower.
    pub fn steepest_descent(&self, x: usize, y: usize) -> (r: (FlowDirection, Slope))
        requires
            self.dem.wf(),
            x < self.dem.width,
            y < self.dem.height,
        ensures
            self.dem@.is_d8_choice(self.dem@.index(x as int, y as int), r.0),
            r.1 == self.slope_toward(self.dem@.index(x as int, y as int), r.0),
    {
        let width: usize = self.dem.width;
        let height: usize = self.dem.height;
        let ghost t = self.dem@;
        proof {
            lemma_index_in_range(width as int, height as int, x as int, y as int);
        }
        let idx: usize = y * width + x;
        let ghost n = self.cells();
        let mut best: Slope = Slope::flat();
        let mut best_dir: FlowDirection = FlowDirection::NoFlow;
        if let Some(elev) = self.dem.get_elevation(x, y) {
            let mut k: usize = 0;
            while k < 8
                invariant
                    k <= 8,
                    idx < n,
                    n == self.cells(),
                    t == self.dem@,
                    self.dem.wf(),
                    width == self.dem.width,
                    height == self.dem.height,
                    x < width,
                    y < height,
                    y * width + x == idx,
                    idx % width == x,
                    idx / width == y,
                    self.dem.spec_elevation(x as int, y as int) == Some(elev),
                    best_dir == FlowDirection::NoFlow ==> best == (Slope {
                        drop: 0,
                        diagonal: false,
                    }) && forall|j: int|
                        0 <= j < k ==> t.fall(
                            idx as int,
                            #[trigger] FlowDirection::spec_from_octant(j),
                        ) == 0,
                    best_dir != FlowDirection::NoFlow ==> {
                        &&& best_dir.spec_octant() < k
                        &&& t.fall(idx as int, best_dir) > 0
                        &&& best.drop == t.fall(idx as int, best_dir)
                        &&& best.diagonal == best_dir.spec_is_diagonal()
                        &&& forall|j: int|
                            0 <= j < k ==> t.steepness(
                                idx as int,
                                #[trigger] FlowDirection::spec_from_octant(j),
                            ) <= t.steepness(idx as int, best_dir)
                        &&& forall|j: int|
                            0 <= j < best_dir.spec_octant() ==> t.steepness(
                                idx as int,
                                #[trigger] FlowDirection::spec_from_octant(j),
                            ) < t.steepness(idx as int, best_dir)
                    },
                decreases 8 - k,
            {
                let direction: FlowDirection = FlowDirection::from_octant(k);
                let ghost fall = t.fall(idx as int, direction);
                let mut candidate: Slope = Slope::flat();
                if let Some((nx, ny)) = self.dem.neighbor(x, y, direction) {
                    proof {
                        lemma_index_in_range(width as int, height as int, nx as int, ny as int);
                    }
                    if let Some(n_elev) = self.dem.get_elevation(nx, ny) {
                        if n_elev < elev {
                            candidate =
                            Slope {
                                drop: (elev as i64 - n_elev as i64) as u32,
                                diagonal: direction.is_diagonal(),
                            };
                        }
                    }
                }
                assert(candidate.drop == fall);
                assert(fall > 0 ==> candidate.diagonal == direction.spec_is_diagonal());
                assert(candidate.steepness() == t.steepness(idx as int, direction)) by {
                    assert(0 * 0 == 0);
                }
                assert(fall > 0 <==> candidate.steepness() > 0) by (nonlinear_arith)
                    requires
                        fall >= 0,
                        candidate.steepness() == steepness_of(fall, candidate.diagonal),
                ;
                if candidate.steeper_than(&best) {
                    best = candidate;
                    best_dir = direction;
                }
                k += 1;
            }
        } else {
            assert forall|j: int| 0 <= j < 8 implies t.fall(
                idx as int,
                #[trigger] FlowDirection::spec_from_octant(j),
            ) == 0 by {}
        }
        assert(best_dir != FlowDirection::NoFlow ==> t.fall(idx as int, best_dir) > 0);
        (best_dir, best)
    }

    /// The direction in which cell `i` hands on its water: where flow has
    /// been routed by angle, toward the neighbour with the largest share;
    /// otherwise the stored direction.
    pub open spec fn outflow(&self, i: int) -> FlowDirection {
        match (self.flow_method, self.dinf_flow_proportions) {
            (FlowMethod::DInf, Some(table)) => FlowDirection::spec_from_octant(
                strongest(table@[i]@, 8),
            ),
            _ => self.flow_directions@[i],
        }
    }

    /// The cell, if any, to which the water of cell `i` flows: its
    /// neighbour in the direction of outflow, where the grid has one.
    pub open spec fn downstream(&self, i: int) -> Option<int> {
        if 0 <= i < self.cells() {
            self.dem@.neighbor(i, self.outflow(i))
        } else {
            None
        }
    }

    /// The cell to which the water of `(x, y)` flows; `None` outside the
    /// grid, where the cell has no outflow, and where the flow would leave
    /// the grid.
    pub fn get_downstream_cell(&self, x: usize, y: usize) -> (r: Option<(usize, usize)>)
        requires
            self.wf(),
        ensures
            match r {
                Some((nx, ny)) => {
                    &&& self.dem@.in_grid(x as int, y as int)
                    &&& self.dem@.in_grid(nx as int, ny as int)
                    &&& self.downstream(self.dem@.index(x as int, y as int)) == Some(
                        self.dem@.index(nx as int, ny as int),
                    )
                },
                None => !self.dem@.in_grid(x as int, y as int) || self.downstream(
                    self.dem@.index(x as int, y as int),
                ) is None,
            },
    {
        if x >= self.dem.width || y >= self.dem.height {
            return None;
        }
        proof {
            lemma_index_in_range(self.dem.width as int, self.dem.height as int, x as int, y as int);
        }
        let idx: usize = y * self.dem.width + x;
        match self.flow_method {
            FlowMethod::DInf => {
                match &self.dinf_flow_proportions {
                    Some(table) => {
                        assert(self.dem@.gives_downhill(idx as int, table@[idx as int]@));
                        let shares: &Vec<u32> = &table[idx];
                        let mut most: u32 = 0;
                        let mut best: usize = 8;
                        let mut dir: usize = 0;
                        while dir < 8
                            invariant
                                dir <= 8,
                                shares@.len() == 8,
                                best == strongest(shares@, dir as int),
                                best < dir || best == 8,
                                most == if best < 8 {
                                    shares@[best as int]
                                } else {
                                    0u32
                                },
                            decreases 8 - dir,
                        {
                            if shares[dir] > most {
                                most = shares[dir];
                                best = dir;
                            }
                            dir += 1;
                        }
                        self.dem.neighbor(x, y, FlowDirection::from_octant(best))
                    },
                    None => self.get_downstream_cell_d8(x, y),
                }
            },
            _ => self.get_downstream_cell_d8(x, y),
        }
    }

    /// The cell next to `(x, y)` in its stored direction; `None` outside
    /// the grid, where the direction is `NoFlow`, and where the grid ends.
    pub fn get_downstream_cell_d8(&self, x: usize, y: usize) -> (r: Option<(usize, usize)>)
        requires
            self.wf(),
        ensures
            match r {
                Some((nx, ny)) => {
                    &&& self.dem@.in_grid(x as int, y as int)
                    &&& self.dem@.in_grid(nx as int, ny as int)
                    &&& self.dem@.neighbor(
                        self.dem@.index(x as int, y as int),
                        self.flow_directions@[self.dem@.index(x as int, y as int)],
                    ) == Some(self.dem@.index(nx as int, ny as int))
                },
                None => !self.dem@.in_grid(x as int, y as int) || self.dem@.neighbor(
                    self.dem@.index(x as int, y as int),
                    self.flow_directions@[self.dem@.index(x as int, y as int)],
                ) is None,
            },
    {
        if x >= self.dem.width || y >= self.dem.height {
            return None;
        }
        proof {
            lemma_index_in_range(self.dem.width as int, self.dem.height as int, x as int, y as int);
        }
        let idx: usize = y * self.dem.width + x;
        let direction: FlowDirection = self.flow_directions[idx];
        if direction == FlowDirection::NoFlow {
            return None;
        }
        self.dem.neighbor(x, y, direction)
    }

    /// The slope at `(x, y)`; `None` outside the grid.
    pub fn get_slope(&self, x: usize, y: usize) -> (r: Option<Slope>)
        requires
            self.wf(),
        ensures
            r == if self.dem@.in_grid(x as int, y as int) {
                Some(self.slopes@[self.dem@.index(x as int, y as int)])
            } else {
                None
            },
    {
        if x >= self.dem.width || y >= self.dem.height {
            return None;
        }
        proof {
            lemma_index_in_range(self.dem.width as int, self.dem.height as int, x as int, y as int);
        }
        Some(self.slopes[y * self.dem.width + x])
    }

    /// The flow direction at `(x, y)`; `None` outside the grid.
    pub fn get_flow_direction(&self, x: usize, y: usize) -> (r: Option<FlowDirection>)
        requires
            self.wf(),
        ensures
            r == if self.dem@.in_grid(x as int, y as int) {
                Some(self.flow_directions@[self.dem@.index(x as int, y as int)])
            } else {
                None
            },
    {
        if x >= self.dem.width || y >= self.dem.height {
            return None;
        }
        proof {
            lemma_index_in_range(self.dem.width as int, self.dem.height as int, x as int, y as int);
        }
        Some(self.flow_directions[y * self.dem.width + x])
    }

    /// The flow accumulation at `(x, y)`; `None` outside the grid.
    pub fn get_flow_accumulation(&self, x: usize, y: usize) -> (r: Option<u64>)
        requires
            self.wf(),
        ensures
            r == if self.dem@.in_grid(x as int, y as int) {
                Some(self.flow_accumulation@[self.dem@.index(x as int, y as int)])
            } else {
                None
            },
    {
        if x >= self.dem.width || y >= self.dem.height {
            return None;
        }
        proof {
            lemma_index_in_range(self.dem.width as int, self.dem.height as int, x as int, y as int);
        }
        Some(self.flow_accumulation[y * self.dem.width + x])
    }

    /// Whether the ground falls from `(x, y)` to its neighbour in
    /// `direction`: the neighbour lies in the grid, both cells have data,
    /// and the neighbour is strictly lower.
    pub fn falls_toward(&self, x: usize, y: usize, direction: FlowDirection) -> (r: bool)
        requires
            self.dem.wf(),
            x < self.dem.width,
            y < self.dem.height,
        ensures
            r == (self.dem@.fall(self.dem@.index(x as int, y as int), direction) > 0),
    {
        proof {
            lemma_index_in_range(self.dem.width as int, self.dem.height as int, x as int, y as int);
        }
        match (self.dem.get_elevation(x, y), self.dem.neighbor(x, y, direction)) {
            (Some(elev), Some((nx, ny))) => {
                proof {
                    lemma_index_in_range(
                        self.dem.width as int,
                        self.dem.height as int,
                        nx as int,
                        ny as int,
                    );
                }
                match self.dem.get_elevation(nx, ny) {
                    Some(n_elev) => n_elev < elev,
                    None => false,
                }
            },
            _ => false,
        }
    }

    /// What routing by the angles `angles` leaves in the model that was
    /// `before`: the angles, each less the full turns in it; for every
    /// cell the shares that its angle gives, which are those that the
    /// stored angle gives; and for every cell with a lower neighbour the
    /// slope of steepest descent, for any other the slope that it had.
    pub open spec fn routed_by_angles(&self, before: &FlowModel, angles: Seq<u32>) -> bool {
        &&& self.flow_method == FlowMethod::DInf
        &&& self.dinf_flow_angles is Some
        &&& self.dinf_flow_angles->Some_0@.len() == angles.len()
        &&& forall|i: int|
            0 <= i < angles.len() ==> #[trigger] self.dinf_flow_angles->Some_0@[i] == angles[i]
                % FULL_TURN
        &&& self.dinf_flow_proportions is Some
        &&& forall|i: int|
            0 <= i < self.cells() ==> (#[trigger] self.dinf_flow_proportions->Some_0@[i])@
                == self.dem@.angle_shares(i, angles[i])
        &&& forall|i: int|
            0 <= i < self.cells() ==> (#[trigger] self.dinf_flow_proportions->Some_0@[i])@
                == self.dem@.angle_shares(i, self.dinf_flow_angles->Some_0@[i])
        &&& forall|i: int, direction: FlowDirection|
            0 <= i < self.cells() && #[trigger] self.dem@.is_d8_choice(i, direction)
                ==> self.slopes@[i] == if direction == FlowDirection::NoFlow {
                before.slopes@[i]
            } else {
                self.slope_toward(i, direction)
            }
    }

    /// After routing by angles the shares of every cell add up to a whole
    /// at most, to nothing where the cell has no lower neighbour, and to
    /// a whole exactly where its angle points downhill.
    pub proof fn lemma_routed_by_angles_is_total(&self, before: &FlowModel, angles: Seq<u32>, i: int)
        requires
            self.routed_by_angles(before, angles),
            0 <= i < self.cells(),
        ensures
            0 <= shares_sum(self.dinf_flow_proportions->Some_0@[i]@, 8) <= UNIT,
            !self.dem@.has_lower_neighbor(i) ==> shares_sum(
                self.dinf_flow_proportions->Some_0@[i]@,
                8,
            ) == 0,
            self.dem@.points_downhill(i, angles[i]) <==> shares_sum(
                self.dinf_flow_proportions->Some_0@[i]@,
                8,
            ) == UNIT,
    {
        lemma_angle_routing_is_total(self.dem@, i, angles[i]);
    }

    /// Routes every cell by the angle of flow given for it, measured
    /// clockwise from east in millionths of an eighth turn, and says
    /// whether it did: it does nothing unless there is one angle for every
    /// cell. Full turns are taken off an angle before it is stored, so
    /// that a stored angle is less than `FULL_TURN`. The water of a cell
    /// is divided between the two neighbours that bracket its angle, in
    /// proportion to the angle's distance from either; a neighbour that
    /// does not lie
    /// strictly lower gets nothing, so that a cell without a lower
    /// neighbour keeps its water. The slope of a cell with a lower
    /// neighbour is the slope of steepest descent.
    pub fn compute_flow_directions_dinf(&mut self, angles: &Vec<u32>) -> (done: bool)
        requires
            old(self).wf(),
        ensures
            final(self).wf(),
            done == (angles@.len() == old(self).cells()),
            final(self).dem == old(self).dem,
            final(self).flow_directions == old(self).flow_directions,
            final(self).flow_accumulation == old(self).flow_accumulation,
            final(self).mfd_flow_proportions == old(self).mfd_flow_proportions,
            !done ==> *final(self) == *old(self),
            done ==> final(self).routed_by_angles(old(self), angles@),
    {
        let width: usize = self.dem.width;
        let height: usize = self.dem.height;
        let n: usize = self.dem.data.len();
        if angles.len() != n {
            return false;
        }
        let mut flow_proportions: Vec<Vec<u32>> = Vec::new();
        let mut turned: Vec<u32> = Vec::new();
        let ghost mut choice: Seq<FlowDirection> = Seq::empty();
        let mut idx: usize = 0;
        while idx < n
            invariant
                idx <= n,
                n == self.cells(),
                angles@.len() == n,
                width == self.dem.width,
                height == self.dem.height,
                self.wf(),
                self.dem == old(self).dem,
                self.flow_directions == old(self).flow_directions,
                self.flow_accumulation == old(self).flow_accumulation,
                self.flow_method == old(self).flow_method,
                self.dinf_flow_angles == old(self).dinf_flow_angles,
                self.dinf_flow_proportions == old(self).dinf_flow_proportions,
                self.mfd_flow_proportions == old(self).mfd_flow_proportions,
                flow_proportions@.len() == idx,
                turned@.len() == idx,
                forall|i: int| 0 <= i < idx ==> #[trigger] turned@[i] == angles@[i] % FULL_TURN,
                forall|i: int|
                    0 <= i < idx ==> (#[trigger] flow_proportions@[i])@ == self.dem@.angle_shares(
                        i,
                        turned@[i],
                    ),
                choice.len() == idx,
                forall|i: int| idx <= i < n ==> self.slopes@[i] == old(self).slopes@[i],
                forall|i: int|
                    0 <= i < idx ==> (#[trigger] flow_proportions@[i])@ == self.dem@.angle_shares(
                        i,
                        angles@[i],
                    ),
                forall|i: int|
                    0 <= i < idx ==> self.dem@.gives_downhill(i, (#[trigger] flow_proportions@[i])@),
                forall|i: int|
                    0 <= i < idx ==> self.dem@.is_d8_choice(i, #[trigger] choice[i])
                        && self.slopes@[i] == if choice[i] == FlowDirection::NoFlow {
                        old(self).slopes@[i]
                    } else {
                        self.slope_toward(i, choice[i])
                    },
            decreases n - idx,
        {
            let x: usize = idx % width;
            let y: usize = idx / width;
            proof {
                lemma_cell_coordinates(width as int, height as int, idx as int);
            }
            let (direction, slope) = self.steepest_descent(x, y);
            if direction != FlowDirection::NoFlow {
                self.slopes.set(idx, slope);
            }
            let mut shares: Vec<u32> = filled(0u32, 8);
            let (first, first_share, second, second_share) = split_angle(angles[idx]);
            if self.falls_toward(x, y, FlowDirection::from_octant(first)) {
                shares.set(first, first_share);
            }
            if self.falls_toward(x, y, FlowDirection::from_octant(second)) {
                shares.set(second, second_share);
            }
            proof {
                assert(first != second);
                assert(shares@ =~= self.dem@.angle_shares(idx as int, angles@[idx as int]));
                lemma_angle_shares_total(self.dem@, idx as int, angles@[idx as int]);
                lemma_turns_do_not_matter(self.dem@, idx as int, angles@[idx as int]);
                choice = choice.push(direction);
            }
            flow_proportions.push(shares);
            turned.push(angles[idx] % FULL_TURN);
            idx += 1;
        }
        self.dinf_flow_angles = Some(turned);
        self.dinf_flow_proportions = Some(flow_proportions);
        self.flow_method = FlowMethod::DInf;
        proof {
            assert forall|i: int, direction: FlowDirection|
                0 <= i < self.cells() && #[trigger] self.dem@.is_d8_choice(
                    i,
                    direction,
                ) implies self.slopes@[i] == if direction == FlowDirection::NoFlow {
                    old(self).slopes@[i]
                } else {
                    self.slope_toward(i, direction)
                } by {
                lemma_d8_choice_is_unique(self.dem@, i, direction, choice[i]);
            }
        }
        true
    }
}

} // verus!
