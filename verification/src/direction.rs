//! The eight compass directions in which water can leave a cell.

use vstd::prelude::*;

verus! {

/// One of the eight neighbours of a cell, or no outflow at all. Columns
/// grow eastward and rows grow southward.
#[derive(Clone, Copy, Debug, PartialEq, Eq, Structural)]
pub enum FlowDirection {
    East,
    Southeast,
    South,
    Southwest,
    West,
    Northwest,
    North,
    Northeast,
    /// A sink, an outlet or a cell without data.
    NoFlow,
}

/// How flow is routed out of a cell.
#[derive(Clone, Copy, Debug, PartialEq, Eq, Structural)]
pub enum FlowMethod {
    /// All flow leaves toward the steepest of the eight neighbours.
    D8,
    /// Flow leaves along a continuous angle, shared by the two neighbours
    /// that bracket it.
    DInf,
    /// Flow is shared among all lower neighbours.
    MFD,
}

impl FlowDirection {
    /// The step `(dx, dy)` to the neighbour in this direction.
    pub open spec fn spec_offset(self) -> (int, int) {
        match self {
            FlowDirection::East => (1, 0),
            FlowDirection::Southeast => (1, 1),
            FlowDirection::South => (0, 1),
            FlowDirection::Southwest => (-1, 1),
            FlowDirection::West => (-1, 0),
            FlowDirection::Northwest => (-1, -1),
            FlowDirection::North => (0, -1),
            FlowDirection::Northeast => (1, -1),
            FlowDirection::NoFlow => (0, 0),
        }
    }

    /// The bit that stands for this direction: 1 for east, doubling
    /// clockwise up to 128 for north-east; 0 for no flow.
    pub open spec fn spec_code(self) -> u8 {
        match self {
            FlowDirection::East => 1,
            FlowDirection::Southeast => 2,
            FlowDirection::South => 4,
            FlowDirection::Southwest => 8,
            FlowDirection::West => 16,
            FlowDirection::Northwest => 32,
            FlowDirection::North => 64,
            FlowDirection::Northeast => 128,
            FlowDirection::NoFlow => 0,
        }
    }

    /// The direction that `code` stands for; no flow for any other number.
    pub open spec fn spec_from_code(code: u8) -> FlowDirection {
        if code == 1 {
            FlowDirection::East
        } else if code == 2 {
            FlowDirection::Southeast
        } else if code == 4 {
            FlowDirection::South
        } else if code == 8 {
            FlowDirection::Southwest
        } else if code == 16 {
            FlowDirection::West
        } else if code == 32 {
            FlowDirection::Northwest
        } else if code == 64 {
            FlowDirection::North
        } else if code == 128 {
            FlowDirection::Northeast
        } else {
            FlowDirection::NoFlow
        }
    }

    /// The place of this direction in the fixed order in which neighbours
    /// are examined: east first, then clockwise; 8 for no flow.
    pub open spec fn spec_octant(self) -> int {
        match self {
            FlowDirection::East => 0,
            FlowDirection::Southeast => 1,
            FlowDirection::South => 2,
            FlowDirection::Southwest => 3,
            FlowDirection::West => 4,
            FlowDirection::Northwest => 5,
            FlowDirection::North => 6,
            FlowDirection::Northeast => 7,
            FlowDirection::NoFlow => 8,
        }
    }

    /// The direction examined at place `octant`; no flow from 8 on.
    pub open spec fn spec_from_octant(octant: int) -> FlowDirection {
        if octant == 0 {
            FlowDirection::East
        } else if octant == 1 {
            FlowDirection::Southeast
        } else if octant == 2 {
            FlowDirection::South
        } else if octant == 3 {
            FlowDirection::Southwest
        } else if octant == 4 {
            FlowDirection::West
        } else if octant == 5 {
            FlowDirection::Northwest
        } else if octant == 6 {
            FlowDirection::North
        } else if octant == 7 {
            FlowDirection::Northeast
        } else {
            FlowDirection::NoFlow
        }
    }

    /// The neighbour in this direction touches by a corner only.
    pub open spec fn spec_is_diagonal(self) -> bool {
        self.spec_offset().0 != 0 && self.spec_offset().1 != 0
    }

    /// The step `(dx, dy)` to the neighbour in this direction.
    pub fn get_offset(&self) -> (r: (isize, isize))
        ensures
            r.0 == self.spec_offset().0,
            r.1 == self.spec_offset().1,
    {
        match self {
            FlowDirection::East => (1, 0),
            FlowDirection::Southeast => (1, 1),
            FlowDirection::South => (0, 1),
            FlowDirection::Southwest => (-1, 1),
            FlowDirection::West => (-1, 0),
            FlowDirection::Northwest => (-1, -1),
            FlowDirection::North => (0, -1),
            FlowDirection::Northeast => (1, -1),
            FlowDirection::NoFlow => (0, 0),
        }
    }

    /// The direction that `code` stands for; no flow for any other number.
    pub fn from_code(code: u8) -> (r: Self)
        ensures
            r == Self::spec_from_code(code),
    {
        match code {
            1 => FlowDirection::East,
            2 => FlowDirection::Southeast,
            4 => FlowDirection::South,
            8 => FlowDirection::Southwest,
            16 => FlowDirection::West,
            32 => FlowDirection::Northwest,
            64 => FlowDirection::North,
            128 => FlowDirection::Northeast,
            _ => FlowDirection::NoFlow,
        }
    }

    /// The number that stands for this direction.
    pub fn code(&self) -> (r: u8)
        ensures
            r == self.spec_code(),
    {
        match self {
            FlowDirection::East => 1,
            FlowDirection::Southeast => 2,
            FlowDirection::South => 4,
            FlowDirection::Southwest => 8,
            FlowDirection::West => 16,
            FlowDirection::Northwest => 32,
            FlowDirection::North => 64,
            FlowDirection::Northeast => 128,
            FlowDirection::NoFlow => 0,
        }
    }

    /// The direction examined at place `octant`; no flow from 8 on.
    pub fn from_octant(octant: usize) -> (r: Self)
        ensures
            r == Self::spec_from_octant(octant as int),
    {
        match octant {
            0 => FlowDirection::East,
            1 => FlowDirection::Southeast,
            2 => FlowDirection::South,
            3 => FlowDirection::Southwest,
            4 => FlowDirection::West,
            5 => FlowDirection::Northwest,
            6 => FlowDirection::North,
            7 => FlowDirection::Northeast,
            _ => FlowDirection::NoFlow,
        }
    }

    /// The place of this direction in the order of examination.
    pub fn octant(&self) -> (r: usize)
        ensures
            r == self.spec_octant(),
    {
        match self {
            FlowDirection::East => 0,
            FlowDirection::Southeast => 1,
            FlowDirection::South => 2,
            FlowDirection::Southwest => 3,
            FlowDirection::West => 4,
            FlowDirection::Northwest => 5,
            FlowDirection::North => 6,
            FlowDirection::Northeast => 7,
            FlowDirection::NoFlow => 8,
        }
    }

    /// Whether the neighbour in this direction touches by a corner only.
    pub fn is_diagonal(&self) -> (r: bool)
        ensures
            r == self.spec_is_diagonal(),
    {
        match self {
            FlowDirection::Southeast => true,
            FlowDirection::Southwest => true,
            FlowDirection::Northwest => true,
            FlowDirection::Northeast => true,
            _ => false,
        }
    }

    /// The direction that points back from the neighbour.
    pub open spec fn spec_opposite(self) -> FlowDirection {
        match self {
            FlowDirection::East => FlowDirection::West,
            FlowDirection::Southeast => FlowDirection::Northwest,
            FlowDirection::South => FlowDirection::North,
            FlowDirection::Southwest => FlowDirection::Northeast,
            FlowDirection::West => FlowDirection::East,
            FlowDirection::Northwest => FlowDirection::Southeast,
            FlowDirection::North => FlowDirection::South,
            FlowDirection::Northeast => FlowDirection::Southwest,
            FlowDirection::NoFlow => FlowDirection::NoFlow,
        }
    }
}

/// A direction is found again from its code.
pub proof fn lemma_code_round_trip(direction: FlowDirection)
    ensures
        FlowDirection::spec_from_code(direction.spec_code()) == direction,
{
}

/// A number that stands for a direction is found again from that direction;
/// every other number reads as no flow, whose code is 0.
pub proof fn lemma_from_code_round_trip(code: u8)
    ensures
        FlowDirection::spec_from_code(code).spec_code() == if code == 1 || code == 2 || code == 4
            || code == 8 || code == 16 || code == 32 || code == 64 || code == 128 {
            code
        } else {
            0u8
        },
{
}

/// A direction is found again from its place in the order of examination.
pub proof fn lemma_octant_round_trip(direction: FlowDirection)
    ensures
        FlowDirection::spec_from_octant(direction.spec_octant()) == direction,
        0 <= direction.spec_octant() <= 8,
{
}

/// The codes of the directions, one by one.
pub open spec fn codes_of(directions: Seq<FlowDirection>) -> Seq<u8> {
    Seq::new(directions.len(), |i: int| directions[i].spec_code())
}

/// The codes of the directions, one by one.
pub fn codes(directions: &Vec<FlowDirection>) -> (r: Vec<u8>)
    ensures
        r@ == codes_of(directions@),
{
    let mut direction_codes: Vec<u8> = Vec::new();
    let mut i: usize = 0;
    while i < directions.len()
        invariant
            i <= directions@.len(),
            direction_codes@.len() == i,
            forall|j: int| 0 <= j < i ==> direction_codes@[j] == directions@[j].spec_code(),
        decreases directions@.len() - i,
    {
        direction_codes.push(directions[i].code());
        i += 1;
    }
    assert(direction_codes@ =~= codes_of(directions@));
    direction_codes
}

} // verus!
