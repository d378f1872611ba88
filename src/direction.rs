use vstd::prelude::*;

verus! {

/// One of the eight compass directions in which the rogue can leap.
#[derive(Clone, Copy, Debug, PartialEq, Eq, Structural)]
pub enum Direction {
    North,
    South,
    East,
    West,
    Northwest,
    Northeast,
    Southwest,
    Southeast,
}

impl Direction {
    /// Horizontal component of the unit step.
    pub open spec fn spec_dx(self) -> int {
        match self {
            Direction::West | Direction::Northwest | Direction::Southwest => -1,
            Direction::East | Direction::Northeast | Direction::Southeast => 1,
            _ => 0,
        }
    }

    /// Vertical component of the unit step (rows grow downwards).
    pub open spec fn spec_dy(self) -> int {
        match self {
            Direction::North | Direction::Northwest | Direction::Northeast => -1,
            Direction::South | Direction::Southwest | Direction::Southeast => 1,
            _ => 0,
        }
    }

    pub fn dx(self) -> (r: i32)
        ensures
            r == self.spec_dx(),
    {
        match self {
            Direction::West | Direction::Northwest | Direction::Southwest => -1,
            Direction::East | Direction::Northeast | Direction::Southeast => 1,
            _ => 0,
        }
    }

    pub fn dy(self) -> (r: i32)
        ensures
            r == self.spec_dy(),
    {
        match self {
            Direction::North | Direction::Northwest | Direction::Northeast => -1,
            Direction::South | Direction::Southwest | Direction::Southeast => 1,
            _ => 0,
        }
    }

    /// All eight directions in canonical order.
    pub fn iter() -> (r: Vec<Direction>)
        ensures
            r@ == all_directions(),
    {
        let r = vec![
            Direction::North,
            Direction::South,
            Direction::East,
            Direction::West,
            Direction::Northwest,
            Direction::Northeast,
            Direction::Southwest,
            Direction::Southeast,
        ];
        proof {
            assert(r@ =~= all_directions());
        }
        r
    }
}

/// The canonical order in which moves are listed.
pub open spec fn all_directions() -> Seq<Direction> {
    seq![
        Direction::North,
        Direction::South,
        Direction::East,
        Direction::West,
        Direction::Northwest,
        Direction::Northeast,
        Direction::Southwest,
        Direction::Southeast,
    ]
}

/// Every direction appears in the canonical order.
pub proof fn lemma_all_directions_complete(d: Direction)
    ensures
        all_directions().contains(d),
{
    let s = all_directions();
    match d {
        Direction::North => assert(s[0] == d),
        Direction::South => assert(s[1] == d),
        Direction::East => assert(s[2] == d),
        Direction::West => assert(s[3] == d),
        Direction::Northwest => assert(s[4] == d),
        Direction::Northeast => assert(s[5] == d),
        Direction::Southwest => assert(s[6] == d),
        Direction::Southeast => assert(s[7] == d),
    }
}

} // verus!
