use vstd::prelude::*;

verus! {

/// One of the two sides.
#[derive(Clone, Copy, Debug, PartialEq, Eq, Structural)]
pub enum Player {
    P1,
    P2,
}

impl Player {
    pub const COUNT: usize = 2;

    /// The side's number: 0 for the first player, 1 for the second.
    pub open spec fn index(self) -> int {
        match self {
            Player::P1 => 0,
            Player::P2 => 1,
        }
    }

    pub open spec fn flipped(self) -> Player {
        match self {
            Player::P1 => Player::P2,
            Player::P2 => Player::P1,
        }
    }

    pub open spec fn of_index(i: int) -> Player {
        if i == 0 {
            Player::P1
        } else {
            Player::P2
        }
    }

    pub fn idx(self) -> (r: usize)
        ensures
            r == self.index(),
            r < 2,
    {
        match self {
            Player::P1 => 0,
            Player::P2 => 1,
        }
    }

    pub fn from_raw(raw: u8) -> (r: Option<Player>)
        ensures
            raw < 2 ==> r == Some(Player::of_index(raw as int)),
            raw >= 2 ==> r.is_none(),
    {
        if raw == 0 {
            Some(Player::P1)
        } else if raw == 1 {
            Some(Player::P2)
        } else {
            None
        }
    }

    pub fn flip(self) -> (r: Player)
        ensures
            r == self.flipped(),
            r != self,
    {
        match self {
            Player::P1 => Player::P2,
            Player::P2 => Player::P1,
        }
    }

    /// +1 for the first player, -1 for the second.
    pub fn sign(self) -> (r: i32)
        ensures
            r == 1 - 2 * self.index(),
    {
        match self {
            Player::P1 => 1,
            Player::P2 => -1,
        }
    }
}

/// The kind of a tile. Only the top tile of a stack can be a wall or a capstone.
#[derive(Clone, Copy, Debug, PartialEq, Eq, Structural)]
pub enum PieceType {
    Flat,
    Wall,
    Capstone,
}

impl PieceType {
    pub const COUNT: usize = 3;

    pub open spec fn index(self) -> int {
        match self {
            PieceType::Flat => 0,
            PieceType::Wall => 1,
            PieceType::Capstone => 2,
        }
    }

    pub open spec fn of_index(i: int) -> PieceType {
        if i == 0 {
            PieceType::Flat
        } else if i == 1 {
            PieceType::Wall
        } else {
            PieceType::Capstone
        }
    }

    /// Walls and capstones stop a spread; flats do not.
    pub open spec fn blocks(self) -> bool {
        self != PieceType::Flat
    }

    /// Flats and capstones are part of a road; walls are not.
    pub open spec fn in_road(self) -> bool {
        self != PieceType::Wall
    }

    pub fn idx(self) -> (r: usize)
        ensures
            r == self.index(),
            r < 3,
    {
        match self {
            PieceType::Flat => 0,
            PieceType::Wall => 1,
            PieceType::Capstone => 2,
        }
    }

    pub fn from_raw(raw: u8) -> (r: Option<PieceType>)
        ensures
            raw < 3 ==> r == Some(PieceType::of_index(raw as int)),
            raw >= 3 ==> r.is_none(),
    {
        if raw == 0 {
            Some(PieceType::Flat)
        } else if raw == 1 {
            Some(PieceType::Wall)
        } else if raw == 2 {
            Some(PieceType::Capstone)
        } else {
            None
        }
    }

    pub fn with_player(self, player: Player) -> (r: Piece)
        ensures
            r.kind() == self,
            r.owner() == player,
    {
        match (self, player) {
            (PieceType::Flat, Player::P1) => Piece::P1Flat,
            (PieceType::Flat, Player::P2) => Piece::P2Flat,
            (PieceType::Wall, Player::P1) => Piece::P1Wall,
            (PieceType::Wall, Player::P2) => Piece::P2Wall,
            (PieceType::Capstone, Player::P1) => Piece::P1Capstone,
            (PieceType::Capstone, Player::P2) => Piece::P2Capstone,
        }
    }
}

/// A tile kind together with its owner, numbered 0 to 5: twice the kind's
/// number plus the owner's.
#[derive(Clone, Copy, Debug, PartialEq, Eq, Structural)]
pub enum Piece {
    P1Flat,
    P2Flat,
    P1Wall,
    P2Wall,
    P1Capstone,
    P2Capstone,
}

impl Piece {
    pub const COUNT: usize = 6;

    pub open spec fn owner(self) -> Player {
        match self {
            Piece::P1Flat | Piece::P1Wall | Piece::P1Capstone => Player::P1,
            Piece::P2Flat | Piece::P2Wall | Piece::P2Capstone => Player::P2,
        }
    }

    pub open spec fn kind(self) -> PieceType {
        match self {
            Piece::P1Flat | Piece::P2Flat => PieceType::Flat,
            Piece::P1Wall | Piece::P2Wall => PieceType::Wall,
            Piece::P1Capstone | Piece::P2Capstone => PieceType::Capstone,
        }
    }

    pub open spec fn index(self) -> int {
        2 * self.kind().index() + self.owner().index()
    }

    pub fn idx(self) -> (r: usize)
        ensures
            r == self.index(),
            r < 6,
    {
        match self {
            Piece::P1Flat => 0,
            Piece::P2Flat => 1,
            Piece::P1Wall => 2,
            Piece::P2Wall => 3,
            Piece::P1Capstone => 4,
            Piece::P2Capstone => 5,
        }
    }

    pub fn player(self) -> (r: Player)
        ensures
            r == self.owner(),
    {
        match self {
            Piece::P1Flat | Piece::P1Wall | Piece::P1Capstone => Player::P1,
            Piece::P2Flat | Piece::P2Wall | Piece::P2Capstone => Player::P2,
        }
    }

    pub fn pt(self) -> (r: PieceType)
        ensures
            r == self.kind(),
    {
        match self {
            Piece::P1Flat | Piece::P2Flat => PieceType::Flat,
            Piece::P1Wall | Piece::P2Wall => PieceType::Wall,
            Piece::P1Capstone | Piece::P2Capstone => PieceType::Capstone,
        }
    }
}

/// One of the four directions in which a stack can be spread.
#[derive(Clone, Copy, Debug, PartialEq, Eq, Structural)]
pub enum Direction {
    Up,
    Down,
    Left,
    Right,
}

impl Direction {
    pub const COUNT: usize = 4;

    pub open spec fn index(self) -> int {
        match self {
            Direction::Up => 0,
            Direction::Down => 1,
            Direction::Left => 2,
            Direction::Right => 3,
        }
    }

    pub open spec fn of_index(i: int) -> Direction {
        if i == 0 {
            Direction::Up
        } else if i == 1 {
            Direction::Down
        } else if i == 2 {
            Direction::Left
        } else {
            Direction::Right
        }
    }

    /// What one step in this direction adds to a square's number.
    pub open spec fn delta(self) -> int {
        match self {
            Direction::Up => 6,
            Direction::Down => -6,
            Direction::Left => -1,
            Direction::Right => 1,
        }
    }

    pub fn idx(self) -> (r: usize)
        ensures
            r == self.index(),
            r < 4,
    {
        match self {
            Direction::Up => 0,
            Direction::Down => 1,
            Direction::Left => 2,
            Direction::Right => 3,
        }
    }

    pub fn from_raw(raw: u8) -> (r: Option<Direction>)
        ensures
            raw < 4 ==> r == Some(Direction::of_index(raw as int)),
            raw >= 4 ==> r.is_none(),
    {
        if raw == 0 {
            Some(Direction::Up)
        } else if raw == 1 {
            Some(Direction::Down)
        } else if raw == 2 {
            Some(Direction::Left)
        } else if raw == 3 {
            Some(Direction::Right)
        } else {
            None
        }
    }

    pub fn offset(self) -> (r: i8)
        ensures
            r == self.delta(),
    {
        match self {
            Direction::Up => 6,
            Direction::Down => -6,
            Direction::Left => -1,
            Direction::Right => 1,
        }
    }
}

/// Whether a step from square `i` in direction `dir` stays on the board.
pub open spec fn can_step(i: int, dir: Direction) -> bool {
    0 <= i < 36 && match dir {
        Direction::Up => i < 30,
        Direction::Down => i >= 6,
        Direction::Left => i % 6 != 0,
        Direction::Right => i % 6 != 5,
    }
}

/// A square of the 6x6 board, numbered row by row from the lower left corner.
#[derive(Clone, Copy, Debug, PartialEq, Eq, Structural)]
pub struct Square {
    pub raw: u8,
}

impl Square {
    pub const COUNT: usize = 36;

    pub open spec fn wf(self) -> bool {
        self.raw < 36
    }

    pub open spec fn index(self) -> int {
        self.raw as int
    }

    pub fn from_raw(raw: u8) -> (r: Option<Square>)
        ensures
            raw < 36 ==> r == Some(Square { raw }),
            raw >= 36 ==> r.is_none(),
    {
        if raw < 36 {
            Some(Square { raw })
        } else {
            None
        }
    }

    /// The square in file `file` (0 is file A) and rank `rank` (0 is rank 1).
    pub fn from_file_rank(file: u8, rank: u8) -> (r: Square)
        requires
            file < 6,
            rank < 6,
        ensures
            r.wf(),
            r.index() == rank * 6 + file,
    {
        Square { raw: rank * 6 + file }
    }

    pub fn raw(self) -> (r: u8)
        ensures
            r == self.raw,
    {
        self.raw
    }

    pub fn idx(self) -> (r: usize)
        ensures
            r == self.index(),
    {
        self.raw as usize
    }

    pub fn file(self) -> (r: u8)
        ensures
            r == self.index() % 6,
    {
        self.raw % 6
    }

    pub fn rank(self) -> (r: u8)
        ensures
            r == self.index() / 6,
    {
        self.raw / 6
    }

    /// The neighbour in direction `dir`, or nothing at the board's edge.
    pub fn shift_checked(self, dir: Direction) -> (r: Option<Square>)
        requires
            self.wf(),
        ensures
            can_step(self.index(), dir) ==> r.is_some() && r.unwrap().wf() && r.unwrap().index()
                == self.index() + dir.delta(),
            !can_step(self.index(), dir) ==> r.is_none(),
    {
        match dir {
            Direction::Up => if self.raw < 30 {
                Some(Square { raw: self.raw + 6 })
            } else {
                None
            },
            Direction::Down => if self.raw >= 6 {
                Some(Square { raw: self.raw - 6 })
            } else {
                None
            },
            Direction::Left => if self.raw % 6 != 0 {
                Some(Square { raw: self.raw - 1 })
            } else {
                None
            },
            Direction::Right => if self.raw % 6 != 5 {
                Some(Square { raw: self.raw + 1 })
            } else {
                None
            },
        }
    }
}

} // verus!
