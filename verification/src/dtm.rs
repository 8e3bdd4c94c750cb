//! The outcome of a probe as a tagged value, and its integer encoding at the
//! boundary.
use vstd::prelude::*;

verus! {

/// The integer that reports that no table covers the position.
pub const UNKNOWN_RAW: i32 = -1001;

/// The integer that reports a theoretical draw.
pub const DRAW_RAW: i32 = 1000;

/// Distance to mate. `Decisive(n)` counts plies: positive when the first
/// color mates, negative when the second color mates, zero when the side to
/// move is mated on the spot.
#[derive(Clone, Copy, Debug, PartialEq, Eq, Structural)]
pub enum Dtm {
    Unknown,
    Draw,
    Decisive(i32),
}

impl Dtm {
    /// A ply count never collides with a sentinel, nor does its negation.
    pub open spec fn wf(self) -> bool {
        match self {
            Dtm::Decisive(n) => -1000 < n < 1000,
            _ => true,
        }
    }

    /// The integer that the boundary reports.
    pub open spec fn raw(self) -> int {
        match self {
            Dtm::Unknown => UNKNOWN_RAW as int,
            Dtm::Draw => DRAW_RAW as int,
            Dtm::Decisive(n) => n as int,
        }
    }

    /// The reading of a boundary integer.
    pub open spec fn of_raw(r: int) -> Dtm {
        if r == UNKNOWN_RAW {
            Dtm::Unknown
        } else if r == DRAW_RAW {
            Dtm::Draw
        } else {
            Dtm::Decisive(r as i32)
        }
    }

    /// The same outcome seen with the colors exchanged.
    pub open spec fn flipped(self) -> Dtm {
        match self {
            Dtm::Decisive(n) => Dtm::Decisive((-n) as i32),
            other => other,
        }
    }

    pub fn to_raw(self) -> (r: i32)
        ensures
            r == self.raw(),
    {
        match self {
            Dtm::Unknown => UNKNOWN_RAW,
            Dtm::Draw => DRAW_RAW,
            Dtm::Decisive(n) => n,
        }
    }

    pub fn from_raw(r: i32) -> (d: Dtm)
        ensures
            d == Dtm::of_raw(r as int),
            -1000 < r < 1000 ==> d.wf() && d == Dtm::Decisive(r),
    {
        if r == UNKNOWN_RAW {
            Dtm::Unknown
        } else if r == DRAW_RAW {
            Dtm::Draw
        } else {
            Dtm::Decisive(r)
        }
    }

    /// Exchanges winner and loser; draws and unknowns stay as they are.
    pub fn flip(self) -> (d: Dtm)
        requires
            self.wf(),
        ensures
            d == self.flipped(),
            d.wf(),
    {
        match self {
            Dtm::Decisive(n) => Dtm::Decisive(-n),
            other => other,
        }
    }

    /// The outcome as a color sees it: positive when that color mates,
    /// negative when it is mated in the end.
    pub fn seen_by(self, color: u8) -> (d: Dtm)
        requires
            self.wf(),
            color <= 1,
        ensures
            d == if color == 1 {
                self.flipped()
            } else {
                self
            },
            d.wf(),
    {
        if color == 1 {
            self.flip()
        } else {
            self
        }
    }

    pub fn is_decisive(self) -> (b: bool)
        ensures
            b == (self is Decisive),
    {
        match self {
            Dtm::Decisive(_) => true,
            _ => false,
        }
    }
}

/// Reading back what was written gives the same outcome.
pub proof fn lemma_raw_round_trip(d: Dtm)
    requires
        d.wf(),
    ensures
        Dtm::of_raw(d.raw()) == d,
{
}

/// Flipping twice changes nothing.
pub proof fn lemma_flip_involution(d: Dtm)
    requires
        d.wf(),
    ensures
        d.flipped().flipped() == d,
        d.flipped().wf(),
{
}

} // verus!
