//! Things that name one bit of a bitboard.
use vstd::prelude::*;

verus! {

/// A value that denotes a bit position.
///
/// `index` is the position as a mathematical integer; `idx` computes it. A
/// position is usable on a board when it lies in `0..64`, which is what the
/// bitboard operations ask for.
pub trait BitBoardIdx: Sized {
    /// The position this value denotes.
    spec fn index(self) -> int;

    /// Whether `idx` can compute the position in 64 bits.
    spec fn representable(self) -> bool;

    fn idx(self) -> (r: u64)
        requires
            self.representable(),
        ensures
            r == self.index(),
    ;

    fn idx_usize(self) -> (r: usize)
        requires
            self.representable(),
            self.index() <= usize::MAX,
        ensures
            r == self.index(),
    {
        self.idx() as usize
    }
}

/// `(rank, file)`: the position is `rank * 8 + file`.
impl BitBoardIdx for (u64, u64) {
    open spec fn index(self) -> int {
        self.0 * 8 + self.1
    }

    open spec fn representable(self) -> bool {
        self.0 * 8 + self.1 <= u64::MAX
    }

    fn idx(self) -> (r: u64) {
        self.0 * 8 + self.1
    }
}

/// `(rank, file)`: the position is `rank * 8 + file`.
impl BitBoardIdx for (usize, usize) {
    open spec fn index(self) -> int {
        self.0 * 8 + self.1
    }

    open spec fn representable(self) -> bool {
        self.0 * 8 + self.1 <= u64::MAX
    }

    fn idx(self) -> (r: u64) {
        (self.0 as u64) * 8 + (self.1 as u64)
    }
}

impl BitBoardIdx for u64 {
    open spec fn index(self) -> int {
        self as int
    }

    open spec fn representable(self) -> bool {
        true
    }

    fn idx(self) -> (r: u64) {
        self
    }
}

impl BitBoardIdx for usize {
    open spec fn index(self) -> int {
        self as int
    }

    open spec fn representable(self) -> bool {
        true
    }

    fn idx(self) -> (r: u64) {
        self as u64
    }
}

/// A negative `i32` denotes no position.
impl BitBoardIdx for i32 {
    open spec fn index(self) -> int {
        self as int
    }

    open spec fn representable(self) -> bool {
        self >= 0
    }

    fn idx(self) -> (r: u64) {
        self as u64
    }
}

} // verus!
