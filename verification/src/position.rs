use vstd::prelude::*;

verus! {

/// A spot in a source buffer: the absolute byte offset from the start of the
/// buffer, plus the line and column numbers (both starting at 1) that a
/// diagnostic would print. The buffer itself, and the name a driver knows it
/// by, travel beside the position rather than inside it.
#[derive(Clone, Copy, PartialEq, Eq, Structural, Debug)]
pub struct Position {
    pub index: usize,
    pub ln: usize,
    pub cn: usize,
}

/// The mathematical shadow of a `Position`: the same three counters as
/// unbounded integers, which the lexing and parsing specifications use.
pub ghost struct PosModel {
    pub index: int,
    pub ln: int,
    pub cn: int,
}

impl View for Position {
    type V = PosModel;

    open spec fn view(&self) -> PosModel {
        PosModel { index: self.index as int, ln: self.ln as int, cn: self.cn as int }
    }
}

/// A position is sound when its line and column numbers are ones a real scan
/// could have produced: both start at 1 and neither can outrun the offset.
pub open spec fn pos_wf(p: PosModel) -> bool {
    &&& 0 <= p.index
    &&& 1 <= p.ln <= p.index + 1
    &&& 1 <= p.cn <= p.index + 1
}

/// Line feed, the one byte that ends a line.
pub open spec fn is_newline(b: u8) -> bool {
    b == 10
}

/// Where a position lands after one byte is consumed: the offset always moves
/// one step; a line feed starts a new line at column 1, any other byte moves
/// one column to the right.
pub open spec fn advance_pos(p: PosModel, b: u8) -> PosModel {
    if is_newline(b) {
        PosModel { index: p.index + 1, ln: p.ln + 1, cn: 1 }
    } else {
        PosModel { index: p.index + 1, ln: p.ln, cn: p.cn + 1 }
    }
}

impl Position {
    /// The position of the first byte of a buffer.
    pub fn start() -> (p: Position)
        ensures
            p@ == (PosModel { index: 0, ln: 1, cn: 1 }),
            pos_wf(p@),
    {
        Position { index: 0, ln: 1, cn: 1 }
    }

    /// Consume one byte: step the offset, and move to the next line or the
    /// next column as the byte demands.
    pub fn advance(&mut self, b: u8)
        requires
            pos_wf(old(self)@),
            old(self).index + 1 < usize::MAX,
        ensures
            final(self)@ == advance_pos(old(self)@, b),
            pos_wf(final(self)@),
    {
        self.index = self.index + 1;
        if b == 10 {
            self.ln = self.ln + 1;
            self.cn = 1;
        } else {
            self.cn = self.cn + 1;
        }
    }

    /// An independent copy, usable as a span boundary while the original
    /// keeps advancing.
    pub fn snapshot(&self) -> (p: Position)
        ensures
            p == *self,
    {
        *self
    }
}

} // verus!
