//! The result grid's selection model and the limits on how much of a value
//! it measures.
use crate::bytes::str_eq;
use crate::js::char_len;
use crate::unicode::{str_lower, to_lowercase};
use vstd::prelude::*;

verus! {

/// The width an `explain` column starts from, in characters.
pub const EXPLAIN_DEFAULT_TEXT_LEN: usize = 120;

/// How much of a value a column will widen to show when it is expanded
/// (double-clicking the header's right edge). Anything longer than this keeps
/// its eye button, which opens the whole value in a window.
pub const EXPAND_CHARS: usize = 256;

/// Which scrollbar.
#[derive(Clone, Copy, Debug, PartialEq, Eq, Structural)]
pub enum Bar {
    Vertical,
    Horizontal,
}

/// Where Home/End and Cmd+arrows send the selection.
#[derive(Clone, Copy, Debug, PartialEq, Eq, Structural)]
pub enum Jump {
    First,
    Last,
}

/// A rectangular cell selection from its anchor `(r0, c0)` to its moving end
/// `(r1, c1)`.
#[derive(Clone, Copy, Debug, PartialEq, Eq, Structural)]
pub struct CellSel {
    pub r0: usize,
    pub c0: usize,
    pub r1: usize,
    pub c1: usize,
}

pub open spec fn min_spec(a: usize, b: usize) -> usize {
    if a <= b {
        a
    } else {
        b
    }
}

pub open spec fn max_spec(a: usize, b: usize) -> usize {
    if a >= b {
        a
    } else {
        b
    }
}

impl CellSel {
    /// The selection's rows and columns as `(top, bottom, left, right)`.
    pub fn norm(&self) -> (r: (usize, usize, usize, usize))
        ensures
            r == (min_spec(self.r0, self.r1), max_spec(self.r0, self.r1), min_spec(
                self.c0,
                self.c1,
            ), max_spec(self.c0, self.c1)),
    {
        let top = if self.r0 <= self.r1 {
            self.r0
        } else {
            self.r1
        };
        let bottom = if self.r0 >= self.r1 {
            self.r0
        } else {
            self.r1
        };
        let left = if self.c0 <= self.c1 {
            self.c0
        } else {
            self.c1
        };
        let right = if self.c0 >= self.c1 {
            self.c0
        } else {
            self.c1
        };
        (top, bottom, left, right)
    }
}

/// A cell value shown in full, opened from its eye button.
pub struct CellPopup {
    pub column: String,
    /// 1-based row number, as the grid shows it.
    pub row: usize,
    pub text: String,
}

/// The width, in characters, a column starts from: its header's length, and
/// at least [`EXPLAIN_DEFAULT_TEXT_LEN`] for a column called `explain` in
/// any case.
pub fn initial_text_len(col: &str) -> (r: usize)
    ensures
        r == if str_lower(col@) == "explain"@ {
            max_spec(col@.len() as usize, EXPLAIN_DEFAULT_TEXT_LEN)
        } else {
            col@.len() as usize
        },
{
    let lower = to_lowercase(col);
    let n = char_len(col);
    if str_eq(lower.as_str(), "explain") {
        if n >= EXPLAIN_DEFAULT_TEXT_LEN {
            n
        } else {
            EXPLAIN_DEFAULT_TEXT_LEN
        }
    } else {
        n
    }
}

/// Where the grid's cell selection stands: the selected block, and the cell
/// last picked without extending.
#[derive(Clone, Copy, Debug, PartialEq, Eq)]
pub struct CellCursor {
    pub sel: Option<CellSel>,
    pub last_selected: Option<(usize, usize)>,
}

/// The moving end of the selection: that of the block, else the cell last
/// picked, else the first cell.
pub open spec fn head_of(c: CellCursor) -> (usize, usize) {
    match c.sel {
        Some(s) => (s.r1, s.c1),
        None => match c.last_selected {
            Some(p) => p,
            None => (0, 0),
        },
    }
}

/// The selection with its moving end at `next`: extending keeps the anchor
/// (the block's, else the cell last picked, else the first cell); otherwise
/// the single cell `next`, which becomes the cell last picked.
pub open spec fn with_head(c: CellCursor, next: (usize, usize), extend: bool) -> CellCursor {
    if extend {
        let anchor = match c.sel {
            Some(s) => (s.r0, s.c0),
            None => match c.last_selected {
                Some(p) => p,
                None => (0, 0),
            },
        };
        CellCursor { sel: Some(CellSel { r0: anchor.0, c0: anchor.1, r1: next.0, c1: next.1 }), last_selected: c.last_selected }
    } else {
        CellCursor { sel: Some(CellSel { r0: next.0, c0: next.1, r1: next.0, c1: next.1 }), last_selected: Some(next) }
    }
}

/// `v` held to `0..=max`.
pub open spec fn clamp_to(v: int, max: int) -> int {
    if v < 0 {
        0
    } else if v > max {
        max
    } else {
        v
    }
}

/// Where a jump sends one coordinate: the first or last place, else the
/// current one held to the last.
pub open spec fn jump_to(j: Option<Jump>, current: usize, count: usize) -> usize {
    match j {
        Some(Jump::First) => 0,
        Some(Jump::Last) => (count - 1) as usize,
        None => min_spec(current, (count - 1) as usize),
    }
}

impl CellCursor {
    /// The moving end of the selection.
    pub fn head(&self) -> (r: (usize, usize))
        ensures
            r == head_of(*self),
    {
        match self.sel {
            Some(s) => (s.r1, s.c1),
            None => match self.last_selected {
                Some(p) => p,
                None => (0, 0),
            },
        }
    }

    /// Puts the moving end of the selection at `next`.
    pub fn set_head(&mut self, next: (usize, usize), extend: bool)
        ensures
            *final(self) == with_head(*old(self), next, extend),
    {
        let current = self.head();
        if extend {
            let anchor = match self.sel {
                Some(s) => (s.r0, s.c0),
                None => match self.last_selected {
                    Some(p) => p,
                    None => current,
                },
            };
            self.sel = Some(CellSel { r0: anchor.0, c0: anchor.1, r1: next.0, c1: next.1 });
        } else {
            self.sel = Some(CellSel { r0: next.0, c0: next.1, r1: next.0, c1: next.1 });
            self.last_selected = Some(next);
        }
    }

    /// Moves the selection's moving end by `dr` rows and `dc` columns, held
    /// inside the grid; nothing moves in an empty grid. Gives the cell to
    /// scroll into view.
    pub fn move_selection(&mut self, dr: isize, dc: isize, extend: bool, total_rows: usize, cols: usize) -> (r:
        Option<(usize, usize)>)
        requires
            head_of(*old(self)).0 <= isize::MAX,
            head_of(*old(self)).1 <= isize::MAX,
            isize::MIN <= head_of(*old(self)).0 + dr <= isize::MAX,
            isize::MIN <= head_of(*old(self)).1 + dc <= isize::MAX,
            total_rows <= isize::MAX,
            cols <= isize::MAX,
        ensures
            cols == 0 || total_rows == 0 ==> r is None && *final(self) == *old(self),
            cols > 0 && total_rows > 0 ==> ({
                let h = head_of(*old(self));
                let next = (
                    clamp_to(h.0 + dr, total_rows - 1) as usize,
                    clamp_to(h.1 + dc, cols - 1) as usize,
                );
                &&& r == Some(next)
                &&& *final(self) == with_head(*old(self), next, extend)
            }),
    {
        if cols == 0 || total_rows == 0 {
            return None;
        }
        let max_row = total_rows as isize - 1;
        let max_col = cols as isize - 1;
        let current = self.head();
        let row = current.0 as isize + dr;
        let col = current.1 as isize + dc;
        let next_row = if row < 0 {
            0
        } else if row > max_row {
            max_row as usize
        } else {
            row as usize
        };
        let next_col = if col < 0 {
            0
        } else if col > max_col {
            max_col as usize
        } else {
            col as usize
        };
        let next = (next_row, next_col);
        self.set_head(next, extend);
        Some(next)
    }

    /// Jumps the selection's moving end to the first or last row or column
    /// (Home/End and Cmd+arrows); extending keeps the anchor. Nothing moves
    /// in an empty grid. Gives the cell to scroll into view.
    pub fn jump_selection(
        &mut self,
        row: Option<Jump>,
        col: Option<Jump>,
        extend: bool,
        total_rows: usize,
        cols: usize,
    ) -> (r: Option<(usize, usize)>)
        ensures
            cols == 0 || total_rows == 0 ==> r is None && *final(self) == *old(self),
            cols > 0 && total_rows > 0 ==> ({
                let h = head_of(*old(self));
                let next = (jump_to(row, h.0, total_rows), jump_to(col, h.1, cols));
                &&& r == Some(next)
                &&& *final(self) == with_head(*old(self), next, extend)
            }),
    {
        if cols == 0 || total_rows == 0 {
            return None;
        }
        let current = self.head();
        let next = (
            match row {
                Some(Jump::First) => 0,
                Some(Jump::Last) => total_rows - 1,
                None => if current.0 < total_rows - 1 {
                    current.0
                } else {
                    total_rows - 1
                },
            },
            match col {
                Some(Jump::First) => 0,
                Some(Jump::Last) => cols - 1,
                None => if current.1 < cols - 1 {
                    current.1
                } else {
                    cols - 1
                },
            },
        );
        self.set_head(next, extend);
        Some(next)
    }
}

} // verus!
