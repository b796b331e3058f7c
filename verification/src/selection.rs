//! The selected row and the scrolled window over a list of known length.

use vstd::prelude::*;

verus! {

/// Mathematical picture of a selection: which row is selected, where the
/// window starts, how many rows it shows and how long the list is.
pub struct Cursor {
    pub selected: Option<nat>,
    pub offset: nat,
    pub rows: nat,
    pub len: nat,
}

/// The window start that shows `row` with the least movement from `offset`.
///
/// A window of no rows shows nothing; it only follows the row upwards.
pub open spec fn window_start(offset: nat, row: nat, rows: nat) -> nat {
    if row < offset {
        row
    } else if rows > 0 && row >= offset + rows {
        (row + 1 - rows) as nat
    } else {
        offset
    }
}

impl Cursor {
    /// The state before any list or window is known.
    pub open spec fn initial() -> Cursor {
        Cursor { selected: None, offset: 0, rows: 0, len: 0 }
    }

    /// Nothing is selected in an empty list; otherwise the selected row
    /// exists, the window starts at or above it and, if it has rows, ends
    /// below it.
    pub open spec fn valid(self) -> bool {
        if self.len == 0 {
            self.selected is None && self.offset == 0
        } else {
            &&& self.selected is Some
            &&& self.selected->0 < self.len
            &&& self.offset <= self.selected->0
            &&& self.rows > 0 ==> self.selected->0 < self.offset + self.rows
        }
    }

    /// The row after the last one that the window shows.
    pub open spec fn window_end(self) -> nat {
        if self.offset + self.rows < self.len {
            self.offset + self.rows
        } else {
            self.len
        }
    }

    /// Selects `row` and scrolls just enough to show it.
    pub open spec fn select(self, row: nat) -> Cursor {
        Cursor {
            selected: Some(row),
            offset: window_start(self.offset, row, self.rows),
            rows: self.rows,
            len: self.len,
        }
    }

    /// One row up; stays at the first row.
    pub open spec fn up(self) -> Cursor {
        match self.selected {
            Some(row) if row > 0 => self.select((row - 1) as nat),
            _ => self,
        }
    }

    /// One row down; stays at the last row.
    pub open spec fn down(self) -> Cursor {
        match self.selected {
            Some(row) if row + 1 < self.len => self.select(row + 1),
            _ => self,
        }
    }

    /// The list now has `len` rows: the selection is pulled back into it,
    /// or dropped if the list is empty.
    pub open spec fn replaced(self, len: nat) -> Cursor {
        if len == 0 {
            Cursor { selected: None, offset: 0, rows: self.rows, len: 0 }
        } else {
            let row = match self.selected {
                Some(row) if row < len => row,
                Some(_) => (len - 1) as nat,
                None => 0,
            };
            Cursor { len, ..self }.select(row)
        }
    }

    /// The window now shows `rows` rows: it scrolls just enough to keep the
    /// selected row inside.
    pub open spec fn resized(self, rows: nat) -> Cursor {
        match self.selected {
            Some(row) => Cursor { rows, ..self }.select(row),
            None => Cursor { rows, ..self },
        }
    }
}

/// One thing that can happen to a selection.
pub enum Step {
    /// The user moves one row up.
    Up,
    /// The user moves one row down.
    Down,
    /// The list is replaced by one of so many rows.
    Replaced(nat),
    /// The window is resized to so many rows.
    Resized(nat),
}

impl Step {
    /// Whether the step is a move of the user's.
    pub open spec fn is_move(self) -> bool {
        self is Up || self is Down
    }
}

impl Cursor {
    /// The selected row lies inside the window.
    pub open spec fn shows_selection(self) -> bool {
        &&& self.selected is Some
        &&& self.offset <= self.selected->0 <= self.offset + self.rows - 1
    }

    /// The state after one step.
    pub open spec fn step(self, step: Step) -> Cursor {
        match step {
            Step::Up => self.up(),
            Step::Down => self.down(),
            Step::Replaced(len) => self.replaced(len),
            Step::Resized(rows) => self.resized(rows),
        }
    }

    /// The state after a sequence of steps, first to last.
    pub open spec fn run(self, steps: Seq<Step>) -> Cursor
        decreases steps.len(),
    {
        if steps.len() == 0 {
            self
        } else {
            self.run(steps.drop_last()).step(steps.last())
        }
    }
}

/// In a valid state over a non-empty list the window starts at a row of
/// the list: scrolling never runs past the end.
pub proof fn lemma_valid_window_starts_in_list(c: Cursor)
    requires
        c.valid(),
        c.len > 0,
    ensures
        c.offset < c.len,
        c.offset + c.rows <= c.len + c.rows - 1,
{
}

/// Every operation leads from a valid state to a valid state over the
/// expected list and window; replacing the list or resizing the window
/// does so from any state.
pub proof fn lemma_operations_keep_valid(c: Cursor, len: nat, rows: nat)
    ensures
        c.valid() ==> c.up().valid() && c.up().len == c.len && c.up().rows == c.rows,
        c.valid() ==> c.down().valid() && c.down().len == c.len && c.down().rows == c.rows,
        c.valid() ==> c.resized(rows).valid() && c.resized(rows).len == c.len,
        c.resized(rows).rows == rows,
        c.replaced(len).valid(),
        c.replaced(len).len == len,
        c.replaced(len).rows == c.rows,
{
}

/// After any operation on a valid state, a window with at least one row
/// over a non-empty list contains the selected row.
pub proof fn lemma_operations_keep_selection_visible(c: Cursor, len: nat, rows: nat)
    requires
        c.valid(),
    ensures
        c.len > 0 && c.rows > 0 ==> c.up().shows_selection() && c.down().shows_selection(),
        c.len > 0 && rows > 0 ==> c.resized(rows).shows_selection(),
        len > 0 && c.rows > 0 ==> c.replaced(len).shows_selection(),
{
}

/// Whatever happens to a valid selection, in whatever order, it stays
/// valid; and wherever it then has a window with rows over a non-empty
/// list, the window contains the selected row.
pub proof fn lemma_steps_keep_valid(c: Cursor, steps: Seq<Step>)
    requires
        c.valid(),
    ensures
        c.run(steps).valid(),
        c.run(steps).len > 0 && c.run(steps).rows > 0 ==> c.run(steps).shows_selection(),
    decreases steps.len(),
{
    if steps.len() > 0 {
        lemma_steps_keep_valid(c, steps.drop_last());
        lemma_operations_keep_valid(c.run(steps.drop_last()), 0, 0);
        match steps.last() {
            Step::Replaced(len) => lemma_operations_keep_valid(c.run(steps.drop_last()), len, 0),
            Step::Resized(rows) => lemma_operations_keep_valid(c.run(steps.drop_last()), 0, rows),
            _ => {},
        }
    }
}

/// However many moves up and down are made in a non-empty list, the
/// selected row stays a row of the list and, where the window has rows,
/// inside the window.
pub proof fn lemma_moves_stay_in_list(c: Cursor, moves: Seq<Step>)
    requires
        c.valid(),
        c.len > 0,
        forall|i: int| 0 <= i < moves.len() ==> (#[trigger] moves[i]).is_move(),
    ensures
        c.run(moves).valid(),
        c.run(moves).len == c.len,
        c.run(moves).rows == c.rows,
        c.run(moves).selected is Some,
        0 <= c.run(moves).selected->0 <= c.len - 1,
        c.rows > 0 ==> c.run(moves).shows_selection(),
    decreases moves.len(),
{
    if moves.len() > 0 {
        assert(moves.last().is_move());
        lemma_moves_stay_in_list(c, moves.drop_last());
        lemma_operations_keep_valid(c.run(moves.drop_last()), c.len, c.rows);
    }
}

/// Moving up from the first row, or down from the last, changes nothing;
/// from any other row a move goes to the row next to it.
pub proof fn lemma_no_wraparound(c: Cursor)
    requires
        c.valid(),
        c.len > 0,
    ensures
        c.selected == Some(0nat) ==> c.up() == c,
        c.selected == Some((c.len - 1) as nat) ==> c.down() == c,
        c.selected->0 > 0 ==> c.up().selected == Some((c.selected->0 - 1) as nat),
        c.selected->0 < c.len - 1 ==> c.down().selected == Some(c.selected->0 + 1),
{
}

/// A selection past the end of a shorter, non-empty list moves to its
/// last row; one that still fits stays where it is.
pub proof fn lemma_replaced_clamps(c: Cursor, len: nat)
    requires
        c.selected is Some,
        len > 0,
    ensures
        c.selected->0 >= len ==> c.replaced(len).selected == Some((len - 1) as nat),
        c.selected->0 < len ==> c.replaced(len).selected == c.selected,
{
}

/// The selected row and scroll position of a list view.
#[derive(Clone, Copy, Debug)]
pub struct Selection {
    selected_index: Option<usize>,
    scroll_offset: usize,
    visible_rows: usize,
    len: usize,
}

impl View for Selection {
    type V = Cursor;

    closed spec fn view(&self) -> Cursor {
        Cursor {
            selected: match self.selected_index {
                Some(row) => Some(row as nat),
                None => None,
            },
            offset: self.scroll_offset as nat,
            rows: self.visible_rows as nat,
            len: self.len as nat,
        }
    }
}

impl Selection {
    #[verifier::type_invariant]
    spec fn inv(self) -> bool {
        self@.valid()
    }

    /// A selection over an empty list in a window of no rows.
    pub fn new() -> (s: Selection)
        ensures
            s@ == Cursor::initial(),
    {
        Selection { selected_index: None, scroll_offset: 0, visible_rows: 0, len: 0 }
    }

    /// The selected row, if the list has any.
    pub fn selected_index(&self) -> (row: Option<usize>)
        ensures
            self@.valid(),
            match row {
                Some(r) => self@.selected == Some(r as nat),
                None => self@.selected is None,
            },
    {
        proof {
            use_type_invariant(self);
        }
        self.selected_index
    }

    /// The first row of the window.
    pub fn scroll_offset(&self) -> (offset: usize)
        ensures
            self@.valid(),
            offset == self@.offset,
    {
        proof {
            use_type_invariant(self);
        }
        self.scroll_offset
    }

    /// How many rows the window shows.
    pub fn visible_rows(&self) -> (rows: usize)
        ensures
            rows == self@.rows,
    {
        self.visible_rows
    }

    /// How many rows the list has.
    pub fn len(&self) -> (len: usize)
        ensures
            len == self@.len,
    {
        self.len
    }

    /// The rows that the window shows: from the first, up to but not
    /// including the second. A window with rows over a non-empty list
    /// shows the selected row.
    pub fn window(&self) -> (range: (usize, usize))
        ensures
            range.0 == self@.offset,
            range.1 == self@.window_end(),
            range.0 <= range.1 <= self@.len,
            self@.len > 0 && self@.rows > 0 ==> range.0 <= self@.selected->0 < range.1,
    {
        proof {
            use_type_invariant(self);
        }
        let room = self.len - self.scroll_offset;
        if self.visible_rows < room {
            (self.scroll_offset, self.scroll_offset + self.visible_rows)
        } else {
            (self.scroll_offset, self.len)
        }
    }

    /// Selects a row of the list and scrolls just enough to show it.
    fn select(&mut self, row: usize)
        requires
            row < old(self).len,
        ensures
            final(self)@ == old(self)@.select(row as nat),
            final(self)@.valid(),
    {
        *self = Selection::place(Some(row), self.scroll_offset, self.visible_rows, self.len);
    }

    /// The selection with the given row over a list of `len` rows, in a
    /// window of `visible_rows` rows that was at `scroll_offset` and moves
    /// just enough to show the row.
    fn place(
        selected_index: Option<usize>,
        scroll_offset: usize,
        visible_rows: usize,
        len: usize,
    ) -> (s: Selection)
        requires
            len > 0 ==> selected_index is Some && selected_index->0 < len,
            len == 0 ==> selected_index is None,
        ensures
            selected_index is Some ==> s@ == (Cursor {
                selected: Some(selected_index->0 as nat),
                offset: scroll_offset as nat,
                rows: visible_rows as nat,
                len: len as nat,
            }).select(selected_index->0 as nat),
            selected_index is None ==> s@ == (Cursor {
                selected: None,
                offset: 0,
                rows: visible_rows as nat,
                len: 0,
            }),
            s@.valid(),
    {
        match selected_index {
            Some(row) => {
                let offset = if row < scroll_offset {
                    row
                } else if visible_rows > 0 && row - scroll_offset >= visible_rows {
                    row + 1 - visible_rows
                } else {
                    scroll_offset
                };
                Selection { selected_index, scroll_offset: offset, visible_rows, len }
            },
            None => Selection { selected_index, scroll_offset: 0, visible_rows, len },
        }
    }

    /// Moves the selection one row up and scrolls up if it left the window.
    /// Does nothing at the first row or in an empty list.
    pub fn move_up(&mut self)
        ensures
            final(self)@ == old(self)@.up(),
            final(self)@.valid(),
    {
        proof {
            use_type_invariant(&*self);
        }
        if let Some(row) = self.selected_index {
            if row > 0 {
                self.select(row - 1);
            }
        }
    }

    /// Moves the selection one row down and scrolls down if it left the
    /// window. Does nothing at the last row or in an empty list.
    pub fn move_down(&mut self)
        ensures
            final(self)@ == old(self)@.down(),
            final(self)@.valid(),
    {
        proof {
            use_type_invariant(&*self);
        }
        if let Some(row) = self.selected_index {
            if row < self.len - 1 {
                self.select(row + 1);
            }
        }
    }

    /// Tells the selection that the list now has `len` rows. A selection
    /// past the new end moves to the last row; an empty list has none.
    pub fn on_inventory_replaced(&mut self, len: usize)
        ensures
            final(self)@ == old(self)@.replaced(len as nat),
            final(self)@.valid(),
    {
        proof {
            use_type_invariant(&*self);
        }
        let selected = if len == 0 {
            None
        } else {
            match self.selected_index {
                Some(row) => if row < len {
                    Some(row)
                } else {
                    Some(len - 1)
                },
                None => Some(0),
            }
        };
        *self = Selection::place(selected, self.scroll_offset, self.visible_rows, len);
    }

    /// Tells the selection that the window now shows `rows` rows, and
    /// scrolls down if the selected row fell below it.
    pub fn on_viewport_resized(&mut self, rows: usize)
        ensures
            final(self)@ == old(self)@.resized(rows as nat),
            final(self)@.valid(),
    {
        proof {
            use_type_invariant(&*self);
        }
        *self = Selection::place(self.selected_index, self.scroll_offset, rows, self.len);
    }
}

} // verus!
