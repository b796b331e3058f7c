//! The application state: the inventory, the selection over it and the
//! flag that keeps the program running.

use vstd::prelude::*;
use crate::inventory::{reconcile, reconciled};
use crate::keys::{command_of, Command, KeyEvent};
use crate::laws::{distinct_names, strictly_ranked};
use crate::network::{records, Network, Record};
use crate::selection::{Cursor, Selection};

verus! {

/// How many terminal rows the screen spends above the first list row.
pub const ITEMS_LIST_OFFSET: u16 = 11;

/// Mathematical picture of the application state.
pub struct AppView {
    pub running: bool,
    pub networks: Seq<Record>,
    pub cursor: Cursor,
    pub list_offset: u16,
}

impl AppView {
    /// The state at startup: running, nothing scanned yet.
    pub open spec fn initial() -> AppView {
        AppView {
            running: true,
            networks: Seq::empty(),
            cursor: Cursor::initial(),
            list_offset: ITEMS_LIST_OFFSET,
        }
    }

    /// The list is an inventory, and the selection is a valid selection
    /// over a list of its length.
    pub open spec fn valid(self) -> bool {
        &&& strictly_ranked(self.networks)
        &&& distinct_names(self.networks)
        &&& self.cursor.valid()
        &&& self.cursor.len == self.networks.len()
    }

    /// The same state with another selection.
    pub open spec fn with_cursor(self, cursor: Cursor) -> AppView {
        AppView { cursor, ..self }
    }

    /// The state after a scan brought `scanned`: their inventory replaces
    /// the list, and the selection is pulled back into it.
    pub open spec fn refreshed(self, scanned: Seq<Record>) -> AppView {
        AppView {
            networks: reconciled(scanned),
            cursor: self.cursor.replaced(reconciled(scanned).len()),
            ..self
        }
    }

    /// How many list rows fit on a terminal of `height` rows.
    pub open spec fn rows_for(self, height: u16) -> nat {
        if height > self.list_offset {
            (height - self.list_offset) as nat
        } else {
            0
        }
    }

    /// The state after a key event. A refresh changes nothing by itself:
    /// the new scan arrives later.
    pub open spec fn after_key(self, key: KeyEvent) -> AppView {
        match command_of(key) {
            Command::Quit => AppView { running: false, ..self },
            Command::MoveUp => self.with_cursor(self.cursor.up()),
            Command::MoveDown => self.with_cursor(self.cursor.down()),
            Command::Refresh => self,
            Command::Ignore => self,
        }
    }
}

/// The application state.
pub struct App {
    running: bool,
    networks: Vec<Network>,
    selection: Selection,
    items_list_offset: u16,
}

impl View for App {
    type V = AppView;

    closed spec fn view(&self) -> AppView {
        AppView {
            running: self.running,
            networks: records(self.networks@),
            cursor: self.selection@,
            list_offset: self.items_list_offset,
        }
    }
}

impl App {
    #[verifier::type_invariant]
    spec fn inv(self) -> bool {
        self@.valid()
    }

    /// The state at startup.
    pub fn new() -> (app: App)
        ensures
            app@ == AppView::initial(),
    {
        let app = App {
            running: true,
            networks: Vec::new(),
            selection: Selection::new(),
            items_list_offset: ITEMS_LIST_OFFSET,
        };
        proof {
            assert(records(app.networks@) =~= Seq::empty());
        }
        app
    }

    /// Whether the program should go on.
    pub fn running(&self) -> (running: bool)
        ensures
            running == self@.running,
    {
        self.running
    }

    /// The inventory, strongest signal first.
    pub fn networks(&self) -> (networks: &Vec<Network>)
        ensures
            records(networks@) == self@.networks,
            self@.valid(),
    {
        proof {
            use_type_invariant(self);
        }
        &self.networks
    }

    /// The selected row, if the inventory has any.
    pub fn selected_index(&self) -> (row: Option<usize>)
        ensures
            self@.valid(),
            match row {
                Some(r) => self@.cursor.selected == Some(r as nat),
                None => self@.cursor.selected is None,
            },
    {
        proof {
            use_type_invariant(self);
        }
        self.selection.selected_index()
    }

    /// The first row of the window.
    pub fn scroll_offset(&self) -> (offset: usize)
        ensures
            offset == self@.cursor.offset,
    {
        self.selection.scroll_offset()
    }

    /// How many rows the window shows.
    pub fn visible_items(&self) -> (rows: usize)
        ensures
            rows == self@.cursor.rows,
    {
        self.selection.visible_rows()
    }

    /// The part of the inventory that the window shows: the rows from the
    /// first index, up to but not including the second.
    pub fn visible_range(&self) -> (range: (usize, usize))
        ensures
            range.0 == self@.cursor.offset,
            range.1 == self@.cursor.window_end(),
            range.0 <= range.1 <= self@.networks.len(),
            self@.networks.len() > 0 && self@.cursor.rows > 0 ==> range.0
                <= self@.cursor.selected->0 < range.1,
    {
        proof {
            use_type_invariant(self);
        }
        self.selection.window()
    }

    /// How many terminal rows stand above the first list row.
    pub fn items_list_offset(&self) -> (offset: u16)
        ensures
            offset == self@.list_offset,
    {
        self.items_list_offset
    }

    /// Takes the outcome of a scan. Scanned records are reconciled into
    /// the new inventory and the selection is pulled back into it; a
    /// failed scan changes nothing.
    pub fn refresh_networks(&mut self, scan: Result<Vec<Network>, String>)
        ensures
            match scan {
                Ok(scanned) => final(self)@ == old(self)@.refreshed(records(scanned@)),
                Err(_) => final(self)@ == old(self)@,
            },
            final(self)@.valid(),
    {
        proof {
            use_type_invariant(&*self);
        }
        if let Ok(scanned) = scan {
            let inventory = reconcile(&scanned);
            let mut selection = self.selection;
            selection.on_inventory_replaced(inventory.len());
            *self = App {
                running: self.running,
                networks: inventory,
                selection,
                items_list_offset: self.items_list_offset,
            };
        }
    }

    /// Moves the selection one row up; stays at the first row.
    pub fn move_selection_up(&mut self)
        ensures
            final(self)@ == old(self)@.with_cursor(old(self)@.cursor.up()),
            final(self)@.valid(),
    {
        proof {
            use_type_invariant(&*self);
        }
        let mut selection = self.selection;
        selection.move_up();
        self.selection = selection;
    }

    /// Moves the selection one row down; stays at the last row.
    pub fn move_selection_down(&mut self)
        ensures
            final(self)@ == old(self)@.with_cursor(old(self)@.cursor.down()),
            final(self)@.valid(),
    {
        proof {
            use_type_invariant(&*self);
        }
        let mut selection = self.selection;
        selection.move_down();
        self.selection = selection;
    }

    /// Tells the state how tall the terminal is, before a frame is drawn:
    /// the window gets the rows below the header and scrolls to keep the
    /// selection inside.
    pub fn on_frame(&mut self, terminal_height: u16)
        ensures
            final(self)@ == old(self)@.with_cursor(
                old(self)@.cursor.resized(old(self)@.rows_for(terminal_height)),
            ),
            final(self)@.valid(),
    {
        proof {
            use_type_invariant(&*self);
        }
        let rows = terminal_height.saturating_sub(self.items_list_offset);
        let mut selection = self.selection;
        selection.on_viewport_resized(rows as usize);
        self.selection = selection;
    }

    /// Handles one key event and says whether a new scan is wanted. The
    /// caller then scans and hands the outcome to `refresh_networks`.
    pub fn handle_key(&mut self, key: KeyEvent) -> (rescan: bool)
        ensures
            final(self)@ == old(self)@.after_key(key),
            rescan == (command_of(key) is Refresh),
            final(self)@.valid(),
    {
        proof {
            use_type_invariant(&*self);
        }
        match key.command() {
            Command::Quit => {
                self.running = false;
                false
            },
            Command::Refresh => true,
            Command::MoveUp => {
                self.move_selection_up();
                false
            },
            Command::MoveDown => {
                self.move_selection_down();
                false
            },
            Command::Ignore => false,
        }
    }
}

} // verus!
