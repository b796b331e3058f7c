//! Key events as the application sees them, and what each one asks for.

use vstd::prelude::*;

verus! {

/// Which key an event is about.
#[derive(Clone, Copy, Debug)]
pub enum KeyCode {
    Char(char),
    Up,
    Down,
    /// Any key that has no meaning here.
    Other,
}

/// What happened to the key.
#[derive(Clone, Copy, Debug)]
pub enum KeyEventKind {
    Press,
    Repeat,
    Release,
}

/// One keyboard event.
#[derive(Clone, Copy, Debug)]
pub struct KeyEvent {
    pub code: KeyCode,
    pub kind: KeyEventKind,
}

/// What a key event asks the application to do.
#[derive(Clone, Copy, Debug)]
pub enum Command {
    Quit,
    Refresh,
    MoveUp,
    MoveDown,
    Ignore,
}

/// The command bound to a key event. Only presses count: `q` quits, `r`
/// refreshes, the arrows and `k`, `j` move the selection. Everything else
/// is ignored.
pub open spec fn command_of(key: KeyEvent) -> Command {
    match key.kind {
        KeyEventKind::Press => match key.code {
            KeyCode::Char(c) => if c == 'q' {
                Command::Quit
            } else if c == 'r' {
                Command::Refresh
            } else if c == 'k' {
                Command::MoveUp
            } else if c == 'j' {
                Command::MoveDown
            } else {
                Command::Ignore
            },
            KeyCode::Up => Command::MoveUp,
            KeyCode::Down => Command::MoveDown,
            KeyCode::Other => Command::Ignore,
        },
        _ => Command::Ignore,
    }
}

impl KeyEvent {
    /// A press of the given key.
    pub fn press(code: KeyCode) -> (key: KeyEvent)
        ensures
            key == (KeyEvent { code, kind: KeyEventKind::Press }),
    {
        KeyEvent { code, kind: KeyEventKind::Press }
    }

    /// The command bound to this event.
    pub fn command(&self) -> (command: Command)
        ensures
            command == command_of(*self),
    {
        match self.kind {
            KeyEventKind::Press => match self.code {
                KeyCode::Char(c) => if c == 'q' {
                    Command::Quit
                } else if c == 'r' {
                    Command::Refresh
                } else if c == 'k' {
                    Command::MoveUp
                } else if c == 'j' {
                    Command::MoveDown
                } else {
                    Command::Ignore
                },
                KeyCode::Up => Command::MoveUp,
                KeyCode::Down => Command::MoveDown,
                KeyCode::Other => Command::Ignore,
            },
            _ => Command::Ignore,
        }
    }
}

} // verus!
