//! The commands that the parts of the editor send one another.
use crate::geom::Rect;
use crate::input::Key;
use crate::view::BlockType;
use vstd::prelude::*;

verus! {

/// A direction the cursor can move in.
#[derive(Clone, Copy, Debug, PartialEq, Eq, Structural)]
pub enum Direction {
    Up,
    Down,
    Left,
    Right,
}

impl Direction {
    /// The direction of an arrow key.
    pub fn from_arrow_key(key: Key) -> (r: Option<Self>)
        ensures
            r == (if key == Key::Up {
                Some(Direction::Up)
            } else if key == Key::Down {
                Some(Direction::Down)
            } else if key == Key::Left {
                Some(Direction::Left)
            } else if key == Key::Right {
                Some(Direction::Right)
            } else {
                None
            }),
    {
        match key {
            Key::Up => Some(Direction::Up),
            Key::Down => Some(Direction::Down),
            Key::Left => Some(Direction::Left),
            Key::Right => Some(Direction::Right),
            _ => None,
        }
    }
}

/// New text for a view, starting at character `start` of line `start_line`
/// of the file.
#[derive(Debug)]
pub struct SetContents {
    pub start: usize,
    pub start_line: usize,
    pub text: String,
}

/// A command for the view.
#[derive(Debug)]
pub enum ViewCommand {
    CursorMove(Direction),
    ToggleCursorBlink,
    Insert { text: String },
    DeleteAfterCursor,
    FlowCursor { index: usize },
    SetContents(SetContents),
    Draw,
}

/// A command for the editor.
#[derive(Debug)]
pub enum TedCommand {
    /// Draw a grid of characters with the given kinds of cells.
    DrawView { is_lines: bool, block_types: Vec<BlockType>, text: Vec<char>, dims: Rect },
    RequestRedraw,
    Exit,
    ForView { command: ViewCommand },
}

/// A command for the view, as a command for the editor.
pub fn for_view(command: ViewCommand) -> (r: TedCommand)
    ensures
        r == (TedCommand::ForView { command }),
{
    TedCommand::ForView { command }
}

} // verus!
