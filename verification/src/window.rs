//! The single-buffer editor window: what each window event does to the
//! text and the cursor, and what the window has to do afterwards.
use crate::geom::{Point2, Rect};
use crate::input::{key_char, keycode_char, Key, Modifiers};
use crate::text_util::chars_of;
use vstd::prelude::*;

verus! {

/// An event the editor sends itself.
#[derive(Clone, Copy, Debug, PartialEq, Eq, Structural)]
pub enum TedEvent {
    /// The timer went off for the given time.
    Tick(usize),
}

/// A window event, as far as the editor looks at it.
#[derive(Clone, Copy, Debug, PartialEq, Eq, Structural)]
pub enum WindowInput {
    /// Closing a window was asked for; `is_this_window` tells whether it is
    /// the editor's.
    CloseRequested { is_this_window: bool },
    /// A key went down or up.
    KeyboardInput { pressed: bool, key: Option<Key>, modifiers: Modifiers },
    /// Anything else.
    Other,
}

/// What the window has to do after an event.
#[derive(Clone, Copy, Debug, PartialEq, Eq, Structural)]
pub enum WindowAction {
    Nothing,
    Redraw,
    Exit,
}

/// The editor's state: the size of the grid, the text, the cursor and
/// whether the cursor is shown.
pub struct Handler {
    pub window_dims: Rect,
    pub text: Vec<char>,
    pub cursor_pos: Point2,
    pub cursor_on: bool,
}

impl Handler {
    /// The grid is at least one cell wide and high, and the cursor is on it.
    pub open spec fn wf(&self) -> bool {
        &&& self.window_dims.x >= 1
        &&& self.window_dims.y >= 1
        &&& self.cursor_pos.x < self.window_dims.x
        &&& self.cursor_pos.y < self.window_dims.y
    }

    /// An editor showing a welcome text, with the cursor shown at the top
    /// left of a grid of 28 by 15 cells.
    pub fn new() -> (r: Self)
        ensures
            r.wf(),
            r.window_dims == (Rect { x: 28, y: 15 }),
            r.text@ == "Welcome to my stupid project to make a text editor.\nTry typing!\n"@,
            r.cursor_pos == (Point2 { x: 0, y: 0 }),
            r.cursor_on,
    {
        Handler {
            window_dims: Rect { x: 28, y: 15 },
            text: chars_of("Welcome to my stupid project to make a text editor.\nTry typing!\n"),
            cursor_pos: Point2 { x: 0, y: 0 },
            cursor_on: true,
        }
    }

    /// On every twelfth tick the cursor blinks, and the window is redrawn.
    pub fn ted_event(&mut self, evt: TedEvent) -> (r: WindowAction)
        ensures
            old(self).wf() ==> final(self).wf(),
            match evt {
                TedEvent::Tick(tick) => if tick % 12 == 0 {
                    &&& final(self).cursor_on == !old(self).cursor_on
                    &&& r == WindowAction::Redraw
                } else {
                    &&& final(self).cursor_on == old(self).cursor_on
                    &&& r == WindowAction::Nothing
                },
            },
            final(self).window_dims == old(self).window_dims,
            final(self).text@ == old(self).text@,
            final(self).cursor_pos == old(self).cursor_pos,
    {
        match evt {
            TedEvent::Tick(tick) => {
                if tick % 12 == 0 {
                    self.cursor_on = !self.cursor_on;
                    return WindowAction::Redraw;
                }
            },
        }
        WindowAction::Nothing
    }

    /// Handles a window event: closing the editor's window exits; a key
    /// pressed with no control, alt or logo key held shows the cursor, moves
    /// it for an arrow key within the grid, or types the key's character,
    /// and has the window redrawn.
    pub fn window_event(&mut self, event: WindowInput) -> (r: WindowAction)
        requires
            old(self).wf(),
        ensures
            final(self).wf(),
            final(self).window_dims == old(self).window_dims,
            match event {
                WindowInput::CloseRequested { is_this_window } => {
                    &&& r == (if is_this_window {
                        WindowAction::Exit
                    } else {
                        WindowAction::Nothing
                    })
                    &&& final(self).text@ == old(self).text@
                    &&& final(self).cursor_pos == old(self).cursor_pos
                    &&& final(self).cursor_on == old(self).cursor_on
                },
                WindowInput::KeyboardInput { pressed, key, modifiers } => if !pressed || key is None
                    || modifiers.ctrl || modifiers.logo || modifiers.alt {
                    &&& r == WindowAction::Nothing
                    &&& final(self).text@ == old(self).text@
                    &&& final(self).cursor_pos == old(self).cursor_pos
                    &&& final(self).cursor_on == old(self).cursor_on
                } else {
                    let k = key->0;
                    let p = old(self).cursor_pos;
                    let d = old(self).window_dims;
                    &&& r == WindowAction::Redraw
                    &&& final(self).cursor_on
                    &&& final(self).cursor_pos == (if k == Key::Left {
                        Point2 { x: if p.x > 0 { (p.x - 1) as u32 } else { 0 }, y: p.y }
                    } else if k == Key::Up {
                        Point2 { x: p.x, y: if p.y > 0 { (p.y - 1) as u32 } else { 0 } }
                    } else if k == Key::Right {
                        Point2 { x: if p.x < d.x - 1 { (p.x + 1) as u32 } else { p.x }, y: p.y }
                    } else if k == Key::Down {
                        Point2 { x: p.x, y: if p.y < d.y - 1 { (p.y + 1) as u32 } else { p.y } }
                    } else {
                        p
                    })
                    &&& final(self).text@ == (if k == Key::Left || k == Key::Up || k == Key::Right || k
                        == Key::Down {
                        old(self).text@
                    } else {
                        match key_char(modifiers.shift, k) {
                            Some(c) => old(self).text@.push(c),
                            None => old(self).text@,
                        }
                    })
                },
                WindowInput::Other => {
                    &&& r == WindowAction::Nothing
                    &&& final(self).text@ == old(self).text@
                    &&& final(self).cursor_pos == old(self).cursor_pos
                    &&& final(self).cursor_on == old(self).cursor_on
                },
            },
    {
        match event {
            WindowInput::CloseRequested { is_this_window } => {
                if is_this_window {
                    return WindowAction::Exit;
                }
                WindowAction::Nothing
            },
            WindowInput::KeyboardInput { pressed, key, modifiers } => {
                if !pressed {
                    return WindowAction::Nothing;
                }
                let key = match key {
                    Some(key) => key,
                    None => {
                        return WindowAction::Nothing;
                    },
                };
                if modifiers.ctrl || modifiers.logo || modifiers.alt {
                    return WindowAction::Nothing;
                }
                self.cursor_on = true;
                match key {
                    Key::Left => {
                        self.cursor_pos.x = self.cursor_pos.x.saturating_sub(1);
                        return WindowAction::Redraw;
                    },
                    Key::Up => {
                        self.cursor_pos.y = self.cursor_pos.y.saturating_sub(1);
                        return WindowAction::Redraw;
                    },
                    Key::Right => {
                        if self.cursor_pos.x < self.window_dims.x - 1 {
                            self.cursor_pos.x += 1;
                        }
                        return WindowAction::Redraw;
                    },
                    Key::Down => {
                        if self.cursor_pos.y < self.window_dims.y - 1 {
                            self.cursor_pos.y += 1;
                        }
                        return WindowAction::Redraw;
                    },
                    _ => {},
                }
                match keycode_char(modifiers, key) {
                    Some(c) => self.text.push(c),
                    None => {},
                }
                WindowAction::Redraw
            },
            WindowInput::Other => WindowAction::Nothing,
        }
    }
}

} // verus!
