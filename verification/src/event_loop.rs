//! Turning the window's events into the editor's commands.
use crate::command_handler::{produces, CommandHandler, Effect};
use crate::commands::{for_view, Direction, TedCommand, ViewCommand};
use crate::view::{insert_ok, spec_insert, EditorView};
use crate::input::{key_char, keycode_str, Key};
use crate::window::{TedEvent, WindowInput};
use vstd::prelude::*;

verus! {

/// An event of the event loop.
pub enum Event {
    Window(WindowInput),
    User(TedEvent),
    RedrawRequested,
    Other,
}

/// The command a window event comes to: exiting when the editor's window is
/// to close; for a key pressed with no control, logo or alt key held,
/// moving the cursor for an arrow key, deleting for backspace, or typing
/// the key's text.
pub open spec fn window_command(event: WindowInput) -> Option<TedCommand> {
    match event {
        WindowInput::CloseRequested { is_this_window } => if is_this_window {
            Some(TedCommand::Exit)
        } else {
            None
        },
        WindowInput::KeyboardInput { pressed, key, modifiers } => if !pressed || key is None
            || modifiers.ctrl || modifiers.logo || modifiers.alt {
            None
        } else {
            let k = key->0;
            if k == Key::Up {
                Some(TedCommand::ForView { command: ViewCommand::CursorMove(Direction::Up) })
            } else if k == Key::Down {
                Some(TedCommand::ForView { command: ViewCommand::CursorMove(Direction::Down) })
            } else if k == Key::Left {
                Some(TedCommand::ForView { command: ViewCommand::CursorMove(Direction::Left) })
            } else if k == Key::Right {
                Some(TedCommand::ForView { command: ViewCommand::CursorMove(Direction::Right) })
            } else if k == Key::Back {
                Some(TedCommand::ForView { command: ViewCommand::DeleteAfterCursor })
            } else {
                None
            }
        },
        WindowInput::Other => None,
    }
}

/// Whether `r` is what a window event comes to: see `window_command`, and
/// a key that types a character becomes an insertion of that character.
pub open spec fn window_reply(event: WindowInput, r: Option<TedCommand>) -> bool {
    match window_command(event) {
        Some(c) => r == Some(c),
        None => match event {
            WindowInput::KeyboardInput { pressed, key, modifiers } => if pressed && key is Some
                && !modifiers.ctrl && !modifiers.logo && !modifiers.alt && key->0 != Key::Back {
                match key_char(modifiers.shift, key->0) {
                    Some(ch) => (r matches Some(TedCommand::ForView {
                        command: ViewCommand::Insert { text },
                    }) && text@ == seq![ch]),
                    None => r is None,
                }
            } else {
                r is None
            },
            _ => r is None,
        },
    }
}

/// The editor with its event handling.
pub struct Handler {
    pub command_handler: CommandHandler,
}

impl Handler {
    /// The command a window event comes to; see `window_command`, and a key
    /// that types a character becomes an insertion of that character.
    pub fn window_event(&mut self, event: WindowInput) -> (r: Option<TedCommand>)
        ensures
            final(self).command_handler.view == old(self).command_handler.view,
            window_reply(event, r),
    {
        match event {
            WindowInput::CloseRequested { is_this_window } => {
                if is_this_window {
                    return Some(TedCommand::Exit);
                }
            },
            WindowInput::KeyboardInput { pressed, key, modifiers } => {
                if !pressed {
                    return None;
                }
                let key = match key {
                    Some(key) => key,
                    None => {
                        return None;
                    },
                };
                if modifiers.ctrl || modifiers.logo || modifiers.alt {
                    return None;
                }
                match Direction::from_arrow_key(key) {
                    Some(direction) => {
                        return Some(for_view(ViewCommand::CursorMove(direction)));
                    },
                    None => {},
                }
                if key == Key::Back {
                    return Some(for_view(ViewCommand::DeleteAfterCursor));
                }
                let text = match keycode_str(modifiers, key) {
                    Some(s) => String::from_str(s),
                    None => {
                        return None;
                    },
                };
                return Some(for_view(ViewCommand::Insert { text }));
            },
            WindowInput::Other => {},
        }
        None
    }

    /// On every twelfth tick the cursor blinks.
    pub fn ted_event(&mut self, evt: TedEvent) -> (r: Option<TedCommand>)
        ensures
            final(self).command_handler.view == old(self).command_handler.view,
            match evt {
                TedEvent::Tick(tick) => r == (if tick % 12 == 0 {
                    Some(TedCommand::ForView { command: ViewCommand::ToggleCursorBlink })
                } else {
                    None
                }),
            },
    {
        match evt {
            TedEvent::Tick(tick) => {
                if tick % 12 == 0 {
                    return Some(for_view(ViewCommand::ToggleCursorBlink));
                }
            },
        }
        None
    }

    /// The command an event of the event loop comes to: what the window
    /// event or the editor's own event comes to, or drawing the view when a
    /// redraw is asked for.
    pub fn dispatch(&mut self, event: Event) -> (r: Option<TedCommand>)
        ensures
            final(self).command_handler.view == old(self).command_handler.view,
            match event {
                Event::RedrawRequested => r == Some(TedCommand::ForView { command: ViewCommand::Draw }),
                Event::Other => r is None,
                Event::User(TedEvent::Tick(tick)) => r == (if tick % 12 == 0 {
                    Some(TedCommand::ForView { command: ViewCommand::ToggleCursorBlink })
                } else {
                    None
                }),
                Event::Window(w) => window_reply(w, r),
            },
    {
        match event {
            Event::Window(w) => self.window_event(w),
            Event::User(evt) => self.ted_event(evt),
            Event::RedrawRequested => Some(for_view(ViewCommand::Draw)),
            Event::Other => None,
        }
    }

    /// Handles an event of the event loop: turns it into a command, when it
    /// comes to one, carries that out, and gives back what the window has to
    /// do.
    pub fn handle(&mut self, event: Event) -> (r: Vec<Effect>)
        requires
            old(self).command_handler.view.wf(),
            event_ok(old(self).command_handler.view, event),
        ensures
            final(self).command_handler.view.wf(),
            handled(old(self).command_handler.view, final(self).command_handler.view, event, r@),
    {
        match self.dispatch(event) {
            None => Vec::new(),
            Some(command) => self.command_handler.run(command),
        }
    }
}

/// The character a window event types, when it is a key pressed with no
/// control, logo or alt key held that is no arrow, backspace or other key
/// with a command of its own.
pub open spec fn typed_char(event: WindowInput) -> Option<char> {
    match event {
        WindowInput::KeyboardInput { pressed, key, modifiers } => if pressed && key is Some
            && !modifiers.ctrl && !modifiers.logo && !modifiers.alt && window_command(event) is None
            && key->0 != Key::Back {
            key_char(modifiers.shift, key->0)
        } else {
            None
        },
        _ => None,
    }
}

/// The command an event comes to, when it is one of those fixed by the
/// event alone.
pub open spec fn event_command(event: Event) -> Option<TedCommand> {
    match event {
        Event::Window(w) => window_command(w),
        Event::User(TedEvent::Tick(tick)) => if tick % 12 == 0 {
            Some(TedCommand::ForView { command: ViewCommand::ToggleCursorBlink })
        } else {
            None
        },
        Event::RedrawRequested => Some(TedCommand::ForView { command: ViewCommand::Draw }),
        Event::Other => None,
    }
}

/// Whether the view can carry out what `event` comes to.
pub open spec fn event_ok(view: EditorView, event: Event) -> bool {
    &&& event_command(event) matches Some(TedCommand::ForView { command: c }) ==> view.command_ok(&c)
    &&& event matches Event::Window(w) ==> (typed_char(w) matches Some(ch) ==> insert_ok(
        view.model(),
        seq![ch],
    ) && 2 * (view.visible_text@.len() + 1 + view.dims.x + view.dims.y) + 2 < u32::MAX)
}

/// Whether handling `event` took view `old` to view `new` and gave `effects`:
/// what the event's command comes to, typing the typed character, or
/// nothing.
pub open spec fn handled(old: EditorView, new: EditorView, event: Event, effects: Seq<Effect>) -> bool {
    match event_command(event) {
        Some(c) => produces(old.model(), c, effects) && match c {
            TedCommand::ForView { command: vc } => new.runs(old, vc),
            _ => new.model() == old.model(),
        },
        None => match event {
            Event::Window(w) => match typed_char(w) {
                Some(ch) => effects == seq![Effect::RequestRedraw] && new.model() == spec_insert(
                    old.model(),
                    seq![ch],
                ),
                None => effects.len() == 0 && new.model() == old.model(),
            },
            _ => effects.len() == 0 && new.model() == old.model(),
        },
    }
}

} // verus!
