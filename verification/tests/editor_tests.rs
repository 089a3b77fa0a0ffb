use ted::command_handler::{CommandHandler, Effect};
use ted::commands::{for_view, Direction, TedCommand, ViewCommand};
use ted::event_loop::{Event, Handler as EventHandler};
use ted::flow::{flow_items, is_control, FlowConfig};
use ted::geom::{new_rect, Point2, Rect};
use ted::input::{keycode_char, keycode_str, Key, Modifiers};
use ted::view::draw::is_whitespace;
use ted::view::{BlockType, EditorView};
use ted::window::{Handler, TedEvent, WindowAction, WindowInput};

fn plain() -> Modifiers {
    Modifiers { shift: false, ctrl: false, alt: false, logo: false }
}

fn shifted() -> Modifiers {
    Modifiers { shift: true, ctrl: false, alt: false, logo: false }
}

fn press(key: Key) -> WindowInput {
    WindowInput::KeyboardInput { pressed: true, key: Some(key), modifiers: plain() }
}

#[test]
fn keys_type_their_characters() {
    assert_eq!(keycode_char(plain(), Key::A), Some('a'));
    assert_eq!(keycode_char(shifted(), Key::A), Some('A'));
    assert_eq!(keycode_char(shifted(), Key::Key1), Some('!'));
    assert_eq!(keycode_char(plain(), Key::Key0), Some('0'));
    assert_eq!(keycode_char(plain(), Key::Return), Some('\n'));
    assert_eq!(keycode_char(plain(), Key::Space), Some(' '));
    assert_eq!(keycode_char(plain(), Key::Up), None);
    assert_eq!(keycode_str(shifted(), Key::Key2), Some("@"));
    assert_eq!(keycode_str(plain(), Key::Z), Some("z"));
    assert_eq!(keycode_str(plain(), Key::Back), None);
}

#[test]
fn arrow_keys_give_directions() {
    assert_eq!(Direction::from_arrow_key(Key::Up), Some(Direction::Up));
    assert_eq!(Direction::from_arrow_key(Key::Right), Some(Direction::Right));
    assert_eq!(Direction::from_arrow_key(Key::A), None);
}

#[test]
fn window_handler_starts_with_welcome_text() {
    let h = Handler::new();
    assert_eq!(h.window_dims, Rect { x: 28, y: 15 });
    let text: String = h.text.iter().collect();
    assert_eq!(text, "Welcome to my stupid project to make a text editor.\nTry typing!\n");
    assert!(h.cursor_on);
}

#[test]
fn window_handler_blinks_every_twelfth_tick() {
    let mut h = Handler::new();
    assert_eq!(h.ted_event(TedEvent::Tick(11)), WindowAction::Nothing);
    assert!(h.cursor_on);
    assert_eq!(h.ted_event(TedEvent::Tick(24)), WindowAction::Redraw);
    assert!(!h.cursor_on);
}

#[test]
fn window_handler_keys_move_and_type() {
    let mut h = Handler::new();
    assert_eq!(h.window_event(press(Key::Left)), WindowAction::Redraw);
    assert_eq!(h.cursor_pos, Point2 { x: 0, y: 0 });
    for _ in 0..40 {
        h.window_event(press(Key::Right));
    }
    assert_eq!(h.cursor_pos, Point2 { x: 27, y: 0 });
    h.window_event(press(Key::Down));
    assert_eq!(h.cursor_pos, Point2 { x: 27, y: 1 });
    let before = h.text.len();
    assert_eq!(h.window_event(press(Key::Q)), WindowAction::Redraw);
    assert_eq!(h.text.len(), before + 1);
    assert_eq!(*h.text.last().unwrap(), 'q');
    let held = WindowInput::KeyboardInput {
        pressed: true,
        key: Some(Key::Q),
        modifiers: Modifiers { shift: false, ctrl: true, alt: false, logo: false },
    };
    assert_eq!(h.window_event(held), WindowAction::Nothing);
    assert_eq!(h.text.len(), before + 1);
    assert_eq!(
        h.window_event(WindowInput::CloseRequested { is_this_window: true }),
        WindowAction::Exit
    );
    assert_eq!(
        h.window_event(WindowInput::CloseRequested { is_this_window: false }),
        WindowAction::Nothing
    );
}

fn event_handler(text: &str) -> EventHandler {
    EventHandler { command_handler: CommandHandler::new(text) }
}

#[test]
fn events_become_commands() {
    let mut h = event_handler("hi");
    assert!(matches!(
        h.dispatch(Event::Window(press(Key::Up))),
        Some(TedCommand::ForView { command: ViewCommand::CursorMove(Direction::Up) })
    ));
    assert!(matches!(
        h.dispatch(Event::Window(press(Key::Back))),
        Some(TedCommand::ForView { command: ViewCommand::DeleteAfterCursor })
    ));
    match h.dispatch(Event::Window(press(Key::B))) {
        Some(TedCommand::ForView { command: ViewCommand::Insert { text } }) => assert_eq!(text, "b"),
        other => panic!("{:?}", other),
    }
    assert!(matches!(
        h.dispatch(Event::Window(WindowInput::CloseRequested { is_this_window: true })),
        Some(TedCommand::Exit)
    ));
    assert!(matches!(
        h.dispatch(Event::RedrawRequested),
        Some(TedCommand::ForView { command: ViewCommand::Draw })
    ));
    assert!(matches!(
        h.dispatch(Event::User(TedEvent::Tick(36))),
        Some(TedCommand::ForView { command: ViewCommand::ToggleCursorBlink })
    ));
    assert!(h.dispatch(Event::User(TedEvent::Tick(5))).is_none());
    assert!(h.dispatch(Event::Other).is_none());
}

#[test]
fn command_handler_typing_asks_for_redraw() {
    let mut c = CommandHandler::new("hello");
    let effects = c.run(for_view(ViewCommand::Insert { text: "X".to_string() }));
    assert!(matches!(effects.as_slice(), [Effect::RequestRedraw]));
    let shown: String = c.view.visible_text.iter().collect();
    assert_eq!(shown, "Xhello");
    assert_eq!(c.view.cursor_pos, Point2 { x: 1, y: 0 });
    let effects = c.run(TedCommand::Exit);
    assert!(matches!(effects.as_slice(), [Effect::Exit]));
    let effects = c.run(for_view(ViewCommand::FlowCursor { index: 3 }));
    assert!(effects.is_empty());
    assert_eq!(c.view.cursor_pos, Point2 { x: 3, y: 0 });
}

#[test]
fn drawing_shows_the_text_cursor_and_line_numbers() {
    let mut c = CommandHandler::new("ab\ncd");
    let effects = c.run(for_view(ViewCommand::Draw));
    assert_eq!(effects.len(), 2);
    match &effects[0] {
        Effect::Draw { is_lines, block_types, text, dims } => {
            assert!(!*is_lines);
            assert_eq!(*dims, Rect { x: 35, y: 20 });
            assert_eq!(text.len(), 35 * 20);
            assert_eq!(&text[0..3], &['a', 'b', ' ']);
            assert_eq!(&text[35..38], &['c', 'd', ' ']);
            assert!(text[70..].iter().all(|c| *c == ' '));
            assert_eq!(block_types[0], BlockType::Cursor);
            assert!(block_types[1..].iter().all(|b| *b == BlockType::Normal));
        }
        other => panic!("{:?}", other),
    }
    match &effects[1] {
        Effect::Draw { is_lines, block_types, text, dims } => {
            assert!(*is_lines);
            assert_eq!(*dims, Rect { x: 3, y: 20 });
            assert_eq!(block_types.len(), 60);
            let col: String = text.iter().collect();
            assert_eq!(&col[0..6], "  1  2");
            assert!(col[6..].chars().all(|c| c == ' '));
        }
        other => panic!("{:?}", other),
    }
    c.run(for_view(ViewCommand::ToggleCursorBlink));
    let effects = c.run(for_view(ViewCommand::Draw));
    match &effects[0] {
        Effect::Draw { block_types, .. } => {
            assert!(block_types.iter().all(|b| *b == BlockType::Normal))
        }
        other => panic!("{:?}", other),
    }
}

#[test]
fn view_moves_the_cursor_within_the_grid() {
    let mut v = EditorView::new(new_rect(4, 2), "abc");
    let mut out = Vec::new();
    v.cursor_move(Direction::Left, &mut out);
    assert_eq!(v.cursor_pos, Point2 { x: 0, y: 0 });
    for _ in 0..6 {
        v.cursor_move(Direction::Right, &mut out);
    }
    assert_eq!(v.cursor_pos, Point2 { x: 3, y: 0 });
    v.cursor_move(Direction::Down, &mut out);
    v.cursor_move(Direction::Down, &mut out);
    assert_eq!(v.cursor_pos, Point2 { x: 3, y: 1 });
    assert_eq!(out.len(), 9);
}

#[test]
fn view_keeps_only_what_fits() {
    let v = EditorView::new(new_rect(3, 2), "abcdefgh");
    let shown: String = v.visible_text.iter().collect();
    assert_eq!(shown, "abcdef");
}

#[test]
fn view_typing_past_the_end_pads_the_text() {
    let mut v = EditorView::new(new_rect(10, 5), "ab");
    let mut out = Vec::new();
    v.cursor_move(Direction::Down, &mut out);
    v.cursor_move(Direction::Right, &mut out);
    v.insert("x", &mut out);
    let shown: String = v.visible_text.iter().collect();
    assert_eq!(shown, "ab\n~x");
    assert_eq!(v.cursor_pos, Point2 { x: 2, y: 1 });
}

#[test]
fn view_delete_removes_the_character_before_the_cursor() {
    let mut v = EditorView::new(new_rect(10, 5), "abc");
    let mut out = Vec::new();
    v.flow_cursor(2);
    v.delete(&mut out);
    let shown: String = v.visible_text.iter().collect();
    assert_eq!(shown, "ac");
    assert_eq!(v.cursor_pos, Point2 { x: 1, y: 0 });
    v.flow_cursor(0);
    v.delete(&mut out);
    let shown: String = v.visible_text.iter().collect();
    assert_eq!(shown, "ac");
}

#[test]
fn flow_wraps_at_the_width_and_stops_at_the_bound() {
    let text: Vec<char> = "abcde\nf".chars().collect();
    let (items, fin) = flow_items(&text, Some(3), Some(2));
    let cells: Vec<(u32, u32, char)> = items.iter().map(|(s, p)| (s.pos.x, s.pos.y, p.c)).collect();
    assert_eq!(cells, vec![(0, 0, 'a'), (1, 0, 'b'), (2, 0, 'c'), (0, 1, 'd'), (1, 1, 'e'), (2, 1, '\n')]);
    assert!(fin.is_full);
    assert!(items.iter().all(|(s, _)| s.pos.x < 3));
}

#[test]
fn flow_counts_tabs_twice_and_skips_controls() {
    let text: Vec<char> = "a\tb\u{7}c".chars().collect();
    let mut config = FlowConfig::new(text, None, None);
    let mut seen = Vec::new();
    while let Some((s, p)) = config.next() {
        seen.push((s.pos.x, s.index, p.c, p.write_len));
    }
    assert_eq!(seen, vec![(0, 0, 'a', 1), (1, 1, '\t', 2), (3, 2, 'b', 1), (4, 4, 'c', 1)]);
    let fin = config.finalize();
    assert_eq!((fin.pos.x, fin.index), (5, 5));
    assert!(is_control('\u{7}'));
    assert!(!is_control('a'));
}

#[test]
fn whitespace_is_the_unicode_property() {
    for c in [' ', '\t', '\n', '\u{a0}', '\u{2003}', '\u{3000}', '\u{85}'] {
        assert!(is_whitespace(c));
        assert!(c.is_whitespace());
    }
    for c in ['a', '~', '\u{200b}', '\u{7}'] {
        assert!(!is_whitespace(c));
        assert_eq!(c.is_whitespace(), false);
    }
}

#[test]
fn handling_events_runs_their_commands() {
    let mut h = event_handler("hi");
    let effects = h.handle(Event::Window(press(Key::A)));
    assert!(matches!(effects.as_slice(), [Effect::RequestRedraw]));
    let shown: String = h.command_handler.view.visible_text.iter().collect();
    assert_eq!(shown, "ahi");
    let effects = h.handle(Event::RedrawRequested);
    assert_eq!(effects.len(), 2);
    assert!(h.handle(Event::User(TedEvent::Tick(7))).is_empty());
    let effects = h.handle(Event::Window(WindowInput::CloseRequested { is_this_window: true }));
    assert!(matches!(effects.as_slice(), [Effect::Exit]));
    assert!(h.handle(Event::Other).is_empty());
}

#[test]
fn deleting_after_typing_gives_the_text_back() {
    let mut v = EditorView::new(new_rect(10, 5), "abc");
    let mut out = Vec::new();
    v.flow_cursor(1);
    v.insert("x", &mut out);
    let shown: String = v.visible_text.iter().collect();
    assert_eq!(shown, "axbc");
    v.delete(&mut out);
    let shown: String = v.visible_text.iter().collect();
    assert_eq!(shown, "abc");
    assert_eq!(v.cursor_pos, Point2 { x: 1, y: 0 });
}
