//! A view of text on a grid: the text that is shown, where the cursor is,
//! and what typing and moving the cursor do to them.
use crate::commands::{Direction, SetContents, TedCommand, ViewCommand};
use crate::flow::{before, flow_items, initial, lemma_run_bounds, lemma_run_order, FlowParams, FlowState};
use crate::geom::{Point2, Rect};
use crate::text_util::chars_of;
use vstd::prelude::*;

pub mod draw;

verus! {

/// What a cell of the grid is drawn as.
#[derive(Clone, Copy, Debug, PartialEq, Eq, Structural)]
pub enum BlockType {
    Normal,
    Cursor,
}

/// Where in the shown text the cursor falls.
#[derive(Clone, Copy, Debug, PartialEq, Eq, Structural)]
pub enum FlowResult {
    /// Past every character laid out.
    NotFound,
    /// On the character with this index.
    Found { index: usize },
    /// On the row that starts with the character with index `begin`, past
    /// the end of that row's text, which ends at `end_pos`.
    FoundLine { end_pos: Point2, begin: usize },
}

/// A view of text on a grid.
pub struct EditorView {
    pub start: usize,
    pub start_line: usize,
    pub dims: Rect,
    pub cursor_blink_on: bool,
    pub cursor_pos: Point2,
    pub visible_text: Vec<char>,
    pub block_types: Vec<BlockType>,
}

/// A view as a value, with its text as a sequence.
pub struct ViewModel {
    pub start: usize,
    pub start_line: usize,
    pub dims: Rect,
    pub cursor_blink_on: bool,
    pub cursor_pos: Point2,
    pub text: Seq<char>,
}

/// What laying out `text` on a grid of size `dims` hands out, and the state
/// it ends in.
pub open spec fn flow_of(text: Seq<char>, dims: Rect) -> (Seq<(FlowState, FlowParams)>, FlowState) {
    initial(text, Some(dims.x), Some(dims.y)).run()
}

/// The characters a layout hands out.
pub open spec fn chars_shown(items: Seq<(FlowState, FlowParams)>) -> Seq<char> {
    items.map_values(|it: (FlowState, FlowParams)| it.1.c)
}

/// One step of looking for the cursor among the cells handed out, keeping
/// the result so far and whether the cursor's row has ended.
pub open spec fn seek_step(
    acc: (FlowResult, bool),
    item: (FlowState, FlowParams),
    cursor: Point2,
) -> (FlowResult, bool) {
    let (result, line_end) = acc;
    let (st, params) = item;
    if st.pos == cursor {
        (FlowResult::Found { index: st.index }, line_end)
    } else {
        match result {
            FlowResult::Found { .. } => acc,
            FlowResult::FoundLine { end_pos, begin } => if line_end {
                acc
            } else {
                (FlowResult::FoundLine { end_pos: st.pos, begin }, params.c == '\n')
            },
            FlowResult::NotFound => if st.pos.y == cursor.y {
                (FlowResult::FoundLine { end_pos: st.pos, begin: st.index }, params.c == '\n')
            } else {
                acc
            },
        }
    }
}

/// Looking for the cursor among the cells handed out, from the left.
pub open spec fn seek(items: Seq<(FlowState, FlowParams)>, cursor: Point2) -> (FlowResult, bool)
    decreases items.len(),
{
    if items.len() == 0 {
        (FlowResult::NotFound, false)
    } else {
        seek_step(seek(items.drop_last(), cursor), items.last(), cursor)
    }
}

/// Where the cursor falls, once the state `fin` the layout ends in is taken
/// into account.
pub open spec fn seek_result(acc: (FlowResult, bool), fin: FlowState, cursor: Point2) -> FlowResult {
    let (result, line_end) = acc;
    if fin.pos == cursor {
        FlowResult::Found { index: fin.index }
    } else {
        match result {
            FlowResult::FoundLine { end_pos, begin } => if !line_end {
                FlowResult::FoundLine { end_pos: fin.pos, begin }
            } else {
                result
            },
            _ => result,
        }
    }
}

/// The position of the last cell handed out for character `index`.
pub open spec fn last_pos_at(items: Seq<(FlowState, FlowParams)>, index: int) -> Option<Point2>
    decreases items.len(),
{
    if items.len() == 0 {
        None
    } else if items.last().0.index == index {
        Some(items.last().0.pos)
    } else {
        last_pos_at(items.drop_last(), index)
    }
}

/// Where the cursor goes to stand at character `index` of `text`: at the
/// top left for an empty text; where the layout ends if it ends at that
/// index with room left; else at the last cell handed out for that index;
/// else nowhere new.
pub open spec fn cursor_for(text: Seq<char>, dims: Rect, index: int) -> Option<Point2> {
    let (items, fin) = flow_of(text, dims);
    if text.len() == 0 {
        Some(Point2 { x: 0, y: 0 })
    } else if fin.index == index && !fin.is_full {
        Some(fin.pos)
    } else {
        last_pos_at(items, index)
    }
}

/// Where the cursor falls in a view's text, with the state the layout
/// ends in.
pub open spec fn file_cursor_of(v: ViewModel) -> (FlowState, FlowResult) {
    let (items, fin) = flow_of(v.text, v.dims);
    (fin, seek_result(seek(items, v.cursor_pos), fin, v.cursor_pos))
}

/// The view with the cursor put at character `index`, and shown.
pub open spec fn spec_flow_cursor(v: ViewModel, index: int) -> ViewModel {
    ViewModel {
        cursor_blink_on: true,
        cursor_pos: match cursor_for(v.text, v.dims, index) {
            Some(p) => p,
            None => v.cursor_pos,
        },
        ..v
    }
}

/// The view with the cursor moved one cell, if it stays on the grid, and
/// shown.
pub open spec fn spec_cursor_move(v: ViewModel, d: Direction) -> ViewModel {
    let p = v.cursor_pos;
    ViewModel {
        cursor_blink_on: true,
        cursor_pos: match d {
            Direction::Up => Point2 { x: p.x, y: if p.y > 0 { (p.y - 1) as u32 } else { p.y } },
            Direction::Down => Point2 {
                x: p.x,
                y: if p.y < v.dims.y - 1 { (p.y + 1) as u32 } else { p.y },
            },
            Direction::Left => Point2 { x: if p.x > 0 { (p.x - 1) as u32 } else { p.x }, y: p.y },
            Direction::Right => Point2 {
                x: if p.x < v.dims.x - 1 { (p.x + 1) as u32 } else { p.x },
                y: p.y,
            },
        },
        ..v
    }
}

/// `n` copies of `c`.
pub open spec fn repeat(c: char, n: int) -> Seq<char> {
    Seq::new(if n > 0 { n as nat } else { 0 }, |i: int| c)
}

/// Where typed text that starts with `first` goes in a view's text, and the
/// text padded out to the cursor first: on the character under the cursor;
/// past the end of the cursor's row, after tildes up to the cursor's column
/// unless a line feed is typed; past the end of the text, after line feeds
/// down to the cursor's row and tildes up to its column unless a line feed
/// is typed.
pub open spec fn insert_point(v: ViewModel, first: char) -> (int, Seq<char>) {
    let (fin, result) = file_cursor_of(v);
    let cur = v.cursor_pos;
    match result {
        FlowResult::Found { index } => (index as int, v.text),
        FlowResult::FoundLine { end_pos, begin } => {
            let at = begin + end_pos.x;
            let pad = if first != '\n' {
                cur.x - end_pos.x
            } else {
                0
            };
            let padded = v.text.take(at) + repeat('~', pad) + v.text.skip(at);
            (at + if pad > 0 { pad } else { 0 }, padded)
        },
        FlowResult::NotFound => {
            let lines = cur.y - fin.pos.y;
            let cols = if first != '\n' {
                cur.x as int
            } else {
                0
            };
            let padded = v.text + repeat('\n', lines) + repeat('~', cols);
            (fin.index + (if lines > 0 { lines } else { 0 }) + cols, padded)
        },
    }
}

/// The view after typing `s`, a nonempty text.
pub open spec fn spec_insert(v: ViewModel, s: Seq<char>) -> ViewModel {
    let (at, padded) = insert_point(v, s[0]);
    let text = padded.take(at) + s + padded.skip(at);
    spec_flow_cursor(ViewModel { text, ..v }, at + s.len())
}

/// Whether typing `s` into the view is possible: when the cursor is past
/// the end of its row, the column it is in counted from the row's first
/// character is within the text.
pub open spec fn insert_ok(v: ViewModel, s: Seq<char>) -> bool {
    s.len() > 0 ==> (file_cursor_of(v).1 matches FlowResult::FoundLine { end_pos, begin } ==> begin
        + end_pos.x <= v.text.len())
}

/// The view after deleting the character before the cursor: when the
/// cursor is on a character past the first of the file, that character
/// before it goes and the cursor follows; on the first character of the
/// file nothing happens; elsewhere the cursor moves left.
pub open spec fn spec_delete(v: ViewModel) -> ViewModel {
    let (fin, result) = file_cursor_of(v);
    match result {
        FlowResult::Found { index } => if v.start + index == 0 {
            v
        } else {
            spec_flow_cursor(ViewModel { text: v.text.remove(index - 1), ..v }, index - 1)
        },
        _ => spec_cursor_move(v, Direction::Left),
    }
}

/// Whether deleting is possible: the character before the cursor, if one
/// is deleted, is in the shown text.
pub open spec fn delete_ok(v: ViewModel) -> bool {
    let (fin, result) = file_cursor_of(v);
    result matches FlowResult::Found { index } ==> (v.start + index == 0 || (1 <= index
        && index <= v.text.len() && v.start + index < usize::MAX))
}

impl EditorView {
    /// Whether the view can carry out `command`: typing goes where the text
    /// can take it and leaves the text small enough, deleting removes a
    /// character of the shown text, new contents are small enough, and
    /// drawing fits what it draws on the grid.
    pub open spec fn command_ok(&self, command: &ViewCommand) -> bool {
        &&& command matches ViewCommand::Insert { text } ==> insert_ok(self.model(), text@) && 2 * (
        self.visible_text@.len() + text@.len() + self.dims.x + self.dims.y) + 2 < u32::MAX
        &&& command is DeleteAfterCursor ==> delete_ok(self.model())
        &&& command matches ViewCommand::SetContents(c) ==> 2 * c.text@.len() + 2 < u32::MAX
        &&& command is Draw ==> draw::draw_ok(self.model())
    }

    /// Whether this view is what `old` becomes once it carries out
    /// `command`.
    pub open spec fn runs(&self, old: EditorView, command: ViewCommand) -> bool {
        &&& self.wf()
        &&& self.block_types@ == old.block_types@
        &&& match command {
            ViewCommand::CursorMove(d) => self.model() == spec_cursor_move(old.model(), d),
            ViewCommand::ToggleCursorBlink => self.model() == (ViewModel {
                cursor_blink_on: !old.cursor_blink_on,
                ..old.model()
            }),
            ViewCommand::Insert { text } => self.model() == (if text@.len() == 0 {
                old.model()
            } else {
                spec_insert(old.model(), text@)
            }),
            ViewCommand::DeleteAfterCursor => self.model() == spec_delete(old.model()),
            ViewCommand::FlowCursor { index } => self.model() == spec_flow_cursor(
                old.model(),
                index as int,
            ),
            ViewCommand::SetContents(c) => self.model() == (ViewModel {
                start: c.start,
                start_line: c.start_line,
                text: chars_shown(flow_of(c.text@, old.dims).0),
                ..old.model()
            }),
            ViewCommand::Draw => self.model() == old.model(),
        }
    }

    /// This view as a value.
    pub open spec fn model(&self) -> ViewModel {
        ViewModel {
            start: self.start,
            start_line: self.start_line,
            dims: self.dims,
            cursor_blink_on: self.cursor_blink_on,
            cursor_pos: self.cursor_pos,
            text: self.visible_text@,
        }
    }

    /// The grid is at least one cell wide and high, the cursor is on it,
    /// there is a kind for every cell, and the text is small enough to lay
    /// out.
    pub open spec fn wf(&self) -> bool {
        &&& self.dims.x >= 1
        &&& self.dims.y >= 1
        &&& self.cursor_pos.x < self.dims.x
        &&& self.cursor_pos.y < self.dims.y
        &&& self.dims.x * self.dims.y <= usize::MAX
        &&& self.block_types@.len() == self.dims.x * self.dims.y
        &&& 2 * self.visible_text@.len() + 2 < u32::MAX
    }

    /// A view of the part of `s` that fits on a grid of size `dims`, with
    /// the cursor shown at the top left.
    pub fn new(dims: Rect, s: &str) -> (r: Self)
        requires
            dims.x >= 1,
            dims.y >= 1,
            dims.x * dims.y <= usize::MAX,
            2 * s@.len() + 2 < u32::MAX,
        ensures
            r.wf(),
            r.model() == (ViewModel {
                start: 0,
                start_line: 0,
                dims,
                cursor_blink_on: true,
                cursor_pos: Point2 { x: 0, y: 0 },
                text: chars_shown(flow_of(s@, dims).0),
            }),
            forall|i: int| 0 <= i < r.block_types@.len() ==> r.block_types@[i] == BlockType::Normal,
    {
        let size = (dims.x as usize) * (dims.y as usize);
        let mut block_types: Vec<BlockType> = Vec::new();
        let mut i: usize = 0;
        while i < size
            invariant
                i <= size,
                block_types@.len() == i,
                forall|j: int| 0 <= j < i ==> block_types@[j] == BlockType::Normal,
            decreases size - i,
        {
            block_types.push(BlockType::Normal);
            i += 1;
        }
        let text = chars_of(s);
        let visible_text = shown_chars(&text, dims);
        EditorView {
            start: 0,
            start_line: 0,
            dims,
            cursor_blink_on: true,
            cursor_pos: Point2 { x: 0, y: 0 },
            visible_text,
            block_types,
        }
    }

    /// Carries out a command for the view, adding to `output` what the
    /// editor has to do next.
    pub fn run(&mut self, command: ViewCommand, output: &mut Vec<TedCommand>)
        requires
            old(self).wf(),
            old(self).command_ok(&command),
        ensures
            final(self).runs(*old(self), command),
            match command {
                ViewCommand::FlowCursor { .. } => final(output)@ == old(output)@,
                ViewCommand::Draw => draw::adds_drawing(old(output)@, final(output)@, old(self).model()),
                _ => final(output)@ == old(output)@.push(TedCommand::RequestRedraw),
            },
    {
        match command {
            ViewCommand::CursorMove(direction) => self.cursor_move(direction, output),
            ViewCommand::ToggleCursorBlink => self.toggle_cursor_blink(output),
            ViewCommand::Insert { text } => self.insert(text.as_str(), output),
            ViewCommand::DeleteAfterCursor => self.delete(output),
            ViewCommand::FlowCursor { index } => self.flow_cursor(index),
            ViewCommand::SetContents(contents) => self.set_contents(contents, output),
            ViewCommand::Draw => self.draw(output),
        }
    }

    /// Shows the start of `contents`' text, which begins at character
    /// `start` of line `start_line` of the file.
    pub fn set_contents(&mut self, contents: SetContents, output: &mut Vec<TedCommand>)
        requires
            old(self).wf(),
            2 * contents.text@.len() + 2 < u32::MAX,
        ensures
            final(self).wf(),
            final(self).block_types@ == old(self).block_types@,
            final(self).model() == (ViewModel {
                start: contents.start,
                start_line: contents.start_line,
                text: chars_shown(flow_of(contents.text@, old(self).dims).0),
                ..old(self).model()
            }),
            final(output)@ == old(output)@.push(TedCommand::RequestRedraw),
    {
        self.start = contents.start;
        self.start_line = contents.start_line;
        let text = chars_of(contents.text.as_str());
        self.visible_text = shown_chars(&text, self.dims);
        output.push(TedCommand::RequestRedraw);
    }

    /// Types `s` at the cursor, padding the text out to the cursor first,
    /// and puts the cursor after it.
    #[verifier::rlimit(40)]
    pub fn insert(&mut self, s: &str, output: &mut Vec<TedCommand>)
        requires
            old(self).wf(),
            insert_ok(old(self).model(), s@),
            2 * (old(self).visible_text@.len() + s@.len() + old(self).dims.x + old(self).dims.y) + 2
                < u32::MAX,
        ensures
            final(self).wf(),
            final(self).block_types@ == old(self).block_types@,
            final(self).model() == (if s@.len() == 0 {
                old(self).model()
            } else {
                spec_insert(old(self).model(), s@)
            }),
            final(output)@ == old(output)@.push(TedCommand::RequestRedraw),
    {
        let chars = chars_of(s);
        if chars.len() == 0 {
            output.push(TedCommand::RequestRedraw);
            return;
        }
        let ghost v0 = self.model();
        let ghost bt0 = self.block_types@;
        let first = chars[0];
        let (flow, result) = self.file_cursor();
        let ghost text0 = self.visible_text@;
        proof {
            self.lemma_file_cursor_bounds();
            assert(chars@[0] == first);
            assert(insert_ok(v0, chars@));
        }
        let index = match result {
            FlowResult::Found { index } => index,
            FlowResult::FoundLine { end_pos, begin } => {
                proof {
                    self.lemma_file_cursor_bounds();
                }
                let mut index = begin + end_pos.x as usize;
                if first != '\n' {
                    let mut x = end_pos.x;
                    while x < self.cursor_pos.x
                        invariant
                            end_pos.x <= x,
                            x <= self.cursor_pos.x || x == end_pos.x,
                            index == begin + x,
                            self.start == v0.start,
                            self.start_line == v0.start_line,
                            self.dims == v0.dims,
                            self.cursor_blink_on == v0.cursor_blink_on,
                            self.block_types@ == bt0,
                            self.visible_text@ == text0.take(begin + end_pos.x) + repeat('~', x - end_pos.x)
                                + text0.skip(begin + end_pos.x),
                            begin + end_pos.x <= text0.len(),
                            self.cursor_pos == v0.cursor_pos,
                            index <= text0.len() + self.cursor_pos.x,
                            2 * (text0.len() + chars@.len() + self.dims.x + self.dims.y) + 2 < u32::MAX,
                            self.cursor_pos.x < self.dims.x,
                        decreases self.cursor_pos.x - x,
                    {
                        self.visible_text.insert(index, '~');
                        proof {
                            assert(self.visible_text@ =~= text0.take(begin + end_pos.x) + repeat(
                                '~',
                                x + 1 - end_pos.x,
                            ) + text0.skip(begin + end_pos.x));
                        }
                        index += 1;
                        x += 1;
                    }
                } else {
                    proof {
                        assert(self.visible_text@ =~= text0.take(begin + end_pos.x) + repeat('~', 0)
                            + text0.skip(begin + end_pos.x));
                    }
                }
                index
            },
            FlowResult::NotFound => {
                proof {
                    self.lemma_file_cursor_bounds();
                }
                let mut index = flow.index;
                let mut y = flow.pos.y;
                while y < self.cursor_pos.y
                    invariant
                        flow.pos.y <= y,
                        y <= self.cursor_pos.y || y == flow.pos.y,
                        self.start == v0.start,
                        self.start_line == v0.start_line,
                        self.dims == v0.dims,
                        self.cursor_blink_on == v0.cursor_blink_on,
                        self.block_types@ == bt0,
                        self.cursor_pos.x < self.dims.x,
                        index == flow.index + (y - flow.pos.y),
                        self.visible_text@ == text0 + repeat('\n', y - flow.pos.y),
                        self.cursor_pos == v0.cursor_pos,
                        flow.index <= text0.len(),
                        2 * (text0.len() + chars@.len() + self.dims.x + self.dims.y) + 2 < u32::MAX,
                        self.cursor_pos.y < self.dims.y,
                    decreases self.cursor_pos.y - y,
                {
                    self.visible_text.push('\n');
                    proof {
                        assert(self.visible_text@ =~= text0 + repeat('\n', y + 1 - flow.pos.y));
                    }
                    index += 1;
                    y += 1;
                }
                let ghost lines = self.visible_text@;
                proof {
                    if flow.pos.y > self.cursor_pos.y {
                        assert(lines =~= text0 + repeat('\n', self.cursor_pos.y - flow.pos.y));
                    }
                }
                if first != '\n' {
                    let mut x: u32 = 0;
                    while x < self.cursor_pos.x
                        invariant
                            x <= self.cursor_pos.x,
                            self.start == v0.start,
                            self.start_line == v0.start_line,
                            self.dims == v0.dims,
                            self.cursor_blink_on == v0.cursor_blink_on,
                            self.block_types@ == bt0,
                            index == flow.index + (if self.cursor_pos.y > flow.pos.y {
                                self.cursor_pos.y - flow.pos.y
                            } else {
                                0
                            }) + x,
                            self.visible_text@ == lines + repeat('~', x as int),
                            flow.index <= text0.len(),
                            self.cursor_pos == v0.cursor_pos,
                            2 * (text0.len() + chars@.len() + self.dims.x + self.dims.y) + 2 < u32::MAX,
                            self.cursor_pos.x < self.dims.x,
                            self.cursor_pos.y < self.dims.y,
                        decreases self.cursor_pos.x - x,
                    {
                        self.visible_text.push('~');
                        proof {
                            assert(self.visible_text@ =~= lines + repeat('~', x + 1));
                        }
                        index += 1;
                        x += 1;
                    }
                } else {
                    proof {
                        assert(self.visible_text@ =~= lines + repeat('~', 0));
                    }
                }
                index
            },
        };
        let ghost padded = self.visible_text@;
        proof {
            assert(insert_point(v0, first) == (index as int, padded));
            assert(padded.take(index as int) + chars@.take(0) + padded.skip(index as int) =~= padded);
        }
        let mut k: usize = 0;
        while k < chars.len()
            invariant
                k <= chars@.len(),
                index <= padded.len(),
                self.start == v0.start,
                self.start_line == v0.start_line,
                self.dims == v0.dims,
                self.cursor_blink_on == v0.cursor_blink_on,
                self.cursor_pos == v0.cursor_pos,
                self.block_types@ == bt0,
                v0.cursor_pos.x < v0.dims.x,
                v0.cursor_pos.y < v0.dims.y,
                v0.dims.x >= 1,
                v0.dims.y >= 1,
                v0.dims.x * v0.dims.y <= usize::MAX,
                bt0.len() == v0.dims.x * v0.dims.y,
                self.visible_text@ == padded.take(index as int) + chars@.take(k as int) + padded.skip(
                    index as int,
                ),
                2 * (text0.len() + chars@.len() + self.dims.x + self.dims.y) + 2 < u32::MAX,
                padded.len() <= text0.len() + self.dims.x + self.dims.y,
            decreases chars@.len() - k,
        {
            self.visible_text.insert(index + k, chars[k]);
            proof {
                assert(self.visible_text@ =~= padded.take(index as int) + chars@.take(k + 1)
                    + padded.skip(index as int));
            }
            k += 1;
        }
        proof {
            assert(chars@.take(chars@.len() as int) =~= chars@);
        }
        let count = chars.len();
        self.flow_cursor(index + count);
        output.push(TedCommand::RequestRedraw);
    }

    /// Deletes the character before the cursor, when the cursor is on a
    /// character; elsewhere moves the cursor left.
    pub fn delete(&mut self, output: &mut Vec<TedCommand>)
        requires
            old(self).wf(),
            delete_ok(old(self).model()),
        ensures
            final(self).wf(),
            final(self).block_types@ == old(self).block_types@,
            final(self).model() == spec_delete(old(self).model()),
            final(output)@ == old(output)@.push(TedCommand::RequestRedraw),
    {
        let (flow, result) = self.file_cursor();
        let index = match result {
            FlowResult::Found { index } => index,
            _ => {
                self.cursor_move(Direction::Left, output);
                return;
            },
        };
        let text_index = self.start + index;
        if text_index == 0 {
            output.push(TedCommand::RequestRedraw);
            return;
        }
        self.visible_text.remove(index - 1);
        self.flow_cursor(index - 1);
        output.push(TedCommand::RequestRedraw);
    }

    /// Puts the cursor at character `index` of the shown text, and shows it.
    pub fn flow_cursor(&mut self, index: usize)
        requires
            old(self).wf(),
        ensures
            final(self).wf(),
            final(self).block_types@ == old(self).block_types@,
            final(self).model() == spec_flow_cursor(old(self).model(), index as int),
    {
        self.cursor_blink_on = true;
        if self.visible_text.len() == 0 {
            self.cursor_pos = Point2 { x: 0, y: 0 };
            return;
        }
        let (items, fin) = flow_items(&self.visible_text, Some(self.dims.x), Some(self.dims.y));
        proof {
            lemma_run_bounds(initial(self.visible_text@, Some(self.dims.x), Some(self.dims.y)));
        }
        let mut next_pos: Option<Point2> = None;
        let mut k: usize = 0;
        while k < items.len()
            invariant
                k <= items@.len(),
                next_pos == last_pos_at(items@.take(k as int), index as int),
                forall|j: int|
                    #![trigger items@[j]]
                    0 <= j < items@.len() ==> items@[j].0.pos.x < self.dims.x && items@[j].0.pos.y
                        < self.dims.y,
            decreases items@.len() - k,
        {
            let (state, _) = items[k];
            proof {
                assert(items@.take(k + 1).drop_last() =~= items@.take(k as int));
            }
            if state.index == index {
                next_pos = Some(state.pos);
            }
            k += 1;
        }
        proof {
            assert(items@.take(items@.len() as int) =~= items@);
            lemma_last_pos_on_grid(items@, index as int, self.dims);
        }
        if fin.index == index && !fin.is_full {
            next_pos = Some(fin.pos);
        }
        match next_pos {
            Some(pos) => {
                self.cursor_pos = pos;
            },
            None => {},
        }
    }

    /// Hides the cursor if it is shown and shows it if it is hidden.
    pub fn toggle_cursor_blink(&mut self, output: &mut Vec<TedCommand>)
        requires
            old(self).wf(),
        ensures
            final(self).wf(),
            final(self).block_types@ == old(self).block_types@,
            final(self).model() == (ViewModel {
                cursor_blink_on: !old(self).cursor_blink_on,
                ..old(self).model()
            }),
            final(output)@ == old(output)@.push(TedCommand::RequestRedraw),
    {
        self.cursor_blink_on = !self.cursor_blink_on;
        output.push(TedCommand::RequestRedraw);
    }

    /// Moves the cursor one cell, unless it would leave the grid, and shows
    /// it.
    pub fn cursor_move(&mut self, direction: Direction, output: &mut Vec<TedCommand>)
        requires
            old(self).wf(),
        ensures
            final(self).wf(),
            final(self).block_types@ == old(self).block_types@,
            final(self).model() == spec_cursor_move(old(self).model(), direction),
            final(output)@ == old(output)@.push(TedCommand::RequestRedraw),
    {
        match direction {
            Direction::Up => {
                if self.cursor_pos.y > 0 {
                    self.cursor_pos.y = self.cursor_pos.y - 1;
                }
            },
            Direction::Down => {
                if self.cursor_pos.y < self.dims.y - 1 {
                    self.cursor_pos.y = self.cursor_pos.y + 1;
                }
            },
            Direction::Left => {
                if self.cursor_pos.x > 0 {
                    self.cursor_pos.x = self.cursor_pos.x - 1;
                }
            },
            Direction::Right => {
                if self.cursor_pos.x < self.dims.x - 1 {
                    self.cursor_pos.x = self.cursor_pos.x + 1;
                }
            },
        }
        self.cursor_blink_on = true;
        output.push(TedCommand::RequestRedraw);
    }

    /// Where the cursor falls in the shown text, with the state the layout
    /// ends in.
    pub fn file_cursor(&self) -> (r: (FlowState, FlowResult))
        requires
            self.wf(),
        ensures
            r == file_cursor_of(self.model()),
    {
        let (items, fin) = flow_items(&self.visible_text, Some(self.dims.x), Some(self.dims.y));
        let mut found_line_end = false;
        let mut result = FlowResult::NotFound;
        let mut k: usize = 0;
        while k < items.len()
            invariant
                k <= items@.len(),
                (result, found_line_end) == seek(items@.take(k as int), self.cursor_pos),
            decreases items@.len() - k,
        {
            let (state, params) = items[k];
            proof {
                assert(items@.take(k + 1).drop_last() =~= items@.take(k as int));
            }
            k += 1;
            if state.pos == self.cursor_pos {
                result = FlowResult::Found { index: state.index };
                continue;
            }
            match result {
                FlowResult::Found { .. } => {
                    continue;
                },
                FlowResult::FoundLine { end_pos, begin } => {
                    if found_line_end {
                        continue;
                    }
                    result = FlowResult::FoundLine { end_pos: state.pos, begin };
                    if params.c == '\n' {
                        found_line_end = true;
                    } else {
                        found_line_end = false;
                    }
                },
                FlowResult::NotFound => {
                    if state.pos.y == self.cursor_pos.y {
                        result = FlowResult::FoundLine { end_pos: state.pos, begin: state.index };
                        if params.c == '\n' {
                            found_line_end = true;
                        } else {
                            found_line_end = false;
                        }
                    }
                },
            }
        }
        proof {
            assert(items@.take(items@.len() as int) =~= items@);
        }
        if fin.pos == self.cursor_pos {
            result = FlowResult::Found { index: fin.index };
        }
        match result {
            FlowResult::FoundLine { end_pos, begin } => {
                if !found_line_end {
                    result = FlowResult::FoundLine { end_pos: fin.pos, begin };
                }
            },
            _ => {},
        }
        (fin, result)
    }

    /// What the cursor search finds lies within the text and the grid.
    proof fn lemma_file_cursor_bounds(&self)
        requires
            self.wf(),
        ensures
            ({
                let (fin, result) = file_cursor_of(self.model());
                &&& fin.index <= self.visible_text@.len()
                &&& fin.pos.x < self.dims.x
                &&& (!fin.is_full ==> fin.pos.y < self.dims.y)
                &&& match result {
                    FlowResult::Found { index } => index <= self.visible_text@.len(),
                    FlowResult::FoundLine { end_pos, begin } => begin + end_pos.x
                        <= self.visible_text@.len() + self.dims.x && end_pos.x < self.dims.x
                        && begin <= self.visible_text@.len(),
                    FlowResult::NotFound => true,
                }
            }),
    {
        let m = initial(self.visible_text@, Some(self.dims.x), Some(self.dims.y));
        lemma_run_bounds(m);
        let (items, fin) = m.run();
        lemma_seek_bounds(items, self.cursor_pos, self.visible_text@.len() as int, self.dims);
    }
}

/// The characters a layout of `text` on a grid of size `dims` shows.
fn shown_chars(text: &Vec<char>, dims: Rect) -> (r: Vec<char>)
    requires
        2 * text@.len() + 2 < u32::MAX,
    ensures
        r@ == chars_shown(flow_of(text@, dims).0),
        r@.len() <= text@.len(),
{
    let (items, fin) = flow_items(text, Some(dims.x), Some(dims.y));
    proof {
        lemma_run_bounds(initial(text@, Some(dims.x), Some(dims.y)));
    }
    let mut shown: Vec<char> = Vec::new();
    let mut k: usize = 0;
    while k < items.len()
        invariant
            k <= items@.len(),
            shown@ == chars_shown(items@.take(k as int)),
        decreases items@.len() - k,
    {
        let (_, params) = items[k];
        shown.push(params.c);
        proof {
            assert(chars_shown(items@.take(k + 1)) =~= chars_shown(items@.take(k as int)).push(
                params.c,
            ));
        }
        k += 1;
    }
    proof {
        assert(items@.take(items@.len() as int) =~= items@);
    }
    shown
}

/// The last cell handed out for an index lies on the grid when every cell
/// does.
proof fn lemma_last_pos_on_grid(items: Seq<(FlowState, FlowParams)>, index: int, dims: Rect)
    requires
        forall|j: int|
            #![trigger items[j]]
            0 <= j < items.len() ==> items[j].0.pos.x < dims.x && items[j].0.pos.y < dims.y,
    ensures
        last_pos_at(items, index) matches Some(p) ==> p.x < dims.x && p.y < dims.y,
    decreases items.len(),
{
    if items.len() > 0 && items.last().0.index != index {
        assert forall|j: int| #![trigger items.drop_last()[j]] 0 <= j < items.drop_last().len() implies items.drop_last()[j].0.pos.x
            < dims.x && items.drop_last()[j].0.pos.y < dims.y by {
            assert(items.drop_last()[j] == items[j]);
        }
        lemma_last_pos_on_grid(items.drop_last(), index, dims);
    } else if items.len() > 0 {
        assert(items.last() == items[items.len() - 1]);
    }
}

/// What the cursor search keeps lies within the text and the grid.
proof fn lemma_seek_bounds(items: Seq<(FlowState, FlowParams)>, cursor: Point2, len: int, dims: Rect)
    requires
        forall|j: int|
            #![trigger items[j]]
            0 <= j < items.len() ==> items[j].0.index < len && items[j].0.pos.x < dims.x,
    ensures
        match seek(items, cursor).0 {
            FlowResult::Found { index } => index <= len,
            FlowResult::FoundLine { end_pos, begin } => begin < len && end_pos.x < dims.x,
            FlowResult::NotFound => true,
        },
    decreases items.len(),
{
    if items.len() > 0 {
        assert forall|j: int| #![trigger items.drop_last()[j]] 0 <= j < items.drop_last().len() implies items.drop_last()[j].0.index
            < len && items.drop_last()[j].0.pos.x < dims.x by {
            assert(items.drop_last()[j] == items[j]);
        }
        lemma_seek_bounds(items.drop_last(), cursor, len, dims);
        assert(items.last() == items[items.len() - 1]);
    }
}

/// Where the cells handed out come one after the other, the cursor search
/// finds the character of the cell the cursor is on.
proof fn lemma_seek_found(items: Seq<(FlowState, FlowParams)>, j: int, p: Point2)
    requires
        0 <= j < items.len(),
        items[j].0.pos == p,
        forall|a: int, b: int| 0 <= a < b < items.len() ==> before(#[trigger] items[a].0.pos, #[trigger] items[b].0.pos),
    ensures
        seek(items, p).0 == (FlowResult::Found { index: items[j].0.index }),
    decreases items.len(),
{
    let prev = items.drop_last();
    if j < items.len() - 1 {
        assert(prev[j] == items[j]);
        assert forall|a: int, b: int| 0 <= a < b < prev.len() implies before(#[trigger] prev[a].0.pos, #[trigger] prev[b].0.pos) by {
            assert(prev[a] == items[a] && prev[b] == items[b]);
        }
        lemma_seek_found(prev, j, p);
        assert(before(items[j].0.pos, items[items.len() - 1].0.pos));
        assert(items.last() == items[items.len() - 1]);
    } else {
        assert(items.last() == items[j]);
    }
}

/// The last cell handed out for a character is the cell of one of the
/// character's items.
proof fn lemma_last_pos_item(items: Seq<(FlowState, FlowParams)>, index: int) -> (j: int)
    requires
        last_pos_at(items, index) is Some,
    ensures
        0 <= j < items.len(),
        items[j].0.index == index,
        last_pos_at(items, index) == Some(items[j].0.pos),
    decreases items.len(),
{
    if items.last().0.index == index {
        items.len() - 1
    } else {
        let j = lemma_last_pos_item(items.drop_last(), index);
        assert(items.drop_last()[j] == items[j]);
        j
    }
}

/// Typing a character on a character of the view and then deleting the
/// character before the cursor gives the text back, when the cursor can
/// stand after the typed character.
pub proof fn lemma_delete_undoes_typing(view: EditorView, ch: char)
    requires
        view.wf(),
        2 * (view.visible_text@.len() + 1) + 2 < u32::MAX,
        file_cursor_of(view.model()).1 is Found,
        cursor_for(
            spec_insert(view.model(), seq![ch]).text,
            view.dims,
            file_cursor_of(view.model()).1->index + 1,
        ) is Some,
    ensures
        spec_delete(spec_insert(view.model(), seq![ch])).text == view.visible_text@,
{
    let v = view.model();
    view.lemma_file_cursor_bounds();
    let i = file_cursor_of(v).1->index as int;
    let s = seq![ch];
    let w = spec_insert(v, s);
    let text = v.text.take(i) + s + v.text.skip(i);
    assert(w.text == text);
    let (items, fin) = flow_of(text, v.dims);
    let m = initial(text, Some(v.dims.x), Some(v.dims.y));
    lemma_run_order(m);
    lemma_run_bounds(m);
    let p = cursor_for(text, v.dims, i + 1)->0;
    assert(w.cursor_pos == p);
    if text.len() == 0 {
    } else if fin.index == i + 1 && !fin.is_full {
        assert(file_cursor_of(w).1 == (FlowResult::Found { index: (i + 1) as usize }));
    } else {
        let j = lemma_last_pos_item(items, i + 1);
        lemma_seek_found(items, j, p);
        assert(before(items[j].0.pos, fin.pos));
        assert(file_cursor_of(w).1 == (FlowResult::Found { index: (i + 1) as usize }));
    }
    assert(text.remove(i) =~= v.text);
}

/// Typing past the end of the cursor's row puts the typed text in the
/// cursor's cell: when the layout finds the cursor on the row that starts
/// with character `begin`, past that row's text, which ends at column
/// `end_pos.x`, and the typed text does not start with a line feed, the
/// row's text is kept, then padded with `~` from its end up to the
/// cursor's column, so that the typed text starts `cursor.x` characters
/// after the row's first character; the rest of the text follows.
pub proof fn lemma_insert_pads_to_cursor(v: ViewModel, s: Seq<char>)
    requires
        s.len() > 0,
        s[0] != '\n',
        file_cursor_of(v).1 matches FlowResult::FoundLine { end_pos, begin } && begin + end_pos.x
            <= v.text.len() && end_pos.x <= v.cursor_pos.x,
    ensures
        file_cursor_of(v).1 matches FlowResult::FoundLine { end_pos, begin } ==> {
            let t = spec_insert(v, s).text;
            let at = begin + end_pos.x;
            let cx = begin + v.cursor_pos.x;
            &&& t.len() == v.text.len() + (v.cursor_pos.x - end_pos.x) + s.len()
            &&& t.take(at) == v.text.take(at)
            &&& forall|k: int| at <= k < cx ==> #[trigger] t[k] == '~'
            &&& t.subrange(cx, cx + s.len()) == s
            &&& t.skip(cx + s.len()) == v.text.skip(at)
        },
{
    if let FlowResult::FoundLine { end_pos, begin } = file_cursor_of(v).1 {
        let t = spec_insert(v, s).text;
        let at = begin + end_pos.x;
        let cx = begin + v.cursor_pos.x;
        let pad = v.cursor_pos.x - end_pos.x;
        let padded = v.text.take(at) + repeat('~', pad) + v.text.skip(at);
        let at2 = at + if pad > 0 { pad } else { 0 };
        assert(at2 == cx);
        assert(t == padded.take(at2) + s + padded.skip(at2));
        assert(padded.take(at2) =~= v.text.take(at) + repeat('~', pad));
        assert(padded.skip(at2) =~= v.text.skip(at));
        assert(t.take(at) =~= v.text.take(at));
        assert(t.subrange(cx, cx + s.len()) =~= s);
        assert(t.skip(cx + s.len()) =~= v.text.skip(at));
        assert forall|k: int| at <= k < cx implies #[trigger] t[k] == '~' by {
            assert(t[k] == padded.take(at2)[k]);
        }
    }
}

/// Where typed text goes: on a character, it goes in before that
/// character; past the end of the laid-out text, it goes at the end, after
/// a line feed for each row the cursor is below the end and, unless it
/// starts with a line feed, a `~` for each column up to the cursor's.
pub proof fn lemma_insert_places_text(v: ViewModel, s: Seq<char>)
    requires
        s.len() > 0,
    ensures
        file_cursor_of(v).1 matches FlowResult::Found { index } ==> spec_insert(v, s).text == v.text.take(
            index as int,
        ) + s + v.text.skip(index as int),
        file_cursor_of(v).1 is NotFound ==> {
            let fin = file_cursor_of(v).0;
            let rows = v.cursor_pos.y - fin.pos.y;
            let cols = if s[0] == '\n' {
                0
            } else {
                v.cursor_pos.x as int
            };
            &&& fin.index == v.text.len() ==> spec_insert(v, s).text == v.text + Seq::new(
                (if rows > 0 {
                    rows
                } else {
                    0
                }) as nat,
                |k: int| '\n',
            ) + Seq::new(cols as nat, |k: int| '~') + s
        },
{
    if file_cursor_of(v).1 is NotFound {
        let fin = file_cursor_of(v).0;
        let rows = v.cursor_pos.y - fin.pos.y;
        let cols = if s[0] == '\n' {
            0
        } else {
            v.cursor_pos.x as int
        };
        if fin.index == v.text.len() {
            let padded = v.text + repeat('\n', rows) + repeat('~', cols);
            let at = fin.index + (if rows > 0 { rows } else { 0 }) + cols;
            assert(padded.take(at) =~= padded);
            assert(padded.skip(at) =~= Seq::<char>::empty());
            assert(repeat('\n', rows) =~= Seq::new((if rows > 0 { rows } else { 0 }) as nat, |k: int| '\n'));
            assert(repeat('~', cols) =~= Seq::new(cols as nat, |k: int| '~'));
            assert(spec_insert(v, s).text =~= padded + s);
        }
    }
}

} // verus!
