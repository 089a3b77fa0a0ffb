//! Drawing a view: the grid of characters it shows, with the cursor, and
//! the column of line numbers beside it.
use super::{flow_of, BlockType, EditorView, ViewModel};
use crate::commands::TedCommand;
use crate::flow::{before, flow_items, initial, lemma_run_bounds, lemma_run_order, FlowParams, FlowState};
use crate::geom::Rect;
use vstd::prelude::*;

verus! {

/// How many cells wide the column of line numbers is.
pub const LINES_WIDTH: u32 = 3;

/// Whether `c` has the Unicode White_Space property.
pub open spec fn spec_is_whitespace(c: char) -> bool {
    let n = c as u32;
    ||| 0x9 <= n <= 0xd
    ||| n == 0x20
    ||| n == 0x85
    ||| n == 0xa0
    ||| n == 0x1680
    ||| 0x2000 <= n <= 0x200a
    ||| n == 0x2028
    ||| n == 0x2029
    ||| n == 0x202f
    ||| n == 0x205f
    ||| n == 0x3000
}

/// Whether `c` has the Unicode White_Space property.
pub fn is_whitespace(c: char) -> (r: bool)
    ensures
        r == spec_is_whitespace(c),
{
    let n = c as u32;
    (0x9 <= n && n <= 0xd) || n == 0x20 || n == 0x85 || n == 0xa0 || n == 0x1680 || (0x2000 <= n
        && n <= 0x200a) || n == 0x2028 || n == 0x2029 || n == 0x202f || n == 0x205f || n == 0x3000
}

/// The first cell of a character laid out at `st` on a grid `dims` wide.
pub open spec fn first_cell(st: FlowState, dims: Rect) -> int {
    st.pos.y * dims.x + st.pos.x
}

/// The grid of characters that the cells handed out `items` paint: blank
/// at first, and each character that is not white space fills the cells it
/// takes.
pub open spec fn paint(items: Seq<(FlowState, FlowParams)>, dims: Rect) -> Seq<char>
    decreases items.len(),
{
    if items.len() == 0 {
        Seq::new((dims.x * dims.y) as nat, |k: int| ' ')
    } else {
        let prev = paint(items.drop_last(), dims);
        let (st, p) = items.last();
        let begin = first_cell(st, dims);
        if spec_is_whitespace(p.c) {
            prev
        } else {
            Seq::new(prev.len(), |k: int| if begin <= k < begin + p.write_len { p.c } else { prev[k] })
        }
    }
}

/// The line number each row starts, and the number waiting for the next
/// row to start, after the cells handed out `items`: a row that starts
/// with a character takes the waiting number, and a line feed makes the
/// next line's number wait.
pub open spec fn number_rows(items: Seq<(FlowState, FlowParams)>, rows: nat, line: usize) -> (
    Seq<Option<usize>>,
    Option<usize>,
)
    decreases items.len(),
{
    if items.len() == 0 {
        (Seq::new(rows, |i: int| None), Some(line))
    } else {
        let (nums, waiting) = number_rows(items.drop_last(), rows, line);
        let (st, p) = items.last();
        let (nums2, waiting2) = if st.pos.x == 0 && st.pos.y < rows {
            (nums.update(st.pos.y as int, waiting), None)
        } else {
            (nums, waiting)
        };
        (nums2, if p.c == '\n' { Some((st.newline_count + line) as usize) } else { waiting2 })
    }
}

/// The line number shown beside each row of a view; the row where the
/// layout ends takes the waiting number too, when it starts there.
pub open spec fn line_numbers(v: ViewModel) -> Seq<Option<usize>> {
    let (items, fin) = flow_of(v.text, v.dims);
    let (nums, waiting) = number_rows(items, v.dims.y as nat, (v.start_line + 1) as usize);
    if fin.pos.y < v.dims.y && fin.pos.x == 0 {
        nums.update(fin.pos.y as int, waiting)
    } else {
        nums
    }
}

/// The decimal digit `d`.
pub open spec fn digit(d: int) -> char {
    seq!['0', '1', '2', '3', '4', '5', '6', '7', '8', '9'][d]
}

/// The three cells a line number takes: the number right-aligned, or blank.
pub open spec fn number_cell(n: Option<usize>) -> Seq<char> {
    match n {
        None => seq![' ', ' ', ' '],
        Some(n) => seq![
            if n >= 100 { digit((n / 100) as int) } else { ' ' },
            if n >= 10 { digit(((n / 10) % 10) as int) } else { ' ' },
            digit((n % 10) as int),
        ],
    }
}

/// The cells of the column of line numbers, row after row.
pub open spec fn number_cells(nums: Seq<Option<usize>>) -> Seq<char>
    decreases nums.len(),
{
    if nums.len() == 0 {
        Seq::empty()
    } else {
        number_cells(nums.drop_last()) + number_cell(nums.last())
    }
}

/// Whether `c` is a decimal digit.
pub open spec fn is_digit_char(c: char) -> bool {
    '0' <= c && c <= '9'
}

/// The value of the decimal digit `c`.
pub open spec fn digit_value(c: char) -> int {
    (c as int) - ('0' as int)
}

/// The digit of each value below ten is that value's digit character.
proof fn lemma_digit(d: int)
    requires
        0 <= d < 10,
    ensures
        is_digit_char(digit(d)),
        digit_value(digit(d)) == d,
{
    let ds = seq!['0', '1', '2', '3', '4', '5', '6', '7', '8', '9'];
    assert(digit(d) == ds[d]);
    if d == 0 {
        assert(ds[0] == '0');
    } else if d == 1 {
        assert(ds[1] == '1');
    } else if d == 2 {
        assert(ds[2] == '2');
    } else if d == 3 {
        assert(ds[3] == '3');
    } else if d == 4 {
        assert(ds[4] == '4');
    } else if d == 5 {
        assert(ds[5] == '5');
    } else if d == 6 {
        assert(ds[6] == '6');
    } else if d == 7 {
        assert(ds[7] == '7');
    } else if d == 8 {
        assert(ds[8] == '8');
    } else {
        assert(ds[9] == '9');
    }
}

/// The cells of row `y` of the column of line numbers are the three that
/// row's number takes.
proof fn lemma_number_row(nums: Seq<Option<usize>>, y: int)
    requires
        0 <= y < nums.len(),
    ensures
        number_cells(nums).len() == 3 * nums.len(),
        number_cells(nums).subrange(3 * y, 3 * y + 3) == number_cell(nums[y]),
    decreases nums.len(),
{
    let d = nums.drop_last();
    if y < nums.len() - 1 {
        lemma_number_row(d, y);
        assert(number_cells(nums).subrange(3 * y, 3 * y + 3) =~= number_cells(d).subrange(3 * y, 3 * y + 3));
    } else {
        if d.len() > 0 {
            lemma_number_row(d, 0);
        }
        assert(number_cells(nums).subrange(3 * y, 3 * y + 3) =~= number_cell(nums.last()));
    }
}

/// A line number reads back from its three cells: for each row whose
/// number `n` is below a thousand, the cells are `n` in decimal,
/// right-aligned, with blanks in place of leading zeros; a row without a
/// number is blank.
pub proof fn lemma_line_number_reads_back(nums: Seq<Option<usize>>, y: int)
    requires
        0 <= y < nums.len(),
        nums[y] matches Some(n) ==> n < 1000,
    ensures
        ({
            let c = number_cells(nums).subrange(3 * y, 3 * y + 3);
            &&& number_cells(nums).len() == 3 * nums.len()
            &&& c.len() == 3
            &&& nums[y] is None ==> c == seq![' ', ' ', ' ']
            &&& nums[y] matches Some(n) ==> {
                &&& (c[0] == ' ') == (n < 100)
                &&& (c[1] == ' ') == (n < 10)
                &&& n >= 100 ==> is_digit_char(c[0])
                &&& n >= 10 ==> is_digit_char(c[1])
                &&& is_digit_char(c[2])
                &&& (if n >= 100 {
                    digit_value(c[0])
                } else {
                    0
                }) * 100 + (if n >= 10 {
                    digit_value(c[1])
                } else {
                    0
                }) * 10 + digit_value(c[2]) == n
            }
        }),
{
    lemma_number_row(nums, y);
    if let Some(n) = nums[y] {
        let c = number_cell(nums[y]);
        lemma_digit((n % 10) as int);
        if n >= 10 {
            lemma_digit(((n / 10) % 10) as int);
        }
        if n >= 100 {
            lemma_digit((n / 100) as int);
        }
        assert(c[2] == digit((n % 10) as int));
        assert((if n >= 100 { (n / 100) as int } else { 0 }) * 100 + (if n >= 10 { ((n / 10) % 10) as int } else { 0 }) * 10
            + (n % 10) as int == n) by (nonlinear_arith)
            requires
                n < 1000,
        ;
    }
}

/// The kind of each cell of a view's grid: the cursor's cell is drawn as
/// the cursor while it blinks on.
pub open spec fn grid_types(v: ViewModel) -> Seq<BlockType> {
    Seq::new(
        (v.dims.x * v.dims.y) as nat,
        |k: int|
            if v.cursor_blink_on && k == v.cursor_pos.y * v.dims.x + v.cursor_pos.x {
                BlockType::Cursor
            } else {
                BlockType::Normal
            },
    )
}

/// Whether a view can be drawn: every character fits on the grid, and every
/// line number shown fits in its three cells (the first row always shows
/// the number of the first line).
pub open spec fn draw_ok(v: ViewModel) -> bool {
    let (items, fin) = flow_of(v.text, v.dims);
    &&& v.start_line + 1 < 1000
    &&& forall|k: int|
        0 <= k < items.len() ==> first_cell(#[trigger] items[k].0, v.dims) + items[k].1.write_len
            <= v.dims.x * v.dims.y
    &&& forall|y: int| 0 <= y < line_numbers(v).len() ==> (#[trigger] line_numbers(v)[y] matches Some(
        n,
    ) ==> n < 1000)
    &&& LINES_WIDTH * v.dims.y <= usize::MAX
}

/// Whether `c` is the command to draw a grid of size `dims` with these
/// kinds of cells and characters.
pub open spec fn draws(
    c: TedCommand,
    is_lines: bool,
    block_types: Seq<BlockType>,
    text: Seq<char>,
    dims: Rect,
) -> bool {
    c matches TedCommand::DrawView { is_lines: l, block_types: b, text: t, dims: d } && l == is_lines
        && b@ == block_types && t@ == text && d == dims
}

/// Whether `after` is `before` with the two commands that draw view `v`
/// added: its grid, then the column of its line numbers.
pub open spec fn adds_drawing(before: Seq<TedCommand>, after: Seq<TedCommand>, v: ViewModel) -> bool {
    &&& after.len() == before.len() + 2
    &&& after.take(before.len() as int) == before
    &&& draws(
        after[before.len() as int],
        false,
        grid_types(v),
        paint(flow_of(v.text, v.dims).0, v.dims),
        v.dims,
    )
    &&& draws(
        after[before.len() + 1int],
        true,
        Seq::new((LINES_WIDTH * v.dims.y) as nat, |k: int| BlockType::Normal),
        number_cells(line_numbers(v)),
        Rect { x: LINES_WIDTH, y: v.dims.y },
    )
}

/// The decimal digit `d`.
fn digit_char(d: usize) -> (r: char)
    requires
        d < 10,
    ensures
        r == digit(d as int),
{
    let digits = ['0', '1', '2', '3', '4', '5', '6', '7', '8', '9'];
    proof {
        assert(digits@ =~= seq!['0', '1', '2', '3', '4', '5', '6', '7', '8', '9']);
    }
    digits[d]
}

/// Painting keeps the size of the grid.
proof fn lemma_paint_len(items: Seq<(FlowState, FlowParams)>, dims: Rect)
    ensures
        paint(items, dims).len() == (dims.x * dims.y) as nat,
    decreases items.len(),
{
    if items.len() > 0 {
        lemma_paint_len(items.drop_last(), dims);
    }
}

/// Numbering keeps one entry per row.
proof fn lemma_number_rows_len(items: Seq<(FlowState, FlowParams)>, rows: nat, line: usize)
    ensures
        number_rows(items, rows, line).0.len() == rows,
    decreases items.len(),
{
    if items.len() > 0 {
        lemma_number_rows_len(items.drop_last(), rows, line);
    }
}

/// A later cell of the grid, row by row, has a later position.
proof fn lemma_first_cell_order(a: FlowState, b: FlowState, dims: Rect)
    requires
        before(a.pos, b.pos),
        a.pos.x < dims.x,
        b.pos.x < dims.x,
    ensures
        first_cell(a, dims) < first_cell(b, dims),
{
    if a.pos.y < b.pos.y {
        assert(a.pos.y * dims.x + dims.x <= b.pos.y * dims.x) by (nonlinear_arith)
            requires
                a.pos.y < b.pos.y,
        ;
    }
}

/// A character that is not white space stays in its first cell when only
/// characters with later first cells are painted after it.
proof fn lemma_paint_cell(items: Seq<(FlowState, FlowParams)>, dims: Rect, k: int)
    requires
        0 <= k < items.len(),
        forall|i: int, j: int|
            0 <= i < j < items.len() ==> first_cell(#[trigger] items[i].0, dims) < first_cell(
                #[trigger] items[j].0,
                dims,
            ),
        0 <= first_cell(items[k].0, dims) < dims.x * dims.y,
        !spec_is_whitespace(items[k].1.c),
        items[k].1.write_len >= 1,
    ensures
        paint(items, dims)[first_cell(items[k].0, dims)] == items[k].1.c,
    decreases items.len(),
{
    lemma_paint_len(items, dims);
    let prev = items.drop_last();
    lemma_paint_len(prev, dims);
    if k < items.len() - 1 {
        assert(prev[k] == items[k]);
        assert forall|i: int, j: int| 0 <= i < j < prev.len() implies first_cell(#[trigger] prev[i].0, dims)
            < first_cell(#[trigger] prev[j].0, dims) by {
            assert(prev[i] == items[i] && prev[j] == items[j]);
        }
        lemma_paint_cell(prev, dims, k);
        assert(first_cell(items[k].0, dims) < first_cell(items.last().0, dims)) by {
            assert(items.last() == items[items.len() - 1]);
        }
    }
}

/// Drawing shows every character of the view's layout that is not white
/// space in the cell where the layout puts it.
pub proof fn lemma_draw_shows_text(v: ViewModel, k: int)
    requires
        v.dims.x >= 1,
        v.dims.y >= 1,
        2 * v.text.len() + 2 < u32::MAX,
        0 <= k < flow_of(v.text, v.dims).0.len(),
        !spec_is_whitespace(flow_of(v.text, v.dims).0[k].1.c),
    ensures
        ({
            let items = flow_of(v.text, v.dims).0;
            let cell = first_cell(items[k].0, v.dims);
            &&& 0 <= cell < v.dims.x * v.dims.y
            &&& paint(items, v.dims)[cell] == items[k].1.c
        }),
{
    let m = initial(v.text, Some(v.dims.x), Some(v.dims.y));
    lemma_run_bounds(m);
    lemma_run_order(m);
    let items = flow_of(v.text, v.dims).0;
    let dims = v.dims;
    assert forall|i: int, j: int| 0 <= i < j < items.len() implies first_cell(#[trigger] items[i].0, dims)
        < first_cell(#[trigger] items[j].0, dims) by {
        lemma_first_cell_order(items[i].0, items[j].0, dims);
    }
    let st = items[k].0;
    assert(st.pos.y * dims.x + st.pos.x < dims.x * dims.y) by (nonlinear_arith)
        requires
            st.pos.y < dims.y,
            st.pos.x < dims.x,
    ;
    assert(items[k].1.c != '\n');
    lemma_paint_cell(items, dims, k);
}

impl EditorView {
    /// Adds to `output` the commands that draw this view: first its grid,
    /// with the characters shown and the cursor, then the column of line
    /// numbers beside it.
    pub fn draw(&self, output: &mut Vec<TedCommand>)
        requires
            self.wf(),
            draw_ok(self.model()),
        ensures
            adds_drawing(old(output)@, final(output)@, self.model()),
    {
        let ghost v = self.model();
        let ghost out0 = output@;
        let dims = self.dims;
        let (items, fin) = flow_items(&self.visible_text, Some(dims.x), Some(dims.y));
        proof {
            lemma_run_bounds(initial(self.visible_text@, Some(dims.x), Some(dims.y)));
        }
        let width = dims.x as usize;
        let size = width * (dims.y as usize);
        let mut text: Vec<char> = Vec::new();
        let mut i: usize = 0;
        while i < size
            invariant
                i <= size,
                text@ == Seq::new(i as nat, |k: int| ' '),
            decreases size - i,
        {
            text.push(' ');
            proof {
                assert(text@ =~= Seq::new((i + 1) as nat, |k: int| ' '));
            }
            i += 1;
        }
        let rows = dims.y as usize;
        let mut nums: Vec<Option<usize>> = Vec::new();
        let mut i: usize = 0;
        while i < rows
            invariant
                i <= rows,
                nums@ == Seq::new(i as nat, |k: int| None::<usize>),
            decreases rows - i,
        {
            nums.push(None);
            proof {
                assert(nums@ =~= Seq::new((i + 1) as nat, |k: int| None::<usize>));
            }
            i += 1;
        }
        let line = self.start_line + 1;
        let mut waiting: Option<usize> = Some(line);
        proof {
            assert(items@.take(0) =~= Seq::<(FlowState, FlowParams)>::empty());
        }
        let mut k: usize = 0;
        while k < items.len()
            invariant
                k <= items@.len(),
                (items@, fin) == flow_of(self.visible_text@, dims),
                v == self.model(),
                dims == self.dims,
                self.wf(),
                draw_ok(v),
                width == dims.x,
                size == dims.x * dims.y,
                rows == dims.y,
                line == self.start_line + 1,
                text@ == paint(items@.take(k as int), dims),
                (nums@, waiting) == number_rows(items@.take(k as int), rows as nat, line),
                forall|j: int|
                    #![trigger items@[j]]
                    0 <= j < items@.len() ==> {
                        &&& items@[j].0.pos.x < dims.x
                        &&& items@[j].0.pos.y < dims.y
                        &&& items@[j].0.newline_count <= self.visible_text@.len()
                    },
            decreases items@.len() - k,
        {
            let (st, p) = items[k];
            proof {
                lemma_paint_len(items@.take(k as int), dims);
                lemma_number_rows_len(items@.take(k as int), rows as nat, line);
                assert(items@.take(k + 1).drop_last() =~= items@.take(k as int));
                assert(items@.take(k + 1).last() == items@[k as int]);
                assert(first_cell(items@[k as int].0, dims) + items@[k as int].1.write_len <= dims.x
                    * dims.y);
                assert(st.pos.y * dims.x + st.pos.x < dims.x * dims.y) by (nonlinear_arith)
                    requires
                        st.pos.y < dims.y,
                        st.pos.x < dims.x,
                ;
            }
            if st.pos.x == 0 {
                nums.set(st.pos.y as usize, waiting);
                waiting = None;
            }
            if p.c == '\n' {
                waiting = Some(st.newline_count + line);
            }
            let begin = (st.pos.y as usize) * width + (st.pos.x as usize);
            let end = begin + p.write_len as usize;
            if !is_whitespace(p.c) {
                let ghost prev = text@;
                let mut j = begin;
                while j < end
                    invariant
                        begin <= j <= end,
                        end <= prev.len(),
                        text@ == Seq::new(
                            prev.len(),
                            |m: int| if begin <= m < j { p.c } else { prev[m] },
                        ),
                    decreases end - j,
                {
                    text.set(j, p.c);
                    proof {
                        assert(text@ =~= Seq::new(
                            prev.len(),
                            |m: int| if begin <= m < j + 1 { p.c } else { prev[m] },
                        ));
                    }
                    j += 1;
                }
            }
            k += 1;
        }
        proof {
            assert(items@.take(items@.len() as int) =~= items@);
            lemma_number_rows_len(items@, rows as nat, line);
        }
        if fin.pos.y < dims.y && fin.pos.x == 0 {
            nums.set(fin.pos.y as usize, waiting);
        }
        let mut types: Vec<BlockType> = Vec::new();
        proof {
            assert(self.cursor_pos.y * dims.x + self.cursor_pos.x < dims.x * dims.y) by (nonlinear_arith)
                requires
                    self.cursor_pos.y < dims.y,
                    self.cursor_pos.x < dims.x,
            ;
        }
        let cursor = if self.cursor_blink_on {
            (self.cursor_pos.y as usize) * width + (self.cursor_pos.x as usize)
        } else {
            size
        };
        let mut i: usize = 0;
        while i < size
            invariant
                i <= size,
                size == dims.x * dims.y,
                v == self.model(),
                dims == self.dims,
                cursor == (if v.cursor_blink_on {
                    v.cursor_pos.y * dims.x + v.cursor_pos.x
                } else {
                    size as int
                }),
                types@ == grid_types(v).take(i as int),
            decreases size - i,
        {
            if i == cursor {
                types.push(BlockType::Cursor);
            } else {
                types.push(BlockType::Normal);
            }
            proof {
                assert(types@ =~= grid_types(v).take(i + 1));
            }
            i += 1;
        }
        proof {
            assert(grid_types(v).take(size as int) =~= grid_types(v));
        }
        output.push(TedCommand::DrawView { is_lines: false, block_types: types, text, dims });
        let mut cells: Vec<char> = Vec::new();
        let mut y: usize = 0;
        proof {
            assert(nums@ == line_numbers(v));
            assert(nums@.take(0) =~= Seq::<Option<usize>>::empty());
        }
        while y < rows
            invariant
                y <= rows,
                rows == nums@.len(),
                nums@ == line_numbers(v),
                draw_ok(v),
                cells@ == number_cells(nums@.take(y as int)),
            decreases rows - y,
        {
            let n = nums[y];
            proof {
                assert(nums@.take(y + 1).drop_last() =~= nums@.take(y as int));
            }
            match n {
                None => {
                    cells.push(' ');
                    cells.push(' ');
                    cells.push(' ');
                },
                Some(n) => {
                    proof {
                        assert(line_numbers(v)[y as int] == Some(n));
                    }
                    if n >= 100 {
                        cells.push(digit_char(n / 100));
                    } else {
                        cells.push(' ');
                    }
                    if n >= 10 {
                        cells.push(digit_char((n / 10) % 10));
                    } else {
                        cells.push(' ');
                    }
                    cells.push(digit_char(n % 10));
                },
            }
            proof {
                assert(cells@ =~= number_cells(nums@.take(y as int)) + number_cell(nums@[y as int]));
            }
            y += 1;
        }
        proof {
            assert(nums@.take(rows as int) =~= nums@);
        }
        let count = (LINES_WIDTH as usize) * rows;
        let mut line_types: Vec<BlockType> = Vec::new();
        let mut i: usize = 0;
        while i < count
            invariant
                i <= count,
                line_types@ == Seq::new(i as nat, |k: int| BlockType::Normal),
            decreases count - i,
        {
            line_types.push(BlockType::Normal);
            proof {
                assert(line_types@ =~= Seq::new((i + 1) as nat, |k: int| BlockType::Normal));
            }
            i += 1;
        }
        output.push(
            TedCommand::DrawView {
                is_lines: true,
                block_types: line_types,
                text: cells,
                dims: Rect { x: LINES_WIDTH, y: dims.y },
            },
        );
        proof {
            assert(output@.take(out0.len() as int) =~= out0);
        }
    }
}

} // verus!
