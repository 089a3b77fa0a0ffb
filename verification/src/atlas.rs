//! Packing rasterized glyphs into one grey-scale image: a grid of cells,
//! a hundred to a row, each as wide and high as the largest glyph with a
//! margin, every glyph standing at the bottom left of its cell.
use vstd::prelude::*;

verus! {

/// How many cells a row of the image holds.
pub const COLUMNS: usize = 100;

/// A rasterized glyph: its size, and where its rows of bytes start in the
/// glyph data, one after the other.
#[derive(Clone, Copy, Debug, PartialEq, Eq, Structural)]
pub struct Glyph {
    pub width: usize,
    pub height: usize,
    pub offset: usize,
}

/// The widest width of `gs`, or 0.
pub open spec fn max_width(gs: Seq<Glyph>) -> nat
    decreases gs.len(),
{
    if gs.len() == 0 {
        0
    } else {
        let m = max_width(gs.drop_last());
        if m < gs.last().width { gs.last().width as nat } else { m }
    }
}

/// The greatest height of `gs`, or 0.
pub open spec fn max_height(gs: Seq<Glyph>) -> nat
    decreases gs.len(),
{
    if gs.len() == 0 {
        0
    } else {
        let m = max_height(gs.drop_last());
        if m < gs.last().height { gs.last().height as nat } else { m }
    }
}

/// The pixel bounds of a rasterized glyph: left, top, right and bottom.
#[derive(Clone, Copy, Debug, PartialEq, Eq, Structural)]
pub struct Metrics {
    pub l: i32,
    pub t: i32,
    pub r: i32,
    pub b: i32,
}

impl Metrics {
    /// The width, right minus left, taken as a `usize`.
    pub fn width(&self) -> (r: usize)
        requires
            i32::MIN <= self.r - self.l <= i32::MAX,
        ensures
            r == (self.r - self.l) as usize,
    {
        (self.r - self.l) as usize
    }

    /// The height, bottom minus top, taken as a `usize`.
    pub fn height(&self) -> (r: usize)
        requires
            i32::MIN <= self.b - self.t <= i32::MAX,
        ensures
            r == (self.b - self.t) as usize,
    {
        (self.b - self.t) as usize
    }
}

/// `n` zero bytes.
pub open spec fn zeros(n: int) -> Seq<u8> {
    Seq::new(if n > 0 { n as nat } else { 0 }, |i: int| 0u8)
}

/// Row `row` of a cell `w` wide and `h` high that holds glyph `g`: blank
/// above the glyph, else the glyph's row followed by blanks.
pub open spec fn cell_row(g: Glyph, data: Seq<u8>, w: int, h: int, row: int) -> Seq<u8> {
    let diff = h - g.height;
    if row < diff {
        zeros(w)
    } else {
        let start = g.offset + (row - diff) * g.width;
        data.subrange(start, start + g.width) + zeros(w - g.width)
    }
}

/// Row `row` of the cells of the glyphs `gs`, side by side.
pub open spec fn cells_row(gs: Seq<Glyph>, data: Seq<u8>, w: int, h: int, row: int) -> Seq<u8>
    decreases gs.len(),
{
    if gs.len() == 0 {
        Seq::empty()
    } else {
        cells_row(gs.drop_last(), data, w, h, row) + cell_row(gs.last(), data, w, h, row)
    }
}

/// `k` blank cell rows `w` wide.
pub open spec fn blank_cells(k: nat, w: int) -> Seq<u8>
    decreases k,
{
    if k == 0 {
        Seq::empty()
    } else {
        blank_cells((k - 1) as nat, w) + zeros(w)
    }
}

/// Row `row` of row `band` of cells: the cells of the glyphs that the band
/// holds, then blank cells up to a full row.
pub open spec fn band_row(gs: Seq<Glyph>, data: Seq<u8>, w: int, h: int, band: int, row: int) -> Seq<u8> {
    let begin = band * COLUMNS;
    let end = begin + COLUMNS;
    let upper = if end < gs.len() { end } else { gs.len() as int };
    cells_row(gs.subrange(begin, upper), data, w, h, row) + blank_cells((end - upper) as nat, w)
}

/// The first `rows` rows of band `band`, one after the other.
pub open spec fn band_rows(gs: Seq<Glyph>, data: Seq<u8>, w: int, h: int, band: int, rows: nat) -> Seq<u8>
    decreases rows,
{
    if rows == 0 {
        Seq::empty()
    } else {
        band_rows(gs, data, w, h, band, (rows - 1) as nat) + band_row(gs, data, w, h, band, rows - 1)
    }
}

/// The first `bands` bands of the image, one after the other.
pub open spec fn image_bands(gs: Seq<Glyph>, data: Seq<u8>, w: int, h: int, bands: nat) -> Seq<u8>
    decreases bands,
{
    if bands == 0 {
        Seq::empty()
    } else {
        image_bands(gs, data, w, h, (bands - 1) as nat) + band_rows(gs, data, w, h, bands - 1, h as nat)
    }
}

/// The width of a cell for glyphs `gs`.
pub open spec fn cell_width(gs: Seq<Glyph>) -> int {
    max_width(gs) + 5int
}

/// The height of a cell for glyphs `gs`.
pub open spec fn cell_height(gs: Seq<Glyph>) -> int {
    max_height(gs) + 10int
}

/// How many rows of cells the glyphs `gs` take.
pub open spec fn band_count(gs: Seq<Glyph>) -> int {
    (gs.len() - 1) / (COLUMNS as int) + 1
}

/// Whether glyphs `gs` can be packed from `data`: there is one, the rows
/// of every glyph lie in the data, and the image's size fits.
pub open spec fn packable(gs: Seq<Glyph>, data: Seq<u8>) -> bool {
    &&& gs.len() >= 1
    &&& forall|i: int|
        0 <= i < gs.len() ==> #[trigger] gs[i].offset + gs[i].height * gs[i].width <= data.len()
    &&& image_fits(gs)
}

/// Whether the image of glyphs `gs` has a width and height that fit a
/// `u32` and a number of bytes that fits a `usize`.
pub open spec fn image_fits(gs: Seq<Glyph>) -> bool {
    &&& cell_width(gs) * COLUMNS <= u32::MAX
    &&& cell_height(gs) * band_count(gs) <= u32::MAX
    &&& cell_width(gs) * COLUMNS * cell_height(gs) * band_count(gs) <= usize::MAX
}

/// Adds `n` zero bytes to `buf`.
fn push_zeros(buf: &mut Vec<u8>, n: usize)
    ensures
        final(buf)@ == old(buf)@ + zeros(n as int),
{
    let ghost b0 = buf@;
    let mut i: usize = 0;
    while i < n
        invariant
            i <= n,
            buf@ == b0 + zeros(i as int),
        decreases n - i,
    {
        buf.push(0);
        proof {
            assert(buf@ =~= b0 + zeros(i + 1));
        }
        i += 1;
    }
}

/// Adds row `row` of the cell of glyph `g` to `buf`.
fn push_cell_row(buf: &mut Vec<u8>, g: Glyph, data: &[u8], w: usize, h: usize, row: usize)
    requires
        g.width <= w,
        g.height <= h,
        row < h,
        g.offset + g.height * g.width <= data@.len(),
    ensures
        final(buf)@ == old(buf)@ + cell_row(g, data@, w as int, h as int, row as int),
{
    let diff = h - g.height;
    if row < diff {
        push_zeros(buf, w);
        return;
    }
    let k = row - diff;
    proof {
        assert(k * g.width + g.width <= g.height * g.width) by (nonlinear_arith)
            requires
                k < g.height,
        ;
        assert(g.offset + k * g.width + g.width <= data.len());
    }
    let start = g.offset + k * g.width;
    let end = start + g.width;
    let ghost b0 = buf@;
    let mut i = start;
    while i < end
        invariant
            start <= i <= end,
            end <= data@.len(),
            buf@ == b0 + data@.subrange(start as int, i as int),
        decreases end - i,
    {
        buf.push(data[i]);
        proof {
            assert(buf@ =~= b0 + data@.subrange(start as int, i + 1));
        }
        i += 1;
    }
    push_zeros(buf, w - g.width);
    proof {
        assert(buf@ =~= b0 + (data@.subrange(start as int, end as int) + zeros(w - g.width)));
    }
}

/// Adds row `row` of band `band` of cells to `buf`.
fn push_band_row(
    buf: &mut Vec<u8>,
    glyphs: &[Glyph],
    data: &[u8],
    w: usize,
    h: usize,
    band: usize,
    row: usize,
)
    requires
        packable(glyphs@, data@),
        w == cell_width(glyphs@),
        h == cell_height(glyphs@),
        band < band_count(glyphs@),
        row < h,
    ensures
        final(buf)@ == old(buf)@ + band_row(glyphs@, data@, w as int, h as int, band as int, row as int),
{
    let ghost gs = glyphs@;
    let count = glyphs.len();
    proof {
        assert(band * COLUMNS <= (count - 1) as int) by (nonlinear_arith)
            requires
                band < (count - 1) / (COLUMNS as int) + 1,
                count >= 1,
        ;
        lemma_max_bounds(gs);
        lemma_sizes(gs);
    }
    let begin = band * COLUMNS;
    let end = begin + COLUMNS;
    let upper = if end < count {
        end
    } else {
        count
    };
    let ghost b0 = buf@;
    let mut k = begin;
    proof {
        assert(gs.subrange(begin as int, begin as int) =~= Seq::<Glyph>::empty());
    }
    while k < upper
        invariant
            begin <= k <= upper,
            upper <= count,
            count == gs.len(),
            gs == glyphs@,
            packable(gs, data@),
            w == cell_width(gs),
            h == cell_height(gs),
            row < h,
            forall|i: int| 0 <= i < gs.len() ==> #[trigger] gs[i].width <= max_width(gs) && gs[i].height
                <= max_height(gs),
            buf@ == b0 + cells_row(gs.subrange(begin as int, k as int), data@, w as int, h as int, row as int),
        decreases upper - k,
    {
        let g = glyphs[k];
        proof {
            assert(gs[k as int].offset + gs[k as int].height * gs[k as int].width <= data@.len());
            assert(gs.subrange(begin as int, k + 1).drop_last() =~= gs.subrange(begin as int, k as int));
            assert(gs.subrange(begin as int, k + 1).last() == gs[k as int]);
        }
        push_cell_row(buf, g, data, w, h, row);
        proof {
            assert(buf@ =~= b0 + cells_row(gs.subrange(begin as int, k + 1), data@, w as int, h as int, row as int));
        }
        k += 1;
    }
    let ghost mid = buf@;
    let mut j = upper;
    while j < end
        invariant
            upper <= j <= end,
            buf@ == mid + blank_cells((j - upper) as nat, w as int),
        decreases end - j,
    {
        push_zeros(buf, w);
        proof {
            assert(buf@ =~= mid + blank_cells((j + 1 - upper) as nat, w as int));
        }
        j += 1;
    }
    proof {
        assert(buf@ =~= b0 + band_row(gs, data@, w as int, h as int, band as int, row as int));
    }
}

/// The sizes that packing computes fit their types.
proof fn lemma_sizes(gs: Seq<Glyph>)
    requires
        gs.len() >= 1,
        image_fits(gs),
    ensures
        cell_width(gs) <= u32::MAX,
        cell_height(gs) <= u32::MAX,
        1 <= band_count(gs) <= u32::MAX,
        gs.len() * cell_width(gs) * cell_height(gs) <= usize::MAX,
        gs.len() + COLUMNS <= usize::MAX,
        (band_count(gs) - 1) * COLUMNS <= gs.len() - 1,
{
    let n = gs.len() as int;
    let w = cell_width(gs);
    let h = cell_height(gs);
    let b = band_count(gs);
    let c = COLUMNS as int;
    assert(w >= 5 && h >= 10);
    assert(b >= 1) by (nonlinear_arith)
        requires
            b == (n - 1) / c + 1,
            n >= 1,
            c == 100,
    ;
    assert((b - 1) * c <= n - 1 && n <= b * c) by (nonlinear_arith)
        requires
            b == (n - 1) / c + 1,
            n >= 1,
            c == 100,
    ;
    assert(h <= h * b) by (nonlinear_arith)
        requires
            b >= 1,
            h >= 0,
    ;
    assert(b <= h * b) by (nonlinear_arith)
        requires
            h >= 1,
            b >= 0,
    ;
    assert(w <= w * c) by (nonlinear_arith)
        requires
            c == 100,
            w >= 0,
    ;
    assert(n * w * h <= w * c * h * b) by (nonlinear_arith)
        requires
            n <= b * c,
            w >= 0,
            h >= 0,
            n >= 0,
    ;
    assert(n + c <= w * c * h * b) by (nonlinear_arith)
        requires
            n <= b * c,
            w >= 5,
            h >= 10,
            b >= 1,
            c == 100,
    ;
}

/// The largest width and height bound every glyph's.
proof fn lemma_max_bounds(gs: Seq<Glyph>)
    ensures
        forall|i: int| 0 <= i < gs.len() ==> #[trigger] gs[i].width <= max_width(gs) && gs[i].height
            <= max_height(gs),
    decreases gs.len(),
{
    if gs.len() > 0 {
        lemma_max_bounds(gs.drop_last());
        assert forall|i: int| 0 <= i < gs.len() implies #[trigger] gs[i].width <= max_width(gs)
            && gs[i].height <= max_height(gs) by {
            if i < gs.len() - 1 {
                assert(gs.drop_last()[i] == gs[i]);
            }
        }
    }
}

/// Packs glyphs `glyphs`, whose rows of bytes lie in `data`, into one
/// grey-scale image, a row of bytes after the other, and gives its width
/// and height.
pub fn pack_glyphs(glyphs: &[Glyph], data: &[u8]) -> (r: (Vec<u8>, u32, u32))
    requires
        packable(glyphs@, data@),
    ensures
        r.0@ == image_bands(
            glyphs@,
            data@,
            cell_width(glyphs@),
            cell_height(glyphs@),
            band_count(glyphs@) as nat,
        ),
        r.1 == cell_width(glyphs@) * COLUMNS,
        r.2 == cell_height(glyphs@) * band_count(glyphs@),
{
    let ghost gs = glyphs@;
    let mut width: usize = 0;
    let mut height: usize = 0;
    let mut i: usize = 0;
    proof {
        assert(gs.take(0) =~= Seq::<Glyph>::empty());
    }
    while i < glyphs.len()
        invariant
            i <= gs.len(),
            gs == glyphs@,
            width == max_width(gs.take(i as int)),
            height == max_height(gs.take(i as int)),
        decreases gs.len() - i,
    {
        proof {
            assert(gs.take(i + 1).drop_last() =~= gs.take(i as int));
            assert(gs.take(i + 1).last() == gs[i as int]);
        }
        if width < glyphs[i].width {
            width = glyphs[i].width;
        }
        if height < glyphs[i].height {
            height = glyphs[i].height;
        }
        i += 1;
    }
    proof {
        assert(gs.take(gs.len() as int) =~= gs);
        lemma_sizes(gs);
    }
    let w = width + 5;
    let h = height + 10;
    let count = glyphs.len();
    let rows = (count - 1) / COLUMNS + 1;
    proof {
        assert(w == cell_width(gs) && h == cell_height(gs) && count == gs.len());
        assert(count * w <= count * w * h) by (nonlinear_arith)
            requires
                h >= 1,
        ;
    }
    let mut buffer: Vec<u8> = Vec::with_capacity(count * w * h);
    let mut band: usize = 0;
    while band < rows
        invariant
            band <= rows,
            gs == glyphs@,
            packable(gs, data@),
            w == cell_width(gs),
            h == cell_height(gs),
            rows == band_count(gs),
            buffer@ == image_bands(gs, data@, w as int, h as int, band as nat),
        decreases rows - band,
    {
        let ghost b0 = buffer@;
        let mut row: usize = 0;
        while row < h
            invariant
                row <= h,
                band < rows,
                gs == glyphs@,
                packable(gs, data@),
                w == cell_width(gs),
                h == cell_height(gs),
                rows == band_count(gs),
                buffer@ == b0 + band_rows(gs, data@, w as int, h as int, band as int, row as nat),
            decreases h - row,
        {
            push_band_row(&mut buffer, glyphs, data, w, h, band, row);
            proof {
                assert(buffer@ =~= b0 + band_rows(gs, data@, w as int, h as int, band as int, (row + 1) as nat));
            }
            row += 1;
        }
        proof {
            assert(buffer@ =~= image_bands(gs, data@, w as int, h as int, (band + 1) as nat));
        }
        band += 1;
    }
    let image_width = (w as u32) * (COLUMNS as u32);
    let image_height = (h as u32) * (rows as u32);
    (buffer, image_width, image_height)
}

} // verus!
