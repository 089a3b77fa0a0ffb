//! Laying text out on a grid of cells: each character takes a width, lines
//! break at line feeds and wrap at a given width, and the layout stops once
//! it reaches a given number of rows.
use crate::geom::Point2;
use vstd::prelude::*;

verus! {

/// Where the layout stands: whether it has filled its rows, the cell the
/// next character goes in, how many characters it has gone through and how
/// many line feeds it has seen.
#[derive(Clone, Copy, Debug, PartialEq, Eq, Structural)]
pub struct FlowState {
    pub is_full: bool,
    pub pos: Point2,
    pub index: usize,
    pub newline_count: usize,
}

impl Default for FlowState {
    fn default() -> (r: Self)
        ensures
            r == (FlowState { is_full: false, pos: Point2 { x: 0, y: 0 }, index: 0, newline_count: 0 }),
    {
        FlowState { is_full: false, pos: Point2 { x: 0, y: 0 }, index: 0, newline_count: 0 }
    }
}

/// How a character is laid down: how many cells it takes, whether the line
/// breaks after it, and the character.
#[derive(Clone, Copy, Debug, PartialEq, Eq, Structural)]
pub struct FlowParams {
    pub write_len: u32,
    pub will_wrap: bool,
    pub c: char,
}

/// Whether `c` is a control character, of the general category Cc.
pub open spec fn spec_is_control(c: char) -> bool {
    (c as u32) <= 0x1f || (0x7f <= (c as u32) && (c as u32) <= 0x9f)
}

/// Whether `c` is a control character, of the general category Cc.
pub fn is_control(c: char) -> (r: bool)
    ensures
        r == spec_is_control(c),
{
    let n = c as u32;
    n <= 0x1f || (0x7f <= n && n <= 0x9f)
}

/// A layout of a text, handing out its characters one at a time with where
/// each goes.
pub struct FlowConfig {
    /// The text.
    pub text: Vec<char>,
    /// How many characters of the text have been read.
    pub at: usize,
    pub state: FlowState,
    pub params: FlowParams,
    /// Whether the last character handed out is yet to be laid down.
    pub needs_final: bool,
    pub wrap_width: Option<u32>,
    pub vertical_bound: Option<u32>,
}

/// A layout as a value: the text as a sequence, with the rest of the
/// layout's fields.
pub struct FlowModel {
    pub text: Seq<char>,
    pub at: usize,
    pub state: FlowState,
    pub params: FlowParams,
    pub needs_final: bool,
    pub wrap_width: Option<u32>,
    pub vertical_bound: Option<u32>,
}

/// The state once a character with `params` is laid down, when one is
/// pending.
pub open spec fn completed_state(
    st: FlowState,
    params: FlowParams,
    needs_final: bool,
    bound: Option<u32>,
) -> FlowState {
    if !needs_final {
        st
    } else {
        let y = if params.will_wrap {
            st.pos.y + 1
        } else {
            st.pos.y as int
        };
        let x = if params.will_wrap {
            0
        } else {
            st.pos.x + params.write_len
        };
        FlowState {
            is_full: st.is_full || (bound matches Some(b) && y >= b),
            pos: Point2 { x: x as u32, y: y as u32 },
            index: (st.index + 1) as usize,
            newline_count: st.newline_count,
        }
    }
}

impl FlowModel {
    /// The counts stay within what the text allows, and the layout never
    /// reaches the wrap width.
    pub open spec fn wf(self) -> bool {
        &&& self.at <= self.text.len()
        &&& 2 * self.text.len() + 2 < u32::MAX
        &&& self.state.index <= self.at
        &&& self.state.newline_count <= self.at
        &&& self.state.pos.x <= 2 * self.state.index
        &&& self.state.pos.y <= self.state.index
        &&& self.params.write_len <= 2
        &&& self.needs_final ==> self.at > 0 && self.state.index < self.at
        &&& self.wrap_width matches Some(w) ==> self.state.pos.x == 0 || self.state.pos.x < w
        &&& !self.needs_final ==> (self.wrap_width matches Some(w) ==> (w > 0 ==> self.state.pos.x < w))
        &&& self.needs_final ==> (self.wrap_width matches Some(w) ==> self.params.will_wrap
            || self.state.pos.x + self.params.write_len < w)
        &&& self.vertical_bound matches Some(b) ==> (b > 0 ==> self.state.is_full || self.state.pos.y < b)
    }

    /// This layout with the pending character laid down.
    pub open spec fn completed(self) -> FlowModel {
        FlowModel {
            state: completed_state(self.state, self.params, self.needs_final, self.vertical_bound),
            needs_final: false,
            ..self
        }
    }

    /// Reading on from a layout with nothing pending: the layout after the
    /// next character that takes a place, and that character's state and
    /// params; control characters other than line feeds and tabs are counted
    /// and skipped, and a full layout reads one more character and stops.
    pub open spec fn scan(self) -> (FlowModel, Option<(FlowState, FlowParams)>)
        decreases self.text.len() - self.at,
    {
        if self.at >= self.text.len() || self.at >= usize::MAX {
            (self, None)
        } else {
            let c = self.text[self.at as int];
            let read = FlowModel { at: (self.at + 1) as usize, ..self };
            if self.state.is_full {
                (read, None)
            } else if c != '\n' && c != '\t' && spec_is_control(c) {
                FlowModel {
                    state: FlowState { index: (self.state.index + 1) as usize, ..self.state },
                    params: FlowParams { will_wrap: false, ..self.params },
                    ..read
                }.scan()
            } else {
                let len: u32 = if c == '\n' {
                    0
                } else if c == '\t' {
                    2
                } else {
                    1
                };
                let nl = if c == '\n' {
                    self.state.newline_count + 1
                } else {
                    self.state.newline_count as int
                };
                let wraps = c == '\n' || (self.wrap_width matches Some(w) && self.state.pos.x + len
                    >= w);
                let st = FlowState { newline_count: nl as usize, ..self.state };
                let params = FlowParams { write_len: len, will_wrap: wraps, c };
                (
                    FlowModel { state: st, params, needs_final: true, ..read },
                    Some((st, params)),
                )
            }
        }
    }

    /// Everything this layout hands out from here on, and the state it ends
    /// in.
    pub open spec fn run(self) -> (Seq<(FlowState, FlowParams)>, FlowState)
        decreases self.text.len() - self.at,
    {
        let (n, item) = self.completed().scan();
        match item {
            Some(x) => if n.at > self.at && n.text == self.text && n.at <= n.text.len() {
                let (rest, fin) = n.run();
                (seq![x] + rest, fin)
            } else {
                (seq![x], n.completed().state)
            },
            None => (Seq::empty(), n.completed().state),
        }
    }
}

impl FlowConfig {
    /// This layout as a value.
    pub open spec fn model(&self) -> FlowModel {
        FlowModel {
            text: self.text@,
            at: self.at,
            state: self.state,
            params: self.params,
            needs_final: self.needs_final,
            wrap_width: self.wrap_width,
            vertical_bound: self.vertical_bound,
        }
    }

    /// The counts stay within what the text allows, and the layout never
    /// reaches the wrap width.
    pub open spec fn wf(&self) -> bool {
        self.model().wf()
    }

    /// A layout of `text` that wraps at `wrap_width` and fills up at
    /// `vertical_bound` rows, when these are given.
    pub fn new(text: Vec<char>, wrap_width: Option<u32>, vertical_bound: Option<u32>) -> (r: Self)
        requires
            2 * text@.len() + 2 < u32::MAX,
        ensures
            r.wf(),
            r.text@ == text@,
            r.at == 0,
            r.state == (FlowState {
                is_full: false,
                pos: Point2 { x: 0, y: 0 },
                index: 0,
                newline_count: 0,
            }),
            !r.needs_final,
            r.params == (FlowParams { write_len: 0, will_wrap: false, c: ' ' }),
            r.wrap_width == wrap_width,
            r.vertical_bound == vertical_bound,
    {
        FlowConfig {
            text,
            at: 0,
            state: FlowState::default(),
            params: FlowParams { write_len: 0, will_wrap: false, c: ' ' },
            needs_final: false,
            wrap_width,
            vertical_bound,
        }
    }

    /// Lays down the character handed out last, if that is still pending.
    pub fn complete_params(&mut self)
        requires
            old(self).wf(),
        ensures
            final(self).wf(),
            final(self).model() == old(self).model().completed(),
    {
        if !self.needs_final {
            return;
        }
        self.needs_final = false;
        self.state.pos.x = self.state.pos.x + self.params.write_len;
        if self.params.will_wrap {
            self.state.pos.x = 0;
            self.state.pos.y = self.state.pos.y + 1;
        }
        match self.vertical_bound {
            Some(bound) => {
                if self.state.pos.y >= bound {
                    self.state.is_full = true;
                }
            },
            None => {},
        }
        self.state.index = self.state.index + 1;
    }

    /// The state once everything handed out is laid down.
    pub fn finalize(self) -> (r: FlowState)
        requires
            self.wf(),
        ensures
            r == self.model().completed().state,
    {
        let mut s = self;
        s.complete_params();
        s.state
    }

    /// Lays down the character handed out last, then hands out the next one
    /// that takes a place, with the state it goes in.
    pub fn next(&mut self) -> (r: Option<(FlowState, FlowParams)>)
        requires
            old(self).wf(),
        ensures
            final(self).wf(),
            (final(self).model(), r) == old(self).model().completed().scan(),
            r matches Some((st, _)) ==> !st.is_full,
            r matches Some((st, _)) ==> (final(self).wrap_width matches Some(w) ==> st.pos.x == 0
                || st.pos.x < w),
            final(self).at > old(self).at || final(self).at == final(self).text@.len(),
            r is Some ==> final(self).at > old(self).at,
            final(self).text@ == old(self).text@,
            final(self).wrap_width == old(self).wrap_width,
            final(self).vertical_bound == old(self).vertical_bound,
    {
        proof {
            lemma_scan_keeps(old(self).model().completed());
        }
        self.complete_params();
        while self.at < self.text.len()
            invariant
                self.wf(),
                !self.needs_final,
                old(self).model().completed().scan() == self.model().scan(),
                self.at >= old(self).at,
                self.text@ == old(self).text@,
                self.wrap_width == old(self).wrap_width,
                self.vertical_bound == old(self).vertical_bound,
            decreases self.text@.len() - self.at,
        {
            let c = self.text[self.at];
            self.at = self.at + 1;
            if self.state.is_full {
                return None;
            }
            self.params.will_wrap = false;
            let len: u32 = if c == '\n' {
                self.params.will_wrap = true;
                self.state.newline_count = self.state.newline_count + 1;
                0
            } else if c == '\t' {
                2
            } else if is_control(c) {
                self.state.index = self.state.index + 1;
                continue;
            } else {
                1
            };
            self.params.write_len = len;
            self.params.c = c;
            match self.wrap_width {
                Some(width) => {
                    if self.state.pos.x + self.params.write_len >= width {
                        self.params.will_wrap = true;
                    }
                },
                None => {},
            }
            self.needs_final = true;
            return Some((self.state, self.params));
        }
        None
    }
}

/// A fresh layout of `text`.
pub open spec fn initial(text: Seq<char>, wrap_width: Option<u32>, vertical_bound: Option<u32>) -> FlowModel {
    FlowModel {
        text,
        at: 0,
        state: FlowState { is_full: false, pos: Point2 { x: 0, y: 0 }, index: 0, newline_count: 0 },
        params: FlowParams { write_len: 0, will_wrap: false, c: ' ' },
        needs_final: false,
        wrap_width,
        vertical_bound,
    }
}

/// Everything a layout of `text` hands out, in order, and the state it ends
/// in.
pub fn flow_items(text: &Vec<char>, wrap_width: Option<u32>, vertical_bound: Option<u32>) -> (r: (
    Vec<(FlowState, FlowParams)>,
    FlowState,
))
    requires
        2 * text@.len() + 2 < u32::MAX,
    ensures
        (r.0@, r.1) == initial(text@, wrap_width, vertical_bound).run(),
{
    let mut copy: Vec<char> = Vec::new();
    let mut i: usize = 0;
    while i < text.len()
        invariant
            i <= text@.len(),
            copy@ == text@.take(i as int),
        decreases text@.len() - i,
    {
        copy.push(text[i]);
        i += 1;
    }
    proof {
        assert(copy@ =~= text@);
    }
    let mut config = FlowConfig::new(copy, wrap_width, vertical_bound);
    let mut items: Vec<(FlowState, FlowParams)> = Vec::new();
    let ghost m0 = config.model();
    proof {
        assert(m0 == initial(text@, wrap_width, vertical_bound));
        assert(items@ + m0.run().0 =~= m0.run().0);
    }
    loop
        invariant
            config.wf(),
            config.text@ == text@,
            m0 == initial(text@, wrap_width, vertical_bound),
            m0.run() == (items@ + config.model().run().0, config.model().run().1),
        decreases config.text@.len() - config.at,
    {
        let ghost before = config.model();
        proof {
            lemma_scan_keeps(before.completed());
        }
        match config.next() {
            Some(item) => {
                proof {
                    assert(before.run() == (seq![item] + config.model().run().0, config.model().run().1));
                    assert(items@.push(item) + config.model().run().0 =~= items@ + (seq![item]
                        + config.model().run().0));
                }
                items.push(item);
            },
            None => {
                proof {
                    assert(before.run() == (Seq::<(FlowState, FlowParams)>::empty(), config.model().completed().state));
                    assert(items@ + Seq::<(FlowState, FlowParams)>::empty() =~= items@);
                }
                let fin = config.finalize();
                return (items, fin);
            },
        }
    }
}

/// What a layout hands out lies on the grid and is counted within the text:
/// every cell is left of the wrap width and above the bound, and the state
/// it ends in is left of the wrap width, above the bound unless full, and
/// has counted no more than the text.
pub proof fn lemma_run_bounds(m: FlowModel)
    requires
        m.wf(),
    ensures
        ({
            let (items, fin) = m.run();
            &&& items.len() <= m.text.len() - m.at
            &&& forall|k: int|
                #![trigger items[k]]
                0 <= k < items.len() ==> {
                    &&& !items[k].0.is_full
                    &&& (m.wrap_width matches Some(w) ==> (w > 0 ==> items[k].0.pos.x < w))
                    &&& (m.vertical_bound matches Some(b) ==> (b > 0 ==> items[k].0.pos.y < b))
                    &&& items[k].0.index < m.text.len()
                    &&& items[k].0.newline_count <= m.text.len()
                }
            &&& (m.wrap_width matches Some(w) ==> (w > 0 ==> fin.pos.x < w))
            &&& (m.vertical_bound matches Some(b) ==> (b > 0 ==> fin.is_full || fin.pos.y < b))
            &&& fin.index <= m.text.len()
        }),
    decreases m.text.len() - m.at,
{
    let c = m.completed();
    lemma_scan_keeps(c);
    lemma_scan_wf(c);
    let (n, item) = c.scan();
    match item {
        Some(x) => {
            if n.at > m.at && n.text == m.text && n.at <= n.text.len() {
                lemma_run_bounds(n);
            }
        },
        None => {},
    }
}

/// Reading on keeps a layout well formed, and what it hands out is where the
/// layout stands.
pub proof fn lemma_scan_wf(m: FlowModel)
    requires
        m.wf(),
        !m.needs_final,
    ensures
        m.scan().0.wf(),
        m.scan().1 matches Some((st, _)) ==> st == m.scan().0.state && !st.is_full && st.index
            < m.scan().0.at,
    decreases m.text.len() - m.at,
{
    if m.at < m.text.len() && m.at < usize::MAX {
        let c = m.text[m.at as int];
        if !m.state.is_full && c != '\n' && c != '\t' && spec_is_control(c) {
            let read = FlowModel { at: (m.at + 1) as usize, ..m };
            lemma_scan_wf(
                FlowModel {
                    state: FlowState { index: (m.state.index + 1) as usize, ..m.state },
                    params: FlowParams { will_wrap: false, ..m.params },
                    ..read
                },
            );
        }
    }
}

/// Whether cell `a` comes before cell `b`, row by row.
pub open spec fn before(a: Point2, b: Point2) -> bool {
    a.y < b.y || (a.y == b.y && a.x < b.x)
}

/// Reading on hands out a character in the cell where the layout stands,
/// and that character takes at least one cell or ends its row.
proof fn lemma_scan_pos(m: FlowModel)
    requires
        !m.needs_final,
    ensures
        m.scan().1 matches Some((st, p)) ==> st.pos == m.state.pos && (p.write_len >= 1
            || p.will_wrap) && (p.c != '\n' ==> p.write_len >= 1),
    decreases m.text.len() - m.at,
{
    if m.at < m.text.len() && m.at < usize::MAX {
        let c = m.text[m.at as int];
        if !m.state.is_full && c != '\n' && c != '\t' && spec_is_control(c) {
            let read = FlowModel { at: (m.at + 1) as usize, ..m };
            lemma_scan_pos(
                FlowModel {
                    state: FlowState { index: (m.state.index + 1) as usize, ..m.state },
                    params: FlowParams { will_wrap: false, ..m.params },
                    ..read
                },
            );
        }
    }
}

/// The cells a layout hands out come one after the other, row by row, from
/// the cell where it stands once its pending character is laid down.
pub proof fn lemma_run_order(m: FlowModel)
    requires
        m.wf(),
    ensures
        ({
            let (items, fin) = m.run();
            &&& forall|i: int, j: int|
                0 <= i < j < items.len() ==> before(#[trigger] items[i].0.pos, #[trigger] items[j].0.pos)
            &&& forall|i: int|
                0 <= i < items.len() ==> #[trigger] items[i].0.pos == m.completed().state.pos
                    || before(m.completed().state.pos, items[i].0.pos)
            &&& forall|i: int|
                0 <= i < items.len() ==> (#[trigger] items[i].1.c != '\n' ==> items[i].1.write_len >= 1)
            &&& forall|i: int| 0 <= i < items.len() ==> before(#[trigger] items[i].0.pos, fin.pos)
            &&& fin.pos == m.completed().state.pos || before(m.completed().state.pos, fin.pos)
        }),
    decreases m.text.len() - m.at,
{
    let c = m.completed();
    lemma_scan_keeps(c);
    lemma_scan_wf(c);
    lemma_scan_pos(c);
    let (n, item) = c.scan();
    match item {
        Some(x) => {
            if n.at > m.at && n.text == m.text && n.at <= n.text.len() {
                lemma_run_order(n);
                let (rest, fin) = n.run();
                let items = seq![x] + rest;
                assert(before(x.0.pos, n.completed().state.pos));
                assert forall|i: int, j: int|
                    0 <= i < j < items.len() implies before(#[trigger] items[i].0.pos, #[trigger] items[j].0.pos) by {
                    if i == 0 {
                        assert(items[j] == rest[j - 1]);
                    } else {
                        assert(items[i] == rest[i - 1]);
                        assert(items[j] == rest[j - 1]);
                    }
                }
                assert forall|i: int| 0 <= i < items.len() implies #[trigger] items[i].0.pos
                    == c.state.pos || before(c.state.pos, items[i].0.pos) by {
                    if i > 0 {
                        assert(items[i] == rest[i - 1]);
                    }
                }
                assert forall|i: int| 0 <= i < items.len() && #[trigger] items[i].1.c != '\n' implies items[i].1.write_len
                    >= 1 by {
                    if i > 0 {
                        assert(items[i] == rest[i - 1]);
                    }
                }
                assert forall|i: int| 0 <= i < items.len() implies before(#[trigger] items[i].0.pos, fin.pos) by {
                    if i > 0 {
                        assert(items[i] == rest[i - 1]);
                    }
                }
            } else {
                assert(before(x.0.pos, n.completed().state.pos));
            }
        },
        None => {
            lemma_scan_none_stays(c);
        },
    }
}

/// Reading on that hands out nothing leaves the layout where it stands.
proof fn lemma_scan_none_stays(m: FlowModel)
    requires
        !m.needs_final,
    ensures
        m.scan().1 is None ==> m.scan().0.state.pos == m.state.pos && !m.scan().0.needs_final,
    decreases m.text.len() - m.at,
{
    if m.at < m.text.len() && m.at < usize::MAX {
        let c = m.text[m.at as int];
        if !m.state.is_full && c != '\n' && c != '\t' && spec_is_control(c) {
            let read = FlowModel { at: (m.at + 1) as usize, ..m };
            lemma_scan_none_stays(
                FlowModel {
                    state: FlowState { index: (m.state.index + 1) as usize, ..m.state },
                    params: FlowParams { will_wrap: false, ..m.params },
                    ..read
                },
            );
        }
    }
}

/// What reading on keeps of a layout.
pub proof fn lemma_scan_keeps(m: FlowModel)
    requires
        !m.needs_final,
    ensures
        ({
            let (next, item) = m.scan();
            &&& next.text == m.text
            &&& next.wrap_width == m.wrap_width
            &&& next.vertical_bound == m.vertical_bound
            &&& next.at >= m.at
            &&& item matches Some((st, p)) ==> st == next.state && p == next.params && next.needs_final
                && next.at > m.at
            &&& item is None ==> !next.needs_final
        }),
    decreases m.text.len() - m.at,
{
    if m.at < m.text.len() && m.at < usize::MAX {
        let c = m.text[m.at as int];
        if !m.state.is_full && c != '\n' && c != '\t' && spec_is_control(c) {
            let read = FlowModel { at: (m.at + 1) as usize, ..m };
            lemma_scan_keeps(
                FlowModel {
                    state: FlowState { index: (m.state.index + 1) as usize, ..m.state },
                    params: FlowParams { will_wrap: false, ..m.params },
                    ..read
                },
            );
        }
    }
}

} // verus!
