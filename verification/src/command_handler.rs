//! Carrying out the editor's commands: the view's own commands change the
//! view, and the rest become effects for the window to bring about.
use crate::commands::{TedCommand, ViewCommand};
use crate::geom::{new_rect, Rect};
use crate::view::draw::{adds_drawing, grid_types, line_numbers, number_cells, paint, LINES_WIDTH};
use crate::view::{flow_of, BlockType, EditorView, ViewModel};
use vstd::prelude::*;

verus! {

/// Something the window has to do.
#[derive(Debug)]
pub enum Effect {
    RequestRedraw,
    Exit,
    /// Draw a grid of characters with the given kinds of cells.
    Draw { is_lines: bool, block_types: Vec<BlockType>, text: Vec<char>, dims: Rect },
}

/// The editor: a view of a text.
pub struct CommandHandler {
    pub view: EditorView,
}

impl CommandHandler {
    /// An editor showing `text` on a grid of 35 by 20 cells.
    pub fn new(text: &str) -> (r: Self)
        requires
            2 * text@.len() + 2 < u32::MAX,
        ensures
            r.view.wf(),
            r.view.dims == (Rect { x: 35, y: 20 }),
            r.view.model().cursor_pos.x == 0 && r.view.model().cursor_pos.y == 0,
    {
        let view = EditorView::new(new_rect(35, 20), text);
        CommandHandler { view }
    }

    /// Carries out `command` and the commands it leads to, in order, and
    /// returns what the window has to do, in order: a view command changes
    /// the view, drawing draws the view and its line numbers, and every
    /// other view command but moving the cursor to an index asks for a
    /// redraw.
    pub fn run(&mut self, command: TedCommand) -> (r: Vec<Effect>)
        requires
            old(self).view.wf(),
            command matches TedCommand::ForView { command: c } ==> old(self).view.command_ok(&c),
        ensures
            final(self).view.wf(),
            final(self).view.block_types@ == old(self).view.block_types@,
            produces(old(self).view.model(), command, r@),
            match command {
                TedCommand::ForView { command: c } => final(self).view.runs(old(self).view, c),
                _ => final(self).view.model() == old(self).view.model(),
            },
    {
        let ghost first = command;
        let ghost view0 = self.view;
        let ghost mut target: Seq<Effect> = Seq::empty();
        let mut effects: Vec<Effect> = Vec::new();
        let mut commands: Vec<TedCommand> = Vec::new();
        let mut buffer: Vec<TedCommand> = Vec::new();
        commands.push(command);
        let ghost mut started = false;
        loop
            invariant
                self.view.wf(),
                self.view.block_types@ == view0.block_types@,
                buffer@.len() == 0,
                !started ==> commands@ == seq![first] && effects@.len() == 0 && self.view == view0,
                !started ==> (first matches TedCommand::ForView { command: c } ==> view0.command_ok(
                    &c,
                )),
                started ==> forall|i: int| 0 <= i < commands@.len() ==> is_leaf(#[trigger] commands@[i]),
                started ==> effects@ + pending(commands@) == target,
                started ==> produces(view0.model(), first, target),
                started ==> match first {
                    TedCommand::ForView { command: c } => self.view.runs(view0, c),
                    _ => self.view.model() == view0.model(),
                },
            ensures
                self.view.wf(),
                self.view.block_types@ == view0.block_types@,
                effects@ == target,
                produces(view0.model(), first, target),
                match first {
                    TedCommand::ForView { command: c } => self.view.runs(view0, c),
                    _ => self.view.model() == view0.model(),
                },
            decreases (if started {
                0int
            } else {
                1int
            }),
                commands@.len(),
        {
            let c = match commands.pop() {
                Some(c) => c,
                None => {
                    proof {
                        assert(effects@ + pending(commands@) =~= effects@);
                    }
                    break;
                },
            };
            let ghost effects0 = effects@;
            let ghost rest = commands@;
            proof {
                assert(buffer@ =~= Seq::<TedCommand>::empty());
                if started {
                    assert(is_leaf(c)) by {
                        assert(rest.push(c)[rest.len() as int] == c);
                    }
                    assert(rest.push(c).drop_last() =~= rest);
                }
            }
            match c {
                TedCommand::RequestRedraw => effects.push(Effect::RequestRedraw),
                TedCommand::Exit => effects.push(Effect::Exit),
                TedCommand::DrawView { is_lines, block_types, text, dims } => {
                    effects.push(Effect::Draw { is_lines, block_types, text, dims });
                },
                TedCommand::ForView { command } => {
                    self.view.run(command, &mut buffer);
                },
            }
            let ghost b0 = buffer@;
            proof {
                lemma_outputs_are_leaves(c, b0, view0.model());
                assert(commands@.take(rest.len() as int) =~= rest);
            }
            while buffer.len() > 0
                invariant
                    forall|i: int| 0 <= i < buffer@.len() ==> is_leaf(#[trigger] buffer@[i]),
                    commands@.len() >= rest.len(),
                    commands@.len() + buffer@.len() == rest.len() + b0.len(),
                    commands@.take(rest.len() as int) == rest,
                    forall|i: int| rest.len() <= i < commands@.len() ==> is_leaf(#[trigger] commands@[i]),
                    buffer@.map_values(|x: TedCommand| effect_of(x)) + pending(commands@)
                        == b0.map_values(|x: TedCommand| effect_of(x)) + pending(rest),
                decreases buffer@.len(),
            {
                let ghost before = buffer@;
                let ghost cs = commands@;
                match buffer.pop() {
                    Some(x) => {
                        commands.push(x);
                        proof {
                            assert(before.drop_last().push(x) =~= before);
                            assert(before[before.len() - 1] == x);
                            assert(before.map_values(|y: TedCommand| effect_of(y)) =~= buffer@.map_values(
                                |y: TedCommand| effect_of(y),
                            ).push(effect_of(x)));
                            assert(commands@.drop_last() =~= cs);
                            assert(pending(commands@) == seq![effect_of(x)] + pending(cs));
                            assert(buffer@.map_values(|y: TedCommand| effect_of(y)) + pending(commands@)
                                =~= before.map_values(|y: TedCommand| effect_of(y)) + pending(cs));
                            assert(commands@.take(rest.len() as int) =~= cs.take(rest.len() as int));
                            assert forall|i: int| 0 <= i < buffer@.len() implies is_leaf(#[trigger] buffer@[i]) by {
                                assert(buffer@[i] == before[i]);
                            }
                        }
                    },
                    None => {},
                }
            }
            proof {
                assert(buffer@.map_values(|x: TedCommand| effect_of(x)) =~= Seq::<Effect>::empty());
                assert(forall|i: int| 0 <= i < commands@.len() ==> is_leaf(#[trigger] commands@[i])) by {
                    assert forall|i: int| 0 <= i < commands@.len() implies is_leaf(#[trigger] commands@[i]) by {
                        if i < rest.len() {
                            assert(commands@.take(rest.len() as int)[i] == commands@[i]);
                        }
                    }
                }
                if started {
                    assert(effects@ == effects0.push(effect_of(c)));
                    assert(pending(rest.push(c)) == seq![effect_of(c)] + pending(rest));
                    assert(b0.map_values(|x: TedCommand| effect_of(x)) =~= Seq::<Effect>::empty());
                    assert(effects@ + pending(commands@) =~= effects0 + pending(rest.push(c)));
                } else {
                    assert(pending(rest) =~= Seq::<Effect>::empty());
                    if c is ForView {
                        assert(effects@ =~= Seq::<Effect>::empty());
                        target = b0.map_values(|x: TedCommand| effect_of(x));
                        lemma_produces_view(view0, c, b0);
                        assert(effects@ + pending(commands@) =~= target);
                    } else {
                        target = seq![effect_of(c)];
                        assert(b0.map_values(|x: TedCommand| effect_of(x)) =~= Seq::<Effect>::empty());
                        assert(effects@ + pending(commands@) =~= target);
                    }
                }
                started = true;
            }
        }
        effects
    }
}

/// Whether a command is carried out by the window alone.
pub open spec fn is_leaf(c: TedCommand) -> bool {
    !(c is ForView)
}

/// The effect a command for the window comes to.
pub open spec fn effect_of(c: TedCommand) -> Effect {
    match c {
        TedCommand::RequestRedraw => Effect::RequestRedraw,
        TedCommand::Exit => Effect::Exit,
        TedCommand::DrawView { is_lines, block_types, text, dims } => Effect::Draw {
            is_lines,
            block_types,
            text,
            dims,
        },
        TedCommand::ForView { .. } => Effect::RequestRedraw,
    }
}

/// The effects of the commands waiting on a stack, in the order they are
/// taken off it.
pub open spec fn pending(cs: Seq<TedCommand>) -> Seq<Effect>
    decreases cs.len(),
{
    if cs.len() == 0 {
        Seq::empty()
    } else {
        seq![effect_of(cs.last())] + pending(cs.drop_last())
    }
}

/// Whether `e` is the effect of drawing a grid of size `dims` with these
/// kinds of cells and characters.
pub open spec fn shows(
    e: Effect,
    is_lines: bool,
    block_types: Seq<BlockType>,
    text: Seq<char>,
    dims: Rect,
) -> bool {
    e matches Effect::Draw { is_lines: l, block_types: b, text: t, dims: d } && l == is_lines
        && b@ == block_types && t@ == text && d == dims
}

/// Whether `effects` are what `command` comes to, in order, for a view
/// `v`: drawing draws the view's grid and then its line numbers.
pub open spec fn produces(v: ViewModel, command: TedCommand, effects: Seq<Effect>) -> bool {
    if command == (TedCommand::ForView { command: ViewCommand::Draw }) {
        &&& effects.len() == 2
        &&& shows(effects[0], false, grid_types(v), paint(flow_of(v.text, v.dims).0, v.dims), v.dims)
        &&& shows(
            effects[1],
            true,
            Seq::new((LINES_WIDTH * v.dims.y) as nat, |k: int| BlockType::Normal),
            number_cells(line_numbers(v)),
            Rect { x: LINES_WIDTH, y: v.dims.y },
        )
    } else {
        effects == expected_effects(command)
    }
}

/// The effects a command other than drawing comes to, in order.
pub open spec fn expected_effects(command: TedCommand) -> Seq<Effect> {
    match command {
        TedCommand::ForView { command: c } => match c {
            ViewCommand::FlowCursor { .. } | ViewCommand::Draw => Seq::empty(),
            _ => seq![Effect::RequestRedraw],
        },
        _ => seq![effect_of(command)],
    }
}

/// What a view puts out for the window is carried out by the window alone.
proof fn lemma_outputs_are_leaves(c: TedCommand, out: Seq<TedCommand>, v: ViewModel)
    requires
        !(c is ForView) ==> out.len() == 0,
        c matches TedCommand::ForView { command } ==> match command {
            ViewCommand::FlowCursor { .. } => out == Seq::<TedCommand>::empty(),
            ViewCommand::Draw => adds_drawing(Seq::empty(), out, v),
            _ => out == seq![TedCommand::RequestRedraw],
        },
    ensures
        forall|i: int| 0 <= i < out.len() ==> is_leaf(#[trigger] out[i]),
{
}

/// The effects of what the view puts out for a view command are what that
/// command comes to.
proof fn lemma_produces_view(view0: EditorView, c: TedCommand, out: Seq<TedCommand>)
    requires
        c matches TedCommand::ForView { command } && match command {
            ViewCommand::FlowCursor { .. } => out == Seq::<TedCommand>::empty(),
            ViewCommand::Draw => adds_drawing(Seq::empty(), out, view0.model()),
            _ => out == seq![TedCommand::RequestRedraw],
        },
    ensures
        produces(view0.model(), c, out.map_values(|x: TedCommand| effect_of(x))),
{
    if c == (TedCommand::ForView { command: ViewCommand::Draw }) {
        assert(out.take(0) =~= Seq::<TedCommand>::empty());
    } else {
        assert(out.map_values(|x: TedCommand| effect_of(x)) =~= expected_effects(c));
    }
}

} // verus!
