//! The syntax tree of a program, held in an arena: an expression names the
//! expressions inside it by their position in the arena.
use crate::compiler::types::CopyRange;
use vstd::prelude::*;

verus! {

/// The operator of a binary expression.
#[derive(Clone, Copy, Debug, PartialEq, Eq, Structural)]
pub enum BinaryExprKind {
    Add,
    Multiply,
    Equal,
}

/// A sequence of statements, by their positions in the arena.
pub struct Block {
    pub stmts: Vec<usize>,
}

/// What an expression is; sub-expressions are positions in the arena.
pub enum ExprKind {
    Integer(u64),
    Ident { symbol: u32 },
    Call { callee: usize, args: Vec<usize> },
    BinaryOp { kind: BinaryExprKind, left: usize, right: usize },
    Let { symbol: u32, value: usize },
    Assign { symbol: u32, value: usize },
    Block(Block),
    If { cond: usize, if_true: usize },
    IfElse { cond: usize, if_true: usize, if_false: usize },
    ForInfinite { block: Block },
}

/// An expression and the span of source it came from.
pub struct Expr {
    pub kind: ExprKind,
    pub loc: CopyRange,
}

/// A program: the arena of its expressions and its top-level block.
pub struct Ast {
    pub exprs: Vec<Expr>,
    pub block: Block,
}

/// Every expression that `kind` names directly.
pub open spec fn children(kind: ExprKind) -> Seq<usize> {
    match kind {
        ExprKind::Integer(_) => Seq::empty(),
        ExprKind::Ident { .. } => Seq::empty(),
        ExprKind::Call { callee, args } => seq![callee] + args@,
        ExprKind::BinaryOp { left, right, .. } => seq![left, right],
        ExprKind::Let { value, .. } => seq![value],
        ExprKind::Assign { value, .. } => seq![value],
        ExprKind::Block(b) => b.stmts@,
        ExprKind::If { cond, if_true } => seq![cond, if_true],
        ExprKind::IfElse { cond, if_true, if_false } => seq![cond, if_true, if_false],
        ExprKind::ForInfinite { block } => block.stmts@,
    }
}

impl Ast {
    /// Every expression names only expressions that stand before it in the
    /// arena, and the top-level block names only expressions of the arena.
    pub open spec fn wf(&self) -> bool {
        &&& forall|i: int, j: int|
            0 <= i < self.exprs@.len() && 0 <= j < children(self.exprs@[i].kind).len()
                ==> #[trigger] children(self.exprs@[i].kind)[j] < i
        &&& forall|j: int|
            0 <= j < self.block.stmts@.len() ==> #[trigger] self.block.stmts@[j] < self.exprs@.len()
    }
}

} // verus!
