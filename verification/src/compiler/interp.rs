//! The start of an interpreter: it walks `let`s and blocks, and every
//! expression it runs gives back a register that holds zero.
use crate::compiler::ast::{Ast, Block, ExprKind};
use crate::compiler::checker::Type;
use std::collections::HashMap;
use vstd::prelude::*;

verus! {

/// A machine register.
#[derive(Clone, Copy, Debug, PartialEq, Eq, Structural)]
pub struct Register {
    pub value: u64,
}


impl Register {
    /// The low 32 bits of the register.
    pub fn u32(&self) -> (r: u32)
        ensures
            r == self.value as u32,
    {
        self.value as u32
    }

    /// The whole register.
    pub fn u64(&self) -> (r: u64)
        ensures
            r == self.value,
    {
        self.value
    }
}

/// Whether the interpreter can run expression `id`: a `let` of something it
/// can run, or a block of statements it can run.
pub open spec fn runnable(ast: Ast, id: usize) -> bool
    decreases id + 1, 0nat,
{
    if id >= ast.exprs@.len() {
        false
    } else {
        match ast.exprs@[id as int].kind {
            ExprKind::Let { value, .. } => value < id && runnable(ast, value),
            ExprKind::Block(b) => all_runnable(ast, b.stmts@, id),
            _ => false,
        }
    }
}

/// Whether the interpreter can run each of the expressions `ids`, all
/// named by expression `parent`.
pub open spec fn all_runnable(ast: Ast, ids: Seq<usize>, parent: usize) -> bool
    decreases parent, ids.len(),
{
    if ids.len() == 0 {
        true
    } else {
        ids[0] < parent && runnable(ast, ids[0]) && all_runnable(ast, ids.drop_first(), parent)
    }
}

/// The values the expressions run so far hold, by position in the arena.
pub struct Scope {
    pub values: HashMap<usize, u64>,
}

/// The interpreter's own state: the type of each expression.
pub struct Interp {
    pub type_of: HashMap<usize, Type>,
}

impl Interp {
    /// Runs the statements of `block`, each named by expression `parent`;
    /// as `let`s and blocks store nothing yet, the interpreter and the scope
    /// are left as they were.
    fn block(&mut self, scope: &mut Scope, ast: &Ast, block: &Block, parent: usize)
        requires
            all_runnable(*ast, block.stmts@, parent),
        ensures
            final(self).type_of@ == old(self).type_of@,
            final(scope).values@ == old(scope).values@,
    {
        self.stmts(scope, ast, &block.stmts, parent)
    }

    /// Runs the expressions `ids`, each named by expression `parent`,
    /// leaving the interpreter and the scope as they were.
    fn stmts(&mut self, scope: &mut Scope, ast: &Ast, ids: &Vec<usize>, parent: usize)
        requires
            all_runnable(*ast, ids@, parent),
        ensures
            final(self).type_of@ == old(self).type_of@,
            final(scope).values@ == old(scope).values@,
        decreases parent, ids@.len(),
    {
        let mut i: usize = 0;
        proof {
            assert(ids@.skip(0) =~= ids@);
        }
        while i < ids.len()
            invariant
                i <= ids@.len(),
                all_runnable(*ast, ids@.skip(i as int), parent),
                self.type_of@ == old(self).type_of@,
                scope.values@ == old(scope).values@,
            decreases ids@.len() - i,
        {
            proof {
                assert(ids@.skip(i as int)[0] == ids@[i as int]);
                assert(ids@.skip(i as int).drop_first() =~= ids@.skip(i + 1));
            }
            let _ = self.expr(scope, ast, ids[i]);
            i += 1;
        }
    }

    /// Runs expression `id`, giving back the register that holds its value,
    /// which for a `let` or a block is zero, and leaving the interpreter and
    /// the scope as they were.
    fn expr(&mut self, scope: &mut Scope, ast: &Ast, id: usize) -> (r: Register)
        requires
            runnable(*ast, id),
        ensures
            r.value == 0,
            final(self).type_of@ == old(self).type_of@,
            final(scope).values@ == old(scope).values@,
        decreases id + 1, 0nat,
    {
        match &ast.exprs[id].kind {
            ExprKind::Let { value, .. } => {
                let _ = self.expr(scope, ast, *value);
                Register { value: 0 }
            },
            ExprKind::Block(b) => {
                self.stmts(scope, ast, &b.stmts, id);
                Register { value: 0 }
            },
            _ => Register { value: 0 },
        }
    }
}

/// Runs the top-level statements of a program, which must be `let`s and
/// blocks, all the way down.
pub fn interpret(ast: &Ast)
    requires
        all_runnable(*ast, ast.block.stmts@, ast.exprs@.len() as usize),
{
    let mut interp = Interp { type_of: HashMap::new() };
    let mut scope = Scope { values: HashMap::new() };
    interp.block(&mut scope, ast, &ast.block, ast.exprs.len());
}

} // verus!
