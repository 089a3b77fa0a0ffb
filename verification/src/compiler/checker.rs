//! The type checker: it walks a program's syntax tree with a chain of
//! scopes, gives each expression it visits a type, links each identifier to
//! the expression that declared it, and stops at the first error.
use crate::compiler::ast::{children, Ast, Block, ExprKind};
use crate::compiler::types::{CopyRange, Error};
use std::collections::HashMap;
use vstd::prelude::*;

verus! {

broadcast use vstd::std_specs::hash::group_hash_axioms;

/// The type of an expression.
#[derive(Clone, Copy, Debug, PartialEq, Eq, Structural)]
pub enum Type {
    /// The expression never gives a value back directly.
    Never,
    /// The expression gives back nothing.
    Null,
    Unsigned,
    String,
}

/// What checking learned: the type of each expression it visited, and for
/// each identifier the expression whose value it names, both by position
/// in the arena.
pub struct TypeEnv {
    pub type_of: HashMap<usize, Type>,
    pub ident_to_expr: HashMap<usize, usize>,
}

/// Why checking an expression fails.
#[derive(Clone, Copy, Debug, PartialEq, Eq, Structural)]
pub enum Failure {
    /// A `let` names a variable that its scope already declares.
    Redeclared,
    /// An identifier names no variable of any enclosing scope.
    Unbound,
    /// The two sides of a binary operation have different types.
    Mismatch,
}

/// The message of the error that reports a failure.
pub open spec fn failure_message(f: Failure) -> Seq<char> {
    match f {
        Failure::Redeclared => "redeclared variable"@,
        Failure::Unbound => "couldn't find variable"@,
        Failure::Mismatch => "binary operation should be with values that are the same type"@,
    }
}

/// The state of checking as a value: the scopes from outermost to
/// innermost, each from symbol to the declaring expression's value, and
/// what has been learned so far.
pub struct Env {
    pub scopes: Seq<Map<u32, usize>>,
    pub type_of: Map<usize, Type>,
    pub ident_to_expr: Map<usize, usize>,
}

/// How checking ends: with a type and the state after it, with a failure
/// at a span of source, or stuck, where the checker has no rule for what
/// it meets (a construct it does not handle, a call of anything but the
/// print procedure, an expression visited twice).
pub enum Outcome {
    Typed(Type, Env),
    Failed(Failure, CopyRange),
    Stuck,
}

/// The expression that `symbol` names, looking from the innermost scope
/// outwards.
pub open spec fn lookup(scopes: Seq<Map<u32, usize>>, symbol: u32) -> Option<usize>
    decreases scopes.len(),
{
    if scopes.len() == 0 {
        None
    } else if scopes.last().contains_key(symbol) {
        Some(scopes.last()[symbol])
    } else {
        lookup(scopes.drop_last(), symbol)
    }
}

/// Name lookup is innermost first: a symbol is found exactly when some
/// scope declares it, and what is found is the entry of the innermost
/// scope (the last) that declares it; no scope inside that one declares
/// the symbol.
pub proof fn lemma_lookup_innermost(scopes: Seq<Map<u32, usize>>, symbol: u32)
    ensures
        lookup(scopes, symbol) is Some <==> exists|i: int|
            0 <= i < scopes.len() && #[trigger] scopes[i].contains_key(symbol),
        lookup(scopes, symbol) matches Some(v) ==> exists|i: int|
            {
                &&& 0 <= i < scopes.len()
                &&& #[trigger] scopes[i].contains_key(symbol)
                &&& scopes[i][symbol] == v
                &&& forall|j: int| i < j < scopes.len() ==> !(#[trigger] scopes[j].contains_key(symbol))
            },
        scopes.len() > 0 && scopes.last().contains_key(symbol) ==> lookup(scopes, symbol) == Some(
            scopes.last()[symbol],
        ),
    decreases scopes.len(),
{
    if scopes.len() > 0 {
        let n = scopes.len() - 1;
        if scopes.last().contains_key(symbol) {
            assert(scopes[n].contains_key(symbol));
        } else {
            let d = scopes.drop_last();
            lemma_lookup_innermost(d, symbol);
            if lookup(scopes, symbol) is Some {
                let i = choose|i: int| {
                    &&& 0 <= i < d.len()
                    &&& #[trigger] d[i].contains_key(symbol)
                    &&& d[i][symbol] == lookup(d, symbol)->0
                    &&& forall|j: int| i < j < d.len() ==> !(#[trigger] d[j].contains_key(symbol))
                };
                assert(scopes[i] == d[i]);
                assert forall|j: int| i < j < scopes.len() implies !(#[trigger] scopes[j].contains_key(symbol)) by {
                    if j < n {
                        assert(scopes[j] == d[j]);
                    }
                }
            }
            if exists|i: int| 0 <= i < scopes.len() && #[trigger] scopes[i].contains_key(symbol) {
                let i = choose|i: int| 0 <= i < scopes.len() && #[trigger] scopes[i].contains_key(symbol);
                assert(i != n);
                assert(d[i] == scopes[i]);
            }
            if exists|i: int| 0 <= i < d.len() && #[trigger] d[i].contains_key(symbol) {
                let i = choose|i: int| 0 <= i < d.len() && #[trigger] d[i].contains_key(symbol);
                assert(d[i] == scopes[i]);
            }
        }
    }
}

/// Records that expression `id` has type `t`; stuck if it already has one.
pub open spec fn record(out: Outcome, id: usize) -> Outcome {
    match out {
        Outcome::Typed(t, env) => if env.type_of.contains_key(id) {
            Outcome::Stuck
        } else {
            Outcome::Typed(t, Env { type_of: env.type_of.insert(id, t), ..env })
        },
        _ => out,
    }
}

/// Checking expression `id` of `ast` in state `env`, where `print` is the
/// symbol of the print procedure.
pub open spec fn check_expr_spec(ast: Ast, id: usize, env: Env, print: u32) -> Outcome
    decreases id + 1, 0nat,
{
    if id >= ast.exprs@.len() {
        Outcome::Stuck
    } else {
        let e = ast.exprs@[id as int];
        let loc = e.loc;
        let out = match e.kind {
            ExprKind::Integer(_) => Outcome::Typed(Type::Unsigned, env),
            ExprKind::Let { symbol, value } => if value < id {
                match check_expr_spec(ast, value, env, print) {
                    Outcome::Typed(_, e1) => if e1.scopes.len() == 0 {
                        Outcome::Stuck
                    } else if e1.scopes.last().contains_key(symbol) {
                        Outcome::Failed(Failure::Redeclared, loc)
                    } else {
                        Outcome::Typed(
                            Type::Null,
                            Env {
                                scopes: e1.scopes.update(
                                    e1.scopes.len() - 1,
                                    e1.scopes.last().insert(symbol, value),
                                ),
                                ..e1
                            },
                        )
                    },
                    other => other,
                }
            } else {
                Outcome::Stuck
            },
            ExprKind::Ident { symbol } => match lookup(env.scopes, symbol) {
                None => Outcome::Failed(Failure::Unbound, loc),
                Some(v) => if env.type_of.contains_key(v) {
                    Outcome::Typed(
                        env.type_of[v],
                        Env { ident_to_expr: env.ident_to_expr.insert(id, v), ..env },
                    )
                } else {
                    Outcome::Stuck
                },
            },
            ExprKind::BinaryOp { left, right, .. } => if left < id && right < id {
                match check_expr_spec(ast, left, env, print) {
                    Outcome::Typed(lt, e1) => match check_expr_spec(ast, right, e1, print) {
                        Outcome::Typed(rt, e2) => if lt != rt {
                            Outcome::Failed(Failure::Mismatch, loc)
                        } else {
                            Outcome::Typed(lt, e2)
                        },
                        other => other,
                    },
                    other => other,
                }
            } else {
                Outcome::Stuck
            },
            ExprKind::Block(b) => match check_stmts_spec(
                ast,
                b.stmts@,
                id,
                Env { scopes: env.scopes.push(Map::empty()), ..env },
                Type::Null,
                print,
            ) {
                Outcome::Typed(_, e1) => if e1.scopes.len() == 0 {
                    Outcome::Stuck
                } else {
                    Outcome::Typed(Type::Null, Env { scopes: e1.scopes.drop_last(), ..e1 })
                },
                other => other,
            },
            ExprKind::Call { callee, args } => if callee < ast.exprs@.len() && ast.exprs@[
                callee as int
            ].kind == (ExprKind::Ident { symbol: print }) {
                match check_stmts_spec(ast, args@, id, env, Type::Null, print) {
                    Outcome::Typed(_, e1) => Outcome::Typed(Type::Null, e1),
                    other => other,
                }
            } else {
                Outcome::Stuck
            },
            _ => Outcome::Stuck,
        };
        record(out, id)
    }
}

/// An identifier is linked to what its innermost declaration names: when
/// checking identifier `id` succeeds, some scope declares its symbol, the
/// identifier is linked to that scope's entry, and no scope inside that
/// one declares the symbol.
pub proof fn lemma_ident_links_innermost(ast: Ast, id: usize, env: Env, print: u32)
    requires
        id < ast.exprs@.len(),
        ast.exprs@[id as int].kind matches ExprKind::Ident { .. },
        check_expr_spec(ast, id, env, print) is Typed,
    ensures
        ast.exprs@[id as int].kind matches ExprKind::Ident { symbol } ==> exists|i: int|
            {
                &&& 0 <= i < env.scopes.len()
                &&& #[trigger] env.scopes[i].contains_key(symbol)
                &&& check_expr_spec(ast, id, env, print)->Typed_1.ident_to_expr[id] == env.scopes[i][symbol]
                &&& forall|j: int| i < j < env.scopes.len() ==> !(#[trigger] env.scopes[j].contains_key(symbol))
            },
{
    if let ExprKind::Ident { symbol } = ast.exprs@[id as int].kind {
        lemma_lookup_innermost(env.scopes, symbol);
    }
}

/// A declaration goes in the innermost scope: when checking `let` of
/// `symbol` to expression `value` succeeds, the innermost scope after it
/// maps `symbol` to `value`, so that the symbol now names `value`, and the
/// enclosing scopes are those after checking the value.
pub proof fn lemma_let_declares_innermost(ast: Ast, id: usize, env: Env, print: u32)
    requires
        id < ast.exprs@.len(),
        ast.exprs@[id as int].kind matches ExprKind::Let { .. },
        check_expr_spec(ast, id, env, print) is Typed,
    ensures
        ast.exprs@[id as int].kind matches ExprKind::Let { symbol, value } ==> {
            let after = check_expr_spec(ast, id, env, print)->Typed_1;
            let before = check_expr_spec(ast, value, env, print)->Typed_1;
            &&& after.scopes.len() == before.scopes.len()
            &&& after.scopes.len() > 0
            &&& after.scopes.last().contains_key(symbol)
            &&& after.scopes.last()[symbol] == value
            &&& !before.scopes.last().contains_key(symbol)
            &&& after.scopes.drop_last() == before.scopes.drop_last()
            &&& lookup(after.scopes, symbol) == Some(value)
        },
{
    if let ExprKind::Let { symbol, value } = ast.exprs@[id as int].kind {
        let after = check_expr_spec(ast, id, env, print)->Typed_1;
        let before = check_expr_spec(ast, value, env, print)->Typed_1;
        assert(after.scopes.drop_last() =~= before.scopes.drop_last());
        lemma_lookup_innermost(after.scopes, symbol);
    }
}

/// Checking the expressions `ids`, each named by expression `parent`, in
/// turn from state `env`; the type is that of the last one, or `last` if
/// there is none.
pub open spec fn check_stmts_spec(
    ast: Ast,
    ids: Seq<usize>,
    parent: usize,
    env: Env,
    last: Type,
    print: u32,
) -> Outcome
    decreases parent, ids.len(),
{
    if ids.len() == 0 {
        Outcome::Typed(last, env)
    } else if ids[0] < parent {
        match check_expr_spec(ast, ids[0], env, print) {
            Outcome::Typed(t, e1) => check_stmts_spec(ast, ids.drop_first(), parent, e1, t, print),
            other => other,
        }
    } else {
        Outcome::Stuck
    }
}

/// The state checking starts from: one empty scope, nothing learned.
pub open spec fn start_env() -> Env {
    Env { scopes: seq![Map::empty()], type_of: Map::empty(), ident_to_expr: Map::empty() }
}

/// Checking a whole program: its top-level statements in turn, from the
/// starting state.
pub open spec fn check_ast_spec(ast: Ast, print: u32) -> Outcome {
    check_stmts_spec(ast, ast.block.stmts@, ast.exprs@.len() as usize, start_env(), Type::Null, print)
}

/// Whether `r` is the error that reports failure `f` at span `loc`.
pub open spec fn reports(r: Error, f: Failure, loc: CopyRange) -> bool {
    r matches Error::Message(m) && m.message@ == failure_message(f) && m.file == 0 && m.range == loc
}

/// Whether the result `r` of a check, with the state `env` it leaves
/// behind, is what the outcome `out` says.
pub open spec fn agrees(out: Outcome, r: Result<Type, Error>, env: Env) -> bool {
    match out {
        Outcome::Typed(t, e) => r == Ok::<Type, Error>(t) && env == e,
        Outcome::Failed(f, loc) => r matches Err(err) && reports(err, f, loc),
        Outcome::Stuck => false,
    }
}

/// Whether every identifier linked so far has a type, and so has the
/// expression it is linked to.
pub open spec fn links_typed(env: Env) -> bool {
    forall|i: usize|
        #[trigger] env.ident_to_expr.contains_key(i) ==> env.type_of.contains_key(i)
            && env.type_of.contains_key(env.ident_to_expr[i])
}

/// Whether `e1` keeps every type that `e0` gives.
pub open spec fn keeps_types(e0: Env, e1: Env) -> bool {
    forall|k: usize| e0.type_of.contains_key(k) ==> #[trigger] e1.type_of.contains_key(k)
}

proof fn lemma_check_expr_keeps(ast: Ast, id: usize, env: Env, print: u32)
    requires
        links_typed(env),
    ensures
        check_expr_spec(ast, id, env, print) matches Outcome::Typed(_, e1) ==> links_typed(e1)
            && keeps_types(env, e1) && e1.type_of.contains_key(id),
    decreases id + 1, 0nat,
{
    if id < ast.exprs@.len() {
        let e = ast.exprs@[id as int];
        match e.kind {
            ExprKind::Let { symbol, value } => {
                if value < id {
                    lemma_check_expr_keeps(ast, value, env, print);
                }
            },
            ExprKind::Ident { symbol } => {
                match lookup(env.scopes, symbol) {
                    Some(v) => {
                        if env.type_of.contains_key(v) {
                            let e1 = Env { ident_to_expr: env.ident_to_expr.insert(id, v), ..env };
                            let t = env.type_of[v];
                            if !e1.type_of.contains_key(id) {
                                let e2 = Env { type_of: e1.type_of.insert(id, t), ..e1 };
                                assert(links_typed(e2)) by {
                                    assert forall|i: usize| #[trigger] e2.ident_to_expr.contains_key(i) implies e2.type_of.contains_key(i)
                                        && e2.type_of.contains_key(e2.ident_to_expr[i]) by {
                                        if i != id {
                                            assert(env.ident_to_expr.contains_key(i));
                                        }
                                    }
                                }
                            }
                        }
                    },
                    None => {},
                }
            },
            ExprKind::BinaryOp { left, right, .. } => {
                if left < id && right < id {
                    lemma_check_expr_keeps(ast, left, env, print);
                    match check_expr_spec(ast, left, env, print) {
                        Outcome::Typed(_, e1) => {
                            lemma_check_expr_keeps(ast, right, e1, print);
                        },
                        _ => {},
                    }
                }
            },
            ExprKind::Block(b) => {
                let inner = Env { scopes: env.scopes.push(Map::empty()), ..env };
                lemma_check_stmts_keeps(ast, b.stmts@, id, inner, Type::Null, print);
            },
            ExprKind::Call { callee, args } => {
                lemma_check_stmts_keeps(ast, args@, id, env, Type::Null, print);
            },
            _ => {},
        }
    }
}

proof fn lemma_check_stmts_keeps(
    ast: Ast,
    ids: Seq<usize>,
    parent: usize,
    env: Env,
    last: Type,
    print: u32,
)
    requires
        links_typed(env),
    ensures
        check_stmts_spec(ast, ids, parent, env, last, print) matches Outcome::Typed(_, e1) ==> {
            &&& links_typed(e1)
            &&& keeps_types(env, e1)
            &&& forall|j: int| 0 <= j < ids.len() ==> e1.type_of.contains_key(#[trigger] ids[j])
        },
    decreases parent, ids.len(),
{
    if ids.len() > 0 && ids[0] < parent {
        lemma_check_expr_keeps(ast, ids[0], env, print);
        match check_expr_spec(ast, ids[0], env, print) {
            Outcome::Typed(t, e1) => {
                lemma_check_stmts_keeps(ast, ids.drop_first(), parent, e1, t, print);
                match check_stmts_spec(ast, ids.drop_first(), parent, e1, t, print) {
                    Outcome::Typed(_, e2) => {
                        assert forall|j: int| 0 <= j < ids.len() implies e2.type_of.contains_key(
                            #[trigger] ids[j],
                        ) by {
                            if j > 0 {
                                assert(ids[j] == ids.drop_first()[j - 1]);
                            }
                        }
                    },
                    _ => {},
                }
            },
            _ => {},
        }
    }
}

/// A program that checks gives a type to each of its top-level statements
/// and to every identifier, and links every identifier to an expression
/// that has a type.
pub proof fn lemma_check_gives_types(ast: Ast, print: u32)
    ensures
        check_ast_spec(ast, print) matches Outcome::Typed(_, env) ==> {
            &&& links_typed(env)
            &&& forall|j: int|
                0 <= j < ast.block.stmts@.len() ==> env.type_of.contains_key(#[trigger] ast.block.stmts@[j])
        },
{
    lemma_check_stmts_keeps(ast, ast.block.stmts@, ast.exprs@.len() as usize, start_env(), Type::Null, print);
}

/// The checker's state while it walks a program.
pub struct CheckEnv {
    pub types: TypeEnv,
    pub scopes: Vec<HashMap<u32, usize>>,
    pub print: u32,
}

impl CheckEnv {
    /// The state as a value.
    pub open spec fn model(&self) -> Env {
        Env {
            scopes: self.scopes@.map_values(|m: HashMap<u32, usize>| m@),
            type_of: self.types.type_of@,
            ident_to_expr: self.types.ident_to_expr@,
        }
    }

    /// Opens a new innermost scope, whose parent is the one that was
    /// innermost.
    pub fn chain(&mut self)
        ensures
            final(self).model() == (Env {
                scopes: old(self).model().scopes.push(Map::empty()),
                ..old(self).model()
            }),
            final(self).print == old(self).print,
    {
        let m: HashMap<u32, usize> = HashMap::new();
        self.scopes.push(m);
        proof {
            assert(self.model().scopes =~= old(self).model().scopes.push(Map::empty()));
        }
    }

    /// The expression that `symbol` names, looking from the innermost scope
    /// outwards.
    fn search(&self, symbol: u32) -> (r: Option<usize>)
        ensures
            r == lookup(self.model().scopes, symbol),
    {
        let ghost scopes = self.model().scopes;
        proof {
            assert(scopes.take(scopes.len() as int) =~= scopes);
        }
        let mut i = self.scopes.len();
        while i > 0
            invariant
                i <= self.scopes@.len(),
                scopes == self.model().scopes,
                lookup(scopes, symbol) == lookup(scopes.take(i as int), symbol),
            decreases i,
        {
            let found = self.scopes[i - 1].get(&symbol);
            proof {
                assert(scopes.take(i as int).drop_last() =~= scopes.take(i - 1));
            }
            match found {
                Some(v) => {
                    return Some(*v);
                },
                None => {},
            }
            i -= 1;
        }
        None
    }

    /// Records that expression `id` has type `t`.
    fn record_type(&mut self, id: usize, t: Type) -> (r: Result<Type, Error>)
        requires
            record(Outcome::Typed(t, old(self).model()), id) != Outcome::Stuck,
        ensures
            agrees(record(Outcome::Typed(t, old(self).model()), id), r, final(self).model()),
            final(self).print == old(self).print,
    {
        self.types.type_of.insert(id, t);
        Ok(t)
    }

    /// Checks expression `id` of `ast`.
    pub fn check_expr(&mut self, ast: &Ast, id: usize) -> (r: Result<Type, Error>)
        requires
            ast.wf(),
            check_expr_spec(*ast, id, old(self).model(), old(self).print) != Outcome::Stuck,
        ensures
            agrees(check_expr_spec(*ast, id, old(self).model(), old(self).print), r, final(self).model()),
            final(self).print == old(self).print,
        decreases id + 1, 0nat,
    {
        let ghost env0 = self.model();
        let e = &ast.exprs[id];
        let loc = e.loc;
        match &e.kind {
            ExprKind::Integer(_) => self.record_type(id, Type::Unsigned),
            ExprKind::Let { symbol, value } => {
                let symbol = *symbol;
                let value = *value;
                let checked = self.check_expr(ast, value);
                match checked {
                    Err(err) => Err(err),
                    Ok(_) => {
                        let ghost env1 = self.model();
                        let mut top = self.scopes.pop().unwrap();
                        let prev = top.insert(symbol, value);
                        self.scopes.push(top);
                        proof {
                            assert(self.model().scopes =~= env1.scopes.update(
                                env1.scopes.len() - 1,
                                env1.scopes.last().insert(symbol, value),
                            ));
                        }
                        if prev.is_some() {
                            let msg = String::from_str("redeclared variable");
                            return Err(Error::new(msg, loc));
                        }
                        self.record_type(id, Type::Null)
                    },
                }
            },
            ExprKind::Ident { symbol } => {
                let symbol = *symbol;
                match self.search(symbol) {
                    None => {
                        let msg = String::from_str("couldn't find variable");
                        Err(Error::new(msg, loc))
                    },
                    Some(v) => {
                        self.types.ident_to_expr.insert(id, v);
                        let t = match self.types.type_of.get(&v) {
                            Some(t) => *t,
                            None => Type::Never,
                        };
                        self.record_type(id, t)
                    },
                }
            },
            ExprKind::BinaryOp { left, right, .. } => {
                let left = *left;
                let right = *right;
                let lt = match self.check_expr(ast, left) {
                    Err(err) => {
                        return Err(err);
                    },
                    Ok(t) => t,
                };
                let rt = match self.check_expr(ast, right) {
                    Err(err) => {
                        return Err(err);
                    },
                    Ok(t) => t,
                };
                if lt != rt {
                    let msg = String::from_str(
                        "binary operation should be with values that are the same type",
                    );
                    return Err(Error::new(msg, loc));
                }
                self.record_type(id, lt)
            },
            ExprKind::Block(b) => {
                self.chain();
                let checked = self.check_block_ids(ast, &b.stmts, id);
                let ghost env1 = self.model();
                match checked {
                    Err(err) => Err(err),
                    Ok(_) => {
                        let _ = self.scopes.pop();
                        proof {
                            assert(self.model().scopes =~= env1.scopes.drop_last());
                        }
                        self.record_type(id, Type::Null)
                    },
                }
            },
            ExprKind::Call { callee, args } => {
                let checked = self.check_block_ids(ast, args, id);
                match checked {
                    Err(err) => Err(err),
                    Ok(_) => self.record_type(id, Type::Null),
                }
            },
            _ => Err(Error::new(String::new(), loc)),
        }
    }

    /// Checks the statements of `block`, each named by expression `parent`,
    /// in turn; the type is that of the last one, or nothing.
    pub fn check_block(&mut self, ast: &Ast, block: &Block, parent: usize) -> (r: Result<Type, Error>)
        requires
            ast.wf(),
            check_stmts_spec(*ast, block.stmts@, parent, old(self).model(), Type::Null, old(self).print)
                != Outcome::Stuck,
        ensures
            agrees(
                check_stmts_spec(*ast, block.stmts@, parent, old(self).model(), Type::Null, old(self).print),
                r,
                final(self).model(),
            ),
            final(self).print == old(self).print,
    {
        self.check_block_ids(ast, &block.stmts, parent)
    }

    /// Checks the expressions `ids`, each named by expression `parent`, in
    /// turn; the type is that of the last one, or nothing.
    fn check_block_ids(&mut self, ast: &Ast, ids: &Vec<usize>, parent: usize) -> (r: Result<Type, Error>)
        requires
            ast.wf(),
            check_stmts_spec(*ast, ids@, parent, old(self).model(), Type::Null, old(self).print)
                != Outcome::Stuck,
        ensures
            agrees(
                check_stmts_spec(*ast, ids@, parent, old(self).model(), Type::Null, old(self).print),
                r,
                final(self).model(),
            ),
            final(self).print == old(self).print,
        decreases parent, ids@.len(),
    {
        let ghost whole = check_stmts_spec(*ast, ids@, parent, self.model(), Type::Null, self.print);
        let ghost print = self.print;
        proof {
            assert(ids@.skip(0) =~= ids@);
        }
        let mut t = Type::Null;
        let mut i: usize = 0;
        while i < ids.len()
            invariant
                ast.wf(),
                i <= ids@.len(),
                check_stmts_spec(*ast, ids@.skip(i as int), parent, self.model(), t, self.print)
                    == whole,
                whole != Outcome::Stuck,
                whole == check_stmts_spec(*ast, ids@, parent, old(self).model(), Type::Null, old(self).print),
                self.print == print,
                print == old(self).print,
            decreases ids@.len() - i,
        {
            let ghost rest = ids@.skip(i as int);
            proof {
                assert(rest[0] == ids@[i as int]);
                assert(rest.drop_first() =~= ids@.skip(i + 1));
            }
            let id = ids[i];
            let checked = self.check_expr(ast, id);
            match checked {
                Err(err) => {
                    return Err(err);
                },
                Ok(next) => {
                    t = next;
                },
            }
            i += 1;
        }
        Ok(t)
    }
}

/// Checks a whole program, where `print` is the symbol of the print
/// procedure: its top-level statements in turn, each in the outermost
/// scope. Gives back what was learned, or the first error.
pub fn check_ast(ast: &Ast, print: u32) -> (r: Result<TypeEnv, Error>)
    requires
        ast.wf(),
        check_ast_spec(*ast, print) != Outcome::Stuck,
    ensures
        match check_ast_spec(*ast, print) {
            Outcome::Typed(_, env) => r matches Ok(types) && types.type_of@ == env.type_of
                && types.ident_to_expr@ == env.ident_to_expr,
            Outcome::Failed(f, loc) => r matches Err(err) && reports(err, f, loc),
            Outcome::Stuck => false,
        },
{
    let types = TypeEnv { type_of: HashMap::new(), ident_to_expr: HashMap::new() };
    let mut scopes: Vec<HashMap<u32, usize>> = Vec::new();
    scopes.push(HashMap::new());
    let mut env = CheckEnv { types, scopes, print };
    proof {
        assert(env.model().scopes =~= start_env().scopes);
        assert(env.model() == start_env());
    }
    match env.check_block(ast, &ast.block, ast.exprs.len()) {
        Err(err) => Err(err),
        Ok(_) => Ok(env.types),
    }
}

} // verus!
