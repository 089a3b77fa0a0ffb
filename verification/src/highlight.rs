//! Syntax highlighting descriptions in GON: colour variables, scopes,
//! each scope's default colours and its rules, each rule a pattern with
//! colours and what it does to the scope.
//!
//! A description is an object. A field whose value is the text `scope`
//! declares a scope of that name, and later fields belong to it; a field
//! named `default` whose value is an object gives the current scope's
//! default `color` and `background`, and holds no `match` or `scope`; any
//! other field whose value is an object is a rule: its `match` is the
//! pattern, its `color` and `background` are optional, and its `scope`, if
//! given, names a scope the rule begins, or is `end` to end the current
//! one; any other field defines a colour variable, from three numbers in
//! brackets or from the name of another variable. The default scope must
//! be given both default colours.
use crate::compiler::parser::bytes_eq;
use crate::gon::{
    denotes, lemma_denotes_same, parse_end, parse_gon, parsed, same_value, tokens_from, GonValue,
};
use vstd::string::StringSliceAdditionalSpecFns;
use vstd::prelude::*;

verus! {

/// A colour, as red, green and blue.
#[derive(Clone, Copy, Debug, PartialEq, Eq, Structural)]
pub struct Rgb {
    pub r: u8,
    pub g: u8,
    pub b: u8,
}

/// What a rule does to the scope when its pattern matches.
#[derive(Clone, Copy, Debug, PartialEq, Eq, Structural)]
pub enum HLAction {
    BeginScope(usize),
    EndScope,
    Nothing,
}

/// A rule: where its pattern lies in the patterns' bytes, its colours and
/// what it does to the scope.
#[derive(Clone, Copy, Debug, PartialEq, Eq, Structural)]
pub struct Rule {
    pub pattern_begin: usize,
    pub pattern_end: usize,
    pub color: Option<Rgb>,
    pub background: Option<Rgb>,
    pub action: HLAction,
}

/// The default colours of a scope.
#[derive(Clone, Copy, Debug, PartialEq, Eq, Structural)]
pub struct DefaultRule {
    pub color: Option<Rgb>,
    pub background: Option<Rgb>,
}

/// A scope: its name, its number, its default colours and its rules.
#[derive(Debug)]
pub struct Scope {
    pub name: Vec<u8>,
    pub id: usize,
    pub default: Option<DefaultRule>,
    pub rules: Vec<Rule>,
}

/// A scope as a value.
#[verifier::ext_equal]
pub struct ScopeModel {
    pub name: Seq<u8>,
    pub id: usize,
    pub default: Option<DefaultRule>,
    pub rules: Seq<Rule>,
}

impl Scope {
    pub open spec fn view(&self) -> ScopeModel {
        ScopeModel { name: self.name@, id: self.id, default: self.default, rules: self.rules@ }
    }
}

/// A highlighter: its scopes in the order they are declared, the bytes of
/// all patterns, and the colour variables in the order they are defined.
#[derive(Debug)]
pub struct Highlighter {
    pub scopes: Vec<Scope>,
    pub regexes: Vec<u8>,
    pub variables: Vec<(Vec<u8>, Rgb)>,
}

/// A highlighter as a value.
#[verifier::ext_equal]
pub struct HighlighterModel {
    pub scopes: Seq<ScopeModel>,
    pub regexes: Seq<u8>,
    pub variables: Seq<(Seq<u8>, Rgb)>,
}

impl Highlighter {
    /// The highlighter the GON text `gon` describes. The text must be a
    /// description that `highlighter_of` accepts: any other is a mistake of
    /// the caller's, which `try_from_gon` tells apart without failing.
    pub fn from_gon(gon: &str) -> (r: Highlighter)
        requires
            tokens_from(gon.spec_bytes(), 0, None) is Some,
            parse_end(tokens_from(gon.spec_bytes(), 0, None)->0, 0) is Some,
            gon.spec_bytes().len() + 1 < usize::MAX,
            highlighter_of(parsed(gon.spec_bytes())) is Some,
        ensures
            r@ == highlighter_of(parsed(gon.spec_bytes()))->0,
    {
        let r = Self::try_from_gon(gon);
        r.unwrap()
    }

    /// Checks the GON text `gon` as a description: the highlighter it
    /// describes, or an error exactly on the texts that `from_gon` does not
    /// take (a text that is no object, a colour that is no colour, a
    /// variable defined twice, a rule without a bare `match`, a scope that
    /// is not declared, default colours given twice, or a default scope
    /// without both default colours).
    pub fn try_from_gon(gon: &str) -> (r: Result<Highlighter, HighlightError>)
        requires
            tokens_from(gon.spec_bytes(), 0, None) is Some,
            parse_end(tokens_from(gon.spec_bytes(), 0, None)->0, 0) is Some,
            gon.spec_bytes().len() + 1 < usize::MAX,
        ensures
            match highlighter_of(parsed(gon.spec_bytes())) {
                Some(m) => r matches Ok(h) && h@ == m,
                None => r is Err,
            },
    {
        let v = parse_gon(gon);
        let r = Self::from_gon_value(&v);
        proof {
            let toks = tokens_from(gon.spec_bytes(), 0, None)->0;
            assert(denotes(v, toks, 0));
            let w = parsed(gon.spec_bytes());
            assert(denotes(w, toks, 0));
            lemma_denotes_same(v, w, toks, 0);
            lemma_same_highlighter(v, w);
        }
        r
    }

    pub open spec fn view(&self) -> HighlighterModel {
        HighlighterModel {
            scopes: self.scopes@.map_values(|s: Scope| s@),
            regexes: self.regexes@,
            variables: self.variables@.map_values(|v: (Vec<u8>, Rgb)| (v.0@, v.1)),
        }
    }
}

/// Why a highlighting description is refused.
#[derive(Clone, Copy, Debug, PartialEq, Eq, Structural)]
pub struct HighlightError;

/// The bytes of `scope`.
pub open spec fn scope_word() -> Seq<u8> {
    seq!['s' as u8, 'c' as u8, 'o' as u8, 'p' as u8, 'e' as u8]
}

/// The bytes of `default`.
pub open spec fn default_word() -> Seq<u8> {
    seq!['d' as u8, 'e' as u8, 'f' as u8, 'a' as u8, 'u' as u8, 'l' as u8, 't' as u8]
}

/// The bytes of `end`.
pub open spec fn end_word() -> Seq<u8> {
    seq!['e' as u8, 'n' as u8, 'd' as u8]
}

/// The bytes of `color`.
pub open spec fn color_word() -> Seq<u8> {
    seq!['c' as u8, 'o' as u8, 'l' as u8, 'o' as u8, 'r' as u8]
}

/// The bytes of `background`.
pub open spec fn background_word() -> Seq<u8> {
    seq![
        'b' as u8,
        'a' as u8,
        'c' as u8,
        'k' as u8,
        'g' as u8,
        'r' as u8,
        'o' as u8,
        'u' as u8,
        'n' as u8,
        'd' as u8,
    ]
}

/// The bytes of `match`.
pub open spec fn match_word() -> Seq<u8> {
    seq!['m' as u8, 'a' as u8, 't' as u8, 'c' as u8, 'h' as u8]
}

/// The value of the decimal digits `ds`.
pub open spec fn dec_value(ds: Seq<u8>) -> nat
    decreases ds.len(),
{
    if ds.len() == 0 {
        0
    } else {
        dec_value(ds.drop_last()) * 10 + (ds.last() - ('0' as u8)) as nat
    }
}

/// Whether every byte of `ds` is a decimal digit.
pub open spec fn all_digits(ds: Seq<u8>) -> bool {
    forall|i: int| 0 <= i < ds.len() ==> '0' as u8 <= #[trigger] ds[i] <= '9' as u8
}

/// A byte in `0..=255` written in decimal, as `u8::from_str` reads it: an
/// optional `+`, then at least one digit.
pub open spec fn parse_u8(s: Seq<u8>) -> Option<u8> {
    let ds = if s.len() > 0 && s[0] == '+' as u8 {
        s.drop_first()
    } else {
        s
    };
    if ds.len() > 0 && all_digits(ds) && dec_value(ds) <= 255 {
        Some(dec_value(ds) as u8)
    } else {
        None
    }
}

/// The text a value holds, when it is a string.
pub open spec fn text_of(v: GonValue) -> Option<Seq<u8>> {
    match v {
        GonValue::Str(b) => Some(b@),
        GonValue::String(b) => Some(b@),
        _ => None,
    }
}

/// The position of the first scope named `name`.
pub open spec fn find_scope(s: Seq<ScopeModel>, name: Seq<u8>) -> Option<int>
    decreases s.len(),
{
    if s.len() == 0 {
        None
    } else {
        match find_scope(s.drop_last(), name) {
            Some(i) => Some(i),
            None => if s.last().name == name {
                Some(s.len() - 1)
            } else {
                None
            },
        }
    }
}

/// The colour of the first variable named `name`.
pub open spec fn find_var(vars: Seq<(Seq<u8>, Rgb)>, name: Seq<u8>) -> Option<Rgb>
    decreases vars.len(),
{
    if vars.len() == 0 {
        None
    } else {
        match find_var(vars.drop_last(), name) {
            Some(c) => Some(c),
            None => if vars.last().0 == name {
                Some(vars.last().1)
            } else {
                None
            },
        }
    }
}

/// Where the value of an object's field `name` is: the position the last
/// field of that name gives.
pub open spec fn get_field(fields: Seq<(Vec<u8>, usize)>, name: Seq<u8>) -> Option<usize>
    decreases fields.len(),
{
    if fields.len() == 0 {
        None
    } else if fields.last().0@ == name {
        Some(fields.last().1)
    } else {
        get_field(fields.drop_last(), name)
    }
}

/// The number of one channel of a colour: a bare string holding a byte.
pub open spec fn channel(v: GonValue) -> Option<u8> {
    match v {
        GonValue::Str(b) => parse_u8(b@),
        _ => None,
    }
}

/// The colour a value gives: three channels in brackets, or the name of a
/// variable.
pub open spec fn color_of(vars: Seq<(Seq<u8>, Rgb)>, v: GonValue) -> Option<Rgb> {
    match v {
        GonValue::Array(vals) => if vals@.len() != 3 {
            None
        } else {
            match (channel(vals@[0]), channel(vals@[1]), channel(vals@[2])) {
                (Some(r), Some(g), Some(b)) => Some(Rgb { r, g, b }),
                _ => None,
            }
        },
        GonValue::Str(b) => find_var(vars, b@),
        GonValue::String(b) => find_var(vars, b@),
        _ => None,
    }
}

/// The colour an object's field `name` gives, if the field is there;
/// `Err` where the field holds no colour.
pub open spec fn field_color(
    vars: Seq<(Seq<u8>, Rgb)>,
    values: Seq<GonValue>,
    fields: Seq<(Vec<u8>, usize)>,
    name: Seq<u8>,
) -> Result<Option<Rgb>, ()> {
    match get_field(fields, name) {
        None => Ok(None),
        Some(i) => if i < values.len() {
            match color_of(vars, values[i as int]) {
                Some(c) => Ok(Some(c)),
                None => Err(()),
            }
        } else {
            Err(())
        },
    }
}

/// The scopes after declaring those of the first `n` fields, from `s`: a
/// field whose value is the text `scope` declares a scope of its name,
/// numbered by how many come before it, unless one of that name is there.
pub open spec fn declare_scopes(
    names: Seq<Seq<u8>>,
    values: Seq<GonValue>,
    n: nat,
    s: Seq<ScopeModel>,
) -> Seq<ScopeModel>
    decreases n,
{
    if n == 0 {
        s
    } else {
        let prev = declare_scopes(names, values, (n - 1) as nat, s);
        if text_of(values[n - 1]) == Some(scope_word()) && find_scope(prev, names[n - 1]) is None {
            prev.push(
                ScopeModel { name: names[n - 1], id: prev.len() as usize, default: None, rules: Seq::empty() },
            )
        } else {
            prev
        }
    }
}

/// Where reading a description stands: the scopes, the patterns' bytes,
/// the variables and the name of the current scope.
#[verifier::ext_equal]
pub struct HlState {
    pub scopes: Seq<ScopeModel>,
    pub regexes: Seq<u8>,
    pub variables: Seq<(Seq<u8>, Rgb)>,
    pub scope_name: Seq<u8>,
}

/// What a rule's `scope` field makes it do; `None` where it is no bare
/// string, or names no scope.
pub open spec fn rule_action(
    st: HlState,
    values: Seq<GonValue>,
    fields: Seq<(Vec<u8>, usize)>,
) -> Option<HLAction> {
    match get_field(fields, scope_word()) {
        None => Some(HLAction::Nothing),
        Some(ai) => if ai < values.len() {
            match values[ai as int] {
                GonValue::Str(a) => if a@ == end_word() {
                    Some(HLAction::EndScope)
                } else {
                    match find_scope(st.scopes, a@) {
                        Some(k) => Some(HLAction::BeginScope(st.scopes[k].id)),
                        None => None,
                    }
                },
                _ => None,
            }
        } else {
            None
        },
    }
}

/// Setting the current scope's default colours from the object with
/// `values` and `fields`; `None` where the object has a `match` or a
/// `scope` field, the scope has default colours already, or a colour is
/// wrong.
pub open spec fn hl_default(st: HlState, values: Seq<GonValue>, fields: Seq<(Vec<u8>, usize)>) -> Option<HlState> {
    if get_field(fields, match_word()) is Some || get_field(fields, scope_word()) is Some {
        None
    } else {
    match find_scope(st.scopes, st.scope_name) {
        None => None,
        Some(si) => {
            let sc = st.scopes[si];
            match (
                field_color(st.variables, values, fields, color_word()),
                field_color(st.variables, values, fields, background_word()),
            ) {
                (Ok(c), Ok(b)) => if sc.default is Some {
                    None
                } else {
                    Some(
                        HlState {
                            scopes: st.scopes.update(
                                si,
                                ScopeModel { default: Some(DefaultRule { color: c, background: b }), ..sc },
                            ),
                            ..st
                        },
                    )
                },
                _ => None,
            }
        },
    }
    }
}

/// Adding to the current scope the rule of the object with `values` and
/// `fields`, whose pattern is `p`.
pub open spec fn hl_add_rule(
    st: HlState,
    values: Seq<GonValue>,
    fields: Seq<(Vec<u8>, usize)>,
    p: Seq<u8>,
) -> Option<HlState> {
    let regexes = st.regexes + p;
    match (
        field_color(st.variables, values, fields, color_word()),
        field_color(st.variables, values, fields, background_word()),
        rule_action(st, values, fields),
        find_scope(st.scopes, st.scope_name),
    ) {
        (Ok(c), Ok(b), Some(action), Some(si)) => {
            let sc = st.scopes[si];
            let rule = Rule {
                pattern_begin: p.len() as usize,
                pattern_end: regexes.len() as usize,
                color: c,
                background: b,
                action,
            };
            Some(
                HlState {
                    scopes: st.scopes.update(si, ScopeModel { rules: sc.rules.push(rule), ..sc }),
                    regexes,
                    ..st
                },
            )
        },
        _ => None,
    }
}

/// Adding a rule: the current scope gets one more rule at its end, whose
/// colour and background are the colours its object's `color` and
/// `background` fields give (none where the field is missing), whose
/// action is none without a `scope` field, ending the scope for `end`, and
/// otherwise beginning the first scope of the name the field holds; the
/// pattern `p` is added at
/// the end of the patterns' bytes, and nothing else changes.
pub proof fn lemma_rule_takes_its_fields(
    st: HlState,
    values: Seq<GonValue>,
    fields: Seq<(Vec<u8>, usize)>,
    p: Seq<u8>,
)
    requires
        hl_add_rule(st, values, fields, p) is Some,
    ensures
        ({
            let st2 = hl_add_rule(st, values, fields, p)->0;
            let si = find_scope(st.scopes, st.scope_name)->0;
            let rule = st2.scopes[si].rules.last();
            &&& 0 <= si < st.scopes.len()
            &&& st2.scopes.len() == st.scopes.len()
            &&& st2.scopes[si].rules.drop_last() == st.scopes[si].rules
            &&& st2.scopes[si].name == st.scopes[si].name
            &&& st2.scopes[si].id == st.scopes[si].id
            &&& st2.scopes[si].default == st.scopes[si].default
            &&& forall|k: int| 0 <= k < st.scopes.len() && k != si ==> #[trigger] st2.scopes[k] == st.scopes[k]
            &&& st2.regexes == st.regexes + p
            &&& st2.variables == st.variables
            &&& st2.scope_name == st.scope_name
            &&& (get_field(fields, color_word()) matches Some(i) ==> i < values.len() && color_of(
                st.variables,
                values[i as int],
            ) == rule.color && rule.color is Some)
            &&& (get_field(fields, color_word()) is None ==> rule.color is None)
            &&& (get_field(fields, background_word()) matches Some(i) ==> i < values.len() && color_of(
                st.variables,
                values[i as int],
            ) == rule.background && rule.background is Some)
            &&& (get_field(fields, background_word()) is None ==> rule.background is None)
            &&& (get_field(fields, scope_word()) is None ==> rule.action == HLAction::Nothing)
            &&& (get_field(fields, scope_word()) matches Some(i) ==> i < values.len() && match values[i as int] {
                GonValue::Str(a) => if a@ == end_word() {
                    rule.action == HLAction::EndScope
                } else {
                    find_scope(st.scopes, a@) matches Some(k) && rule.action == HLAction::BeginScope(st.scopes[k].id)
                },
                _ => false,
            })
        }),
{
    lemma_find_scope_range(st.scopes, st.scope_name);
    let si = find_scope(st.scopes, st.scope_name)->0;
    let st2 = hl_add_rule(st, values, fields, p)->0;
    assert(st2.scopes[si].rules.drop_last() =~= st.scopes[si].rules);
}

/// Setting default colours: the current scope, which had none, gets as
/// default colours those its object's `color` and `background` fields give
/// (none where the field is missing); nothing else changes.
pub proof fn lemma_default_takes_its_fields(st: HlState, values: Seq<GonValue>, fields: Seq<(Vec<u8>, usize)>)
    requires
        hl_default(st, values, fields) is Some,
    ensures
        ({
            let st2 = hl_default(st, values, fields)->0;
            let si = find_scope(st.scopes, st.scope_name)->0;
            let d = st2.scopes[si].default;
            &&& 0 <= si < st.scopes.len()
            &&& st.scopes[si].name == st.scope_name
            &&& st.scopes[si].default is None
            &&& get_field(fields, match_word()) is None
            &&& get_field(fields, scope_word()) is None
            &&& st2.scopes.len() == st.scopes.len()
            &&& st2.scopes[si].rules == st.scopes[si].rules
            &&& st2.scopes[si].name == st.scopes[si].name
            &&& st2.scopes[si].id == st.scopes[si].id
            &&& forall|k: int| 0 <= k < st.scopes.len() && k != si ==> #[trigger] st2.scopes[k] == st.scopes[k]
            &&& st2.regexes == st.regexes
            &&& st2.variables == st.variables
            &&& st2.scope_name == st.scope_name
            &&& d matches Some(d) && {
                &&& (get_field(fields, color_word()) matches Some(i) ==> i < values.len() && color_of(
                    st.variables,
                    values[i as int],
                ) == d.color && d.color is Some)
                &&& (get_field(fields, color_word()) is None ==> d.color is None)
                &&& (get_field(fields, background_word()) matches Some(i) ==> i < values.len()
                    && color_of(st.variables, values[i as int]) == d.background && d.background is Some)
                &&& (get_field(fields, background_word()) is None ==> d.background is None)
            }
        }),
{
    lemma_find_scope_range(st.scopes, st.scope_name);
}

/// Defining a variable: the variable, which was not defined, is added at
/// the end with colour `c`; nothing else changes.
pub proof fn lemma_variable_added(st: HlState, name: Seq<u8>, c: Option<Rgb>)
    requires
        hl_variable(st, name, c) is Some,
    ensures
        c is Some,
        find_var(st.variables, name) is None,
        hl_variable(st, name, c)->0 == (HlState { variables: st.variables.push((name, c->0)), ..st }),
        find_var(hl_variable(st, name, c)->0.variables, name) == c,
{
    let vs = st.variables.push((name, c->0));
    assert(vs.drop_last() =~= st.variables);
}

/// A scope is found only at a position of the list, holding its name.
proof fn lemma_find_scope_range(s: Seq<ScopeModel>, name: Seq<u8>)
    ensures
        find_scope(s, name) matches Some(i) ==> 0 <= i < s.len() && s[i].name == name,
    decreases s.len(),
{
    if s.len() > 0 {
        lemma_find_scope_range(s.drop_last(), name);
    }
}

/// Reading a rule: its `match` field must be a bare string.
pub open spec fn hl_rule(st: HlState, values: Seq<GonValue>, fields: Seq<(Vec<u8>, usize)>) -> Option<HlState> {
    match get_field(fields, match_word()) {
        None => None,
        Some(pi) => if pi < values.len() {
            match values[pi as int] {
                GonValue::Str(p) => hl_add_rule(st, values, fields, p@),
                _ => None,
            }
        } else {
            None
        },
    }
}

/// Defining the variable `name` with colour `c`; `None` where there is no
/// colour or the variable is there already.
pub open spec fn hl_variable(st: HlState, name: Seq<u8>, c: Option<Rgb>) -> Option<HlState> {
    match c {
        None => None,
        Some(c) => if find_var(st.variables, name) is Some {
            None
        } else {
            Some(HlState { variables: st.variables.push((name, c)), ..st })
        },
    }
}

/// Reading a field whose value is the text `b`.
pub open spec fn hl_text(st: HlState, name: Seq<u8>, b: Seq<u8>) -> Option<HlState> {
    if b == scope_word() {
        Some(HlState { scope_name: name, ..st })
    } else {
        hl_variable(st, name, find_var(st.variables, b))
    }
}

/// Reading the field `name` with value `value`; `None` where the
/// description is refused.
pub open spec fn hl_step(st: HlState, name: Seq<u8>, value: GonValue) -> Option<HlState> {
    match value {
        GonValue::Object { values, fields } => if name == default_word() {
            hl_default(st, values@, fields@)
        } else {
            hl_rule(st, values@, fields@)
        },
        GonValue::Array(_) => hl_variable(st, name, color_of(st.variables, value)),
        GonValue::Str(b) => hl_text(st, name, b@),
        GonValue::String(b) => hl_text(st, name, b@),
    }
}

/// Reading the first `n` fields from state `st`.
pub open spec fn hl_run(names: Seq<Seq<u8>>, values: Seq<GonValue>, n: nat, st: HlState) -> Option<HlState>
    decreases n,
{
    if n == 0 {
        Some(st)
    } else {
        match hl_run(names, values, (n - 1) as nat, st) {
            Some(s) => hl_step(s, names[n - 1], values[n - 1]),
            None => None,
        }
    }
}

/// The names of an object's fields, in order.
pub open spec fn field_names(fields: Seq<(Vec<u8>, usize)>) -> Seq<Seq<u8>> {
    fields.map_values(|f: (Vec<u8>, usize)| f.0@)
}

/// The scope every description starts with.
pub open spec fn default_scope() -> ScopeModel {
    ScopeModel { name: default_word(), id: 0, default: None, rules: Seq::empty() }
}

/// Whether the first scope, the default one, has default colours with
/// both a text colour and a background.
pub open spec fn default_complete(scopes: Seq<ScopeModel>) -> bool {
    &&& scopes.len() > 0
    &&& scopes[0].default matches Some(d)
    &&& d.color is Some
    &&& d.background is Some
}

/// The highlighter a description gives, or `None` where it is refused: it
/// must be an object, whose scopes are declared first and whose fields are
/// then read in order; the default scope must end up with both default
/// colours.
pub open spec fn highlighter_of(v: GonValue) -> Option<HighlighterModel> {
    match v {
        GonValue::Object { values, fields } => if fields@.len() != values@.len() {
            None
        } else {
            let names = field_names(fields@);
            let scopes = declare_scopes(names, values@, values@.len(), seq![default_scope()]);
            let start = HlState {
                scopes,
                regexes: Seq::empty(),
                variables: Seq::empty(),
                scope_name: default_word(),
            };
            match hl_run(names, values@, values@.len(), start) {
                Some(s) => if default_complete(s.scopes) {
                    Some(HighlighterModel { scopes: s.scopes, regexes: s.regexes, variables: s.variables })
                } else {
                    None
                },
                None => None,
            }
        },
        _ => None,
    }
}

/// The variables as values.
pub open spec fn vars_model(vars: Seq<(Vec<u8>, Rgb)>) -> Seq<(Seq<u8>, Rgb)> {
    vars.map_values(|v: (Vec<u8>, Rgb)| (v.0@, v.1))
}

/// The scopes as values.
pub open spec fn scopes_model(scopes: Seq<Scope>) -> Seq<ScopeModel> {
    scopes.map_values(|s: Scope| s@)
}

/// Reads a byte written in decimal, as `u8::from_str` does.
fn read_u8(s: &Vec<u8>) -> (r: Option<u8>)
    ensures
        r == parse_u8(s@),
{
    let n = s.len();
    let start: usize = if n > 0 && s[0] == '+' as u8 {
        1
    } else {
        0
    };
    let ghost ds = if s@.len() > 0 && s@[0] == '+' as u8 {
        s@.drop_first()
    } else {
        s@
    };
    proof {
        assert(ds =~= s@.skip(start as int));
    }
    if start >= n {
        return None;
    }
    let mut acc: u32 = 0;
    let mut over = false;
    let mut i = start;
    proof {
        assert(s@.subrange(start as int, start as int) =~= Seq::<u8>::empty());
    }
    while i < n
        invariant
            start <= i <= n,
            n == s@.len(),
            ds =~= s@.skip(start as int),
            parse_u8(s@) == (if ds.len() > 0 && all_digits(ds) && dec_value(ds) <= 255 {
                Some(dec_value(ds) as u8)
            } else {
                None
            }),
            all_digits(s@.subrange(start as int, i as int)),
            over == (dec_value(s@.subrange(start as int, i as int)) > 255),
            !over ==> acc == dec_value(s@.subrange(start as int, i as int)),
        decreases n - i,
    {
        let b = s[i];
        if b < '0' as u8 || b > '9' as u8 {
            proof {
                assert(ds[i - start] == b);
                assert(!all_digits(ds));
            }
            return None;
        }
        let ghost pre = s@.subrange(start as int, i as int);
        proof {
            assert(s@.subrange(start as int, i + 1).drop_last() =~= pre);
            assert(s@.subrange(start as int, i + 1).last() == b);
        }
        if !over {
            acc = acc * 10 + (b - '0' as u8) as u32;
            over = acc > 255;
        }
        i += 1;
    }
    proof {
        assert(s@.subrange(start as int, n as int) =~= ds);
    }
    if over {
        None
    } else {
        Some(acc as u8)
    }
}

/// The number of one channel of a colour.
fn channel_exec(v: &GonValue) -> (r: Option<u8>)
    ensures
        r == channel(*v),
{
    match v {
        GonValue::Str(b) => read_u8(b),
        _ => None,
    }
}

/// The colour of the first variable named `name`.
fn find_var_exec(vars: &Vec<(Vec<u8>, Rgb)>, name: &[u8]) -> (r: Option<Rgb>)
    ensures
        r == find_var(vars_model(vars@), name@),
{
    let ghost m = vars_model(vars@);
    let mut i: usize = 0;
    proof {
        assert(m.take(0) =~= Seq::<(Seq<u8>, Rgb)>::empty());
    }
    while i < vars.len()
        invariant
            i <= vars@.len(),
            m == vars_model(vars@),
            find_var(m.take(i as int), name@) is None,
        decreases vars@.len() - i,
    {
        proof {
            assert(m.take(i + 1).drop_last() =~= m.take(i as int));
            assert(m.take(i + 1).last() == m[i as int]);
        }
        if bytes_eq(&vars[i].0, name) {
            proof {
                assert(m[i as int] == (vars@[i as int].0@, vars@[i as int].1));
                assert(find_var(m.take(i + 1), name@) == Some(vars@[i as int].1));
                lemma_find_var_prefix(m, i + 1, name@);
            }
            return Some(vars[i].1);
        }
        i += 1;
    }
    proof {
        assert(m.take(vars@.len() as int) =~= m);
    }
    None
}

/// The position of the first scope named `name`.
fn find_scope_exec(scopes: &Vec<Scope>, name: &[u8]) -> (r: Option<usize>)
    ensures
        match find_scope(scopes_model(scopes@), name@) {
            Some(i) => r matches Some(j) && j == i,
            None => r is None,
        },
        r matches Some(i) ==> i < scopes@.len(),
{
    let ghost m = scopes_model(scopes@);
    let mut i: usize = 0;
    proof {
        assert(m.take(0) =~= Seq::<ScopeModel>::empty());
    }
    while i < scopes.len()
        invariant
            i <= scopes@.len(),
            m == scopes_model(scopes@),
            find_scope(m.take(i as int), name@) is None,
        decreases scopes@.len() - i,
    {
        proof {
            assert(m.take(i + 1).drop_last() =~= m.take(i as int));
            assert(m.take(i + 1).last() == m[i as int]);
        }
        if bytes_eq(&scopes[i].name, name) {
            proof {
                assert(find_scope(m.take(i + 1), name@) == Some(i as int));
                lemma_find_scope_prefix(m, i as int, name@);
            }
            return Some(i);
        }
        i += 1;
    }
    proof {
        assert(m.take(scopes@.len() as int) =~= m);
    }
    None
}

/// A scope found in a prefix is found at the same place in the whole.
proof fn lemma_find_scope_prefix(m: Seq<ScopeModel>, i: int, name: Seq<u8>)
    requires
        0 <= i < m.len(),
        find_scope(m.take(i + 1), name) == Some(i),
    ensures
        find_scope(m, name) == Some(i),
    decreases m.len(),
{
    if m.len() > i + 1 {
        assert(m.drop_last().take(i + 1) =~= m.take(i + 1));
        lemma_find_scope_prefix(m.drop_last(), i, name);
    } else {
        assert(m.take(i + 1) =~= m);
    }
}

/// A variable found in a prefix is found with the same colour in the whole.
proof fn lemma_find_var_prefix(m: Seq<(Seq<u8>, Rgb)>, i: int, name: Seq<u8>)
    requires
        0 <= i <= m.len(),
        find_var(m.take(i), name) is Some,
    ensures
        find_var(m, name) == find_var(m.take(i), name),
    decreases m.len(),
{
    if m.len() > i {
        assert(m.drop_last().take(i) =~= m.take(i));
        lemma_find_var_prefix(m.drop_last(), i, name);
    } else {
        assert(m.take(i) =~= m);
    }
}

/// Where the value of an object's field `name` is: the position the last
/// field of that name gives.
fn get_field_exec(fields: &Vec<(Vec<u8>, usize)>, name: &[u8]) -> (r: Option<usize>)
    ensures
        r == get_field(fields@, name@),
{
    let mut i = fields.len();
    proof {
        assert(fields@.take(fields@.len() as int) =~= fields@);
    }
    while i > 0
        invariant
            i <= fields@.len(),
            get_field(fields@, name@) == get_field(fields@.take(i as int), name@),
        decreases i,
    {
        proof {
            assert(fields@.take(i as int).drop_last() =~= fields@.take(i - 1));
            assert(fields@.take(i as int).last() == fields@[i - 1]);
        }
        if bytes_eq(&fields[i - 1].0, name) {
            return Some(fields[i - 1].1);
        }
        i -= 1;
    }
    None
}

/// The colour a value gives.
fn color_of_exec(vars: &Vec<(Vec<u8>, Rgb)>, v: &GonValue) -> (r: Option<Rgb>)
    ensures
        r == color_of(vars_model(vars@), *v),
{
    match v {
        GonValue::Array(vals) => {
            if vals.len() != 3 {
                return None;
            }
            match (channel_exec(&vals[0]), channel_exec(&vals[1]), channel_exec(&vals[2])) {
                (Some(r), Some(g), Some(b)) => Some(Rgb { r, g, b }),
                _ => None,
            }
        },
        GonValue::Str(b) => find_var_exec(vars, b.as_slice()),
        GonValue::String(b) => find_var_exec(vars, b.as_slice()),
        _ => None,
    }
}

/// The colour an object's field `name` gives, if the field is there.
fn field_color_exec(
    vars: &Vec<(Vec<u8>, Rgb)>,
    values: &Vec<GonValue>,
    fields: &Vec<(Vec<u8>, usize)>,
    name: &[u8],
) -> (r: Result<Option<Rgb>, ()>)
    ensures
        r == field_color(vars_model(vars@), values@, fields@, name@),
{
    match get_field_exec(fields, name) {
        None => Ok(None),
        Some(i) => {
            if i < values.len() {
                match color_of_exec(vars, &values[i]) {
                    Some(c) => Ok(Some(c)),
                    None => Err(()),
                }
            } else {
                Err(())
            }
        },
    }
}

/// The bytes of `scope`.
fn scope_bytes() -> (r: Vec<u8>)
    ensures
        r@ == scope_word(),
{
    let r = vec!['s' as u8, 'c' as u8, 'o' as u8, 'p' as u8, 'e' as u8];
    proof {
        assert(r@ =~= scope_word());
    }
    r
}

/// The bytes of `default`.
fn default_bytes() -> (r: Vec<u8>)
    ensures
        r@ == default_word(),
{
    let r = vec!['d' as u8, 'e' as u8, 'f' as u8, 'a' as u8, 'u' as u8, 'l' as u8, 't' as u8];
    proof {
        assert(r@ =~= default_word());
    }
    r
}

/// The bytes of `end`.
fn end_bytes() -> (r: Vec<u8>)
    ensures
        r@ == end_word(),
{
    let r = vec!['e' as u8, 'n' as u8, 'd' as u8];
    proof {
        assert(r@ =~= end_word());
    }
    r
}

/// The bytes of `color`.
fn color_bytes() -> (r: Vec<u8>)
    ensures
        r@ == color_word(),
{
    let r = vec!['c' as u8, 'o' as u8, 'l' as u8, 'o' as u8, 'r' as u8];
    proof {
        assert(r@ =~= color_word());
    }
    r
}

/// The bytes of `background`.
fn background_bytes() -> (r: Vec<u8>)
    ensures
        r@ == background_word(),
{
    let r = vec!['b' as u8, 'a' as u8, 'c' as u8, 'k' as u8, 'g' as u8, 'r' as u8, 'o' as u8, 'u' as u8, 'n' as u8, 'd' as u8];
    proof {
        assert(r@ =~= background_word());
    }
    r
}

/// The bytes of `match`.
fn match_bytes() -> (r: Vec<u8>)
    ensures
        r@ == match_word(),
{
    let r = vec!['m' as u8, 'a' as u8, 't' as u8, 'c' as u8, 'h' as u8];
    proof {
        assert(r@ =~= match_word());
    }
    r
}

/// A copy of the bytes `b`.
fn copy_bytes(b: &Vec<u8>) -> (r: Vec<u8>)
    ensures
        r@ == b@,
{
    vstd::slice::slice_to_vec(b.as_slice())
}

/// Declares the scopes of the fields, in order.
fn declare(fields: &Vec<(Vec<u8>, usize)>, values: &Vec<GonValue>, scopes: &mut Vec<Scope>)
    requires
        fields@.len() == values@.len(),
    ensures
        scopes_model(final(scopes)@) == declare_scopes(
            field_names(fields@),
            values@,
            values@.len(),
            scopes_model(old(scopes)@),
        ),
{
    let ghost names = field_names(fields@);
    let ghost s0 = scopes_model(scopes@);
    let scope = scope_bytes();
    let mut i: usize = 0;
    while i < values.len()
        invariant
            i <= values@.len(),
            fields@.len() == values@.len(),
            names == field_names(fields@),
            s0 == scopes_model(old(scopes)@),
            scope@ == scope_word(),
            scopes_model(scopes@) == declare_scopes(names, values@, i as nat, s0),
        decreases values@.len() - i,
    {
        let is_scope = match &values[i] {
            GonValue::Str(b) => bytes_eq(b, scope.as_slice()),
            GonValue::String(b) => bytes_eq(b, scope.as_slice()),
            _ => false,
        };
        proof {
            assert(names[i as int] == fields@[i as int].0@);
            assert(is_scope == (text_of(values@[i as int]) == Some(scope_word())));
        }
        if is_scope {
            let found = find_scope_exec(scopes, fields[i].0.as_slice());
            if found.is_none() {
                let ghost prev = scopes_model(scopes@);
                let id = scopes.len();
                scopes.push(Scope { name: copy_bytes(&fields[i].0), id, default: None, rules: Vec::new() });
                proof {
                    assert(scopes_model(scopes@) =~= prev.push(
                        ScopeModel { name: names[i as int], id: prev.len() as usize, default: None, rules: Seq::empty() },
                    ));
                }
            }
        }
        i += 1;
    }
}

/// Where reading stands, as a value.
pub open spec fn state_of(h: Highlighter, scope_name: Seq<u8>) -> HlState {
    HlState {
        scopes: scopes_model(h.scopes@),
        regexes: h.regexes@,
        variables: vars_model(h.variables@),
        scope_name,
    }
}

/// What a rule's `scope` field makes it do.
fn rule_action_exec(
    scopes: &Vec<Scope>,
    values: &Vec<GonValue>,
    fields: &Vec<(Vec<u8>, usize)>,
    st: Ghost<HlState>,
) -> (r: Option<HLAction>)
    requires
        st@.scopes == scopes_model(scopes@),
    ensures
        r == rule_action(st@, values@, fields@),
{
    let scope = scope_bytes();
    match get_field_exec(fields, scope.as_slice()) {
        None => Some(HLAction::Nothing),
        Some(ai) => {
            if ai >= values.len() {
                return None;
            }
            match &values[ai] {
                GonValue::Str(a) => {
                    let end = end_bytes();
                    if bytes_eq(a, end.as_slice()) {
                        Some(HLAction::EndScope)
                    } else {
                        match find_scope_exec(scopes, a.as_slice()) {
                            Some(k) => {
                                proof {
                                    assert(st@.scopes[k as int] == scopes@[k as int]@);
                                }
                                Some(HLAction::BeginScope(scopes[k].id))
                            },
                            None => None,
                        }
                    }
                },
                _ => None,
            }
        },
    }
}

/// Adds the bytes `p` at the end of `out`.
fn push_all(out: &mut Vec<u8>, p: &Vec<u8>)
    ensures
        final(out)@ == old(out)@ + p@,
{
    let mut i: usize = 0;
    while i < p.len()
        invariant
            i <= p@.len(),
            out@ == old(out)@ + p@.take(i as int),
        decreases p@.len() - i,
    {
        out.push(p[i]);
        proof {
            assert(out@ =~= old(out)@ + p@.take(i + 1));
        }
        i += 1;
    }
    proof {
        assert(p@.take(p@.len() as int) =~= p@);
    }
}

/// Sets the current scope's default colours from an object.
fn step_default(
    h: &mut Highlighter,
    scope_name: &Vec<u8>,
    values: &Vec<GonValue>,
    fields: &Vec<(Vec<u8>, usize)>,
) -> (ok: bool)
    ensures
        match hl_default(state_of(*old(h), scope_name@), values@, fields@) {
            Some(st) => ok && state_of(*final(h), scope_name@) == st,
            None => !ok,
        },
{
    let ghost st = state_of(*h, scope_name@);
    let matcher = match_bytes();
    let scope = scope_bytes();
    if get_field_exec(fields, matcher.as_slice()).is_some() || get_field_exec(fields, scope.as_slice()).is_some() {
        return false;
    }
    let color = color_bytes();
    let background = background_bytes();
    let si = match find_scope_exec(&h.scopes, scope_name.as_slice()) {
        Some(si) => si,
        None => {
            return false;
        },
    };
    let c = field_color_exec(&h.variables, values, fields, color.as_slice());
    let b = field_color_exec(&h.variables, values, fields, background.as_slice());
    let (c, b) = match (c, b) {
        (Ok(c), Ok(b)) => (c, b),
        _ => {
            return false;
        },
    };
    proof {
        assert(st.scopes[si as int] == h.scopes@[si as int]@);
    }
    if h.scopes[si].default.is_some() {
        return false;
    }
    let ghost before = h.scopes@;
    let mut sc = h.scopes.remove(si);
    sc.default = Some(DefaultRule { color: c, background: b });
    let ghost new_sc = sc@;
    h.scopes.insert(si, sc);
    proof {
        assert(new_sc =~= (ScopeModel {
            default: Some(DefaultRule { color: c, background: b }),
            ..st.scopes[si as int]
        }));
        assert(scopes_model(h.scopes@) =~= scopes_model(before).update(si as int, new_sc));
        assert(state_of(*h, scope_name@) =~= hl_default(st, values@, fields@)->0);
    }
    true
}

/// Adds to the current scope the rule of an object whose pattern is `p`.
fn add_rule(
    h: &mut Highlighter,
    scope_name: &Vec<u8>,
    values: &Vec<GonValue>,
    fields: &Vec<(Vec<u8>, usize)>,
    p: &Vec<u8>,
) -> (ok: bool)
    ensures
        match hl_add_rule(state_of(*old(h), scope_name@), values@, fields@, p@) {
            Some(st) => ok && state_of(*final(h), scope_name@) == st,
            None => !ok,
        },
{
    let ghost st = state_of(*h, scope_name@);
    let color = color_bytes();
    let background = background_bytes();
    let c = field_color_exec(&h.variables, values, fields, color.as_slice());
    let b = field_color_exec(&h.variables, values, fields, background.as_slice());
    let (c, b) = match (c, b) {
        (Ok(c), Ok(b)) => (c, b),
        _ => {
            return false;
        },
    };
    let action = match rule_action_exec(&h.scopes, values, fields, Ghost(st)) {
        Some(a) => a,
        None => {
            return false;
        },
    };
    let si = match find_scope_exec(&h.scopes, scope_name.as_slice()) {
        Some(si) => si,
        None => {
            return false;
        },
    };
    let pattern_begin = p.len();
    push_all(&mut h.regexes, p);
    let pattern_end = h.regexes.len();
    let rule = Rule { pattern_begin, pattern_end, color: c, background: b, action };
    let ghost before = h.scopes@;
    let mut sc = h.scopes.remove(si);
    sc.rules.push(rule);
    let ghost new_sc = sc@;
    h.scopes.insert(si, sc);
    proof {
        assert(st.scopes[si as int] == before[si as int]@);
        assert(new_sc =~= (ScopeModel { rules: st.scopes[si as int].rules.push(rule), ..st.scopes[si as int] }));
        assert(scopes_model(h.scopes@) =~= scopes_model(before).update(si as int, new_sc));
        assert(state_of(*h, scope_name@) =~= hl_add_rule(st, values@, fields@, p@)->0);
    }
    true
}

/// Reads a rule: an object whose `match` field is a bare string.
fn step_rule(
    h: &mut Highlighter,
    scope_name: &Vec<u8>,
    values: &Vec<GonValue>,
    fields: &Vec<(Vec<u8>, usize)>,
) -> (ok: bool)
    ensures
        match hl_rule(state_of(*old(h), scope_name@), values@, fields@) {
            Some(st) => ok && state_of(*final(h), scope_name@) == st,
            None => !ok,
        },
{
    let matcher = match_bytes();
    let pi = match get_field_exec(fields, matcher.as_slice()) {
        Some(pi) => pi,
        None => {
            return false;
        },
    };
    if pi >= values.len() {
        return false;
    }
    match &values[pi] {
        GonValue::Str(p) => add_rule(h, scope_name, values, fields, p),
        _ => false,
    }
}

/// Defines the variable `name` with colour `c`, if there is one.
fn add_variable(h: &mut Highlighter, name: &Vec<u8>, c: Option<Rgb>, sn: Ghost<Seq<u8>>) -> (ok: bool)
    ensures
        match hl_variable(state_of(*old(h), sn@), name@, c) {
            Some(st) => ok && state_of(*final(h), sn@) == st,
            None => !ok,
        },
{
    let c = match c {
        Some(c) => c,
        None => {
            return false;
        },
    };
    if find_var_exec(&h.variables, name.as_slice()).is_some() {
        return false;
    }
    let ghost before = h.variables@;
    h.variables.push((copy_bytes(name), c));
    proof {
        assert(vars_model(h.variables@) =~= vars_model(before).push((name@, c)));
        assert(state_of(*h, sn@) =~= hl_variable(state_of(*old(h), sn@), name@, Some(c))->0);
    }
    true
}

/// Reads a field `name` whose value is the text `b`: `scope` makes the
/// field's name the current scope; another text names the variable whose
/// colour a new variable takes.
fn step_text(h: &mut Highlighter, scope_name: &mut Vec<u8>, name: &Vec<u8>, b: &Vec<u8>) -> (ok: bool)
    ensures
        match hl_text(state_of(*old(h), old(scope_name)@), name@, b@) {
            Some(st) => ok && state_of(*final(h), final(scope_name)@) == st,
            None => !ok,
        },
{
    let scope = scope_bytes();
    if bytes_eq(b, scope.as_slice()) {
        *scope_name = copy_bytes(name);
        proof {
            assert(state_of(*h, scope_name@) =~= hl_text(state_of(*old(h), old(scope_name)@), name@, b@)->0);
        }
        return true;
    }
    let c = find_var_exec(&h.variables, b.as_slice());
    add_variable(h, name, c, Ghost(scope_name@))
}

/// Reads the field `name` with value `value`; false where the description
/// is refused.
fn step(h: &mut Highlighter, scope_name: &mut Vec<u8>, name: &Vec<u8>, value: &GonValue) -> (ok: bool)
    ensures
        match hl_step(state_of(*old(h), old(scope_name)@), name@, *value) {
            Some(st) => ok && state_of(*final(h), final(scope_name)@) == st,
            None => !ok,
        },
{
    match value {
        GonValue::Object { values, fields } => {
            let default = default_bytes();
            if bytes_eq(name, default.as_slice()) {
                step_default(h, scope_name, values, fields)
            } else {
                step_rule(h, scope_name, values, fields)
            }
        },
        GonValue::Array(_) => {
            let c = color_of_exec(&h.variables, value);
            add_variable(h, name, c, Ghost(scope_name@))
        },
        GonValue::Str(b) => step_text(h, scope_name, name, b),
        GonValue::String(b) => step_text(h, scope_name, name, b),
    }
}

/// Reading stays refused once it is.
proof fn lemma_run_none(names: Seq<Seq<u8>>, values: Seq<GonValue>, n: nat, m: nat, st: HlState)
    requires
        n <= m,
        hl_run(names, values, n, st) is None,
    ensures
        hl_run(names, values, m, st) is None,
    decreases m,
{
    if m > n {
        lemma_run_none(names, values, n, (m - 1) as nat, st);
    }
}

/// Values that hold the same, item by item.
spec fn same_values(xs: Seq<GonValue>, ys: Seq<GonValue>) -> bool {
    &&& xs.len() == ys.len()
    &&& forall|m: int| 0 <= m < xs.len() ==> same_value(#[trigger] xs[m], ys[m])
}

/// Fields with the same names and positions, in order.
spec fn same_fields(fx: Seq<(Vec<u8>, usize)>, fy: Seq<(Vec<u8>, usize)>) -> bool {
    &&& fx.len() == fy.len()
    &&& forall|m: int| 0 <= m < fx.len() ==> (#[trigger] fx[m]).0@ == fy[m].0@ && fx[m].1 == fy[m].1
}

proof fn lemma_same_color(vars: Seq<(Seq<u8>, Rgb)>, a: GonValue, b: GonValue)
    requires
        same_value(a, b),
    ensures
        color_of(vars, a) == color_of(vars, b),
        text_of(a) == text_of(b),
{
    if let GonValue::Array(xs) = a {
        if let GonValue::Array(ys) = b {
            if xs@.len() == 3 {
                assert(same_value(xs@[0], ys@[0]));
                assert(same_value(xs@[1], ys@[1]));
                assert(same_value(xs@[2], ys@[2]));
            }
        }
    }
}

proof fn lemma_same_get_field(fx: Seq<(Vec<u8>, usize)>, fy: Seq<(Vec<u8>, usize)>, name: Seq<u8>)
    requires
        same_fields(fx, fy),
    ensures
        get_field(fx, name) == get_field(fy, name),
    decreases fx.len(),
{
    if fx.len() > 0 {
        assert(fx[fx.len() - 1].0@ == fy[fy.len() - 1].0@);
        assert forall|m: int| 0 <= m < fx.drop_last().len() implies (#[trigger] fx.drop_last()[m]).0@
            == fy.drop_last()[m].0@ && fx.drop_last()[m].1 == fy.drop_last()[m].1 by {
            assert(fx[m].0@ == fy[m].0@);
        }
        lemma_same_get_field(fx.drop_last(), fy.drop_last(), name);
    }
}

proof fn lemma_same_field_color(
    vars: Seq<(Seq<u8>, Rgb)>,
    xs: Seq<GonValue>,
    ys: Seq<GonValue>,
    fx: Seq<(Vec<u8>, usize)>,
    fy: Seq<(Vec<u8>, usize)>,
    name: Seq<u8>,
)
    requires
        same_values(xs, ys),
        same_fields(fx, fy),
    ensures
        field_color(vars, xs, fx, name) == field_color(vars, ys, fy, name),
{
    lemma_same_get_field(fx, fy, name);
    if let Some(i) = get_field(fx, name) {
        if i < xs.len() {
            lemma_same_color(vars, xs[i as int], ys[i as int]);
        }
    }
}

proof fn lemma_same_object(
    st: HlState,
    xs: Seq<GonValue>,
    ys: Seq<GonValue>,
    fx: Seq<(Vec<u8>, usize)>,
    fy: Seq<(Vec<u8>, usize)>,
)
    requires
        same_values(xs, ys),
        same_fields(fx, fy),
    ensures
        hl_default(st, xs, fx) == hl_default(st, ys, fy),
        hl_rule(st, xs, fx) == hl_rule(st, ys, fy),
{
    lemma_same_get_field(fx, fy, match_word());
    lemma_same_get_field(fx, fy, scope_word());
    lemma_same_field_color(st.variables, xs, ys, fx, fy, color_word());
    lemma_same_field_color(st.variables, xs, ys, fx, fy, background_word());
    if let Some(ai) = get_field(fx, scope_word()) {
        if ai < xs.len() {
            assert(same_value(xs[ai as int], ys[ai as int]));
        }
    }
    assert(rule_action(st, xs, fx) == rule_action(st, ys, fy));
    if let Some(pi) = get_field(fx, match_word()) {
        if pi < xs.len() {
            assert(same_value(xs[pi as int], ys[pi as int]));
        }
    }
}

proof fn lemma_same_step(st: HlState, name: Seq<u8>, a: GonValue, b: GonValue)
    requires
        same_value(a, b),
    ensures
        hl_step(st, name, a) == hl_step(st, name, b),
{
    lemma_same_color(st.variables, a, b);
    if let GonValue::Object { values: xs, fields: fx } = a {
        if let GonValue::Object { values: ys, fields: fy } = b {
            lemma_same_object(st, xs@, ys@, fx@, fy@);
        }
    }
}

proof fn lemma_same_declare(names: Seq<Seq<u8>>, xs: Seq<GonValue>, ys: Seq<GonValue>, n: nat, s: Seq<ScopeModel>)
    requires
        same_values(xs, ys),
        n <= xs.len(),
    ensures
        declare_scopes(names, xs, n, s) == declare_scopes(names, ys, n, s),
    decreases n,
{
    if n > 0 {
        lemma_same_declare(names, xs, ys, (n - 1) as nat, s);
        lemma_same_color(Seq::empty(), xs[n - 1], ys[n - 1]);
    }
}

proof fn lemma_same_run(names: Seq<Seq<u8>>, xs: Seq<GonValue>, ys: Seq<GonValue>, n: nat, st: HlState)
    requires
        same_values(xs, ys),
        n <= xs.len(),
    ensures
        hl_run(names, xs, n, st) == hl_run(names, ys, n, st),
    decreases n,
{
    if n > 0 {
        lemma_same_run(names, xs, ys, (n - 1) as nat, st);
        if let Some(s) = hl_run(names, xs, (n - 1) as nat, st) {
            lemma_same_step(s, names[n - 1], xs[n - 1], ys[n - 1]);
        }
    }
}

/// Two values that hold the same give the same highlighter.
pub proof fn lemma_same_highlighter(a: GonValue, b: GonValue)
    requires
        same_value(a, b),
    ensures
        highlighter_of(a) == highlighter_of(b),
{
    if let GonValue::Object { values: xs, fields: fx } = a {
        if let GonValue::Object { values: ys, fields: fy } = b {
            assert(field_names(fx@) =~= field_names(fy@));
            let names = field_names(fx@);
            lemma_same_declare(names, xs@, ys@, xs@.len(), seq![default_scope()]);
            let start = HlState {
                scopes: declare_scopes(names, xs@, xs@.len(), seq![default_scope()]),
                regexes: Seq::empty(),
                variables: Seq::empty(),
                scope_name: default_word(),
            };
            lemma_same_run(names, xs@, ys@, xs@.len(), start);
        }
    }
}

impl Highlighter {
    /// The highlighter a parsed GON description gives, or an error exactly
    /// where `highlighter_of` refuses the description.
    pub fn from_gon_value(v: &GonValue) -> (r: Result<Highlighter, HighlightError>)
        ensures
            match highlighter_of(*v) {
                Some(m) => r matches Ok(h) && h@ == m,
                None => r is Err,
            },
    {
        match v {
            GonValue::Object { values, fields } => {
                if fields.len() != values.len() {
                    return Err(HighlightError);
                }
                let mut scopes: Vec<Scope> = Vec::new();
                scopes.push(Scope { name: default_bytes(), id: 0, default: None, rules: Vec::new() });
                proof {
                    assert(scopes_model(scopes@) =~= seq![default_scope()]);
                }
                declare(fields, values, &mut scopes);
                let mut h = Highlighter { scopes, regexes: Vec::new(), variables: Vec::new() };
                let mut scope_name = default_bytes();
                let ghost names = field_names(fields@);
                let ghost start = HlState {
                    scopes: scopes_model(h.scopes@),
                    regexes: Seq::empty(),
                    variables: Seq::empty(),
                    scope_name: default_word(),
                };
                proof {
                    assert(h.regexes@ =~= Seq::<u8>::empty());
                    assert(vars_model(h.variables@) =~= Seq::<(Seq<u8>, Rgb)>::empty());
                    assert(state_of(h, scope_name@) == start);
                }
                let mut i: usize = 0;
                while i < values.len()
                    invariant
                        i <= values@.len(),
                        fields@.len() == values@.len(),
                        names == field_names(fields@),
                        hl_run(names, values@, i as nat, start) == Some(state_of(h, scope_name@)),
                        *v == (GonValue::Object { values: *values, fields: *fields }),
                        start == (HlState {
                            scopes: declare_scopes(names, values@, values@.len() as nat, seq![default_scope()]),
                            regexes: Seq::empty(),
                            variables: Seq::empty(),
                            scope_name: default_word(),
                        }),
                    decreases values@.len() - i,
                {
                    proof {
                        assert(names[i as int] == fields@[i as int].0@);
                    }
                    let ghost pre = state_of(h, scope_name@);
                    if !step(&mut h, &mut scope_name, &fields[i].0, &values[i]) {
                        proof {
                            assert(hl_step(pre, names[i as int], values@[i as int]) is None);
                            assert(hl_run(names, values@, (i + 1) as nat, start) is None);
                            lemma_run_none(names, values@, (i + 1) as nat, values@.len(), start);
                            assert(hl_run(names, values@, values@.len(), start) is None);
                            assert(highlighter_of(*v) is None);
                        }
                        return Err(HighlightError);
                    }
                    i += 1;
                }
                let complete = h.scopes.len() > 0 && match h.scopes[0].default {
                    Some(d) => d.color.is_some() && d.background.is_some(),
                    None => false,
                };
                proof {
                    if h.scopes@.len() > 0 {
                        assert(scopes_model(h.scopes@)[0] == h.scopes@[0]@);
                    }
                }
                if !complete {
                    return Err(HighlightError);
                }
                proof {
                    assert(h@ =~~= (HighlighterModel {
                        scopes: state_of(h, scope_name@).scopes,
                        regexes: state_of(h, scope_name@).regexes,
                        variables: state_of(h, scope_name@).variables,
                    }));
                }
                Ok(h)
            },
            _ => Err(HighlightError),
        }
    }
}

} // verus!
