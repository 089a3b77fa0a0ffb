//! GON, a small configuration format: objects of named values in braces,
//! arrays of values in brackets, and strings, bare or quoted.
use vstd::prelude::*;
use vstd::string::StringSliceAdditionalSpecFns;

verus! {

/// A value of GON text.
#[derive(Debug)]
pub enum GonValue {
    /// The values of an object in order, and its fields: each name with the
    /// position of its value, in order; a later field of a name overrides
    /// an earlier one.
    Object { values: Vec<GonValue>, fields: Vec<(Vec<u8>, usize)> },
    Array(Vec<GonValue>),
    /// Text taken as it stands in the source.
    Str(Vec<u8>),
    /// Text read from a quoted string with escapes.
    String(Vec<u8>),
}

/// A token of GON text.
#[derive(Debug)]
pub enum Token {
    Str(Vec<u8>),
    String(Vec<u8>),
    Equal,
    Comma,
    Colon,
    OpenBrace,
    CloseBrace,
    OpenBracket,
    CloseBracket,
}

/// A token of GON text, as a value.
pub enum Tok {
    Str(Seq<u8>),
    String(Seq<u8>),
    Equal,
    Comma,
    Colon,
    OpenBrace,
    CloseBrace,
    OpenBracket,
    CloseBracket,
}

impl Token {
    /// This token as a value.
    pub open spec fn view(&self) -> Tok {
        match self {
            Token::Str(b) => Tok::Str(b@),
            Token::String(b) => Tok::String(b@),
            Token::Equal => Tok::Equal,
            Token::Comma => Tok::Comma,
            Token::Colon => Tok::Colon,
            Token::OpenBrace => Tok::OpenBrace,
            Token::CloseBrace => Tok::CloseBrace,
            Token::OpenBracket => Tok::OpenBracket,
            Token::CloseBracket => Tok::CloseBracket,
        }
    }
}

/// A run of tokens as values.
pub open spec fn toks_of(ts: Seq<Token>) -> Seq<Tok> {
    ts.map_values(|t: Token| t@)
}

/// The token of a symbol byte, and whether it is dropped: `=`, `,` and `:`
/// only separate and are dropped; braces and brackets are kept.
pub open spec fn symbol(b: u8) -> Option<(Tok, bool)> {
    if b == '=' as u8 {
        Some((Tok::Equal, true))
    } else if b == ',' as u8 {
        Some((Tok::Comma, true))
    } else if b == ':' as u8 {
        Some((Tok::Colon, true))
    } else if b == '{' as u8 {
        Some((Tok::OpenBrace, false))
    } else if b == '}' as u8 {
        Some((Tok::CloseBrace, false))
    } else if b == '[' as u8 {
        Some((Tok::OpenBracket, false))
    } else if b == ']' as u8 {
        Some((Tok::CloseBracket, false))
    } else {
        None
    }
}

/// Whether `b` separates tokens as a blank.
pub open spec fn is_blank(b: u8) -> bool {
    b == ' ' as u8 || b == '\n' as u8 || b == '\r' as u8 || b == '\t' as u8
}

/// Where the line that byte `k` is on ends: just past its line feed, or
/// nowhere if the text ends first.
pub open spec fn newline_after(s: Seq<u8>, k: int) -> Option<int>
    decreases s.len() - k,
{
    if k < 0 || k >= s.len() {
        None
    } else if s[k] == '\n' as u8 {
        Some(k + 1)
    } else {
        newline_after(s, k + 1)
    }
}

/// The first byte from `k` on that is a backslash or a quote, or the end.
pub open spec fn string_stop(s: Seq<u8>, k: int) -> int
    decreases s.len() - k,
{
    if k < 0 || k >= s.len() {
        k
    } else if s[k] == '\\' as u8 || s[k] == '"' as u8 {
        k
    } else {
        string_stop(s, k + 1)
    }
}

/// What the bytes of a quoted string from `k` on come to, and where the
/// string ends, when the byte at `k` is escaped (`escaped`) or not: an
/// escaped `n` is a line feed and any other escaped byte is kept as it is;
/// an unescaped backslash escapes the next byte; an unescaped quote ends
/// the string; every other byte is kept as it is.
pub open spec fn escaped_tail(s: Seq<u8>, k: int, escaped: bool) -> (Seq<u8>, int)
    decreases s.len() - k,
{
    if k < 0 || k >= s.len() {
        (Seq::empty(), k)
    } else {
        let b = s[k];
        if escaped {
            let (rest, end) = escaped_tail(s, k + 1, false);
            (seq![if b == 'n' as u8 { '\n' as u8 } else { b }] + rest, end)
        } else if b == '"' as u8 {
            (Seq::empty(), k + 1)
        } else if b == '\\' as u8 {
            escaped_tail(s, k + 1, true)
        } else {
            let (rest, end) = escaped_tail(s, k + 1, false);
            (seq![b] + rest, end)
        }
    }
}

/// The token of a quoted string whose body starts at `start`, and where the
/// reading goes on: text up to the first quote, taken as it stands, when
/// no backslash comes first; else that text with the escaped rest.
pub open spec fn quoted(s: Seq<u8>, start: int) -> (Tok, int) {
    let k = string_stop(s, start);
    if k >= s.len() || s[k] == '"' as u8 {
        (Tok::Str(s.subrange(start, k)), k + 1)
    } else {
        let (tail, end) = escaped_tail(s, k + 1, true);
        (Tok::String(s.subrange(start, k) + tail), end)
    }
}

/// The token of a bare word begun at `begin` and ended at `i`, if one is
/// begun.
pub open spec fn flush(s: Seq<u8>, begin: Option<int>, i: int) -> Seq<Tok> {
    match begin {
        Some(b) => seq![Tok::Str(s.subrange(b, i))],
        None => Seq::empty(),
    }
}

/// The tokens of the text from byte `i` on, with a bare word begun at
/// `begin`, if any; `None` where the tokenizer would fail, which is a
/// comment that no line feed ends.
pub open spec fn tokens_from(s: Seq<u8>, i: int, begin: Option<int>) -> Option<Seq<Tok>>
    decreases s.len() - i,
{
    if i < 0 {
        None
    } else if i >= s.len() {
        match begin {
            Some(b) => if 0 <= b <= i <= s.len() {
                Some(seq![Tok::Str(s.subrange(b, i))])
            } else {
                None
            },
            None => Some(Seq::empty()),
        }
    } else {
        let b = s[i];
        if begin matches Some(x) && !(0 <= x <= i) {
            None
        } else if b == '#' as u8 {
            match newline_after(s, i) {
                Some(e) => if i < e <= s.len() {
                    match tokens_from(s, e, None) {
                        Some(rest) => Some(flush(s, begin, i) + rest),
                        None => None,
                    }
                } else {
                    None
                },
                None => None,
            }
        } else if is_blank(b) {
            match tokens_from(s, i + 1, None) {
                Some(rest) => Some(flush(s, begin, i) + rest),
                None => None,
            }
        } else if b == '"' as u8 {
            let (tok, end) = quoted(s, i + 1);
            if end > s.len() {
                Some(flush(s, begin, i) + seq![tok])
            } else if end > i {
                match tokens_from(s, end, None) {
                    Some(rest) => Some(flush(s, begin, i) + seq![tok] + rest),
                    None => None,
                }
            } else {
                None
            }
        } else if symbol(b) is Some {
            let (tok, ignored) = symbol(b)->0;
            match tokens_from(s, i + 1, None) {
                Some(rest) => Some(flush(s, begin, i) + (if ignored {
                    Seq::empty()
                } else {
                    seq![tok]
                }) + rest),
                None => None,
            }
        } else {
            tokens_from(
                s,
                i + 1,
                Some(
                    match begin {
                        Some(x) => x,
                        None => i,
                    },
                ),
            )
        }
    }
}

/// Where the value that starts at token `i` ends; `None` where the parser
/// would fail, on a closing brace or bracket where a value should be, or a
/// field without a name.
pub open spec fn parse_end(toks: Seq<Tok>, i: int) -> Option<int>
    decreases toks.len() - i, 0int,
{
    if i < 0 {
        None
    } else if i >= toks.len() {
        Some(i)
    } else {
        match toks[i] {
            Tok::OpenBrace => object_end(toks, i + 1),
            Tok::OpenBracket => array_end(toks, i + 1),
            Tok::Str(_) => Some(i + 1),
            Tok::String(_) => Some(i + 1),
            _ => None,
        }
    }
}

/// Where the fields of an object from token `j` on end.
pub open spec fn object_end(toks: Seq<Tok>, j: int) -> Option<int>
    decreases toks.len() - j, 1int,
{
    if j < 0 {
        None
    } else if j >= toks.len() {
        Some(j)
    } else {
        match toks[j] {
            Tok::CloseBrace => Some(j + 1),
            Tok::Str(_) => match parse_end(toks, j + 1) {
                Some(e) => if j < e <= toks.len() {
                    object_end(toks, e)
                } else {
                    None
                },
                None => None,
            },
            _ => None,
        }
    }
}

/// Where the values of an array from token `j` on end; an array ends at a
/// closing bracket.
pub open spec fn array_end(toks: Seq<Tok>, j: int) -> Option<int>
    decreases toks.len() - j, 1int,
{
    if j < 0 {
        None
    } else if j >= toks.len() {
        Some(j)
    } else {
        match toks[j] {
            Tok::CloseBracket => Some(j + 1),
            _ => match parse_end(toks, j) {
                Some(e) => if j < e <= toks.len() {
                    array_end(toks, e)
                } else {
                    None
                },
                None => None,
            },
        }
    }
}

/// Where the values of an array from token `j` on start.
pub open spec fn array_starts(toks: Seq<Tok>, j: int) -> Seq<int>
    decreases toks.len() - j,
{
    if j < 0 || j >= toks.len() || toks[j] is CloseBracket {
        Seq::empty()
    } else {
        match parse_end(toks, j) {
            Some(e) => if j < e <= toks.len() {
                seq![j] + array_starts(toks, e)
            } else {
                Seq::empty()
            },
            None => Seq::empty(),
        }
    }
}

/// Where the fields of an object from token `j` on start, at their names.
pub open spec fn object_starts(toks: Seq<Tok>, j: int) -> Seq<int>
    decreases toks.len() - j,
{
    if j < 0 || j >= toks.len() || !(toks[j] is Str) {
        Seq::empty()
    } else {
        match parse_end(toks, j + 1) {
            Some(e) => if j < e <= toks.len() {
                seq![j] + object_starts(toks, e)
            } else {
                Seq::empty()
            },
            None => Seq::empty(),
        }
    }
}

/// Whether field `f` names value `m` with the name that token `tok` holds.
pub open spec fn field_named(f: (Vec<u8>, usize), m: int, tok: Tok) -> bool {
    &&& f.1 == m
    &&& (tok matches Tok::Str(name) && f.0@ == name)
}

/// Whether `v` is the value that starts at token `i`: the empty bare
/// string past the last token; a string for a string token; the array of
/// the values that follow a bracket; the object of the fields that follow a
/// brace, each field's name given with the position of its value.
pub open spec fn denotes(v: GonValue, toks: Seq<Tok>, i: int) -> bool
    decreases v,
{
    if i < 0 || i >= toks.len() {
        v matches GonValue::Str(b) && b@.len() == 0
    } else {
        match toks[i] {
            Tok::Str(x) => v matches GonValue::Str(b) && b@ == x,
            Tok::String(x) => v matches GonValue::String(b) && b@ == x,
            Tok::OpenBracket => match v {
                GonValue::Array(vals) => {
                    let st = array_starts(toks, i + 1);
                    &&& vals@.len() == st.len()
                    &&& forall|m: int| 0 <= m < vals@.len() ==> denotes(#[trigger] vals@[m], toks, st[m])
                },
                _ => false,
            },
            Tok::OpenBrace => match v {
                GonValue::Object { values, fields } => {
                    let st = object_starts(toks, i + 1);
                    &&& values@.len() == st.len()
                    &&& fields@.len() == st.len()
                    &&& forall|m: int|
                        0 <= m < values@.len() ==> {
                            &&& denotes(#[trigger] values@[m], toks, st[m] + 1)
                            &&& field_named(fields@[m], m, toks[st[m]])
                        }
                },
                _ => false,
            },
            _ => false,
        }
    }
}

/// Whether `a` and `b` hold the same: the same kind of value, the same
/// text, the same items in order, and the same fields in order.
pub open spec fn same_value(a: GonValue, b: GonValue) -> bool
    decreases a,
{
    match a {
        GonValue::Str(x) => b matches GonValue::Str(y) && x@ == y@,
        GonValue::String(x) => b matches GonValue::String(y) && x@ == y@,
        GonValue::Array(xs) => match b {
            GonValue::Array(ys) => {
                &&& xs@.len() == ys@.len()
                &&& forall|m: int| 0 <= m < xs@.len() ==> same_value(#[trigger] xs@[m], ys@[m])
            },
            _ => false,
        },
        GonValue::Object { values: xs, fields: fx } => match b {
            GonValue::Object { values: ys, fields: fy } => {
                &&& xs@.len() == ys@.len()
                &&& forall|m: int| 0 <= m < xs@.len() ==> same_value(#[trigger] xs@[m], ys@[m])
                &&& fx@.len() == fy@.len()
                &&& forall|m: int|
                    0 <= m < fx@.len() ==> (#[trigger] fx@[m]).0@ == fy@[m].0@ && fx@[m].1 == fy@[m].1
            },
            _ => false,
        },
    }
}

/// What a run of tokens stands for is fixed: two values that both stand
/// for the value at token `i` hold the same.
pub proof fn lemma_denotes_same(a: GonValue, b: GonValue, toks: Seq<Tok>, i: int)
    requires
        denotes(a, toks, i),
        denotes(b, toks, i),
    ensures
        same_value(a, b),
    decreases a,
{
    if i < 0 || i >= toks.len() {
        if let GonValue::Str(x) = a {
            if let GonValue::Str(y) = b {
                assert(x@ =~= y@);
            }
        }
    } else {
        match toks[i] {
            Tok::OpenBracket => {
                if let GonValue::Array(xs) = a {
                    if let GonValue::Array(ys) = b {
                        let st = array_starts(toks, i + 1);
                        assert forall|m: int| 0 <= m < xs@.len() implies same_value(#[trigger] xs@[m], ys@[m]) by {
                            assert(denotes(xs@[m], toks, st[m]));
                            assert(denotes(ys@[m], toks, st[m]));
                            lemma_denotes_same(xs@[m], ys@[m], toks, st[m]);
                        }
                    }
                }
            },
            Tok::OpenBrace => {
                if let GonValue::Object { values: xs, fields: fx } = a {
                    if let GonValue::Object { values: ys, fields: fy } = b {
                        let st = object_starts(toks, i + 1);
                        assert forall|m: int| 0 <= m < xs@.len() implies same_value(#[trigger] xs@[m], ys@[m]) by {
                            assert(denotes(xs@[m], toks, st[m] + 1));
                            assert(denotes(ys@[m], toks, st[m] + 1));
                            lemma_denotes_same(xs@[m], ys@[m], toks, st[m] + 1);
                        }
                        assert forall|m: int| 0 <= m < fx@.len() implies (#[trigger] fx@[m]).0@ == fy@[m].0@ && fx@[m].1
                            == fy@[m].1 by {
                            assert(denotes(xs@[m], toks, st[m] + 1));
                            assert(denotes(ys@[m], toks, st[m] + 1));
                            assert(field_named(fx@[m], m, toks[st[m]]));
                            assert(field_named(fy@[m], m, toks[st[m]]));
                        }
                    }
                }
            },
            _ => {},
        }
    }
}

/// The value a GON text stands for.
pub open spec fn parsed(s: Seq<u8>) -> GonValue {
    choose|v: GonValue| denotes(v, tokens_from(s, 0, None)->0, 0)
}

/// A run of tokens put before the tokens of the rest, if there are any.
pub open spec fn prefixed(p: Seq<Tok>, r: Option<Seq<Tok>>) -> Option<Seq<Tok>> {
    match r {
        Some(x) => Some(p + x),
        None => None,
    }
}

proof fn lemma_string_stop(s: Seq<u8>, k: int)
    requires
        0 <= k <= s.len(),
    ensures
        k <= string_stop(s, k) <= s.len(),
    decreases s.len() - k,
{
    if k < s.len() && !(s[k] == '\\' as u8 || s[k] == '"' as u8) {
        lemma_string_stop(s, k + 1);
    }
}

proof fn lemma_escaped_tail(s: Seq<u8>, k: int, escaped: bool)
    requires
        0 <= k <= s.len(),
    ensures
        k <= escaped_tail(s, k, escaped).1 <= s.len(),
    decreases s.len() - k,
{
    if k < s.len() {
        lemma_escaped_tail(s, k + 1, false);
        lemma_escaped_tail(s, k + 1, true);
    }
}

/// A quoted string ends past its opening quote and at most one past the
/// end of the text.
proof fn lemma_quoted(s: Seq<u8>, start: int)
    requires
        0 <= start <= s.len(),
    ensures
        start < quoted(s, start).1 <= s.len() + 1,
{
    lemma_string_stop(s, start);
    let k = string_stop(s, start);
    if k < s.len() && s[k] != '"' as u8 {
        lemma_escaped_tail(s, k + 1, true);
    }
}

fn is_stop(b: u8) -> (r: bool)
    ensures
        r == (b == '\\' as u8 || b == '"' as u8),
{
    b == '\\' as u8 || b == '"' as u8
}

/// Reads the quoted string whose body starts at byte `start`, and returns
/// how many bytes it takes, its closing quote included, and its token.
fn parse_string(bytes: &[u8], start: usize) -> (r: (usize, Token))
    requires
        start <= bytes@.len(),
        bytes@.len() < usize::MAX,
    ensures
        r.1@ == quoted(bytes@, start as int).0,
        start + r.0 == quoted(bytes@, start as int).1,
{
    let mut index = start;
    while index < bytes.len() && !is_stop(bytes[index])
        invariant
            start <= index <= bytes@.len(),
            string_stop(bytes@, start as int) == string_stop(bytes@, index as int),
        decreases bytes@.len() - index,
    {
        index += 1;
    }
    let is_escape = index < bytes.len() && bytes[index] == '\\' as u8;
    let done_so_far = vstd::slice::slice_to_vec(&bytes[start..index]);
    index += 1;
    if !is_escape {
        return (index - start, Token::Str(done_so_far));
    }
    let mut temp = done_so_far;
    let ghost k0 = index as int;
    let ghost prefix = temp@;
    let ghost mut produced: Seq<u8> = Seq::empty();
    let mut escaped = true;
    while index < bytes.len()
        invariant_except_break
            k0 <= index <= bytes@.len(),
            temp@ == prefix + produced,
            escaped_tail(bytes@, k0, true) == (produced + escaped_tail(bytes@, index as int, escaped).0,
            escaped_tail(bytes@, index as int, escaped).1),
        ensures
            temp@ == prefix + escaped_tail(bytes@, k0, true).0,
            index == escaped_tail(bytes@, k0, true).1,
            k0 <= index,
        decreases bytes@.len() - index,
    {
        let b = bytes[index];
        let ghost before = escaped_tail(bytes@, index as int, escaped);
        index += 1;
        if escaped {
            let c = if b == 'n' as u8 {
                '\n' as u8
            } else {
                b
            };
            temp.push(c);
            escaped = false;
            proof {
                assert(before.0 =~= seq![c] + escaped_tail(bytes@, index as int, false).0);
                produced = produced.push(c);
                assert(produced + escaped_tail(bytes@, index as int, escaped).0 =~= produced.drop_last()
                    + before.0);
            }
        } else if b == '"' as u8 {
            proof {
                assert(produced + before.0 =~= produced);
            }
            break;
        } else if b == '\\' as u8 {
            escaped = true;
        } else {
            temp.push(b);
            proof {
                assert(before.0 =~= seq![b] + escaped_tail(bytes@, index as int, false).0);
                produced = produced.push(b);
                assert(produced + escaped_tail(bytes@, index as int, escaped).0 =~= produced.drop_last()
                    + before.0);
            }
        }
    }
    (index - start, Token::String(temp))
}

/// A bare word's start, as an integer.
pub open spec fn begun(o: Option<usize>) -> Option<int> {
    match o {
        Some(b) => Some(b as int),
        None => None,
    }
}

fn symbol_token(b: u8) -> (r: Option<(Token, bool)>)
    ensures
        match symbol(b) {
            Some((t, ignored)) => (r matches Some((tok, ig)) && tok@ == t && ig == ignored),
            None => r is None,
        },
{
    if b == '=' as u8 {
        Some((Token::Equal, true))
    } else if b == ',' as u8 {
        Some((Token::Comma, true))
    } else if b == ':' as u8 {
        Some((Token::Colon, true))
    } else if b == '{' as u8 {
        Some((Token::OpenBrace, false))
    } else if b == '}' as u8 {
        Some((Token::CloseBrace, false))
    } else if b == '[' as u8 {
        Some((Token::OpenBracket, false))
    } else if b == ']' as u8 {
        Some((Token::CloseBracket, false))
    } else {
        None
    }
}

/// Adds the bare word begun at `begin`, if one is, as a token ending at
/// byte `i`.
fn flush_word(tokens: &mut Vec<Token>, bytes: &[u8], begin: Option<usize>, i: usize)
    requires
        i <= bytes@.len(),
        begin matches Some(b) ==> b <= i,
    ensures
        toks_of(final(tokens)@) == toks_of(old(tokens)@) + flush(bytes@, begun(begin), i as int),
{
    match begin {
        Some(b) => {
            tokens.push(Token::Str(vstd::slice::slice_to_vec(&bytes[b..i])));
            proof {
                assert(toks_of(tokens@) =~= toks_of(old(tokens)@) + flush(bytes@, begun(begin), i as int));
            }
        },
        None => {
            proof {
                assert(toks_of(tokens@) =~= toks_of(old(tokens)@) + flush(bytes@, begun(begin), i as int));
            }
        },
    }
}

/// Splits GON text into tokens: bare words end at blanks, symbols, quotes
/// and comments; `#` starts a comment to the end of its line; quoted
/// strings are read by `parse_string`; `=`, `,` and `:` are dropped.
pub fn tokenize(data: &str) -> (r: Vec<Token>)
    requires
        tokens_from(data.spec_bytes(), 0, None) is Some,
        data.spec_bytes().len() + 1 < usize::MAX,
    ensures
        toks_of(r@) == tokens_from(data.spec_bytes(), 0, None)->0,
{
    let bytes = data.as_bytes();
    let mut tokens: Vec<Token> = Vec::new();
    let mut index: usize = 0;
    let mut current: Option<usize> = None;
    proof {
        assert(toks_of(tokens@) + tokens_from(bytes@, 0, None)->0 =~= tokens_from(bytes@, 0, None)->0);
    }
    while index < bytes.len()
        invariant
            bytes@ == data.spec_bytes(),
            bytes@.len() + 1 < usize::MAX,
            index <= bytes@.len() + 1,
            current matches Some(b) ==> b <= index,
            tokens_from(bytes@, index as int, begun(current)) is Some,
            tokens_from(bytes@, 0, None) == prefixed(
                toks_of(tokens@),
                tokens_from(bytes@, index as int, begun(current)),
            ),
        decreases bytes@.len() + 1 - index,
    {
        let b = bytes[index];
        let ghost before = toks_of(tokens@);
        let ghost cur = begun(current);
        if b == '#' as u8 {
            flush_word(&mut tokens, bytes, current, index);
            current = None;
            let mut j = index;
            let mut found = false;
            while j < bytes.len() && !found
                invariant
                    index <= j <= bytes@.len(),
                    !found ==> newline_after(bytes@, index as int) == newline_after(bytes@, j as int),
                    found ==> newline_after(bytes@, index as int) == Some(j as int),
                decreases bytes@.len() - j,
            {
                let c = bytes[j];
                j += 1;
                if c == '\n' as u8 {
                    found = true;
                }
            }
            proof {
                assert(newline_after(bytes@, index as int) == Some(j as int));
                assert(before + flush(bytes@, cur, index as int) + tokens_from(bytes@, j as int, None)->0
                    =~= before + (flush(bytes@, cur, index as int) + tokens_from(bytes@, j as int, None)->0));
            }
            index = j;
            continue;
        }
        if b == ' ' as u8 || b == '\n' as u8 || b == '\r' as u8 || b == '\t' as u8 {
            flush_word(&mut tokens, bytes, current, index);
            current = None;
            proof {
                assert(before + flush(bytes@, cur, index as int) + tokens_from(bytes@, index + 1, None)->0
                    =~= before + (flush(bytes@, cur, index as int) + tokens_from(bytes@, index + 1, None)->0));
            }
            index += 1;
            continue;
        }
        if b == '"' as u8 {
            flush_word(&mut tokens, bytes, current, index);
            current = None;
            index += 1;
            let (parsed_len, tok) = parse_string(bytes, index);
            proof {
                lemma_quoted(bytes@, index as int);
            }
            let ghost t = tok@;
            tokens.push(tok);
            proof {
                let end = index + parsed_len;
                if end <= bytes@.len() {
                    assert(before + flush(bytes@, cur, index - 1) + seq![t] + tokens_from(bytes@, end, None)->0
                        =~= before + (flush(bytes@, cur, index - 1) + seq![t] + tokens_from(bytes@, end, None)->0));
                } else {
                    assert(tokens_from(bytes@, end, None) == Some(Seq::<Tok>::empty()));
                    assert(before + flush(bytes@, cur, index - 1) + seq![t] + tokens_from(bytes@, end, None)->0
                        =~= before + (flush(bytes@, cur, index - 1) + seq![t]));
                }
                assert(toks_of(tokens@) =~= before + flush(bytes@, cur, index - 1) + seq![t]);
            }
            index += parsed_len;
            continue;
        }
        match symbol_token(b) {
            Some((tok, ignored)) => {
                flush_word(&mut tokens, bytes, current, index);
                current = None;
                let ghost mid = toks_of(tokens@);
                let ghost t = tok@;
                if !ignored {
                    tokens.push(tok);
                }
                proof {
                    let kept = if ignored {
                        Seq::<Tok>::empty()
                    } else {
                        seq![t]
                    };
                    assert(toks_of(tokens@) =~= mid + kept);
                    assert(before + flush(bytes@, cur, index as int) + kept + tokens_from(bytes@, index + 1, None)->0
                        =~= before + (flush(bytes@, cur, index as int) + kept + tokens_from(bytes@, index + 1, None)->0));
                }
                index += 1;
                continue;
            },
            None => {},
        }
        if current.is_none() {
            current = Some(index);
        }
        index += 1;
    }
    flush_word(&mut tokens, bytes, current, if index <= bytes.len() { index } else { bytes.len() });
    proof {
        if index <= bytes@.len() {
            assert(toks_of(tokens@) =~= tokens_from(bytes@, 0, None)->0);
        }
    }
    tokens
}

/// An object whose values and fields follow the fields of an object from
/// its opening brace on is what the brace starts.
proof fn lemma_object_denotes(
    values: Vec<GonValue>,
    fields: Vec<(Vec<u8>, usize)>,
    t: Seq<Tok>,
    i: int,
)
    requires
        0 <= i < t.len(),
        t[i] == Tok::OpenBrace,
        values@.len() == object_starts(t, i + 1).len(),
        fields@.len() == object_starts(t, i + 1).len(),
        forall|m: int|
            0 <= m < values@.len() ==> {
                &&& denotes(#[trigger] values@[m], t, object_starts(t, i + 1)[m] + 1)
                &&& field_named(fields@[m], m, t[object_starts(t, i + 1)[m]])
            },
    ensures
        denotes(GonValue::Object { values, fields }, t, i),
{
    let v = GonValue::Object { values, fields };
    let st = object_starts(t, i + 1);
    assert(v->Object_values == values);
    assert(v->Object_values@.len() == st.len());
    assert(v->Object_fields@.len() == st.len());
    assert forall|m: int| 0 <= m < v->Object_values@.len() implies denotes(#[trigger] v->Object_values@[m], t, st[m] + 1) by {
        assert(v->Object_values@[m] == values@[m]);
    }
    assert forall|m: int| 0 <= m < v->Object_values@.len() implies field_named(#[trigger] v->Object_fields@[m], m, t[st[m]]) by {
        assert(v->Object_fields@[m] == fields@[m]);
        assert(denotes(values@[m], t, st[m] + 1));
        assert(field_named(fields@[m], m, t[object_starts(t, i + 1)[m]]));
    }
}

/// Tokens being parsed, and the position of the next one.
pub struct Parser {
    pub tokens: Vec<Token>,
    pub index: usize,
}

fn copy_bytes(b: &Vec<u8>) -> (r: Vec<u8>)
    ensures
        r@ == b@,
{
    vstd::slice::slice_to_vec(b.as_slice())
}

/// Parses the value that starts at the parser's position, and moves the
/// parser past it; past the last token the value is the empty bare string.
pub fn parse_gon_recursive(parser: &mut Parser) -> (r: GonValue)
    requires
        old(parser).index <= old(parser).tokens@.len(),
        parse_end(toks_of(old(parser).tokens@), old(parser).index as int) is Some,
    ensures
        final(parser).tokens@ == old(parser).tokens@,
        final(parser).index == parse_end(toks_of(old(parser).tokens@), old(parser).index as int)->0,
        denotes(r, toks_of(old(parser).tokens@), old(parser).index as int),
    decreases old(parser).tokens@.len() - old(parser).index,
{
    let ghost t = toks_of(parser.tokens@);
    let ghost tokens0 = parser.tokens@;
    let i = parser.index;
    if i < parser.tokens.len() {
        parser.index = i + 1;
        proof {
            assert(t[i as int] == parser.tokens@[i as int]@);
        }
        match &parser.tokens[i] {
            Token::OpenBrace => {
                let mut values: Vec<GonValue> = Vec::new();
                let mut fields: Vec<(Vec<u8>, usize)> = Vec::new();
                let ghost st = object_starts(t, i + 1);
                loop
                    invariant_except_break
                        object_end(t, parser.index as int) == object_end(t, i + 1),
                        object_starts(t, parser.index as int) == st.skip(values@.len() as int),
                    invariant
                        parser.tokens@ == tokens0,
                        tokens0 == old(parser).tokens@,
                        i == old(parser).index,
                        t == toks_of(tokens0),
                        st == object_starts(t, i + 1),
                        i + 1 <= parser.index <= tokens0.len(),
                        object_end(t, i + 1) is Some,
                        values@.len() == fields@.len(),
                        values@.len() <= st.len(),
                        forall|m: int|
                            0 <= m < values@.len() ==> {
                                &&& denotes(#[trigger] values@[m], t, st[m] + 1)
                                &&& field_named(fields@[m], m, t[st[m]])
                            },
                    ensures
                        parser.index == object_end(t, i + 1)->0,
                        values@.len() == st.len(),
                    decreases tokens0.len() - parser.index,
                {
                    if parser.index >= parser.tokens.len() {
                        proof {
                            assert(st.skip(values@.len() as int).len() == 0);
                        }
                        break;
                    }
                    let j = parser.index;
                    parser.index = j + 1;
                    proof {
                        assert(t[j as int] == parser.tokens@[j as int]@);
                    }
                    match &parser.tokens[j] {
                        Token::Str(name) => {
                            let key = copy_bytes(name);
                            let ghost slot = values@.len() as int;
                            proof {
                                assert(object_starts(t, j as int).len() > 0);
                                assert(st.skip(slot).len() > 0);
                                assert(slot < st.len());
                                assert(st.skip(slot)[0] == j);
                                assert(st[slot] == j);
                            }
                            fields.push((key, values.len()));
                            let value = parse_gon_recursive(parser);
                            values.push(value);
                            proof {
                                assert(st.skip(slot + 1) =~= st.skip(slot).skip(1));
                                assert forall|q: int| 0 <= q < values@.len() implies {
                                    &&& denotes(#[trigger] values@[q], t, st[q] + 1)
                                    &&& field_named(fields@[q], q, t[st[q]])
                                } by {
                                    if q < slot {
                                        assert(values@[q] == values@.drop_last()[q]);
                                        assert(fields@[q] == fields@.drop_last()[q]);
                                    } else {
                                        assert(t[j as int] == Tok::Str(name@));
                                        assert(field_named(fields@[q], q, t[st[q]]));
                                    }
                                }
                            }
                        },
                        Token::CloseBrace => {
                            proof {
                                assert(st.skip(values@.len() as int).len() == 0);
                            }
                            break;
                        },
                        _ => {
                            proof {
                                assert(false);
                            }
                            break;
                        },
                    }
                }
                proof {
                    assert(values@.len() == st.len());
                    assert(fields@.len() == st.len());
                    assert(forall|m: int|
                        0 <= m < values@.len() ==> {
                            &&& denotes(#[trigger] values@[m], t, st[m] + 1)
                            &&& field_named(fields@[m], m, t[st[m]])
                        });
                }
                let ghost vs = values;
                let ghost fs = fields;
                let r = GonValue::Object { values, fields };
                proof {
                    assert(t[i as int] == Tok::OpenBrace);
                    assert(r == GonValue::Object { values: vs, fields: fs });
                    lemma_object_denotes(vs, fs, t, i as int);
                }
                r
            },
            Token::OpenBracket => {
                let mut values: Vec<GonValue> = Vec::new();
                let ghost st = array_starts(t, i + 1);
                loop
                    invariant_except_break
                        array_end(t, parser.index as int) == array_end(t, i + 1),
                        array_starts(t, parser.index as int) == st.skip(values@.len() as int),
                    invariant
                        parser.tokens@ == tokens0,
                        tokens0 == old(parser).tokens@,
                        i == old(parser).index,
                        t == toks_of(tokens0),
                        st == array_starts(t, i + 1),
                        i + 1 <= parser.index <= tokens0.len(),
                        array_end(t, i + 1) is Some,
                        values@.len() <= st.len(),
                        forall|m: int| 0 <= m < values@.len() ==> denotes(#[trigger] values@[m], t, st[m]),
                    ensures
                        parser.index == array_end(t, i + 1)->0,
                        values@.len() == st.len(),
                    decreases tokens0.len() - parser.index,
                {
                    if parser.index >= parser.tokens.len() {
                        proof {
                            assert(st.skip(values@.len() as int).len() == 0);
                        }
                        break;
                    }
                    let j = parser.index;
                    proof {
                        assert(t[j as int] == parser.tokens@[j as int]@);
                    }
                    let closing = match &parser.tokens[j] {
                        Token::CloseBracket => true,
                        _ => false,
                    };
                    if closing {
                        parser.index = j + 1;
                        proof {
                            assert(st.skip(values@.len() as int).len() == 0);
                        }
                        break;
                    }
                    let ghost slot = values@.len() as int;
                    proof {
                        assert(array_starts(t, j as int).len() > 0);
                        assert(st.skip(slot).len() > 0);
                        assert(slot < st.len());
                        assert(st.skip(slot)[0] == j);
                        assert(st[slot] == j);
                    }
                    let value = parse_gon_recursive(parser);
                    values.push(value);
                    proof {
                        assert(st.skip(slot + 1) =~= st.skip(slot).skip(1));
                        assert forall|q: int| 0 <= q < values@.len() implies denotes(
                            #[trigger] values@[q],
                            t,
                            st[q],
                        ) by {
                            if q < slot {
                                assert(values@[q] == values@.drop_last()[q]);
                            }
                        }
                    }
                }
                let r = GonValue::Array(values);
                proof {
                    assert(t[i as int] == Tok::OpenBracket);
                    assert(denotes(r, t, i as int));
                }
                r
            },
            Token::Str(b) => GonValue::Str(copy_bytes(b)),
            Token::String(b) => GonValue::String(copy_bytes(b)),
            _ => {
                proof {
                    assert(false);
                }
                GonValue::Str(Vec::new())
            },
        }
    } else {
        GonValue::Str(Vec::new())
    }
}

/// Parses GON text into the value it holds.
pub fn parse_gon(text: &str) -> (r: GonValue)
    requires
        tokens_from(text.spec_bytes(), 0, None) is Some,
        parse_end(tokens_from(text.spec_bytes(), 0, None)->0, 0) is Some,
        text.spec_bytes().len() + 1 < usize::MAX,
    ensures
        denotes(r, tokens_from(text.spec_bytes(), 0, None)->0, 0),
{
    let tokens = tokenize(text);
    let index: usize = 0;
    let mut parser = Parser { tokens, index };
    parse_gon_recursive(&mut parser)
}

} // verus!
