//! The lexer: turns source text into tokens, keeping the text of identifiers
//! and literals in a string table.
use crate::compiler::types::{CopyRange, Error, ErrorMessage};
use vstd::prelude::*;
use vstd::string::StringSliceAdditionalSpecFns;

verus! {

/// The words the language reserves; the string table gives them the ids
/// 0 to 12, in this order.
#[derive(Clone, Copy, Debug, PartialEq, Eq, Structural)]
pub enum Keyword {
    Let,
    Proc,
    Type,
    Defer,
    Context,
    If,
    Else,
    Match,
    Continue,
    Break,
    For,
    Spawn,
    Wait,
}

impl Keyword {
    /// The id of this keyword in a fresh string table.
    pub open spec fn spec_id(self) -> u32 {
        match self {
            Keyword::Let => 0,
            Keyword::Proc => 1,
            Keyword::Type => 2,
            Keyword::Defer => 3,
            Keyword::Context => 4,
            Keyword::If => 5,
            Keyword::Else => 6,
            Keyword::Match => 7,
            Keyword::Continue => 8,
            Keyword::Break => 9,
            Keyword::For => 10,
            Keyword::Spawn => 11,
            Keyword::Wait => 12,
        }
    }

    /// The id of this keyword in a fresh string table.
    pub fn id(self) -> (r: u32)
        ensures
            r == self.spec_id(),
    {
        match self {
            Keyword::Let => 0,
            Keyword::Proc => 1,
            Keyword::Type => 2,
            Keyword::Defer => 3,
            Keyword::Context => 4,
            Keyword::If => 5,
            Keyword::Else => 6,
            Keyword::Match => 7,
            Keyword::Continue => 8,
            Keyword::Break => 9,
            Keyword::For => 10,
            Keyword::Spawn => 11,
            Keyword::Wait => 12,
        }
    }
}

/// The kinds of tokens.
#[derive(Clone, Copy, Debug, PartialEq, Eq, Structural)]
pub enum TokenKind {
    LParen,
    RParen,
    LBracket,
    RBracket,
    LBrace,
    RBrace,
    Dot,
    Comma,
    Colon,
    Semicolon,
    Bang,
    Tilde,
    Amp,
    Caret,
    Mod,
    Star,
    Div,
    Plus,
    Dash,
    Equal,
    Lt,
    Gt,
    /// `==`
    Equal2,
    /// `!=`
    NotEqual,
    /// `<=`
    LtEq,
    /// `>=`
    GtEq,
    /// `&&`
    And,
    /// `||`
    Or,
    Directive,
    Word,
    String,
    Char,
    Integer,
    Float,
    /// Blanks or a comment, with no line break among the blanks.
    Skip,
    /// Blanks with a line break among them.
    NewlineSkip,
}

/// A token: its kind, and for identifiers and literals the id of their text
/// in the string table, for blanks and comments their length, else 0.
#[derive(Clone, Copy, Debug, PartialEq, Eq, Structural)]
pub struct Token {
    pub kind: TokenKind,
    pub data: u32,
}

/// Texts, each stored once and named by its position.
pub struct StringTable {
    pub names: Vec<Vec<u8>>,
}

/// The keywords' texts, in the order of their ids.
pub open spec fn keyword_names() -> Seq<Seq<u8>> {
    seq![
        seq!['l' as u8, 'e' as u8, 't' as u8],
        seq!['p' as u8, 'r' as u8, 'o' as u8, 'c' as u8],
        seq!['t' as u8, 'y' as u8, 'p' as u8, 'e' as u8],
        seq!['d' as u8, 'e' as u8, 'f' as u8, 'e' as u8, 'r' as u8],
        seq!['c' as u8, 'o' as u8, 'n' as u8, 't' as u8, 'e' as u8, 'x' as u8, 't' as u8],
        seq!['i' as u8, 'f' as u8],
        seq!['e' as u8, 'l' as u8, 's' as u8, 'e' as u8],
        seq!['m' as u8, 'a' as u8, 't' as u8, 'c' as u8, 'h' as u8],
        seq!['c' as u8, 'o' as u8, 'n' as u8, 't' as u8, 'i' as u8, 'n' as u8, 'u' as u8, 'e' as u8],
        seq!['b' as u8, 'r' as u8, 'e' as u8, 'a' as u8, 'k' as u8],
        seq!['f' as u8, 'o' as u8, 'r' as u8],
        seq!['s' as u8, 'p' as u8, 'a' as u8, 'w' as u8, 'n' as u8],
        seq!['w' as u8, 'a' as u8, 'i' as u8, 't' as u8],
    ]
}

impl StringTable {
    /// The texts, in the order of their ids.
    pub open spec fn view(&self) -> Seq<Seq<u8>> {
        self.names@.map_values(|v: Vec<u8>| v@)
    }

    /// No text is stored twice.
    pub open spec fn wf(&self) -> bool {
        forall|i: int, j: int|
            0 <= i < self@.len() && 0 <= j < self@.len() && i != j ==> #[trigger] self@[i]
                != #[trigger] self@[j]
    }

    /// A table that holds the keywords, each under its id.
    pub fn new() -> (r: Self)
        ensures
            r.wf(),
            r@ == keyword_names(),
    {
        let mut names: Vec<Vec<u8>> = Vec::new();
        names.push(vec!['l' as u8, 'e' as u8, 't' as u8]);
        names.push(vec!['p' as u8, 'r' as u8, 'o' as u8, 'c' as u8]);
        names.push(vec!['t' as u8, 'y' as u8, 'p' as u8, 'e' as u8]);
        names.push(vec!['d' as u8, 'e' as u8, 'f' as u8, 'e' as u8, 'r' as u8]);
        names.push(vec!['c' as u8, 'o' as u8, 'n' as u8, 't' as u8, 'e' as u8, 'x' as u8, 't' as u8]);
        names.push(vec!['i' as u8, 'f' as u8]);
        names.push(vec!['e' as u8, 'l' as u8, 's' as u8, 'e' as u8]);
        names.push(vec!['m' as u8, 'a' as u8, 't' as u8, 'c' as u8, 'h' as u8]);
        names.push(
            vec!['c' as u8, 'o' as u8, 'n' as u8, 't' as u8, 'i' as u8, 'n' as u8, 'u' as u8, 'e' as u8],
        );
        names.push(vec!['b' as u8, 'r' as u8, 'e' as u8, 'a' as u8, 'k' as u8]);
        names.push(vec!['f' as u8, 'o' as u8, 'r' as u8]);
        names.push(vec!['s' as u8, 'p' as u8, 'a' as u8, 'w' as u8, 'n' as u8]);
        names.push(vec!['w' as u8, 'a' as u8, 'i' as u8, 't' as u8]);
        let r = StringTable { names };
        proof {
            assert(r@ =~= keyword_names());
            let k = keyword_names();
            assert forall|i: int, j: int| 0 <= i < k.len() && 0 <= j < k.len() && i != j implies #[trigger] k[i]
                != #[trigger] k[j] by {
                if k[i] == k[j] {
                    assert(k[i].len() == k[j].len());
                    assert(k[i][0] == k[j][0]);
                    assert(k[i][1] == k[j][1]);
                }
            }
        }
        r
    }

    /// The id of `s`, storing it first if it is not there yet.
    pub fn add(&mut self, s: &[u8]) -> (r: u32)
        requires
            old(self).wf(),
            old(self)@.len() < u32::MAX,
        ensures
            final(self).wf(),
            r < final(self)@.len(),
            final(self)@[r as int] == s@,
            old(self)@.contains(s@) ==> final(self)@ == old(self)@,
            !old(self)@.contains(s@) ==> final(self)@ == old(self)@.push(s@) && r == old(self)@.len(),
    {
        let n = self.names.len();
        let mut i: usize = 0;
        while i < n
            invariant
                *self == *old(self),
                self.wf(),
                n == self.names@.len(),
                n < u32::MAX,
                i <= n,
                forall|j: int| 0 <= j < i ==> #[trigger] self@[j] != s@,
            decreases n - i,
        {
            if bytes_eq(&self.names[i], s) {
                proof {
                    assert(self@[i as int] == s@);
                }
                return i as u32;
            }
            i += 1;
        }
        let ghost before = self@;
        self.names.push(vstd::slice::slice_to_vec(s));
        proof {
            assert(self@ =~= before.push(s@));
            assert(!before.contains(s@));
        }
        n as u32
    }
}

/// Whether the bytes of `a` are those of `b`.
pub(crate) fn bytes_eq(a: &Vec<u8>, b: &[u8]) -> (r: bool)
    ensures
        r == (a@ == b@),
{
    if a.len() != b.len() {
        return false;
    }
    let mut i: usize = 0;
    while i < a.len()
        invariant
            a@.len() == b@.len(),
            i <= a@.len(),
            forall|j: int| 0 <= j < i ==> a@[j] == b@[j],
        decreases a@.len() - i,
    {
        if a[i] != b[i] {
            return false;
        }
        i += 1;
    }
    proof {
        assert(a@ =~= b@);
    }
    true
}

/// Whether tokens of kind `k` name a text in the string table.
pub open spec fn has_text(k: TokenKind) -> bool {
    k == TokenKind::Word || k == TokenKind::Integer || k == TokenKind::Float || k
        == TokenKind::Directive || k == TokenKind::String || k == TokenKind::Char
}

/// How many bytes of source a token stands for, given the table's texts.
pub open spec fn spec_token_len(t: Token, names: Seq<Seq<u8>>) -> int {
    match t.kind {
        TokenKind::Skip | TokenKind::NewlineSkip => t.data as int,
        TokenKind::Word | TokenKind::Integer | TokenKind::Float => names[t.data as int].len() as int,
        TokenKind::Directive => names[t.data as int].len() as int + 1,
        TokenKind::String | TokenKind::Char => names[t.data as int].len() as int + 2,
        TokenKind::Equal2 | TokenKind::LtEq | TokenKind::GtEq | TokenKind::And | TokenKind::Or => 2,
        _ => 1,
    }
}

impl Token {
    /// How many bytes of source this token stands for: the text and its
    /// quotes or sigil, the length of blanks, 2 for the two-byte operators
    /// other than `!=`, and 1 for the rest.
    pub fn len(&self, table: &StringTable) -> (r: usize)
        requires
            has_text(self.kind) ==> self.data < table@.len() && table@[self.data as int].len() + 2
                < usize::MAX,
        ensures
            r == spec_token_len(*self, table@),
    {
        match self.kind {
            TokenKind::Skip => self.data as usize,
            TokenKind::NewlineSkip => self.data as usize,
            TokenKind::Word => table.names[self.data as usize].len(),
            TokenKind::Directive => table.names[self.data as usize].len() + 1,
            TokenKind::String => table.names[self.data as usize].len() + 2,
            TokenKind::Char => table.names[self.data as usize].len() + 2,
            TokenKind::Integer => table.names[self.data as usize].len(),
            TokenKind::Float => table.names[self.data as usize].len(),
            TokenKind::Equal2 => 2,
            TokenKind::LtEq => 2,
            TokenKind::GtEq => 2,
            TokenKind::And => 2,
            TokenKind::Or => 2,
            _ => 1,
        }
    }
}

/// Whether `b` may go on a word after its first byte.
pub open spec fn is_word_byte(b: u8) -> bool {
    is_alpha(b) || b == '_' as u8 || is_digit(b)
}

/// Whether `b` may go on a number after its first byte.
pub open spec fn is_number_byte(b: u8) -> bool {
    b == '_' as u8 || is_digit(b)
}

/// Whether `b` is a blank.
pub open spec fn is_blank(b: u8) -> bool {
    b == ' ' as u8 || b == '\t' as u8 || b == '\r' as u8 || b == '\n' as u8
}

/// Whether `b` breaks a line.
pub open spec fn is_newline(b: u8) -> bool {
    b == '\r' as u8 || b == '\n' as u8
}

/// Whether `b` is an ASCII letter.
pub open spec fn is_alpha(b: u8) -> bool {
    ('a' as u8 <= b && b <= 'z' as u8) || ('A' as u8 <= b && b <= 'Z' as u8)
}

/// Whether `b` is an ASCII digit.
pub open spec fn is_digit(b: u8) -> bool {
    '0' as u8 <= b && b <= '9' as u8
}

/// The end of the longest run of bytes of a word starting at `i`.
pub open spec fn word_end(s: Seq<u8>, i: int) -> int
    decreases s.len() - i,
{
    if 0 <= i < s.len() && is_word_byte(s[i]) {
        word_end(s, i + 1)
    } else {
        i
    }
}

/// The end of the longest run of bytes of a number starting at `i`.
pub open spec fn number_end(s: Seq<u8>, i: int) -> int
    decreases s.len() - i,
{
    if 0 <= i < s.len() && is_number_byte(s[i]) {
        number_end(s, i + 1)
    } else {
        i
    }
}

/// The end of the longest run of blanks starting at `i`.
pub open spec fn blank_end(s: Seq<u8>, i: int) -> int
    decreases s.len() - i,
{
    if 0 <= i < s.len() && is_blank(s[i]) {
        blank_end(s, i + 1)
    } else {
        i
    }
}

/// Where a line comment whose text starts at `i` ends: just past the next
/// line feed, or at the end of the source.
pub open spec fn line_end(s: Seq<u8>, i: int) -> int
    decreases s.len() - i,
{
    if i < 0 || i >= s.len() {
        i
    } else if s[i] == '\n' as u8 {
        i + 1
    } else {
        line_end(s, i + 1)
    }
}

/// Whether a line break is among the bytes from `a` to `b`.
pub open spec fn has_newline(s: Seq<u8>, a: int, b: int) -> bool
    decreases b - a,
{
    if b <= a {
        false
    } else {
        is_newline(s[b - 1]) || has_newline(s, a, b - 1)
    }
}

/// Where a quoted text whose body starts at `start` and that closes with
/// `t` ends, looking from `k`: just past the first `t` not right after a
/// backslash of the body. A backslash escapes, so it closes nothing.
pub open spec fn quote_end(s: Seq<u8>, start: int, k: int, t: u8) -> Option<int>
    decreases s.len() - k,
{
    if k < 0 || k >= s.len() {
        None
    } else if s[k] == t && t != '\\' as u8 && (k == start || s[k - 1] != '\\' as u8) {
        Some(k + 1)
    } else {
        quote_end(s, start, k + 1, t)
    }
}

/// The kind of a byte that is a token on its own.
pub open spec fn single_kind(b: u8) -> Option<TokenKind> {
    if b == '(' as u8 {
        Some(TokenKind::LParen)
    } else if b == ')' as u8 {
        Some(TokenKind::RParen)
    } else if b == '[' as u8 {
        Some(TokenKind::LBracket)
    } else if b == ']' as u8 {
        Some(TokenKind::RBracket)
    } else if b == '{' as u8 {
        Some(TokenKind::LBrace)
    } else if b == '}' as u8 {
        Some(TokenKind::RBrace)
    } else if b == '.' as u8 {
        Some(TokenKind::Dot)
    } else if b == ',' as u8 {
        Some(TokenKind::Comma)
    } else if b == ':' as u8 {
        Some(TokenKind::Colon)
    } else if b == ';' as u8 {
        Some(TokenKind::Semicolon)
    } else if b == '~' as u8 {
        Some(TokenKind::Tilde)
    } else if b == '&' as u8 {
        Some(TokenKind::Amp)
    } else if b == '^' as u8 {
        Some(TokenKind::Caret)
    } else if b == '%' as u8 {
        Some(TokenKind::Mod)
    } else if b == '*' as u8 {
        Some(TokenKind::Star)
    } else if b == '+' as u8 {
        Some(TokenKind::Plus)
    } else if b == '-' as u8 {
        Some(TokenKind::Dash)
    } else {
        None
    }
}

/// For a byte that may be followed by `=`: its kind alone and its kind with
/// the `=`.
pub open spec fn eq_kinds(b: u8) -> Option<(TokenKind, TokenKind)> {
    if b == '!' as u8 {
        Some((TokenKind::Bang, TokenKind::NotEqual))
    } else if b == '=' as u8 {
        Some((TokenKind::Equal, TokenKind::Equal2))
    } else if b == '<' as u8 {
        Some((TokenKind::Lt, TokenKind::LtEq))
    } else if b == '>' as u8 {
        Some((TokenKind::Gt, TokenKind::GtEq))
    } else {
        None
    }
}

/// Why the lexer stopped.
#[derive(Clone, Copy, Debug, PartialEq, Eq, Structural)]
pub enum LexFailure {
    /// A byte that starts no token.
    Unrecognized,
    /// A quote with no closing quote.
    Unterminated,
}

/// The token that starts at byte `i`: its kind and where it ends.
pub open spec fn scan(s: Seq<u8>, i: int) -> Result<(TokenKind, int), LexFailure> {
    let b = s[i];
    let next_is_eq = i + 1 < s.len() && s[i + 1] == '=' as u8;
    if single_kind(b) is Some {
        Ok((single_kind(b)->0, i + 1))
    } else if eq_kinds(b) is Some {
        let (alone, with_eq) = eq_kinds(b)->0;
        if next_is_eq {
            Ok((with_eq, i + 2))
        } else {
            Ok((alone, i + 1))
        }
    } else if b == '"' as u8 || b == '\'' as u8 {
        match quote_end(s, i + 1, i + 1, b) {
            Some(e) => Ok(
                (
                    if b == '"' as u8 {
                        TokenKind::String
                    } else {
                        TokenKind::Char
                    },
                    e,
                ),
            ),
            None => Err(LexFailure::Unterminated),
        }
    } else if b == '/' as u8 {
        if i + 1 < s.len() && s[i + 1] == '/' as u8 {
            Ok((TokenKind::Skip, line_end(s, i + 2)))
        } else {
            Ok((TokenKind::Div, i + 1))
        }
    } else if is_alpha(b) || b == '_' as u8 {
        Ok((TokenKind::Word, word_end(s, i + 1)))
    } else if is_digit(b) {
        Ok((TokenKind::Integer, number_end(s, i + 1)))
    } else if is_blank(b) {
        let e = blank_end(s, i + 1);
        Ok(
            (
                if has_newline(s, i + 1, e) {
                    TokenKind::NewlineSkip
                } else {
                    TokenKind::Skip
                },
                e,
            ),
        )
    } else {
        Err(LexFailure::Unrecognized)
    }
}

/// The tokens of the source from byte `i` on, as kinds with the bytes they
/// span; or the failure that stops the lexer and the byte where the token
/// it could not read starts.
pub open spec fn lex_spans(s: Seq<u8>, i: int) -> Result<Seq<(TokenKind, int, int)>, (LexFailure, int)>
    decreases s.len() - i,
{
    if i < 0 || i >= s.len() {
        Ok(Seq::empty())
    } else {
        match scan(s, i) {
            Ok((k, e)) => if i < e <= s.len() {
                match lex_spans(s, e) {
                    Ok(rest) => Ok(seq![(k, i, e)] + rest),
                    Err(f) => Err(f),
                }
            } else {
                Ok(Seq::empty())
            },
            Err(f) => Err((f, i)),
        }
    }
}

/// The part of a token's span that is its text.
pub open spec fn text_span(k: TokenKind, b: int, e: int) -> (int, int) {
    if k == TokenKind::String || k == TokenKind::Char {
        (b + 1, e - 1)
    } else {
        (b, e)
    }
}

/// Whether `t` is the token for `span` of `s`, with texts named in `names`.
pub open spec fn token_matches(
    t: Token,
    span: (TokenKind, int, int),
    s: Seq<u8>,
    names: Seq<Seq<u8>>,
) -> bool {
    let (k, b, e) = span;
    let (tb, te) = text_span(k, b, e);
    &&& t.kind == k
    &&& has_text(k) ==> t.data < names.len() && names[t.data as int] == s.subrange(tb, te)
    &&& (k == TokenKind::Skip || k == TokenKind::NewlineSkip) ==> t.data == e - b
    &&& !has_text(k) && k != TokenKind::Skip && k != TokenKind::NewlineSkip ==> t.data == 0
}

/// The table `t` with the text `x` stored, if it is not there yet.
pub open spec fn with_text(t: Seq<Seq<u8>>, x: Seq<u8>) -> Seq<Seq<u8>> {
    if t.contains(x) {
        t
    } else {
        t.push(x)
    }
}

/// The table `t` once the token for `span` of `s` is read: its text stored,
/// if it has one.
pub open spec fn span_grow(t: Seq<Seq<u8>>, span: (TokenKind, int, int), s: Seq<u8>) -> Seq<Seq<u8>> {
    let (k, b, e) = span;
    let (tb, te) = text_span(k, b, e);
    if has_text(k) {
        with_text(t, s.subrange(tb, te))
    } else {
        t
    }
}

/// The table `t` once the tokens for `spans` of `s` are read, in order:
/// each new text is added at the end, the first time it comes.
pub open spec fn grown(t: Seq<Seq<u8>>, spans: Seq<(TokenKind, int, int)>, s: Seq<u8>) -> Seq<Seq<u8>>
    decreases spans.len(),
{
    if spans.len() == 0 {
        t
    } else {
        span_grow(grown(t, spans.drop_last(), s), spans.last(), s)
    }
}

/// The message of a failure.
pub open spec fn failure_message(f: LexFailure) -> Seq<char> {
    match f {
        LexFailure::Unrecognized => "unrecognized token"@,
        LexFailure::Unterminated => "failed to parse char or string"@,
    }
}

/// The bytes a failure is reported on, for a token that starts at `b`.
pub open spec fn failure_range(f: LexFailure, b: int, len: int) -> (int, int) {
    match f {
        LexFailure::Unrecognized => (b, b + 1),
        LexFailure::Unterminated => (b + 1, len),
    }
}

/// Whether table `t2` holds every text of `t1` under the same id.
pub open spec fn extends(t1: Seq<Seq<u8>>, t2: Seq<Seq<u8>>) -> bool {
    t1.len() <= t2.len() && forall|i: int| 0 <= i < t1.len() ==> #[trigger] t2[i] == t1[i]
}

/// A result with `p` put before the tokens, if there are tokens.
pub open spec fn prepend(
    p: Seq<(TokenKind, int, int)>,
    r: Result<Seq<(TokenKind, int, int)>, (LexFailure, int)>,
) -> Result<Seq<(TokenKind, int, int)>, (LexFailure, int)> {
    match r {
        Ok(x) => Ok(p + x),
        Err(f) => Err(f),
    }
}

/// Whether the error `e` reports failure `f` for a token starting at `b`
/// of a source of `len` bytes in file `file`.
pub open spec fn reports(e: Error, f: LexFailure, file: u32, b: int, len: int) -> bool {
    e matches Error::Message(m) && {
        &&& m.file == file
        &&& m.message@ == failure_message(f)
        &&& m.range.start == failure_range(f, b, len).0
        &&& m.range.end == failure_range(f, b, len).1
    }
}

proof fn lemma_word_end(s: Seq<u8>, i: int)
    requires
        0 <= i <= s.len(),
    ensures
        i <= word_end(s, i) <= s.len(),
    decreases s.len() - i,
{
    if i < s.len() && is_word_byte(s[i]) {
        lemma_word_end(s, i + 1);
    }
}

proof fn lemma_number_end(s: Seq<u8>, i: int)
    requires
        0 <= i <= s.len(),
    ensures
        i <= number_end(s, i) <= s.len(),
    decreases s.len() - i,
{
    if i < s.len() && is_number_byte(s[i]) {
        lemma_number_end(s, i + 1);
    }
}

proof fn lemma_blank_end(s: Seq<u8>, i: int)
    requires
        0 <= i <= s.len(),
    ensures
        i <= blank_end(s, i) <= s.len(),
    decreases s.len() - i,
{
    if i < s.len() && is_blank(s[i]) {
        lemma_blank_end(s, i + 1);
    }
}

proof fn lemma_line_end(s: Seq<u8>, i: int)
    requires
        0 <= i <= s.len(),
    ensures
        i <= line_end(s, i) <= s.len(),
    decreases s.len() - i,
{
    if i < s.len() && s[i] != '\n' as u8 {
        lemma_line_end(s, i + 1);
    }
}

proof fn lemma_quote_end(s: Seq<u8>, start: int, k: int, t: u8)
    requires
        0 <= k,
    ensures
        quote_end(s, start, k, t) matches Some(e) ==> k + 1 <= e <= s.len(),
    decreases s.len() - k,
{
    if k < s.len() && !(s[k] == t && t != '\\' as u8 && (k == start || s[k - 1] != '\\' as u8)) {
        lemma_quote_end(s, start, k + 1, t);
    }
}

fn is_word_byte_exec(b: u8) -> (r: bool)
    ensures
        r == is_word_byte(b),
{
    ('a' as u8 <= b && b <= 'z' as u8) || ('A' as u8 <= b && b <= 'Z' as u8) || b == '_' as u8 || (
    '0' as u8 <= b && b <= '9' as u8)
}

fn is_number_byte_exec(b: u8) -> (r: bool)
    ensures
        r == is_number_byte(b),
{
    b == '_' as u8 || ('0' as u8 <= b && b <= '9' as u8)
}

fn is_blank_exec(b: u8) -> (r: bool)
    ensures
        r == is_blank(b),
{
    b == ' ' as u8 || b == '\t' as u8 || b == '\r' as u8 || b == '\n' as u8
}

/// Where the word whose bytes after the first start at `i` ends.
fn scan_word(bytes: &[u8], i: usize) -> (r: usize)
    requires
        i <= bytes@.len(),
    ensures
        r == word_end(bytes@, i as int),
        i <= r <= bytes@.len(),
{
    let mut j = i;
    while j < bytes.len() && is_word_byte_exec(bytes[j])
        invariant
            i <= j <= bytes@.len(),
            word_end(bytes@, i as int) == word_end(bytes@, j as int),
        decreases bytes@.len() - j,
    {
        j += 1;
    }
    j
}

/// Where the number whose bytes after the first start at `i` ends.
fn scan_number(bytes: &[u8], i: usize) -> (r: usize)
    requires
        i <= bytes@.len(),
    ensures
        r == number_end(bytes@, i as int),
        i <= r <= bytes@.len(),
{
    let mut j = i;
    while j < bytes.len() && is_number_byte_exec(bytes[j])
        invariant
            i <= j <= bytes@.len(),
            number_end(bytes@, i as int) == number_end(bytes@, j as int),
        decreases bytes@.len() - j,
    {
        j += 1;
    }
    j
}

/// Where the blanks after the first, starting at `i`, end, and whether a
/// line break is among them.
fn scan_blanks(bytes: &[u8], i: usize) -> (r: (usize, bool))
    requires
        i <= bytes@.len(),
    ensures
        r.0 == blank_end(bytes@, i as int),
        i <= r.0 <= bytes@.len(),
        r.1 == has_newline(bytes@, i as int, r.0 as int),
{
    let mut j = i;
    let mut newline = false;
    while j < bytes.len() && is_blank_exec(bytes[j])
        invariant
            i <= j <= bytes@.len(),
            blank_end(bytes@, i as int) == blank_end(bytes@, j as int),
            newline == has_newline(bytes@, i as int, j as int),
        decreases bytes@.len() - j,
    {
        let b = bytes[j];
        if b == '\r' as u8 || b == '\n' as u8 {
            newline = true;
        }
        j += 1;
    }
    (j, newline)
}

/// Where the line comment whose text starts at `i` ends.
fn scan_line(bytes: &[u8], i: usize) -> (r: usize)
    requires
        i <= bytes@.len(),
    ensures
        r == line_end(bytes@, i as int),
        i <= r <= bytes@.len(),
{
    let mut j = i;
    while j < bytes.len()
        invariant
            i <= j <= bytes@.len(),
            line_end(bytes@, i as int) == line_end(bytes@, j as int),
        decreases bytes@.len() - j,
    {
        let b = bytes[j];
        j += 1;
        if b == '\n' as u8 {
            return j;
        }
    }
    j
}

/// Finds the end of a quoted text whose body starts at `index`: just past
/// the first `terminator` that no backslash of the body comes right before.
pub fn parse_string(file: u32, bytes: &[u8], index: usize, terminator: u8) -> (r: Result<usize, Error>)
    requires
        index <= bytes@.len(),
    ensures
        match quote_end(bytes@, index as int, index as int, terminator) {
            Some(e) => (r matches Ok(x) && x == e),
            None => (r matches Err(err) && reports(
                err,
                LexFailure::Unterminated,
                file,
                index - 1,
                bytes@.len() as int,
            )),
        },
{
    let begin = index;
    let mut at = index;
    let mut escaped = false;
    while at < bytes.len()
        invariant
            begin == index,
            begin <= at <= bytes@.len(),
            quote_end(bytes@, begin as int, begin as int, terminator) == quote_end(
                bytes@,
                begin as int,
                at as int,
                terminator,
            ),
            escaped == (at > begin && bytes@[at - 1] == '\\' as u8),
        decreases bytes@.len() - at,
    {
        let b = bytes[at];
        at += 1;
        if b == '\\' as u8 {
            escaped = true;
            continue;
        }
        if b == terminator && !escaped {
            proof {
                let k = at - 1;
                assert(bytes@[k] == terminator);
                assert(k == begin || bytes@[k - 1] != '\\' as u8);
                assert(quote_end(bytes@, begin as int, k as int, terminator) == Some(k + 1));
                assert(quote_end(bytes@, begin as int, begin as int, terminator) == Some(at as int));
            }
            return Ok(at);
        }
        escaped = false;
    }
    Err(
        Error::Message(
            ErrorMessage {
                message: String::from_str("failed to parse char or string"),
                file,
                range: CopyRange { start: begin, end: at },
            },
        ),
    )
}

fn single_kind_exec(b: u8) -> (r: Option<TokenKind>)
    ensures
        r == single_kind(b),
{
    if b == '(' as u8 {
        Some(TokenKind::LParen)
    } else if b == ')' as u8 {
        Some(TokenKind::RParen)
    } else if b == '[' as u8 {
        Some(TokenKind::LBracket)
    } else if b == ']' as u8 {
        Some(TokenKind::RBracket)
    } else if b == '{' as u8 {
        Some(TokenKind::LBrace)
    } else if b == '}' as u8 {
        Some(TokenKind::RBrace)
    } else if b == '.' as u8 {
        Some(TokenKind::Dot)
    } else if b == ',' as u8 {
        Some(TokenKind::Comma)
    } else if b == ':' as u8 {
        Some(TokenKind::Colon)
    } else if b == ';' as u8 {
        Some(TokenKind::Semicolon)
    } else if b == '~' as u8 {
        Some(TokenKind::Tilde)
    } else if b == '&' as u8 {
        Some(TokenKind::Amp)
    } else if b == '^' as u8 {
        Some(TokenKind::Caret)
    } else if b == '%' as u8 {
        Some(TokenKind::Mod)
    } else if b == '*' as u8 {
        Some(TokenKind::Star)
    } else if b == '+' as u8 {
        Some(TokenKind::Plus)
    } else if b == '-' as u8 {
        Some(TokenKind::Dash)
    } else {
        None
    }
}

fn eq_kinds_exec(b: u8) -> (r: Option<(TokenKind, TokenKind)>)
    ensures
        r == eq_kinds(b),
{
    if b == '!' as u8 {
        Some((TokenKind::Bang, TokenKind::NotEqual))
    } else if b == '=' as u8 {
        Some((TokenKind::Equal, TokenKind::Equal2))
    } else if b == '<' as u8 {
        Some((TokenKind::Lt, TokenKind::LtEq))
    } else if b == '>' as u8 {
        Some((TokenKind::Gt, TokenKind::GtEq))
    } else {
        None
    }
}

/// Reads the token that starts at byte `begin`, storing its text in
/// `table` if it has one, and returns it with where it ends.
fn next_token(table: &mut StringTable, file: u32, bytes: &[u8], begin: usize) -> (r: Result<
    (Token, usize),
    Error,
>)
    requires
        old(table).wf(),
        begin < bytes@.len(),
        old(table)@.len() + 1 < u32::MAX,
        bytes@.len() < u32::MAX,
    ensures
        final(table).wf(),
        extends(old(table)@, final(table)@),
        final(table)@.len() <= old(table)@.len() + 1,
        match scan(bytes@, begin as int) {
            Ok((k, e)) => (r matches Ok((t, e2)) && e2 == e && begin < e <= bytes@.len()
                && token_matches(t, (k, begin as int, e), bytes@, final(table)@) && final(table)@
                == span_grow(old(table)@, (k, begin as int, e), bytes@)),
            Err(f) => (r matches Err(err) && reports(err, f, file, begin as int, bytes@.len() as int)),
        },
{
    let b = bytes[begin];
    let index = begin + 1;
    match single_kind_exec(b) {
        Some(kind) => {
            return Ok((Token { kind, data: 0 }, index));
        },
        None => {},
    }
    match eq_kinds_exec(b) {
        Some((alone, with_eq)) => {
            if index < bytes.len() && bytes[index] == '=' as u8 {
                return Ok((Token { kind: with_eq, data: 0 }, index + 1));
            }
            return Ok((Token { kind: alone, data: 0 }, index));
        },
        None => {},
    }
    if b == '"' as u8 || b == '\'' as u8 {
        let end = match parse_string(file, bytes, index, b) {
            Ok(end) => end,
            Err(e) => {
                return Err(e);
            },
        };
        proof {
            lemma_quote_end(bytes@, index as int, index as int, b);
        }
        let data = table.add(&bytes[index..end - 1]);
        let kind = if b == '"' as u8 {
            TokenKind::String
        } else {
            TokenKind::Char
        };
        return Ok((Token { kind, data }, end));
    }
    if b == '/' as u8 {
        if index < bytes.len() && bytes[index] == '/' as u8 {
            let end = scan_line(bytes, index + 1);
            let data = (end - begin) as u32;
            return Ok((Token { kind: TokenKind::Skip, data }, end));
        }
        return Ok((Token { kind: TokenKind::Div, data: 0 }, index));
    }
    let is_alpha = ('a' as u8 <= b && b <= 'z' as u8) || ('A' as u8 <= b && b <= 'Z' as u8);
    if is_alpha || b == '_' as u8 {
        let end = scan_word(bytes, index);
        let data = table.add(&bytes[begin..end]);
        return Ok((Token { kind: TokenKind::Word, data }, end));
    }
    let is_num = '0' as u8 <= b && b <= '9' as u8;
    if is_num {
        let end = scan_number(bytes, index);
        let data = table.add(&bytes[begin..end]);
        return Ok((Token { kind: TokenKind::Integer, data }, end));
    }
    if b == ' ' as u8 || b == '\t' as u8 || b == '\r' as u8 || b == '\n' as u8 {
        let (end, newline) = scan_blanks(bytes, index);
        let kind = if newline {
            TokenKind::NewlineSkip
        } else {
            TokenKind::Skip
        };
        let data = (end - begin) as u32;
        return Ok((Token { kind, data }, end));
    }
    Err(
        Error::Message(
            ErrorMessage {
                message: String::from_str("unrecognized token"),
                file,
                range: CopyRange { start: begin, end: index },
            },
        ),
    )
}

/// Splits the source `s` of file `file` into tokens, storing the texts of
/// identifiers and literals in `table`. The first byte that starts no token,
/// or a quote that is never closed, makes it fail with an error on that
/// place.
pub fn lex(table: &mut StringTable, file: u32, s: &str) -> (r: Result<Vec<Token>, Error>)
    requires
        old(table).wf(),
        old(table)@.len() + s.spec_bytes().len() + 1 < u32::MAX,
    ensures
        final(table).wf(),
        extends(old(table)@, final(table)@),
        match lex_spans(s.spec_bytes(), 0) {
            Ok(spans) => (r matches Ok(toks) && toks@.len() == spans.len() && (forall|k: int|
                0 <= k < spans.len() ==> token_matches(
                    #[trigger] toks@[k],
                    spans[k],
                    s.spec_bytes(),
                    final(table)@,
                )) && final(table)@ == grown(old(table)@, spans, s.spec_bytes())),
            Err((f, b)) => (r matches Err(err) && reports(
                err,
                f,
                file,
                b,
                s.spec_bytes().len() as int,
            )),
        },
{
    let bytes = s.as_bytes();
    let mut tokens: Vec<Token> = Vec::new();
    let mut index: usize = 0;
    let ghost mut spans: Seq<(TokenKind, int, int)> = Seq::empty();
    proof {
        assert(spans + lex_spans(bytes@, 0)->Ok_0 =~= lex_spans(bytes@, 0)->Ok_0);
    }
    while index < bytes.len()
        invariant
            bytes@ == s.spec_bytes(),
            index <= bytes@.len(),
            table.wf(),
            extends(old(table)@, table@),
            table@.len() <= old(table)@.len() + index,
            old(table)@.len() + bytes@.len() + 1 < u32::MAX,
            tokens@.len() == spans.len(),
            forall|k: int|
                0 <= k < spans.len() ==> token_matches(#[trigger] tokens@[k], spans[k], bytes@, table@),
            lex_spans(bytes@, 0) == prepend(spans, lex_spans(bytes@, index as int)),
            table@ == grown(old(table)@, spans, bytes@),
        decreases bytes@.len() - index,
    {
        let ghost t0 = table@;
        match next_token(table, file, bytes, index) {
            Ok((tok, end)) => {
                proof {
                    let rest = lex_spans(bytes@, end as int);
                    let span = (tok.kind, index as int, end as int);
                    assert(lex_spans(bytes@, index as int) == prepend(seq![span], rest));
                    match rest {
                        Ok(x) => {
                            assert(spans + (seq![span] + x) =~= spans.push(span) + x);
                        },
                        Err(_) => {},
                    }
                    assert forall|k: int| 0 <= k < spans.len() implies token_matches(
                        #[trigger] tokens@[k],
                        spans[k],
                        bytes@,
                        table@,
                    ) by {
                        assert(token_matches(tokens@[k], spans[k], bytes@, t0));
                    }
                }
                tokens.push(tok);
                proof {
                    let sp = (tok.kind, index as int, end as int);
                    assert(spans.push(sp).drop_last() =~= spans);
                    spans = spans.push(sp);
                }
                index = end;
            },
            Err(e) => {
                return Err(e);
            },
        }
    }
    proof {
        assert(spans + Seq::<(TokenKind, int, int)>::empty() =~= spans);
    }
    Ok(tokens)
}

/// A token ends past where it starts and no later than the source.
proof fn lemma_scan_bounds(s: Seq<u8>, i: int)
    requires
        0 <= i < s.len(),
    ensures
        scan(s, i) matches Ok((k, e)) ==> i < e <= s.len(),
{
    let b = s[i];
    if b == '"' as u8 || b == '\'' as u8 {
        lemma_quote_end(s, i + 1, i + 1, b);
    }
    if b == '/' as u8 && i + 1 < s.len() && s[i + 1] == '/' as u8 {
        lemma_line_end(s, i + 2);
    }
    lemma_word_end(s, i + 1);
    lemma_number_end(s, i + 1);
    lemma_blank_end(s, i + 1);
}

/// The sum of the lengths of a run of tokens.
pub open spec fn sum_token_lens(toks: Seq<Token>, names: Seq<Seq<u8>>) -> int
    decreases toks.len(),
{
    if toks.len() == 0 {
        0
    } else {
        spec_token_len(toks[0], names) + sum_token_lens(toks.drop_first(), names)
    }
}

/// The tokens of a source cover it: when none of them is `!=`, whose length
/// `Token::len` gives as 1, their lengths add up to the source's.
pub proof fn lemma_lex_covers(s: Seq<u8>, names: Seq<Seq<u8>>, toks: Seq<Token>)
    requires
        lex_spans(s, 0) is Ok,
        toks.len() == lex_spans(s, 0)->Ok_0.len(),
        forall|k: int|
            0 <= k < toks.len() ==> token_matches(
                #[trigger] toks[k],
                lex_spans(s, 0)->Ok_0[k],
                s,
                names,
            ),
        forall|k: int| 0 <= k < toks.len() ==> (#[trigger] toks[k]).kind != TokenKind::NotEqual,
    ensures
        sum_token_lens(toks, names) == s.len(),
{
    lemma_covers_from(s, 0, names, toks);
}

proof fn lemma_covers_from(s: Seq<u8>, i: int, names: Seq<Seq<u8>>, toks: Seq<Token>)
    requires
        0 <= i <= s.len(),
        lex_spans(s, i) is Ok,
        toks.len() == lex_spans(s, i)->Ok_0.len(),
        forall|k: int|
            0 <= k < toks.len() ==> token_matches(
                #[trigger] toks[k],
                lex_spans(s, i)->Ok_0[k],
                s,
                names,
            ),
        forall|k: int| 0 <= k < toks.len() ==> (#[trigger] toks[k]).kind != TokenKind::NotEqual,
    ensures
        sum_token_lens(toks, names) == s.len() - i,
    decreases s.len() - i,
{
    if i < s.len() {
        let (k, e) = scan(s, i)->Ok_0;
        let rest = lex_spans(s, e)->Ok_0;
        lemma_scan_bounds(s, i);
        assert(lex_spans(s, i)->Ok_0 == seq![(k, i, e)] + rest);
        assert(lex_spans(s, i)->Ok_0[0] == (k, i, e));
        let t = toks[0];
        assert(token_matches(t, (k, i, e), s, names));
        assert(t.kind != TokenKind::NotEqual);
        let b = s[i];
        if b == '"' as u8 || b == '\'' as u8 {
            lemma_quote_end(s, i + 1, i + 1, b);
        }
        if b == '/' as u8 && i + 1 < s.len() && s[i + 1] == '/' as u8 {
            lemma_line_end(s, i + 2);
        }
        lemma_word_end(s, i + 1);
        lemma_number_end(s, i + 1);
        lemma_blank_end(s, i + 1);
        assert(spec_token_len(t, names) == e - i);
        assert forall|q: int| 0 <= q < toks.drop_first().len() implies token_matches(
            #[trigger] toks.drop_first()[q],
            lex_spans(s, e)->Ok_0[q],
            s,
            names,
        ) by {
            assert(toks.drop_first()[q] == toks[q + 1]);
            assert(lex_spans(s, i)->Ok_0[q + 1] == rest[q]);
        }
        assert forall|q: int| 0 <= q < toks.drop_first().len() implies (#[trigger] toks.drop_first()[q]).kind
            != TokenKind::NotEqual by {
            assert(toks.drop_first()[q] == toks[q + 1]);
        }
        lemma_covers_from(s, e, names, toks.drop_first());
    } else {
        assert(toks.len() == 0);
    }
}

/// An operator token has the kind its bytes spell: a lone `>`, `<`, `=` or
/// `!` is `Gt`, `Lt`, `Equal` or `Bang`, and followed by `=` it is the
/// two-byte `GtEq`, `LtEq`, `Equal2` or `NotEqual`; each of the bytes
/// `( ) [ ] { } . , : ; ~ & ^ % * + -` is a token of one byte of its own
/// kind; a letter or `_` starts a word, a digit an integer, a `"` a string
/// and a `'` a character.
pub proof fn lemma_operator_kinds(s: Seq<u8>, i: int)
    requires
        0 <= i < s.len(),
    ensures
        ({
            let b = s[i];
            let eq = i + 1 < s.len() && s[i + 1] == '=' as u8;
            &&& b == '>' as u8 ==> scan(s, i) == (if eq {
                Ok::<(TokenKind, int), LexFailure>((TokenKind::GtEq, i + 2))
            } else {
                Ok((TokenKind::Gt, i + 1))
            })
            &&& b == '<' as u8 ==> scan(s, i) == (if eq {
                Ok::<(TokenKind, int), LexFailure>((TokenKind::LtEq, i + 2))
            } else {
                Ok((TokenKind::Lt, i + 1))
            })
            &&& b == '=' as u8 ==> scan(s, i) == (if eq {
                Ok::<(TokenKind, int), LexFailure>((TokenKind::Equal2, i + 2))
            } else {
                Ok((TokenKind::Equal, i + 1))
            })
            &&& b == '!' as u8 ==> scan(s, i) == (if eq {
                Ok::<(TokenKind, int), LexFailure>((TokenKind::NotEqual, i + 2))
            } else {
                Ok((TokenKind::Bang, i + 1))
            })
            &&& b == '(' as u8 ==> scan(s, i) == Ok::<(TokenKind, int), LexFailure>((TokenKind::LParen, i + 1))
            &&& b == ')' as u8 ==> scan(s, i) == Ok::<(TokenKind, int), LexFailure>((TokenKind::RParen, i + 1))
            &&& b == '[' as u8 ==> scan(s, i) == Ok::<(TokenKind, int), LexFailure>((TokenKind::LBracket, i + 1))
            &&& b == ']' as u8 ==> scan(s, i) == Ok::<(TokenKind, int), LexFailure>((TokenKind::RBracket, i + 1))
            &&& b == '{' as u8 ==> scan(s, i) == Ok::<(TokenKind, int), LexFailure>((TokenKind::LBrace, i + 1))
            &&& b == '}' as u8 ==> scan(s, i) == Ok::<(TokenKind, int), LexFailure>((TokenKind::RBrace, i + 1))
            &&& b == '.' as u8 ==> scan(s, i) == Ok::<(TokenKind, int), LexFailure>((TokenKind::Dot, i + 1))
            &&& b == ',' as u8 ==> scan(s, i) == Ok::<(TokenKind, int), LexFailure>((TokenKind::Comma, i + 1))
            &&& b == ':' as u8 ==> scan(s, i) == Ok::<(TokenKind, int), LexFailure>((TokenKind::Colon, i + 1))
            &&& b == ';' as u8 ==> scan(s, i) == Ok::<(TokenKind, int), LexFailure>((TokenKind::Semicolon, i + 1))
            &&& b == '~' as u8 ==> scan(s, i) == Ok::<(TokenKind, int), LexFailure>((TokenKind::Tilde, i + 1))
            &&& b == '&' as u8 ==> scan(s, i) == Ok::<(TokenKind, int), LexFailure>((TokenKind::Amp, i + 1))
            &&& b == '^' as u8 ==> scan(s, i) == Ok::<(TokenKind, int), LexFailure>((TokenKind::Caret, i + 1))
            &&& b == '%' as u8 ==> scan(s, i) == Ok::<(TokenKind, int), LexFailure>((TokenKind::Mod, i + 1))
            &&& b == '*' as u8 ==> scan(s, i) == Ok::<(TokenKind, int), LexFailure>((TokenKind::Star, i + 1))
            &&& b == '+' as u8 ==> scan(s, i) == Ok::<(TokenKind, int), LexFailure>((TokenKind::Plus, i + 1))
            &&& b == '-' as u8 ==> scan(s, i) == Ok::<(TokenKind, int), LexFailure>((TokenKind::Dash, i + 1))
            &&& ('a' as u8 <= b <= 'z' as u8 || 'A' as u8 <= b <= 'Z' as u8 || b == '_' as u8) ==> (scan(s, i) matches Ok((k, _))
                && k == TokenKind::Word)
            &&& '0' as u8 <= b <= '9' as u8 ==> (scan(s, i) matches Ok((k, _)) && k
                == TokenKind::Integer)
            &&& b == '"' as u8 ==> (scan(s, i) matches Ok((k, _)) ==> k == TokenKind::String)
            &&& b == '\'' as u8 ==> (scan(s, i) matches Ok((k, _)) ==> k == TokenKind::Char)
        }),
{
}

/// Each token that `lex` reads is the token that starts where its span
/// starts: its kind and end are what reading from there gives.
pub proof fn lemma_spans_are_scans(s: Seq<u8>, i: int)
    requires
        0 <= i,
        lex_spans(s, i) is Ok,
    ensures
        forall|m: int|
            0 <= m < lex_spans(s, i)->Ok_0.len() ==> {
                let (k, b, e) = #[trigger] lex_spans(s, i)->Ok_0[m];
                &&& i <= b < s.len()
                &&& scan(s, b) == Ok::<(TokenKind, int), LexFailure>((k, e))
            },
    decreases s.len() - i,
{
    if i < s.len() {
        if let Ok((k, e)) = scan(s, i) {
            if i < e <= s.len() {
                lemma_spans_are_scans(s, e);
                let rest = lex_spans(s, e)->Ok_0;
                assert(lex_spans(s, i)->Ok_0 == seq![(k, i, e)] + rest);
                assert forall|m: int| 0 <= m < lex_spans(s, i)->Ok_0.len() implies {
                    let (k2, b, e2) = #[trigger] lex_spans(s, i)->Ok_0[m];
                    &&& i <= b < s.len()
                    &&& scan(s, b) == Ok::<(TokenKind, int), LexFailure>((k2, e2))
                } by {
                    if m > 0 {
                        assert(lex_spans(s, i)->Ok_0[m] == rest[m - 1]);
                    }
                }
            }
        }
    }
}

/// The comparison tokens `lex` reads are the operators their bytes spell: a
/// token that starts at `>` is `GtEq` spanning `>=` when `=` follows, and
/// `Gt` spanning the one byte otherwise; likewise `<` with `LtEq` and `Lt`.
pub proof fn lemma_lex_comparisons(s: Seq<u8>)
    requires
        lex_spans(s, 0) is Ok,
    ensures
        forall|m: int|
            0 <= m < lex_spans(s, 0)->Ok_0.len() ==> {
                let (k, b, e) = #[trigger] lex_spans(s, 0)->Ok_0[m];
                let eq = b + 1 < s.len() && s[b + 1] == '=' as u8;
                &&& s[b] == '>' as u8 ==> (if eq {
                    k == TokenKind::GtEq && e == b + 2
                } else {
                    k == TokenKind::Gt && e == b + 1
                })
                &&& s[b] == '<' as u8 ==> (if eq {
                    k == TokenKind::LtEq && e == b + 2
                } else {
                    k == TokenKind::Lt && e == b + 1
                })
            },
{
    lemma_spans_are_scans(s, 0);
    assert forall|m: int| 0 <= m < lex_spans(s, 0)->Ok_0.len() implies {
        let (k, b, e) = #[trigger] lex_spans(s, 0)->Ok_0[m];
        let eq = b + 1 < s.len() && s[b + 1] == '=' as u8;
        &&& s[b] == '>' as u8 ==> (if eq {
            k == TokenKind::GtEq && e == b + 2
        } else {
            k == TokenKind::Gt && e == b + 1
        })
        &&& s[b] == '<' as u8 ==> (if eq {
            k == TokenKind::LtEq && e == b + 2
        } else {
            k == TokenKind::Lt && e == b + 1
        })
    } by {
        let (k, b, e) = lex_spans(s, 0)->Ok_0[m];
        lemma_operator_kinds(s, b);
    }
}

} // verus!
