//! The NovaQL lexer: source text to tokens with exact UTF-8 byte spans.
//!
//! The token stream is defined by `lex_spec`, a left-to-right reading of
//! the characters: trivia (whitespace, `//` line comments, `/* */` block
//! comments) is skipped, then the longest token at that place is taken.
//! A float literal keeps its text: turning it into a number is floating
//! point, which this library leaves to its caller.
use vstd::prelude::*;

use crate::text::{chars_of, is_alphanumeric, is_whitespace, push_char, unicode_alphanumeric, unicode_whitespace};

verus! {

/// Half-open UTF-8 byte range in NovaQL source text.
#[derive(Debug, Clone, Copy, PartialEq, Eq, Hash)]
pub struct Span {
    /// Inclusive starting byte offset.
    pub start: usize,
    /// Exclusive ending byte offset.
    pub end: usize,
}

impl Span {
    /// Creates a source span.
    pub fn new(start: usize, end: usize) -> (r: Self)
        ensures
            r.start == start,
            r.end == end,
    {
        Span { start, end }
    }

    /// Returns the smallest span containing both inputs.
    pub fn join(self, other: Self) -> (r: Self)
        ensures
            r.start == if self.start < other.start {
                self.start
            } else {
                other.start
            },
            r.end == if self.end > other.end {
                self.end
            } else {
                other.end
            },
    {
        Span {
            start: if self.start < other.start {
                self.start
            } else {
                other.start
            },
            end: if self.end > other.end {
                self.end
            } else {
                other.end
            },
        }
    }
}

/// Reserved NovaQL words. Keyword matching is ASCII case-insensitive.
#[derive(Debug, Clone, Copy, PartialEq, Eq, Hash)]
pub enum Keyword {
    /// `find` command.
    Find,
    /// `insert` command.
    Insert,
    /// `into` preposition.
    Into,
    /// `update` command.
    Update,
    /// `set` clause.
    SetClause,
    /// `delete` command.
    Delete,
    /// `from` clause.
    From,
    /// `where` filtering clause.
    Where,
    /// `project` projection clause.
    Project,
    /// `sort` ordering clause.
    Sort,
    /// `by` preposition.
    By,
    /// Ascending ordering.
    Asc,
    /// Descending ordering.
    Desc,
    /// Result limit.
    Limit,
    /// Result offset.
    Skip,
    /// `create` command.
    Create,
    /// `drop` command.
    Drop,
    /// Collection object type.
    Collection,
    /// Index object type.
    Index,
    /// `on` preposition.
    On,
    /// Explain command modifier.
    Explain,
    /// Logical conjunction.
    And,
    /// Logical disjunction.
    Or,
    /// Logical negation.
    Not,
    /// Boolean true literal.
    True,
    /// Boolean false literal.
    False,
    /// Null literal.
    Null,
}

/// The ASCII lower-case form of a character (others unchanged).
pub open spec fn ascii_lower(c: char) -> char {
    if 'A' <= c <= 'Z' {
        ((c as u32) + 32) as char
    } else {
        c
    }
}

/// `text` equals `word` ignoring ASCII case.
pub open spec fn same_ignoring_ascii_case(text: Seq<char>, word: Seq<char>) -> bool {
    text.len() == word.len() && forall|i: int| 0 <= i < text.len() ==> ascii_lower(#[trigger] text[i]) == ascii_lower(word[i])
}

/// The keyword a word spells, ignoring ASCII case.
pub open spec fn keyword_of(text: Seq<char>) -> Option<Keyword> {
    if same_ignoring_ascii_case(text, "find"@) {
        Some(Keyword::Find)
    } else if same_ignoring_ascii_case(text, "insert"@) {
        Some(Keyword::Insert)
    } else if same_ignoring_ascii_case(text, "into"@) {
        Some(Keyword::Into)
    } else if same_ignoring_ascii_case(text, "update"@) {
        Some(Keyword::Update)
    } else if same_ignoring_ascii_case(text, "set"@) {
        Some(Keyword::SetClause)
    } else if same_ignoring_ascii_case(text, "delete"@) {
        Some(Keyword::Delete)
    } else if same_ignoring_ascii_case(text, "from"@) {
        Some(Keyword::From)
    } else if same_ignoring_ascii_case(text, "where"@) {
        Some(Keyword::Where)
    } else if same_ignoring_ascii_case(text, "project"@) {
        Some(Keyword::Project)
    } else if same_ignoring_ascii_case(text, "sort"@) {
        Some(Keyword::Sort)
    } else if same_ignoring_ascii_case(text, "by"@) {
        Some(Keyword::By)
    } else if same_ignoring_ascii_case(text, "asc"@) {
        Some(Keyword::Asc)
    } else if same_ignoring_ascii_case(text, "desc"@) {
        Some(Keyword::Desc)
    } else if same_ignoring_ascii_case(text, "limit"@) {
        Some(Keyword::Limit)
    } else if same_ignoring_ascii_case(text, "skip"@) {
        Some(Keyword::Skip)
    } else if same_ignoring_ascii_case(text, "create"@) {
        Some(Keyword::Create)
    } else if same_ignoring_ascii_case(text, "drop"@) {
        Some(Keyword::Drop)
    } else if same_ignoring_ascii_case(text, "collection"@) {
        Some(Keyword::Collection)
    } else if same_ignoring_ascii_case(text, "index"@) {
        Some(Keyword::Index)
    } else if same_ignoring_ascii_case(text, "on"@) {
        Some(Keyword::On)
    } else if same_ignoring_ascii_case(text, "explain"@) {
        Some(Keyword::Explain)
    } else if same_ignoring_ascii_case(text, "and"@) {
        Some(Keyword::And)
    } else if same_ignoring_ascii_case(text, "or"@) {
        Some(Keyword::Or)
    } else if same_ignoring_ascii_case(text, "not"@) {
        Some(Keyword::Not)
    } else if same_ignoring_ascii_case(text, "true"@) {
        Some(Keyword::True)
    } else if same_ignoring_ascii_case(text, "false"@) {
        Some(Keyword::False)
    } else if same_ignoring_ascii_case(text, "null"@) {
        Some(Keyword::Null)
    } else {
        None
    }
}

/// Whether `text` equals `word` ignoring ASCII case.
fn same_word(text: &Vec<char>, word: &str) -> (r: bool)
    ensures
        r == same_ignoring_ascii_case(text@, word@),
{
    let w = chars_of(word);
    if w.len() != text.len() {
        return false;
    }
    let mut i: usize = 0;
    while i < w.len()
        invariant
            i <= w@.len(),
            w@ == word@,
            w@.len() == text@.len(),
            forall|j: int| 0 <= j < i ==> ascii_lower(#[trigger] text@[j]) == ascii_lower(word@[j]),
        decreases w@.len() - i,
    {
        if lower(text[i]) != lower(w[i]) {
            return false;
        }
        i = i + 1;
    }
    true
}

/// The ASCII lower-case form of a character.
fn lower(c: char) -> (r: char)
    ensures
        r == ascii_lower(c),
{
    if 'A' <= c && c <= 'Z' {
        let v = (c as u32) + 32;
        proof {
            assert(v < 0xD800);
        }
        char_of(v)
    } else {
        c
    }
}

/// The character of a scalar value below the surrogates.
fn char_of(v: u32) -> (r: char)
    requires
        v < 0xD800,
    ensures
        r == v as char,
{
    match char_from_u32(v) {
        Some(c) => c,
        None => vstd::pervasive::unreached(),
    }
}

/// Calls `char::from_u32`: a character exactly for a Unicode scalar value
/// (at most `0x10FFFF` and not a surrogate), with that value.
#[verifier::external_body]
fn char_from_u32(v: u32) -> (r: Option<char>)
    ensures
        r is Some <==> (v <= 0x10FFFF && !(0xD800 <= v <= 0xDFFF)),
        r matches Some(c) ==> c == v as char,
{
    char::from_u32(v)
}

/// The keyword a word spells, ignoring ASCII case.
pub fn keyword(value: &str) -> (r: Option<Keyword>)
    ensures
        r == keyword_of(value@),
{
    let text = chars_of(value);
    keyword_chars(&text)
}

/// The keyword the characters spell, ignoring ASCII case.
fn keyword_chars(text: &Vec<char>) -> (r: Option<Keyword>)
    ensures
        r == keyword_of(text@),
{
    if same_word(&text, "find") {
        return Some(Keyword::Find);
    }
    if same_word(&text, "insert") {
        return Some(Keyword::Insert);
    }
    if same_word(&text, "into") {
        return Some(Keyword::Into);
    }
    if same_word(&text, "update") {
        return Some(Keyword::Update);
    }
    if same_word(&text, "set") {
        return Some(Keyword::SetClause);
    }
    if same_word(&text, "delete") {
        return Some(Keyword::Delete);
    }
    if same_word(&text, "from") {
        return Some(Keyword::From);
    }
    if same_word(&text, "where") {
        return Some(Keyword::Where);
    }
    if same_word(&text, "project") {
        return Some(Keyword::Project);
    }
    if same_word(&text, "sort") {
        return Some(Keyword::Sort);
    }
    if same_word(&text, "by") {
        return Some(Keyword::By);
    }
    if same_word(&text, "asc") {
        return Some(Keyword::Asc);
    }
    if same_word(&text, "desc") {
        return Some(Keyword::Desc);
    }
    if same_word(&text, "limit") {
        return Some(Keyword::Limit);
    }
    if same_word(&text, "skip") {
        return Some(Keyword::Skip);
    }
    if same_word(&text, "create") {
        return Some(Keyword::Create);
    }
    if same_word(&text, "drop") {
        return Some(Keyword::Drop);
    }
    if same_word(&text, "collection") {
        return Some(Keyword::Collection);
    }
    if same_word(&text, "index") {
        return Some(Keyword::Index);
    }
    if same_word(&text, "on") {
        return Some(Keyword::On);
    }
    if same_word(&text, "explain") {
        return Some(Keyword::Explain);
    }
    if same_word(&text, "and") {
        return Some(Keyword::And);
    }
    if same_word(&text, "or") {
        return Some(Keyword::Or);
    }
    if same_word(&text, "not") {
        return Some(Keyword::Not);
    }
    if same_word(&text, "true") {
        return Some(Keyword::True);
    }
    if same_word(&text, "false") {
        return Some(Keyword::False);
    }
    if same_word(&text, "null") {
        return Some(Keyword::Null);
    }
    None
}

/// The UTF-8 byte offset of character `i` of `cs`.
pub open spec fn byte_offset(cs: Seq<char>, i: int) -> nat {
    vstd::utf8::encode_utf8(cs.take(i)).len()
}

/// The UTF-8 length of a character.
pub open spec fn char_width(c: char) -> nat {
    vstd::utf8::encode_scalar(c as u32).len()
}

/// Encoding one more character appends its bytes.
proof fn lemma_encode_push(a: Seq<char>, c: char)
    ensures
        vstd::utf8::encode_utf8(a.push(c)) == vstd::utf8::encode_utf8(a) + vstd::utf8::encode_scalar(c as u32),
    decreases a.len(),
{
    if a.len() == 0 {
        let one = a.push(c);
        assert(one.drop_first() =~= Seq::<char>::empty());
        assert(one[0] == c);
        assert(vstd::utf8::encode_utf8(one.drop_first()) == Seq::<u8>::empty());
        assert(vstd::utf8::encode_utf8(one) == vstd::utf8::encode_scalar(c as u32) + Seq::<u8>::empty());
        assert(vstd::utf8::encode_utf8(a) == Seq::<u8>::empty());
        assert(vstd::utf8::encode_utf8(one) =~= vstd::utf8::encode_utf8(a) + vstd::utf8::encode_scalar(c as u32));
    } else {
        lemma_encode_push(a.drop_first(), c);
        assert(a.push(c).drop_first() =~= a.drop_first().push(c));
        assert(vstd::utf8::encode_utf8(a.push(c)) =~= vstd::utf8::encode_utf8(a) + vstd::utf8::encode_scalar(c as u32));
    }
}

/// The next character's offset is this one's plus its width.
proof fn lemma_offset_step(cs: Seq<char>, i: int)
    requires
        0 <= i < cs.len(),
    ensures
        byte_offset(cs, i + 1) == byte_offset(cs, i) + char_width(cs[i]),
        byte_offset(cs, i + 1) <= byte_offset(cs, cs.len() as int),
{
    assert(cs.take(i + 1) =~= cs.take(i).push(cs[i]));
    lemma_encode_push(cs.take(i), cs[i]);
    lemma_offset_mono(cs, i + 1, cs.len() as int);
}

/// Offsets grow with the index.
proof fn lemma_offset_mono(cs: Seq<char>, i: int, j: int)
    requires
        0 <= i <= j <= cs.len(),
    ensures
        byte_offset(cs, i) <= byte_offset(cs, j),
    decreases j - i,
{
    if i < j {
        lemma_offset_mono(cs, i, j - 1);
        assert(cs.take(j) =~= cs.take(j - 1).push(cs[j - 1]));
        lemma_encode_push(cs.take(j - 1), cs[j - 1]);
    }
}

/// The UTF-8 length of a character.
fn width(c: char) -> (r: usize)
    ensures
        r == char_width(c),
        1 <= r <= 4,
{
    let v = c as u32;
    proof {
        vstd::utf8::char_is_scalar(c);
    }
    if v < 0x80 {
        1
    } else if v < 0x800 {
        2
    } else if v < 0x10000 {
        3
    } else {
        4
    }
}

/// Whether a character is alphabetic in the Unicode sense.
pub uninterp spec fn unicode_alphabetic(c: char) -> bool;

/// Calls `char::is_alphabetic`.
#[verifier::external_body]
fn is_alphabetic(c: char) -> (r: bool)
    ensures
        r == unicode_alphabetic(c),
{
    c.is_alphabetic()
}

/// Whether a character is a control character: Unicode general category
/// Cc, which is U+0000 to U+001F and U+007F to U+009F.
pub open spec fn unicode_control(c: char) -> bool {
    (c as u32) <= 0x1F || (0x7F <= (c as u32) && (c as u32) <= 0x9F)
}

/// Calls `char::is_control`.
#[verifier::external_body]
fn is_control(c: char) -> (r: bool)
    ensures
        r == unicode_control(c),
{
    c.is_control()
}

/// An ASCII decimal digit.
pub open spec fn is_digit(c: char) -> bool {
    '0' <= c <= '9'
}

/// A character that may start an identifier.
pub open spec fn ident_start(c: char) -> bool {
    c == '_' || unicode_alphabetic(c)
}

/// A character that may continue an identifier: `_`, letters and digits,
/// and any non-ASCII character that is neither whitespace nor control.
pub open spec fn ident_continue(c: char) -> bool {
    c == '_' || unicode_alphanumeric(c) || ((c as u32) > 0x7F && !unicode_whitespace(c) && !unicode_control(c))
}

/// Whether `c` may start an identifier.
fn is_ident_start(c: char) -> (r: bool)
    ensures
        r == ident_start(c),
{
    c == '_' || is_alphabetic(c)
}

/// Whether `c` may continue an identifier.
fn is_ident_continue(c: char) -> (r: bool)
    ensures
        r == ident_continue(c),
{
    c == '_' || is_alphanumeric(c) || ((c as u32) > 0x7F && !is_whitespace(c) && !is_control(c))
}

/// The end of the run of digits from `i`.
pub open spec fn digits_end(cs: Seq<char>, i: int) -> int
    decreases cs.len() - i,
{
    if 0 <= i < cs.len() && is_digit(cs[i]) {
        digits_end(cs, i + 1)
    } else {
        i
    }
}

/// The end of the run of identifier characters from `i`.
pub open spec fn ident_end(cs: Seq<char>, i: int) -> int
    decreases cs.len() - i,
{
    if 0 <= i < cs.len() && ident_continue(cs[i]) {
        ident_end(cs, i + 1)
    } else {
        i
    }
}

/// The end of a line comment's text from `i`: the next newline or the
/// end.
pub open spec fn line_end(cs: Seq<char>, i: int) -> int
    decreases cs.len() - i,
{
    if 0 <= i < cs.len() && cs[i] != '\n' {
        line_end(cs, i + 1)
    } else {
        i
    }
}

/// `a` then `b` start at `i`.
pub open spec fn pair_at(cs: Seq<char>, i: int, a: char, b: char) -> bool {
    0 <= i && i + 1 < cs.len() && cs[i] == a && cs[i + 1] == b
}

/// Where a block comment whose text starts at `i` ends: just after the
/// first `*/`, or `None` when there is none.
pub open spec fn block_end(cs: Seq<char>, i: int) -> Option<int>
    decreases cs.len() - i,
{
    if i < 0 || i >= cs.len() {
        None
    } else if pair_at(cs, i, '*', '/') {
        Some(i + 2)
    } else {
        block_end(cs, i + 1)
    }
}

/// Every character of a run of digits is a digit.
proof fn lemma_digits_run(cs: Seq<char>, i: int)
    requires
        0 <= i <= cs.len(),
    ensures
        forall|t: int| i <= t < digits_end(cs, i) ==> is_digit(#[trigger] cs[t]),
    decreases cs.len() - i,
{
    if i < cs.len() && is_digit(cs[i]) {
        lemma_digits_run(cs, i + 1);
    }
}

/// Runs end at or after where they start, and within the text.
proof fn lemma_runs(cs: Seq<char>, i: int)
    requires
        0 <= i <= cs.len(),
    ensures
        i <= digits_end(cs, i) <= cs.len(),
        i <= ident_end(cs, i) <= cs.len(),
        i <= line_end(cs, i) <= cs.len(),
        block_end(cs, i) matches Some(j) ==> i + 2 <= j <= cs.len(),
    decreases cs.len() - i,
{
    if i < cs.len() {
        lemma_runs(cs, i + 1);
    }
}

/// Classification of a NovaQL lexical error.
#[derive(Debug, Clone, Copy, PartialEq, Eq)]
pub enum LexErrorKind {
    /// Character has no lexical meaning.
    UnexpectedCharacter(char),
    /// String reached end of input without a closing quote.
    UnterminatedString,
    /// Block comment reached end of input without `*/`.
    UnterminatedBlockComment,
    /// Backslash escape is not supported.
    InvalidEscape(char),
    /// Unicode escape is malformed or not a Unicode scalar value.
    InvalidUnicodeEscape,
    /// Numeric literal is malformed or overflows.
    InvalidNumber,
}

/// A typed lexical error with the exact offending source range.
#[derive(Debug, Clone, Copy, PartialEq, Eq)]
pub struct LexError {
    /// Error classification.
    pub kind: LexErrorKind,
    /// Offending half-open source range.
    pub span: Span,
}

/// A lexical NovaQL token.
#[derive(Debug, Clone, PartialEq)]
pub enum TokenKind {
    /// Non-keyword name.
    Identifier(String),
    /// Reserved word.
    Keyword(Keyword),
    /// Decoded string literal.
    String(String),
    /// Signed-range integer literal. A leading minus is a separate token.
    Integer(i64),
    /// Floating-point literal, as written.
    Float(String),
    /// `{`.
    LeftBrace,
    /// `}`.
    RightBrace,
    /// `[`.
    LeftBracket,
    /// `]`.
    RightBracket,
    /// `(`.
    LeftParen,
    /// `)`.
    RightParen,
    /// `,`.
    Comma,
    /// `:`.
    Colon,
    /// `.`.
    Dot,
    /// `;`.
    Semicolon,
    /// `|` pipeline separator.
    Pipe,
    /// `=`.
    Equal,
    /// `==`.
    EqualEqual,
    /// `!`.
    Bang,
    /// `!=`.
    BangEqual,
    /// `<`.
    Less,
    /// `<=`.
    LessEqual,
    /// `>`.
    Greater,
    /// `>=`.
    GreaterEqual,
    /// `+`.
    Plus,
    /// `-`.
    Minus,
    /// `*`.
    Star,
    /// `/`.
    Slash,
    /// `%`.
    Percent,
    /// End of input.
    Eof,
}

/// The abstract value of a token kind.
pub enum Tok {
    Identifier(Seq<char>),
    Keyword(Keyword),
    Str(Seq<char>),
    Integer(i64),
    Float(Seq<char>),
    LeftBrace,
    RightBrace,
    LeftBracket,
    RightBracket,
    LeftParen,
    RightParen,
    Comma,
    Colon,
    Dot,
    Semicolon,
    Pipe,
    Equal,
    EqualEqual,
    Bang,
    BangEqual,
    Less,
    LessEqual,
    Greater,
    GreaterEqual,
    Plus,
    Minus,
    Star,
    Slash,
    Percent,
    Eof,
}

impl View for TokenKind {
    type V = Tok;

    open spec fn view(&self) -> Tok {
        match self {
            TokenKind::Identifier(s) => Tok::Identifier(s@),
            TokenKind::Keyword(k) => Tok::Keyword(*k),
            TokenKind::String(s) => Tok::Str(s@),
            TokenKind::Integer(v) => Tok::Integer(*v),
            TokenKind::Float(s) => Tok::Float(s@),
            TokenKind::LeftBrace => Tok::LeftBrace,
            TokenKind::RightBrace => Tok::RightBrace,
            TokenKind::LeftBracket => Tok::LeftBracket,
            TokenKind::RightBracket => Tok::RightBracket,
            TokenKind::LeftParen => Tok::LeftParen,
            TokenKind::RightParen => Tok::RightParen,
            TokenKind::Comma => Tok::Comma,
            TokenKind::Colon => Tok::Colon,
            TokenKind::Dot => Tok::Dot,
            TokenKind::Semicolon => Tok::Semicolon,
            TokenKind::Pipe => Tok::Pipe,
            TokenKind::Equal => Tok::Equal,
            TokenKind::EqualEqual => Tok::EqualEqual,
            TokenKind::Bang => Tok::Bang,
            TokenKind::BangEqual => Tok::BangEqual,
            TokenKind::Less => Tok::Less,
            TokenKind::LessEqual => Tok::LessEqual,
            TokenKind::Greater => Tok::Greater,
            TokenKind::GreaterEqual => Tok::GreaterEqual,
            TokenKind::Plus => Tok::Plus,
            TokenKind::Minus => Tok::Minus,
            TokenKind::Star => Tok::Star,
            TokenKind::Slash => Tok::Slash,
            TokenKind::Percent => Tok::Percent,
            TokenKind::Eof => Tok::Eof,
        }
    }
}

/// A token and its exact source range.
#[derive(Debug, Clone, PartialEq)]
pub struct Token {
    /// Token payload or punctuation kind.
    pub kind: TokenKind,
    /// Half-open UTF-8 byte range in the original source.
    pub span: Span,
}

/// A token read from characters: its kind and its character range.
pub struct TokView {
    pub kind: Tok,
    pub start: int,
    pub end: int,
}

/// A lexical error read from characters: its kind and character range.
pub struct ErrView {
    pub kind: LexErrorKind,
    pub start: int,
    pub end: int,
}

/// The one-character token a character is, if any.
pub open spec fn punct(c: char) -> Option<Tok> {
    if c == '{' {
        Some(Tok::LeftBrace)
    } else if c == '}' {
        Some(Tok::RightBrace)
    } else if c == '[' {
        Some(Tok::LeftBracket)
    } else if c == ']' {
        Some(Tok::RightBracket)
    } else if c == '(' {
        Some(Tok::LeftParen)
    } else if c == ')' {
        Some(Tok::RightParen)
    } else if c == ',' {
        Some(Tok::Comma)
    } else if c == ':' {
        Some(Tok::Colon)
    } else if c == '.' {
        Some(Tok::Dot)
    } else if c == ';' {
        Some(Tok::Semicolon)
    } else if c == '|' {
        Some(Tok::Pipe)
    } else if c == '+' {
        Some(Tok::Plus)
    } else if c == '-' {
        Some(Tok::Minus)
    } else if c == '*' {
        Some(Tok::Star)
    } else if c == '/' {
        Some(Tok::Slash)
    } else if c == '%' {
        Some(Tok::Percent)
    } else {
        None
    }
}

/// The token an operator character starts, with or without a following
/// `=`.
pub open spec fn operator(c: char, equal_follows: bool) -> Option<Tok> {
    if c == '=' {
        Some(if equal_follows { Tok::EqualEqual } else { Tok::Equal })
    } else if c == '!' {
        Some(if equal_follows { Tok::BangEqual } else { Tok::Bang })
    } else if c == '<' {
        Some(if equal_follows { Tok::LessEqual } else { Tok::Less })
    } else if c == '>' {
        Some(if equal_follows { Tok::GreaterEqual } else { Tok::Greater })
    } else {
        None
    }
}

/// Skips trivia from `i`: whitespace, line comments and block comments.
/// The index of the next token, or the start of an unclosed block comment.
pub open spec fn trivia_end(cs: Seq<char>, i: int) -> Result<int, int>
    decreases cs.len() - i,
{
    if i < 0 || i >= cs.len() {
        Ok(i)
    } else if unicode_whitespace(cs[i]) {
        trivia_end(cs, i + 1)
    } else if pair_at(cs, i, '/', '/') {
        let j = line_end(cs, i + 2);
        if i < j <= cs.len() {
            trivia_end(cs, j)
        } else {
            Ok(i)
        }
    } else if pair_at(cs, i, '/', '*') {
        match block_end(cs, i + 2) {
            Some(j) => if i < j <= cs.len() {
                trivia_end(cs, j)
            } else {
                Ok(i)
            },
            None => Err(i),
        }
    } else {
        Ok(i)
    }
}

/// The value of a hexadecimal digit.
pub open spec fn hex_value(c: char) -> Option<u32> {
    if '0' <= c <= '9' {
        Some((c as u32 - '0' as u32) as u32)
    } else if 'a' <= c <= 'f' {
        Some((c as u32 - 'a' as u32 + 10) as u32)
    } else if 'A' <= c <= 'F' {
        Some((c as u32 - 'A' as u32 + 10) as u32)
    } else {
        None
    }
}

/// Reads `n` more hexadecimal digits from `i` onto `acc`: the value and
/// the index after them, or the index reading stopped at (just after a
/// character that is not a digit, or the end).
pub open spec fn hex_digits(cs: Seq<char>, i: int, n: nat, acc: u32) -> Result<(u32, int), int>
    decreases n,
{
    if n == 0 {
        Ok((acc, i))
    } else if i < 0 || i >= cs.len() {
        Err(cs.len() as int)
    } else {
        match hex_value(cs[i]) {
            Some(d) => hex_digits(cs, i + 1, (n - 1) as nat, ((acc * 16) + d) as u32),
            None => Err(i + 1),
        }
    }
}

/// The code point of a surrogate pair.
pub open spec fn pair_scalar(high: u32, low: u32) -> u32 {
    (0x1_0000 + (high - 0xd800) * 1024 + (low - 0xdc00)) as u32
}

/// Reads the digits of a `\u` escape from `i` (the escape starts at
/// `start`): the character and the index after it.
pub open spec fn unicode_escape(cs: Seq<char>, i: int, start: int) -> Result<(char, int), ErrView> {
    match hex_digits(cs, i, 4, 0) {
        Err(e) => Err(ErrView { kind: LexErrorKind::InvalidUnicodeEscape, start, end: e }),
        Ok((high, j)) => if 0xd800 <= high <= 0xdbff {
            if !pair_at(cs, j, '\\', 'u') {
                Err(ErrView { kind: LexErrorKind::InvalidUnicodeEscape, start, end: j })
            } else {
                match hex_digits(cs, j + 2, 4, 0) {
                    Err(e) => Err(ErrView { kind: LexErrorKind::InvalidUnicodeEscape, start, end: e }),
                    Ok((low, k)) => if 0xdc00 <= low <= 0xdfff {
                        Ok((pair_scalar(high, low) as char, k))
                    } else {
                        Err(ErrView { kind: LexErrorKind::InvalidUnicodeEscape, start, end: k })
                    },
                }
            }
        } else if 0xdc00 <= high <= 0xdfff {
            Err(ErrView { kind: LexErrorKind::InvalidUnicodeEscape, start, end: j })
        } else {
            Ok((high as char, j))
        },
    }
}

/// The character a simple escape stands for.
pub open spec fn simple_escape(c: char) -> Option<char> {
    if c == '"' {
        Some('"')
    } else if c == '\\' {
        Some('\\')
    } else if c == '/' {
        Some('/')
    } else if c == 'b' {
        Some('\u{0008}')
    } else if c == 'f' {
        Some('\u{000c}')
    } else if c == 'n' {
        Some('\n')
    } else if c == 'r' {
        Some('\r')
    } else if c == 't' {
        Some('\t')
    } else {
        None
    }
}

/// Reads the rest of a string literal from `i`, having decoded `acc` so
/// far (the literal starts at `start`): the decoded text and the index
/// after the closing quote.
pub open spec fn string_rest(cs: Seq<char>, i: int, acc: Seq<char>, start: int) -> Result<(Seq<char>, int), ErrView>
    decreases cs.len() - i,
{
    if i < 0 || i >= cs.len() {
        Err(ErrView { kind: LexErrorKind::UnterminatedString, start, end: cs.len() as int })
    } else if cs[i] == '"' {
        Ok((acc, i + 1))
    } else if cs[i] == '\\' {
        if i + 1 >= cs.len() {
            Err(ErrView { kind: LexErrorKind::UnterminatedString, start, end: cs.len() as int })
        } else if cs[i + 1] == 'u' {
            match unicode_escape(cs, i + 2, i) {
                Err(e) => Err(e),
                Ok((c, j)) => if i < j <= cs.len() {
                    string_rest(cs, j, acc.push(c), start)
                } else {
                    Err(e_stuck(start))
                },
            }
        } else {
            match simple_escape(cs[i + 1]) {
                Some(c) => string_rest(cs, i + 2, acc.push(c), start),
                None => Err(ErrView { kind: LexErrorKind::InvalidEscape(cs[i + 1]), start: i, end: i + 2 }),
            }
        }
    } else if unicode_control(cs[i]) {
        Err(ErrView { kind: LexErrorKind::UnexpectedCharacter(cs[i]), start: i, end: i + 1 })
    } else {
        string_rest(cs, i + 1, acc.push(cs[i]), start)
    }
}

/// An error for a reading that cannot happen (every escape moves on).
pub open spec fn e_stuck(start: int) -> ErrView {
    ErrView { kind: LexErrorKind::UnterminatedString, start, end: start }
}

/// The decimal value of a run of digits.
pub open spec fn decimal_value(ds: Seq<char>) -> nat
    decreases ds.len(),
{
    if ds.len() == 0 {
        0
    } else {
        decimal_value(ds.drop_last()) * 10 + (ds.last() as u32 - '0' as u32) as nat
    }
}

/// Reads a number whose first digit is at `i`: a float (with a fraction,
/// an exponent or both) keeps its text; an integer must fit an `i64`. A
/// number running into identifier characters, or an exponent without
/// digits, is invalid.
pub open spec fn number_at(cs: Seq<char>, i: int) -> Result<(Tok, int), ErrView> {
    let j = digits_end(cs, i + 1);
    let fraction = j + 1 < cs.len() && cs[j] == '.' && is_digit(cs[j + 1]);
    let k = if fraction { digits_end(cs, j + 2) } else { j };
    let exponent = 0 <= k < cs.len() && (cs[k] == 'e' || cs[k] == 'E');
    let k2 = if exponent && k + 1 < cs.len() && (cs[k + 1] == '+' || cs[k + 1] == '-') { k + 2 } else { k + 1 };
    if exponent && !(k2 < cs.len() && is_digit(cs[k2])) {
        Err(ErrView { kind: LexErrorKind::InvalidNumber, start: i, end: k2 })
    } else {
        let end = if exponent { digits_end(cs, k2 + 1) } else { k };
        if 0 <= end < cs.len() && ident_start(cs[end]) {
            Err(ErrView { kind: LexErrorKind::InvalidNumber, start: i, end: ident_end(cs, end) })
        } else if fraction || exponent {
            Ok((Tok::Float(cs.subrange(i, end)), end))
        } else if decimal_value(cs.subrange(i, end)) > i64::MAX {
            Err(ErrView { kind: LexErrorKind::InvalidNumber, start: i, end })
        } else {
            Ok((Tok::Integer(decimal_value(cs.subrange(i, end)) as i64), end))
        }
    }
}

/// The token starting at `i` (not trivia, not the end): its kind and the
/// index after it.
pub open spec fn token_at(cs: Seq<char>, i: int) -> Result<(Tok, int), ErrView> {
    let c = cs[i];
    if punct(c) is Some {
        Ok((punct(c)->0, i + 1))
    } else if operator(c, false) is Some {
        let eq = i + 1 < cs.len() && cs[i + 1] == '=';
        Ok((operator(c, eq)->0, if eq { i + 2 } else { i + 1 }))
    } else if c == '"' {
        match string_rest(cs, i + 1, Seq::empty(), i) {
            Ok((text, j)) => Ok((Tok::Str(text), j)),
            Err(e) => Err(e),
        }
    } else if is_digit(c) {
        number_at(cs, i)
    } else if ident_start(c) {
        let j = ident_end(cs, i + 1);
        match keyword_of(cs.subrange(i, j)) {
            Some(k) => Ok((Tok::Keyword(k), j)),
            None => Ok((Tok::Identifier(cs.subrange(i, j)), j)),
        }
    } else {
        Err(ErrView { kind: LexErrorKind::UnexpectedCharacter(c), start: i, end: i + 1 })
    }
}

/// The tokens of `cs` from `i`, ending with the end-of-input token, or
/// the first error.
pub open spec fn lex_from(cs: Seq<char>, i: int) -> Result<Seq<TokView>, ErrView>
    decreases cs.len() - i,
{
    match trivia_end(cs, i) {
        Err(s) => Err(ErrView { kind: LexErrorKind::UnterminatedBlockComment, start: s, end: cs.len() as int }),
        Ok(j) => if j < 0 || j >= cs.len() || j < i {
            Ok(seq![TokView { kind: Tok::Eof, start: j, end: j }])
        } else {
            match token_at(cs, j) {
                Err(e) => Err(e),
                Ok((kind, e)) => if j < e <= cs.len() {
                    match lex_from(cs, e) {
                        Ok(rest) => Ok(seq![TokView { kind, start: j, end: e }] + rest),
                        Err(err) => Err(err),
                    }
                } else {
                    Err(e_stuck(j))
                },
            }
        },
    }
}

/// A reading position in a source text: the index of the next character
/// and its byte offset.
struct Lexer {
    chars: Vec<char>,
    pos: usize,
    byte: usize,
}

impl Lexer {
    /// The position is within the text and its byte offset is exact.
    spec fn inv(&self) -> bool {
        &&& self.pos <= self.chars@.len()
        &&& self.byte == byte_offset(self.chars@, self.pos as int)
        &&& byte_offset(self.chars@, self.chars@.len() as int) <= usize::MAX
    }

    /// The character at the position, if any.
    fn peek(&self) -> (r: Option<char>)
        requires
            self.inv(),
        ensures
            r == if self.pos < self.chars@.len() {
                Some(self.chars@[self.pos as int])
            } else {
                None::<char>
            },
    {
        if self.pos < self.chars.len() {
            Some(self.chars[self.pos])
        } else {
            None
        }
    }

    /// The character after the one at the position, if any.
    fn peek_second(&self) -> (r: Option<char>)
        requires
            self.inv(),
        ensures
            r == if self.pos + 1 < self.chars@.len() {
                Some(self.chars@[self.pos + 1])
            } else {
                None::<char>
            },
    {
        if self.pos < self.chars.len() && self.chars.len() - self.pos > 1 {
            Some(self.chars[self.pos + 1])
        } else {
            None
        }
    }

    /// Whether `a` then `b` are at the position.
    fn at_pair(&self, a: char, b: char) -> (r: bool)
        requires
            self.inv(),
        ensures
            r == pair_at(self.chars@, self.pos as int, a, b),
    {
        self.pos < self.chars.len() && self.chars.len() - self.pos > 1 && self.chars[self.pos] == a && self.chars[self.pos
            + 1] == b
    }

    /// Moves past the character at the position.
    fn advance(&mut self)
        requires
            old(self).inv(),
            old(self).pos < old(self).chars@.len(),
        ensures
            final(self).inv(),
            final(self).chars@ == old(self).chars@,
            final(self).pos == old(self).pos + 1,
    {
        proof {
            lemma_offset_step(self.chars@, self.pos as int);
        }
        let _n = self.chars.len();
        let w = width(self.chars[self.pos]);
        self.pos = self.pos + 1;
        self.byte = self.byte + w;
    }

    /// The span from byte offset `start` to the position.
    fn span_from(&self, start: usize) -> (r: Span)
        requires
            self.inv(),
        ensures
            r.start == start,
            r.end == byte_offset(self.chars@, self.pos as int),
    {
        Span::new(start, self.byte)
    }

    /// Skips whitespace and comments.
    fn skip_trivia(&mut self) -> (r: Result<(), LexError>)
        requires
            old(self).inv(),
        ensures
            final(self).inv(),
            final(self).chars@ == old(self).chars@,
            final(self).pos >= old(self).pos,
            match trivia_end(old(self).chars@, old(self).pos as int) {
                Ok(j) => r is Ok && final(self).pos == j,
                Err(s) => r matches Err(e) && e.kind == LexErrorKind::UnterminatedBlockComment && e.span.start == byte_offset(
                    old(self).chars@,
                    s,
                ) && e.span.end == byte_offset(old(self).chars@, old(self).chars@.len() as int),
            },
    {
        let ghost cs = self.chars@;
        let ghost goal = trivia_end(cs, self.pos as int);
        loop
            invariant
                self.inv(),
                self.chars@ == cs,
                cs == old(self).chars@,
                goal == trivia_end(old(self).chars@, old(self).pos as int),
                trivia_end(cs, self.pos as int) == goal,
                self.pos >= old(self).pos,
            decreases cs.len() - self.pos,
        {
            match self.peek() {
                Some(c) => {
                    if is_whitespace(c) {
                        self.advance();
                        continue;
                    }
                },
                None => {
                    return Ok(());
                },
            }
            if self.at_pair('/', '/') {
                let ghost at = self.pos as int;
                self.advance();
                self.advance();
                loop
                    invariant
                        self.inv(),
                        self.chars@ == cs,
                        at + 2 <= self.pos,
                        line_end(cs, self.pos as int) == line_end(cs, at + 2),
                    ensures
                        self.inv(),
                        self.chars@ == cs,
                        self.pos == line_end(cs, at + 2),
                    decreases cs.len() - self.pos,
                {
                    match self.peek() {
                        Some(c) => {
                            if c == '\n' {
                                break;
                            }
                            self.advance();
                        },
                        None => {
                            break;
                        },
                    }
                }
                proof {
                    lemma_runs(cs, at + 2);
                }
            } else if self.at_pair('/', '*') {
                let start = self.byte;
                let ghost at = self.pos as int;
                proof {
                    assert(trivia_end(cs, at) == goal);
                }
                self.advance();
                self.advance();
                loop
                    invariant
                        self.inv(),
                        self.chars@ == cs,
                        at + 2 <= self.pos,
                        start == byte_offset(cs, at),
                        block_end(cs, self.pos as int) == block_end(cs, at + 2),
                        cs == old(self).chars@,
                        goal == trivia_end(cs, at),
                        pair_at(cs, at, '/', '*'),
                        !unicode_whitespace(cs[at]),
                        at >= old(self).pos,
                        goal == trivia_end(old(self).chars@, old(self).pos as int),
                    ensures
                        self.inv(),
                        self.chars@ == cs,
                        pair_at(cs, self.pos as int, '*', '/'),
                        block_end(cs, at + 2) == Some(self.pos + 2),
                    decreases cs.len() - self.pos,
                {
                    if self.at_pair('*', '/') {
                        break;
                    }
                    match self.peek() {
                        Some(_) => {
                            self.advance();
                        },
                        None => {
                            return Err(LexError { kind: LexErrorKind::UnterminatedBlockComment, span: self.span_from(start) });
                        },
                    }
                }
                self.advance();
                self.advance();
                proof {
                    lemma_runs(cs, at + 2);
                }
            } else {
                return Ok(());
            }
        }
    }
}

/// The value of a hexadecimal digit.
fn hex_digit(c: char) -> (r: Option<u32>)
    ensures
        r == hex_value(c),
{
    if '0' <= c && c <= '9' {
        Some((c as u32) - ('0' as u32))
    } else if 'a' <= c && c <= 'f' {
        Some((c as u32) - ('a' as u32) + 10)
    } else if 'A' <= c && c <= 'F' {
        Some((c as u32) - ('A' as u32) + 10)
    } else {
        None
    }
}

/// The error a lexer reports: its kind and byte span match the error read
/// from the characters.
pub open spec fn error_matches(e: LexError, ev: ErrView, cs: Seq<char>) -> bool {
    &&& e.kind == ev.kind
    &&& e.span.start == byte_offset(cs, ev.start)
    &&& e.span.end == byte_offset(cs, ev.end)
}

impl Lexer {
    /// Reads four hexadecimal digits.
    fn hex_quad(&mut self) -> (r: Option<u32>)
        requires
            old(self).inv(),
        ensures
            final(self).inv(),
            final(self).chars@ == old(self).chars@,
            final(self).pos >= old(self).pos,
            match hex_digits(old(self).chars@, old(self).pos as int, 4, 0) {
                Ok((v, j)) => r == Some(v) && final(self).pos == j && v <= 0xffff,
                Err(e) => r is None && final(self).pos == e,
            },
    {
        let ghost cs = self.chars@;
        let ghost p0 = self.pos as int;
        let mut value: u32 = 0;
        let mut k: usize = 0;
        while k < 4
            invariant
                k <= 4,
                self.inv(),
                self.chars@ == cs,
                cs == old(self).chars@,
                p0 == old(self).pos,
                self.pos == p0 + k,
                value < if k == 0 { 1u32 } else if k == 1 { 16u32 } else if k == 2 { 256u32 } else if k == 3 { 4096u32 } else { 65536u32 },
                hex_digits(cs, self.pos as int, (4 - k) as nat, value) == hex_digits(cs, p0, 4, 0),
            decreases 4 - k,
        {
            let digit = match self.peek() {
                Some(c) => {
                    self.advance();
                    hex_digit(c)
                },
                None => {
                    return None;
                },
            };
            match digit {
                Some(d) => {
                    proof {
                        assert(d < 16);
                    }
                    value = value * 16 + d;
                },
                None => {
                    return None;
                },
            }
            k = k + 1;
        }
        Some(value)
    }

    /// Reads the digits of a `\u` escape that starts at byte `start`
    /// (character `si`).
    fn unicode_escape(&mut self, start: usize, Ghost(si): Ghost<int>) -> (r: Result<char, LexError>)
        requires
            old(self).inv(),
            start == byte_offset(old(self).chars@, si),
        ensures
            final(self).inv(),
            final(self).chars@ == old(self).chars@,
            final(self).pos >= old(self).pos,
            match unicode_escape(old(self).chars@, old(self).pos as int, si) {
                Ok((c, j)) => r == Ok::<char, LexError>(c) && final(self).pos == j,
                Err(ev) => r matches Err(e) && error_matches(e, ev, old(self).chars@),
            },
    {
        let ghost cs = self.chars@;
        let high = match self.hex_quad() {
            Some(v) => v,
            None => {
                return Err(LexError { kind: LexErrorKind::InvalidUnicodeEscape, span: self.span_from(start) });
            },
        };
        if 0xd800 <= high && high <= 0xdbff {
            if !self.at_pair('\\', 'u') {
                return Err(LexError { kind: LexErrorKind::InvalidUnicodeEscape, span: self.span_from(start) });
            }
            self.advance();
            self.advance();
            let low = match self.hex_quad() {
                Some(v) => v,
                None => {
                    return Err(LexError { kind: LexErrorKind::InvalidUnicodeEscape, span: self.span_from(start) });
                },
            };
            if !(0xdc00 <= low && low <= 0xdfff) {
                return Err(LexError { kind: LexErrorKind::InvalidUnicodeEscape, span: self.span_from(start) });
            }
            let scalar = 0x1_0000 + (high - 0xd800) * 1024 + (low - 0xdc00);
            match char_from_u32(scalar) {
                Some(c) => Ok(c),
                None => Err(LexError { kind: LexErrorKind::InvalidUnicodeEscape, span: self.span_from(start) }),
            }
        } else if 0xdc00 <= high && high <= 0xdfff {
            Err(LexError { kind: LexErrorKind::InvalidUnicodeEscape, span: self.span_from(start) })
        } else {
            match char_from_u32(high) {
                Some(c) => Ok(c),
                None => Err(LexError { kind: LexErrorKind::InvalidUnicodeEscape, span: self.span_from(start) }),
            }
        }
    }
}

/// The character a simple escape stands for.
fn escaped(c: char) -> (r: Option<char>)
    ensures
        r == simple_escape(c),
{
    if c == '"' {
        Some('"')
    } else if c == '\\' {
        Some('\\')
    } else if c == '/' {
        Some('/')
    } else if c == 'b' {
        Some('\u{0008}')
    } else if c == 'f' {
        Some('\u{000c}')
    } else if c == 'n' {
        Some('\n')
    } else if c == 'r' {
        Some('\r')
    } else if c == 't' {
        Some('\t')
    } else {
        None
    }
}

impl Lexer {
    /// Reads the rest of a string literal that starts at byte `start`
    /// (character `si`), its opening quote read.
    fn string(&mut self, start: usize, Ghost(si): Ghost<int>) -> (r: Result<TokenKind, LexError>)
        requires
            old(self).inv(),
            start == byte_offset(old(self).chars@, si),
        ensures
            final(self).inv(),
            final(self).chars@ == old(self).chars@,
            final(self).pos >= old(self).pos,
            match string_rest(old(self).chars@, old(self).pos as int, Seq::empty(), si) {
                Ok((text, j)) => r matches Ok(k) && k@ == Tok::Str(text) && final(self).pos == j,
                Err(ev) => r matches Err(e) && error_matches(e, ev, old(self).chars@),
            },
    {
        let ghost cs = self.chars@;
        let ghost goal = string_rest(cs, self.pos as int, Seq::empty(), si);
        let mut value = String::new();
        loop
            invariant
                self.inv(),
                self.chars@ == cs,
                cs == old(self).chars@,
                self.pos >= old(self).pos,
                start == byte_offset(cs, si),
                goal == string_rest(old(self).chars@, old(self).pos as int, Seq::empty(), si),
                string_rest(cs, self.pos as int, value@, si) == goal,
            decreases cs.len() - self.pos,
        {
            let escape_start = self.byte;
            let ghost ei = self.pos as int;
            let c = match self.peek() {
                Some(c) => c,
                None => {
                    return Err(LexError { kind: LexErrorKind::UnterminatedString, span: self.span_from(start) });
                },
            };
            self.advance();
            if c == '"' {
                return Ok(TokenKind::String(value));
            } else if c == '\\' {
                let e = match self.peek() {
                    Some(e) => e,
                    None => {
                        return Err(LexError { kind: LexErrorKind::UnterminatedString, span: self.span_from(start) });
                    },
                };
                self.advance();
                if e == 'u' {
                    let u = match self.unicode_escape(escape_start, Ghost(ei)) {
                        Ok(u) => u,
                        Err(err) => {
                            return Err(err);
                        },
                    };
                    push_char(&mut value, u);
                } else {
                    match escaped(e) {
                        Some(x) => {
                            push_char(&mut value, x);
                        },
                        None => {
                            return Err(LexError { kind: LexErrorKind::InvalidEscape(e), span: self.span_from(escape_start) });
                        },
                    }
                }
            } else if is_control(c) {
                return Err(LexError { kind: LexErrorKind::UnexpectedCharacter(c), span: self.span_from(escape_start) });
            } else {
                push_char(&mut value, c);
            }
        }
    }

    /// Reads the rest of a number whose first digit, at byte `start`
    /// (character `si`), was read.
    #[verifier::rlimit(30)]
    fn number(&mut self, start: usize, Ghost(si): Ghost<int>) -> (r: Result<TokenKind, LexError>)
        requires
            old(self).inv(),
            start == byte_offset(old(self).chars@, si),
            0 <= si,
            old(self).pos == si + 1,
            is_digit(old(self).chars@[si]),
        ensures
            final(self).inv(),
            final(self).chars@ == old(self).chars@,
            final(self).pos >= old(self).pos,
            match number_at(old(self).chars@, si) {
                Ok((tok, j)) => r matches Ok(k) && k@ == tok && final(self).pos == j,
                Err(ev) => r matches Err(e) && error_matches(e, ev, old(self).chars@),
            },
    {
        let ghost cs = self.chars@;
        let first = self.pos - 1;
        self.skip_digits();
        let ghost j = self.pos as int;
        let mut is_float = false;
        let fraction = match (self.peek(), self.peek_second()) {
            (Some('.'), Some(d)) => '0' <= d && d <= '9',
            _ => false,
        };
        if fraction {
            is_float = true;
            self.advance();
            self.skip_digits();
            proof {
                assert(digits_end(cs, j + 1) == digits_end(cs, j + 2));
            }
        }
        let ghost k = self.pos as int;
        let exponent = match self.peek() {
            Some(c) => c == 'e' || c == 'E',
            None => false,
        };
        if exponent {
            is_float = true;
            self.advance();
            match self.peek() {
                Some(c) => {
                    if c == '+' || c == '-' {
                        self.advance();
                    }
                },
                None => {},
            }
            let has_digit = match self.peek() {
                Some(c) => '0' <= c && c <= '9',
                None => false,
            };
            if !has_digit {
                return Err(LexError { kind: LexErrorKind::InvalidNumber, span: self.span_from(start) });
            }
            let ghost k2 = self.pos as int;
            self.skip_digits();
            proof {
                assert(digits_end(cs, k2) == digits_end(cs, k2 + 1));
            }
        }
        let end = self.pos;
        let ident_follows = match self.peek() {
            Some(c) => is_ident_start(c),
            None => false,
        };
        if ident_follows {
            self.skip_ident();
            return Err(LexError { kind: LexErrorKind::InvalidNumber, span: self.span_from(start) });
        }
        proof {
            lemma_digits_run(cs, si);
        }
        let mut q: usize = first;
        let mut text = String::new();
        let mut value: i64 = 0;
        let mut overflow = false;
        while q < end
            invariant
                first <= q <= end,
                first == si,
                end <= cs.len(),
                value >= 0,
                self.chars@ == cs,
                !is_float ==> forall|t: int| si <= t < end ==> is_digit(#[trigger] cs[t]),
                text@ == cs.subrange(si, q as int),
                !is_float && !overflow ==> value == decimal_value(cs.subrange(si, q as int)),
                !is_float && overflow ==> decimal_value(cs.subrange(si, q as int)) > i64::MAX,
            decreases end - q,
        {
            let c = self.chars[q];
            push_char(&mut text, c);
            proof {
                assert(cs.subrange(si, q + 1).drop_last() =~= cs.subrange(si, q as int));
                assert(cs.subrange(si, q + 1).last() == c);
            }
            if !is_float && !overflow {
                let d = (c as u32 - '0' as u32) as i64;
                if value > (i64::MAX - d) / 10 {
                    overflow = true;
                    assert(value * 10 + d > i64::MAX) by (nonlinear_arith)
                        requires
                            value > (i64::MAX - d) / 10,
                            0 <= d <= 9,
                    ;
                } else {
                    assert(value * 10 + d <= i64::MAX) by (nonlinear_arith)
                        requires
                            value <= (i64::MAX - d) / 10,
                            0 <= d <= 9,
                            value >= 0,
                    ;
                    value = value * 10 + d;
                }
            }
            q = q + 1;
        }
        if is_float {
            Ok(TokenKind::Float(text))
        } else if overflow {
            Err(LexError { kind: LexErrorKind::InvalidNumber, span: self.span_from(start) })
        } else {
            Ok(TokenKind::Integer(value))
        }
    }

    /// Moves past a run of digits.
    fn skip_digits(&mut self)
        requires
            old(self).inv(),
        ensures
            final(self).inv(),
            final(self).chars@ == old(self).chars@,
            final(self).pos == digits_end(old(self).chars@, old(self).pos as int),
            final(self).pos >= old(self).pos,
    {
        let ghost cs = self.chars@;
        let ghost p0 = self.pos as int;
        proof {
            lemma_runs(cs, p0);
        }
        loop
            invariant
                self.inv(),
                self.chars@ == cs,
                digits_end(cs, self.pos as int) == digits_end(cs, p0),
            ensures
                self.inv(),
                self.chars@ == cs,
                self.pos == digits_end(cs, p0),
            decreases cs.len() - self.pos,
        {
            match self.peek() {
                Some(c) => {
                    if '0' <= c && c <= '9' {
                        self.advance();
                    } else {
                        break;
                    }
                },
                None => {
                    break;
                },
            }
        }
    }

    /// Moves past a run of identifier characters.
    fn skip_ident(&mut self)
        requires
            old(self).inv(),
        ensures
            final(self).inv(),
            final(self).chars@ == old(self).chars@,
            final(self).pos == ident_end(old(self).chars@, old(self).pos as int),
            final(self).pos >= old(self).pos,
    {
        let ghost cs = self.chars@;
        let ghost p0 = self.pos as int;
        proof {
            lemma_runs(cs, p0);
        }
        loop
            invariant
                self.inv(),
                self.chars@ == cs,
                ident_end(cs, self.pos as int) == ident_end(cs, p0),
            ensures
                self.inv(),
                self.chars@ == cs,
                self.pos == ident_end(cs, p0),
            decreases cs.len() - self.pos,
        {
            match self.peek() {
                Some(c) => {
                    if is_ident_continue(c) {
                        self.advance();
                    } else {
                        break;
                    }
                },
                None => {
                    break;
                },
            }
        }
    }
}

/// The one-character token a character is, if any.
fn punct_kind(c: char) -> (r: Option<TokenKind>)
    ensures
        match punct(c) {
            Some(t) => r matches Some(k) && k@ == t,
            None => r is None,
        },
{
    if c == '{' {
        Some(TokenKind::LeftBrace)
    } else if c == '}' {
        Some(TokenKind::RightBrace)
    } else if c == '[' {
        Some(TokenKind::LeftBracket)
    } else if c == ']' {
        Some(TokenKind::RightBracket)
    } else if c == '(' {
        Some(TokenKind::LeftParen)
    } else if c == ')' {
        Some(TokenKind::RightParen)
    } else if c == ',' {
        Some(TokenKind::Comma)
    } else if c == ':' {
        Some(TokenKind::Colon)
    } else if c == '.' {
        Some(TokenKind::Dot)
    } else if c == ';' {
        Some(TokenKind::Semicolon)
    } else if c == '|' {
        Some(TokenKind::Pipe)
    } else if c == '+' {
        Some(TokenKind::Plus)
    } else if c == '-' {
        Some(TokenKind::Minus)
    } else if c == '*' {
        Some(TokenKind::Star)
    } else if c == '/' {
        Some(TokenKind::Slash)
    } else if c == '%' {
        Some(TokenKind::Percent)
    } else {
        None
    }
}

/// The token an operator character starts, with or without a following
/// `=`.
fn operator_kind(c: char, equal_follows: bool) -> (r: TokenKind)
    requires
        operator(c, false) is Some,
    ensures
        r@ == operator(c, equal_follows)->0,
{
    if c == '=' {
        if equal_follows { TokenKind::EqualEqual } else { TokenKind::Equal }
    } else if c == '!' {
        if equal_follows { TokenKind::BangEqual } else { TokenKind::Bang }
    } else if c == '<' {
        if equal_follows { TokenKind::LessEqual } else { TokenKind::Less }
    } else {
        if equal_follows { TokenKind::GreaterEqual } else { TokenKind::Greater }
    }
}

impl Lexer {
    /// Reads the rest of an identifier or keyword whose first character,
    /// at character `si`, was read.
    fn identifier(&mut self, Ghost(si): Ghost<int>) -> (r: TokenKind)
        requires
            old(self).inv(),
            0 <= si,
            old(self).pos == si + 1,
        ensures
            final(self).inv(),
            final(self).chars@ == old(self).chars@,
            final(self).pos == ident_end(old(self).chars@, si + 1),
            r@ == match keyword_of(old(self).chars@.subrange(si, ident_end(old(self).chars@, si + 1))) {
                Some(k) => Tok::Keyword(k),
                None => Tok::Identifier(old(self).chars@.subrange(si, ident_end(old(self).chars@, si + 1))),
            },
    {
        let ghost cs = self.chars@;
        let first = self.pos - 1;
        self.skip_ident();
        let end = self.pos;
        let mut word: Vec<char> = Vec::new();
        let mut text = String::new();
        let mut q: usize = first;
        while q < end
            invariant
                first <= q <= end,
                first == si,
                end <= cs.len(),
                self.chars@ == cs,
                word@ == cs.subrange(si, q as int),
                text@ == cs.subrange(si, q as int),
            decreases end - q,
        {
            let c = self.chars[q];
            word.push(c);
            push_char(&mut text, c);
            proof {
                assert(cs.subrange(si, q + 1) =~= cs.subrange(si, q as int).push(c));
            }
            q = q + 1;
        }
        match keyword_chars(&word) {
            Some(k) => TokenKind::Keyword(k),
            None => TokenKind::Identifier(text),
        }
    }

    /// Reads the token at the position, which is neither trivia nor the
    /// end of the text.
    fn next_token(&mut self) -> (r: Result<TokenKind, LexError>)
        requires
            old(self).inv(),
            old(self).pos < old(self).chars@.len(),
        ensures
            final(self).inv(),
            final(self).chars@ == old(self).chars@,
            match token_at(old(self).chars@, old(self).pos as int) {
                Ok((tok, e)) => r matches Ok(k) && k@ == tok && final(self).pos == e && e > old(self).pos,
                Err(ev) => r matches Err(err) && error_matches(err, ev, old(self).chars@),
            },
    {
        let ghost cs = self.chars@;
        let ghost si = self.pos as int;
        let start = self.byte;
        let c = self.chars[self.pos];
        self.advance();
        match punct_kind(c) {
            Some(k) => {
                return Ok(k);
            },
            None => {},
        }
        if c == '=' || c == '!' || c == '<' || c == '>' {
            let equal_follows = match self.peek() {
                Some(d) => d == '=',
                None => false,
            };
            if equal_follows {
                self.advance();
            }
            return Ok(operator_kind(c, equal_follows));
        }
        if c == '"' {
            return self.string(start, Ghost(si));
        }
        if '0' <= c && c <= '9' {
            return self.number(start, Ghost(si));
        }
        if is_ident_start(c) {
            proof {
                lemma_runs(cs, si + 1);
            }
            return Ok(self.identifier(Ghost(si)));
        }
        Err(LexError { kind: LexErrorKind::UnexpectedCharacter(c), span: self.span_from(start) })
    }
}

/// The tokens match, one for one, the tokens read from the characters:
/// the same kinds, and spans at the byte offsets of their character
/// ranges.
pub open spec fn tokens_match(tokens: Seq<Token>, views: Seq<TokView>, cs: Seq<char>) -> bool {
    &&& tokens.len() == views.len()
    &&& forall|t: int|
        0 <= t < tokens.len() ==> {
            &&& (#[trigger] tokens[t]).kind@ == views[t].kind
            &&& tokens[t].span.start == byte_offset(cs, views[t].start)
            &&& tokens[t].span.end == byte_offset(cs, views[t].end)
        }
}

/// Lexes NovaQL source into tokens ending with `Eof`. Whitespace, `//` and
/// `/* ... */` comments are discarded; spans are UTF-8 byte ranges. Any
/// input gives tokens or a spanned error; none makes it panic.
pub fn lex(source: &str) -> (r: Result<Vec<Token>, LexError>)
    ensures
        match lex_from(source@, 0) {
            Ok(views) => r matches Ok(tokens) && tokens_match(tokens@, views, source@),
            Err(ev) => r matches Err(e) && error_matches(e, ev, source@),
        },
{
    let chars = chars_of(source);
    let ghost cs = chars@;
    let byte_len = source.as_bytes().len();
    proof {
        assert(cs.take(cs.len() as int) =~= cs);
        assert(byte_len == byte_offset(cs, cs.len() as int));
        assert(cs.take(0) =~= Seq::<char>::empty());
        assert(vstd::utf8::encode_utf8(Seq::<char>::empty()) =~= Seq::<u8>::empty());
    }
    let mut lexer = Lexer { chars, pos: 0, byte: 0 };
    let mut tokens: Vec<Token> = Vec::new();
    let ghost mut done: Seq<TokView> = Seq::empty();
    loop
        invariant
            lexer.inv(),
            lexer.chars@ == cs,
            cs == source@,
            tokens_match(tokens@, done, cs),
            lex_from(cs, 0) == match lex_from(cs, lexer.pos as int) {
                Ok(rest) => Ok(done + rest),
                Err(e) => Err::<Seq<TokView>, ErrView>(e),
            },
        decreases cs.len() - lexer.pos,
    {
        let ghost p0 = lexer.pos as int;
        match lexer.skip_trivia() {
            Ok(()) => {},
            Err(e) => {
                return Err(e);
            },
        }
        let ghost j = lexer.pos as int;
        let start = lexer.byte;
        if lexer.pos >= lexer.chars.len() {
            let ghost tv = TokView { kind: Tok::Eof, start: j, end: j };
            tokens.push(Token { kind: TokenKind::Eof, span: Span::new(start, start) });
            proof {
                assert(lex_from(cs, p0) == Ok::<Seq<TokView>, ErrView>(seq![tv]));
                assert(tokens@ =~= tokens@.drop_last().push(tokens@.last()));
                done = done.push(tv);
                assert(done =~= done.drop_last() + seq![tv]);
            }
            return Ok(tokens);
        }
        let kind = match lexer.next_token() {
            Ok(k) => k,
            Err(e) => {
                return Err(e);
            },
        };
        let ghost tv = TokView { kind: kind@, start: j, end: lexer.pos as int };
        tokens.push(Token { kind, span: lexer.span_from(start) });
        proof {
            let ghost old_done = done;
            done = done.push(tv);
            match lex_from(cs, lexer.pos as int) {
                Ok(rest) => {
                    assert(old_done + (seq![tv] + rest) =~= done + rest);
                },
                Err(_) => {},
            }
        }
    }
}

/// Trivia from a position inside the text ends inside it, at or after the
/// position.
proof fn lemma_trivia_end(cs: Seq<char>, i: int)
    requires
        0 <= i <= cs.len(),
    ensures
        trivia_end(cs, i) matches Ok(j) ==> i <= j <= cs.len(),
    decreases cs.len() - i,
{
    if i < cs.len() {
        if unicode_whitespace(cs[i]) {
            lemma_trivia_end(cs, i + 1);
        } else if pair_at(cs, i, '/', '/') {
            let j = line_end(cs, i + 2);
            lemma_runs(cs, i + 2);
            if i < j <= cs.len() {
                lemma_trivia_end(cs, j);
            }
        } else if pair_at(cs, i, '/', '*') {
            match block_end(cs, i + 2) {
                Some(j) => {
                    if i < j <= cs.len() {
                        lemma_trivia_end(cs, j);
                    }
                },
                None => {},
            }
        }
    }
}

/// The tokens read from a position: at least one, the last the end of
/// input at the end of the text, every other one a non-empty range, each
/// ending at or before the next begins, all at or after the position.
pub open spec fn tokens_well_placed(ts: Seq<TokView>, from: int, len: int) -> bool {
    &&& ts.len() >= 1
    &&& ts.last() == (TokView { kind: Tok::Eof, start: len, end: len })
    &&& ts[0].start >= from
    &&& forall|k: int| 0 <= k < ts.len() - 1 ==> !((#[trigger] ts[k]).kind is Eof) && ts[k].start < ts[k].end && ts[k].end
        <= ts[k + 1].start
}

proof fn lemma_lex_from_placed(cs: Seq<char>, i: int)
    requires
        0 <= i <= cs.len(),
    ensures
        lex_from(cs, i) matches Ok(ts) ==> tokens_well_placed(ts, i, cs.len() as int),
    decreases cs.len() - i,
{
    lemma_trivia_end(cs, i);
    match trivia_end(cs, i) {
        Err(_) => {},
        Ok(j) => {
            if j < 0 || j >= cs.len() || j < i {
            } else {
                match token_at(cs, j) {
                    Err(_) => {},
                    Ok((kind, e)) => {
                        if j < e <= cs.len() {
                            lemma_lex_from_placed(cs, e);
                            match lex_from(cs, e) {
                                Ok(rest) => {
                                    let ts = seq![TokView { kind, start: j, end: e }] + rest;
                                    assert(!(kind is Eof)) by {
                                        let c = cs[j];
                                        if punct(c) is Some {
                                        } else if operator(c, false) is Some {
                                        } else if c == '"' {
                                        } else if is_digit(c) {
                                        } else {
                                        }
                                    }
                                    assert forall|k: int| 0 <= k < ts.len() - 1 implies !((#[trigger] ts[k]).kind is Eof)
                                        && ts[k].start < ts[k].end && ts[k].end <= ts[k + 1].start by {
                                        if k > 0 {
                                            assert(ts[k] == rest[k - 1]);
                                            assert(ts[k + 1] == rest[k]);
                                        } else {
                                            assert(ts[1] == rest[0]);
                                        }
                                    }
                                    assert(ts.last() == rest.last());
                                },
                                Err(_) => {},
                            }
                        }
                    },
                }
            }
        },
    }
}

/// Lexing a whole text gives tokens in order: the end-of-input token comes
/// once, last, with the empty range at the end of the text; every other
/// token covers a non-empty range that ends at or before the next one
/// starts.
pub proof fn law_lex_tokens_in_order(cs: Seq<char>)
    ensures
        lex_from(cs, 0) matches Ok(ts) ==> tokens_well_placed(ts, 0, cs.len() as int),
{
    lemma_lex_from_placed(cs, 0);
}

/// How each keyword is spelled, in lower case.
pub open spec fn keyword_spelling(k: Keyword) -> Seq<char> {
    match k {
        Keyword::Find => "find"@,
        Keyword::Insert => "insert"@,
        Keyword::Into => "into"@,
        Keyword::Update => "update"@,
        Keyword::SetClause => "set"@,
        Keyword::Delete => "delete"@,
        Keyword::From => "from"@,
        Keyword::Where => "where"@,
        Keyword::Project => "project"@,
        Keyword::Sort => "sort"@,
        Keyword::By => "by"@,
        Keyword::Asc => "asc"@,
        Keyword::Desc => "desc"@,
        Keyword::Limit => "limit"@,
        Keyword::Skip => "skip"@,
        Keyword::Create => "create"@,
        Keyword::Drop => "drop"@,
        Keyword::Collection => "collection"@,
        Keyword::Index => "index"@,
        Keyword::On => "on"@,
        Keyword::Explain => "explain"@,
        Keyword::And => "and"@,
        Keyword::Or => "or"@,
        Keyword::Not => "not"@,
        Keyword::True => "true"@,
        Keyword::False => "false"@,
        Keyword::Null => "null"@,
    }
}

proof fn lemma_same_word_trans(t: Seq<char>, a: Seq<char>, b: Seq<char>)
    requires
        same_ignoring_ascii_case(t, a),
        same_ignoring_ascii_case(t, b),
    ensures
        same_ignoring_ascii_case(a, b),
{
    assert forall|i: int| 0 <= i < a.len() implies ascii_lower(#[trigger] a[i]) == ascii_lower(b[i]) by {
        assert(ascii_lower(t[i]) == ascii_lower(a[i]));
        assert(ascii_lower(t[i]) == ascii_lower(b[i]));
    }
}

/// Each reserved word names its own keyword: a word names keyword `k` only
/// when it spells `k` ignoring ASCII case, and every spelling of `k` in any
/// ASCII case names `k`.
#[verifier::rlimit(100)]
pub proof fn law_keyword_spelling(text: Seq<char>, k: Keyword)
    ensures
        keyword_of(text) == Some(k) ==> same_ignoring_ascii_case(text, keyword_spelling(k)),
        same_ignoring_ascii_case(text, keyword_spelling(k)) ==> keyword_of(text) == Some(k),
{
    reveal_strlit("find");
    reveal_strlit("insert");
    reveal_strlit("into");
    reveal_strlit("update");
    reveal_strlit("set");
    reveal_strlit("delete");
    reveal_strlit("from");
    reveal_strlit("where");
    reveal_strlit("project");
    reveal_strlit("sort");
    reveal_strlit("by");
    reveal_strlit("asc");
    reveal_strlit("desc");
    reveal_strlit("limit");
    reveal_strlit("skip");
    reveal_strlit("create");
    reveal_strlit("drop");
    reveal_strlit("collection");
    reveal_strlit("index");
    reveal_strlit("on");
    reveal_strlit("explain");
    reveal_strlit("and");
    reveal_strlit("or");
    reveal_strlit("not");
    reveal_strlit("true");
    reveal_strlit("false");
    reveal_strlit("null");
    if same_ignoring_ascii_case(text, keyword_spelling(k)) {
        assert forall|w: Seq<char>| #[trigger] same_ignoring_ascii_case(text, w) implies same_ignoring_ascii_case(
            keyword_spelling(k),
            w,
        ) by {
            lemma_same_word_trans(text, keyword_spelling(k), w);
        }
        match k {
        Keyword::Find => {

        },
        Keyword::Insert => {

        },
        Keyword::Into => {
            assert(ascii_lower("into"@[0]) != ascii_lower("find"@[0]));
        },
        Keyword::Update => {
            assert(ascii_lower("update"@[0]) != ascii_lower("insert"@[0]));
        },
        Keyword::SetClause => {

        },
        Keyword::Delete => {
            assert(ascii_lower("delete"@[0]) != ascii_lower("insert"@[0]));
            assert(ascii_lower("delete"@[0]) != ascii_lower("update"@[0]));
        },
        Keyword::From => {
            assert(ascii_lower("from"@[1]) != ascii_lower("find"@[1]));
            assert(ascii_lower("from"@[0]) != ascii_lower("into"@[0]));
        },
        Keyword::Where => {

        },
        Keyword::Project => {

        },
        Keyword::Sort => {
            assert(ascii_lower("sort"@[0]) != ascii_lower("find"@[0]));
            assert(ascii_lower("sort"@[0]) != ascii_lower("into"@[0]));
            assert(ascii_lower("sort"@[0]) != ascii_lower("from"@[0]));
        },
        Keyword::By => {

        },
        Keyword::Asc => {
            assert(ascii_lower("asc"@[0]) != ascii_lower("set"@[0]));
        },
        Keyword::Desc => {
            assert(ascii_lower("desc"@[0]) != ascii_lower("find"@[0]));
            assert(ascii_lower("desc"@[0]) != ascii_lower("into"@[0]));
            assert(ascii_lower("desc"@[0]) != ascii_lower("from"@[0]));
            assert(ascii_lower("desc"@[0]) != ascii_lower("sort"@[0]));
        },
        Keyword::Limit => {
            assert(ascii_lower("limit"@[0]) != ascii_lower("where"@[0]));
        },
        Keyword::Skip => {
            assert(ascii_lower("skip"@[0]) != ascii_lower("find"@[0]));
            assert(ascii_lower("skip"@[0]) != ascii_lower("into"@[0]));
            assert(ascii_lower("skip"@[0]) != ascii_lower("from"@[0]));
            assert(ascii_lower("skip"@[1]) != ascii_lower("sort"@[1]));
            assert(ascii_lower("skip"@[0]) != ascii_lower("desc"@[0]));
        },
        Keyword::Create => {
            assert(ascii_lower("create"@[0]) != ascii_lower("insert"@[0]));
            assert(ascii_lower("create"@[0]) != ascii_lower("update"@[0]));
            assert(ascii_lower("create"@[0]) != ascii_lower("delete"@[0]));
        },
        Keyword::Drop => {
            assert(ascii_lower("drop"@[0]) != ascii_lower("find"@[0]));
            assert(ascii_lower("drop"@[0]) != ascii_lower("into"@[0]));
            assert(ascii_lower("drop"@[0]) != ascii_lower("from"@[0]));
            assert(ascii_lower("drop"@[0]) != ascii_lower("sort"@[0]));
            assert(ascii_lower("drop"@[1]) != ascii_lower("desc"@[1]));
            assert(ascii_lower("drop"@[0]) != ascii_lower("skip"@[0]));
        },
        Keyword::Collection => {

        },
        Keyword::Index => {
            assert(ascii_lower("index"@[0]) != ascii_lower("where"@[0]));
            assert(ascii_lower("index"@[0]) != ascii_lower("limit"@[0]));
        },
        Keyword::On => {
            assert(ascii_lower("on"@[0]) != ascii_lower("by"@[0]));
        },
        Keyword::Explain => {
            assert(ascii_lower("explain"@[0]) != ascii_lower("project"@[0]));
        },
        Keyword::And => {
            assert(ascii_lower("and"@[0]) != ascii_lower("set"@[0]));
            assert(ascii_lower("and"@[1]) != ascii_lower("asc"@[1]));
        },
        Keyword::Or => {
            assert(ascii_lower("or"@[0]) != ascii_lower("by"@[0]));
            assert(ascii_lower("or"@[1]) != ascii_lower("on"@[1]));
        },
        Keyword::Not => {
            assert(ascii_lower("not"@[0]) != ascii_lower("set"@[0]));
            assert(ascii_lower("not"@[0]) != ascii_lower("asc"@[0]));
            assert(ascii_lower("not"@[0]) != ascii_lower("and"@[0]));
        },
        Keyword::True => {
            assert(ascii_lower("true"@[0]) != ascii_lower("find"@[0]));
            assert(ascii_lower("true"@[0]) != ascii_lower("into"@[0]));
            assert(ascii_lower("true"@[0]) != ascii_lower("from"@[0]));
            assert(ascii_lower("true"@[0]) != ascii_lower("sort"@[0]));
            assert(ascii_lower("true"@[0]) != ascii_lower("desc"@[0]));
            assert(ascii_lower("true"@[0]) != ascii_lower("skip"@[0]));
            assert(ascii_lower("true"@[0]) != ascii_lower("drop"@[0]));
        },
        Keyword::False => {
            assert(ascii_lower("false"@[0]) != ascii_lower("where"@[0]));
            assert(ascii_lower("false"@[0]) != ascii_lower("limit"@[0]));
            assert(ascii_lower("false"@[0]) != ascii_lower("index"@[0]));
        },
        Keyword::Null => {
            assert(ascii_lower("null"@[0]) != ascii_lower("find"@[0]));
            assert(ascii_lower("null"@[0]) != ascii_lower("into"@[0]));
            assert(ascii_lower("null"@[0]) != ascii_lower("from"@[0]));
            assert(ascii_lower("null"@[0]) != ascii_lower("sort"@[0]));
            assert(ascii_lower("null"@[0]) != ascii_lower("desc"@[0]));
            assert(ascii_lower("null"@[0]) != ascii_lower("skip"@[0]));
            assert(ascii_lower("null"@[0]) != ascii_lower("drop"@[0]));
            assert(ascii_lower("null"@[0]) != ascii_lower("true"@[0]));
        },
        }
    }
}

} // verus!
