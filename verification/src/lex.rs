//! Tokens of skaf source text and the lexer that produces them.

use vstd::prelude::*;
use vstd::std_specs::iter::IteratorSpec;
use vstd::string::*;
use vstd::utf8::*;

verus! {

broadcast use vstd::string::group_string_axioms, vstd::utf8::encode_utf8_decode_utf8,
    vstd::utf8::encode_utf8_valid_utf8;

/// A token, with the line and column reached just after its first character.
#[derive(Debug, Clone, PartialEq)]
pub struct LexicalToken {
    pub line: usize,
    pub col: usize,
    pub variant: LexicalTokenVariant,
}

#[derive(Debug, Clone, PartialEq)]
pub enum LexicalTokenVariant {
    Identifier(String),
    String(String),
    LeftCurlyBrace,
    RightCurlyBrace,
    Colon,
    NewLine,
    Dot,
    Query,
    LeftSquareBrace,
    RightSquareBrace,
    LeftPeren,
    RightPeren,
}

/// The mathematical content of a [`LexicalTokenVariant`].
pub enum TokenKind {
    Identifier(Seq<char>),
    Str(Seq<char>),
    LeftCurlyBrace,
    RightCurlyBrace,
    Colon,
    NewLine,
    Dot,
    Query,
    LeftSquareBrace,
    RightSquareBrace,
    LeftPeren,
    RightPeren,
}

/// The mathematical content of a [`LexicalToken`].
pub struct TokenView {
    pub line: nat,
    pub col: nat,
    pub kind: TokenKind,
}

impl View for LexicalTokenVariant {
    type V = TokenKind;

    open spec fn view(&self) -> TokenKind {
        match self {
            LexicalTokenVariant::Identifier(s) => TokenKind::Identifier(s@),
            LexicalTokenVariant::String(s) => TokenKind::Str(s@),
            LexicalTokenVariant::LeftCurlyBrace => TokenKind::LeftCurlyBrace,
            LexicalTokenVariant::RightCurlyBrace => TokenKind::RightCurlyBrace,
            LexicalTokenVariant::Colon => TokenKind::Colon,
            LexicalTokenVariant::NewLine => TokenKind::NewLine,
            LexicalTokenVariant::Dot => TokenKind::Dot,
            LexicalTokenVariant::Query => TokenKind::Query,
            LexicalTokenVariant::LeftSquareBrace => TokenKind::LeftSquareBrace,
            LexicalTokenVariant::RightSquareBrace => TokenKind::RightSquareBrace,
            LexicalTokenVariant::LeftPeren => TokenKind::LeftPeren,
            LexicalTokenVariant::RightPeren => TokenKind::RightPeren,
        }
    }
}

impl View for LexicalToken {
    type V = TokenView;

    open spec fn view(&self) -> TokenView {
        TokenView { line: self.line as nat, col: self.col as nat, kind: self.variant@ }
    }
}

/// Whether `c` has the Unicode `White_Space` property: the characters
/// U+0009 to U+000D, U+0020, U+0085, U+00A0, U+1680, U+2000 to U+200A,
/// U+2028, U+2029, U+202F, U+205F and U+3000.
pub open spec fn char_is_whitespace(c: char) -> bool {
    ||| ('\u{9}' <= c && c <= '\u{d}')
    ||| c == ' '
    ||| c == '\u{85}'
    ||| c == '\u{a0}'
    ||| c == '\u{1680}'
    ||| ('\u{2000}' <= c && c <= '\u{200a}')
    ||| c == '\u{2028}'
    ||| c == '\u{2029}'
    ||| c == '\u{202f}'
    ||| c == '\u{205f}'
    ||| c == '\u{3000}'
}

/// Whether `c` has the Unicode `White_Space` property, as
/// `char::is_whitespace` tests it.
fn is_whitespace(c: char) -> (r: bool)
    ensures
        r == char_is_whitespace(c),
{
    ('\u{9}' <= c && c <= '\u{d}') || c == ' ' || c == '\u{85}' || c == '\u{a0}' || c
        == '\u{1680}' || ('\u{2000}' <= c && c <= '\u{200a}') || c == '\u{2028}' || c
        == '\u{2029}' || c == '\u{202f}' || c == '\u{205f}' || c == '\u{3000}'
}

/// Calls `String::push`; the contract claims that `c` is appended to the text.
#[verifier::external_body]
pub(crate) fn push_char(s: &mut String, c: char)
    ensures
        final(s)@ == old(s)@.push(c),
{
    s.push(c)
}

/// The line reached after reading the first `p` characters: the number of
/// line feeds among them.
pub open spec fn line_at(cs: Seq<char>, p: int) -> nat
    decreases p,
{
    if p <= 0 {
        0
    } else {
        line_at(cs, p - 1) + if cs[p - 1] == '\n' {
            1nat
        } else {
            0nat
        }
    }
}

/// The column reached after reading the first `p` characters: the number of
/// characters read since the last line feed.
pub open spec fn col_at(cs: Seq<char>, p: int) -> nat
    decreases p,
{
    if p <= 0 {
        0
    } else if cs[p - 1] == '\n' {
        0
    } else {
        col_at(cs, p - 1) + 1
    }
}

/// A character that starts an identifier.
pub open spec fn ident_start(c: char) -> bool {
    ('a' <= c && c <= 'z') || ('A' <= c && c <= 'Z') || c == '_'
}

/// A character that may follow the first character of an identifier.
pub open spec fn ident_char(c: char) -> bool {
    !char_is_whitespace(c) && c != ':' && c != '{' && c != '}' && c != '?' && c != '.' && c
        != '(' && c != ')' && c != '[' && c != ']'
}

/// The first position at or after `p` that holds no identifier character,
/// or the length of the text.
pub open spec fn ident_stop(cs: Seq<char>, p: int) -> int
    decreases cs.len() - p,
{
    if p < 0 || p >= cs.len() {
        cs.len() as int
    } else if !ident_char(cs[p]) {
        p
    } else {
        ident_stop(cs, p + 1)
    }
}

/// The text of an identifier that starts at character `a` and stops before
/// character `stop`. The text is cut out of the UTF-8 bytes of the source,
/// from byte offset `a` up to byte offset `stop` (or to the end of the bytes
/// when the identifier runs to the end of the source); `None` when one of
/// these offsets is not a character boundary, where slicing the text fails.
pub open spec fn ident_text(cs: Seq<char>, a: int, stop: int) -> Option<Seq<char>> {
    let bs = encode_utf8(cs);
    let end = if stop < cs.len() {
        stop
    } else {
        bs.len() as int
    };
    let rest = bs.subrange(a, bs.len() as int);
    if is_char_boundary(bs, a) && is_char_boundary(rest, end - a) {
        Some(decode_utf8(rest.subrange(0, end - a)))
    } else {
        None
    }
}

/// The characters a string escape appends: `\n`, `\\` and `\'` give one
/// character, any other escaped character is kept with its backslash.
pub open spec fn unescape(buf: Seq<char>, c: char) -> Seq<char> {
    if c == 'n' {
        buf.push('\n')
    } else if c == '\\' {
        buf.push('\\')
    } else if c == '\'' {
        buf.push('\'')
    } else {
        buf.push('\\').push(c)
    }
}

/// Reads the body of a string literal from position `p` (just after the
/// opening quote), with `buf` read so far: the text and the position after
/// the closing quote, or `None` when the source ends first.
pub open spec fn read_str(cs: Seq<char>, p: int, buf: Seq<char>) -> Option<(Seq<char>, int)>
    decreases cs.len() - p,
{
    if p < 0 || p >= cs.len() {
        None
    } else if cs[p] == '\\' {
        if p + 1 >= cs.len() {
            None
        } else {
            read_str(cs, p + 2, unescape(buf, cs[p + 1]))
        }
    } else if cs[p] == '"' {
        Some((buf, p + 1))
    } else {
        read_str(cs, p + 1, buf.push(cs[p]))
    }
}

/// What one step of the lexer gives from a position.
pub enum Scan {
    /// A token and the position after it.
    Token(TokenView, int),
    /// No further token: the text is used up.
    Done,
    /// The next token is an identifier whose slice of the source text fails.
    Dirty,
}

pub open spec fn token_at(cs: Seq<char>, q: int, kind: TokenKind) -> Scan {
    Scan::Token(TokenView { line: line_at(cs, q), col: col_at(cs, q), kind: kind }, q)
}

/// The next token of `cs` from position `p`. Characters that start no token
/// are skipped, and so is a backslash directly before a line feed together
/// with that line feed.
pub open spec fn scan(cs: Seq<char>, p: int) -> Scan
    decreases cs.len() - p,
{
    if p < 0 || p >= cs.len() {
        Scan::Done
    } else {
        let c = cs[p];
        let q = p + 1;
        if ident_start(c) {
            let stop = ident_stop(cs, q);
            match ident_text(cs, p, stop) {
                Some(t) => Scan::Token(
                    TokenView { line: line_at(cs, q), col: col_at(cs, q), kind: TokenKind::Identifier(t) },
                    stop,
                ),
                None => Scan::Dirty,
            }
        } else if c == '{' {
            token_at(cs, q, TokenKind::LeftCurlyBrace)
        } else if c == '}' {
            token_at(cs, q, TokenKind::RightCurlyBrace)
        } else if c == '"' {
            match read_str(cs, q, seq![]) {
                Some((s, r)) => Scan::Token(
                    TokenView { line: line_at(cs, q), col: col_at(cs, q), kind: TokenKind::Str(s) },
                    r,
                ),
                None => Scan::Done,
            }
        } else if c == ':' {
            token_at(cs, q, TokenKind::Colon)
        } else if c == '\\' && q < cs.len() && cs[q] == '\n' {
            scan(cs, q + 1)
        } else if c == '\n' {
            token_at(cs, q, TokenKind::NewLine)
        } else if c == '?' {
            token_at(cs, q, TokenKind::Query)
        } else if c == '.' {
            token_at(cs, q, TokenKind::Dot)
        } else if c == '(' {
            token_at(cs, q, TokenKind::LeftPeren)
        } else if c == ')' {
            token_at(cs, q, TokenKind::RightPeren)
        } else if c == '[' {
            token_at(cs, q, TokenKind::LeftSquareBrace)
        } else if c == ']' {
            token_at(cs, q, TokenKind::RightSquareBrace)
        } else {
            scan(cs, q)
        }
    }
}

proof fn lemma_line_col_bound(cs: Seq<char>, p: int)
    requires
        0 <= p,
    ensures
        line_at(cs, p) <= p,
        col_at(cs, p) <= p,
    decreases p,
{
    if p > 0 {
        lemma_line_col_bound(cs, p - 1);
    }
}

proof fn lemma_encode_len(cs: Seq<char>)
    ensures
        encode_utf8(cs).len() >= cs.len(),
    decreases cs.len(),
{
    if cs.len() > 0 {
        lemma_encode_len(cs.drop_first());
    }
}

proof fn lemma_ident_stop(cs: Seq<char>, p: int, q: int)
    requires
        0 <= p <= q <= cs.len(),
        forall|i: int| p <= i < q ==> ident_char(#[trigger] cs[i]),
        q < cs.len() ==> !ident_char(cs[q]),
    ensures
        ident_stop(cs, p) == q,
    decreases q - p,
{
    if p < q {
        lemma_ident_stop(cs, p + 1, q);
    }
}

/// The scanner moves forward.
pub proof fn lemma_scan_advances(cs: Seq<char>, p: int)
    requires
        0 <= p,
    ensures
        scan(cs, p) matches Scan::Token(_, q) ==> p < q <= cs.len(),
    decreases cs.len() - p,
{
    if 0 <= p < cs.len() {
        let c = cs[p];
        let q = p + 1;
        if ident_start(c) {
            lemma_ident_stop_bound(cs, q);
        } else if c == '"' {
            lemma_read_str_bound(cs, q, seq![]);
        } else if c == '\\' && q < cs.len() && cs[q] == '\n' {
            lemma_scan_advances(cs, q + 1);
        } else {
            lemma_scan_advances(cs, q);
        }
    }
}

proof fn lemma_ident_stop_bound(cs: Seq<char>, p: int)
    requires
        0 <= p,
    ensures
        p <= cs.len() ==> p <= ident_stop(cs, p) <= cs.len(),
    decreases cs.len() - p,
{
    if p < cs.len() && ident_char(cs[p]) {
        lemma_ident_stop_bound(cs, p + 1);
    }
}

proof fn lemma_read_str_bound(cs: Seq<char>, p: int, buf: Seq<char>)
    requires
        0 <= p,
    ensures
        read_str(cs, p, buf) matches Some((_, q)) ==> p < q <= cs.len(),
    decreases cs.len() - p,
{
    if 0 <= p < cs.len() {
        if cs[p] == '\\' {
            if p + 1 < cs.len() {
                lemma_read_str_bound(cs, p + 2, unescape(buf, cs[p + 1]));
            }
        } else if cs[p] != '"' {
            lemma_read_str_bound(cs, p + 1, buf.push(cs[p]));
        }
    }
}

/// The identifier slice of an ASCII text never fails.
proof fn lemma_ascii_ident_text(cs: Seq<char>, a: int, stop: int)
    requires
        is_ascii_chars(cs),
        0 <= a < stop <= cs.len(),
    ensures
        ident_text(cs, a, stop) is Some,
{
    let bs = encode_utf8(cs);
    is_ascii_chars_encode_utf8(cs);
    assert forall|i: int| 0 <= i < bs.len() implies #[trigger] bs[i] <= 0x7f by {
        assert(cs[i] as u8 == bs[i]);
        assert('\0' <= cs[i] <= '\u{7f}');
    }
    is_char_boundary_iff_is_leading_byte(bs, a);
    assert(is_char_boundary(bs, a));
    valid_utf8_split(bs, a);
    let rest = bs.subrange(a, bs.len() as int);
    let end = if stop < cs.len() {
        stop
    } else {
        bs.len() as int
    };
    if end == bs.len() {
        is_char_boundary_start_end_of_seq(rest);
        assert(rest.len() == end - a);
    } else {
        assert(rest[end - a] == bs[end]);
        is_char_boundary_iff_is_leading_byte(rest, end - a);
    }
}

/// Lexing ASCII text never reaches an identifier whose slice fails.
pub proof fn lemma_ascii_clean(cs: Seq<char>, p: int)
    requires
        is_ascii_chars(cs),
        0 <= p,
    ensures
        !(scan(cs, p) is Dirty),
    decreases cs.len() - p,
{
    if p < cs.len() {
        let c = cs[p];
        let q = p + 1;
        if ident_start(c) {
            lemma_ident_stop_bound(cs, q);
            lemma_ascii_ident_text(cs, p, ident_stop(cs, q));
        } else if c == '\\' && q < cs.len() && cs[q] == '\n' {
            lemma_ascii_clean(cs, q + 1);
        } else if !(c == '{' || c == '}' || c == '"' || c == ':' || c == '\n' || c == '?' || c
            == '.' || c == '(' || c == ')' || c == '[' || c == ']') {
            lemma_ascii_clean(cs, q);
        }
    }
}

proof fn lemma_ident_stop_props(cs: Seq<char>, p: int)
    requires
        0 <= p <= cs.len(),
    ensures
        p <= ident_stop(cs, p) <= cs.len(),
        forall|k: int| p <= k < ident_stop(cs, p) ==> ident_char(#[trigger] cs[k]),
        ident_stop(cs, p) < cs.len() ==> !ident_char(cs[ident_stop(cs, p)]),
    decreases cs.len() - p,
{
    if p < cs.len() && ident_char(cs[p]) {
        lemma_ident_stop_props(cs, p + 1);
    }
}

proof fn lemma_ascii_ident_text_value(cs: Seq<char>, a: int, stop: int)
    requires
        is_ascii_chars(cs),
        0 <= a < stop <= cs.len(),
    ensures
        ident_text(cs, a, stop) == Some(cs.subrange(a, stop)),
{
    lemma_ascii_ident_text(cs, a, stop);
    let bs = encode_utf8(cs);
    is_ascii_chars_encode_utf8(cs);
    let sub = cs.subrange(a, stop);
    assert(is_ascii_chars(sub)) by {
        assert forall|i: int| 0 <= i < sub.len() implies '\0' <= #[trigger] sub[i] <= '\u{7f}' by {
            assert(sub[i] == cs[a + i]);
        }
    }
    is_ascii_chars_encode_utf8(sub);
    let rest = bs.subrange(a, bs.len() as int);
    assert(rest.subrange(0, stop - a) =~= encode_utf8(sub)) by {
        assert forall|i: int| 0 <= i < stop - a implies #[trigger] rest.subrange(0, stop - a)[i]
            == encode_utf8(sub)[i] by {
            assert(sub[i] as u8 == encode_utf8(sub)[i]);
            assert(cs[a + i] as u8 == bs[a + i]);
        }
    }
    encode_utf8_decode_utf8(sub);
}

/// On ASCII text an identifier is the longest run of identifier characters
/// after a character that starts one, and its text is that run.
pub proof fn lemma_ascii_identifier(cs: Seq<char>, p: int)
    requires
        is_ascii_chars(cs),
        0 <= p,
    ensures
        scan(cs, p) matches Scan::Token(t, q) ==> (t.kind is Identifier ==> ({
            let i = token_start(cs, p);
            &&& ident_start(cs[i])
            &&& i < q <= cs.len()
            &&& q == ident_stop(cs, i + 1)
            &&& t.kind->Identifier_0 == cs.subrange(i, q)
            &&& forall|k: int| i < k < q ==> ident_char(#[trigger] cs[k])
            &&& q < cs.len() ==> !ident_char(cs[q])
        })),
    decreases cs.len() - p,
{
    if p < cs.len() {
        let c = cs[p];
        let q = p + 1;
        if c == '\\' && q < cs.len() && cs[q] == '\n' {
            lemma_ascii_identifier(cs, q + 1);
        } else if !starts_token(c) {
            lemma_ascii_identifier(cs, q);
        } else if ident_start(c) {
            lemma_ident_stop_props(cs, q);
            lemma_ascii_ident_text_value(cs, p, ident_stop(cs, q));
        }
    }
}

/// A character that starts a token.
pub open spec fn starts_token(c: char) -> bool {
    ident_start(c) || c == '{' || c == '}' || c == '"' || c == ':' || c == '\n' || c == '?' || c
        == '.' || c == '(' || c == ')' || c == '[' || c == ']'
}

/// The position of the first character of the next token from `p` on:
/// characters that start no token are skipped, and so is a backslash
/// directly before a line feed together with that line feed.
pub open spec fn token_start(cs: Seq<char>, p: int) -> int
    decreases cs.len() - p,
{
    if p < 0 || p >= cs.len() {
        p
    } else if cs[p] == '\\' && p + 1 < cs.len() && cs[p + 1] == '\n' {
        token_start(cs, p + 2)
    } else if starts_token(cs[p]) {
        p
    } else {
        token_start(cs, p + 1)
    }
}

/// The position of the last line feed before position `p`, or -1.
pub open spec fn last_line_feed(cs: Seq<char>, p: int) -> int
    decreases p,
{
    if p <= 0 {
        -1
    } else if cs[p - 1] == '\n' {
        p - 1
    } else {
        last_line_feed(cs, p - 1)
    }
}

/// The column after `p` characters counts the characters since the last line feed.
pub proof fn lemma_col_at(cs: Seq<char>, p: int)
    requires
        0 <= p <= cs.len(),
    ensures
        col_at(cs, p) == p - 1 - last_line_feed(cs, p),
    decreases p,
{
    if p > 0 {
        lemma_col_at(cs, p - 1);
    }
}

/// A token gets the line and column reached just after its first character
/// at position `i`: the line is the number of line feeds up to and including
/// that character; the column is 0 for a line feed, and otherwise the
/// distance from the last line feed before it (from the start of the text,
/// counted as position -1, where there is none).
pub proof fn lemma_token_position(cs: Seq<char>, p: int)
    requires
        0 <= p,
    ensures
        scan(cs, p) matches Scan::Token(t, q) ==> ({
            let i = token_start(cs, p);
            &&& p <= i < q
            &&& i < cs.len()
            &&& starts_token(cs[i])
            &&& t.line == line_at(cs, i + 1)
            &&& t.col == col_at(cs, i + 1)
            &&& cs[i] == '\n' ==> t.col == 0
            &&& cs[i] != '\n' ==> t.col == i - last_line_feed(cs, i)
        }),
    decreases cs.len() - p,
{
    if p < cs.len() {
        let c = cs[p];
        let q = p + 1;
        if c == '\\' && q < cs.len() && cs[q] == '\n' {
            lemma_token_position(cs, q + 1);
        } else if !starts_token(c) {
            lemma_token_position(cs, q);
        } else {
            lemma_col_at(cs, p);
            if ident_start(c) {
                lemma_ident_stop_bound(cs, q);
            } else if c == '"' {
                lemma_read_str_bound(cs, q, seq![]);
            }
        }
    }
}

/// The line and column reached after `p` characters.
pub open spec fn place(cs: Seq<char>, p: int) -> (nat, nat) {
    (line_at(cs, p), col_at(cs, p))
}

/// `a` comes before `b`: on an earlier line, or on the same line in an earlier column.
pub open spec fn place_before(a: (nat, nat), b: (nat, nat)) -> bool {
    a.0 < b.0 || (a.0 == b.0 && a.1 < b.1)
}

/// Reading further gets to a later line and column.
pub proof fn lemma_place_advances(cs: Seq<char>, a: int, b: int)
    requires
        0 <= a < b <= cs.len(),
    ensures
        place_before(place(cs, a), place(cs, b)),
    decreases b - a,
{
    if a + 1 < b {
        lemma_place_advances(cs, a, b - 1);
    }
}

/// The text a token stands for, as [`LexicalTokenVariant::to_string`] gives it.
pub open spec fn kind_text(k: TokenKind) -> Seq<char> {
    match k {
        TokenKind::Identifier(v) => v,
        TokenKind::Str(v) => seq!['"'] + v + seq!['"'],
        TokenKind::LeftCurlyBrace => seq!['{'],
        TokenKind::RightCurlyBrace => seq!['}'],
        TokenKind::Colon => seq![':'],
        TokenKind::NewLine => seq!['\n'],
        TokenKind::Query => seq!['?'],
        TokenKind::Dot => seq!['.'],
        TokenKind::LeftPeren => seq!['('],
        TokenKind::RightPeren => seq![')'],
        TokenKind::LeftSquareBrace => seq!['['],
        TokenKind::RightSquareBrace => seq![']'],
    }
}

/// The tokens whose text, as [`LexicalTokenVariant::to_string`] gives it,
/// lexes back to the same token: every token without text of its own; an
/// identifier that starts with a letter or `_` and goes on with identifier
/// characters; a string literal without quotes or backslashes.
pub open spec fn round_trips(k: TokenKind) -> bool {
    match k {
        TokenKind::Identifier(s) => s.len() > 0 && ident_start(s[0]) && forall|i: int|
            1 <= i < s.len() ==> ident_char(#[trigger] s[i]),
        TokenKind::Str(s) => forall|i: int|
            0 <= i < s.len() ==> #[trigger] s[i] != '"' && s[i] != '\\',
        _ => true,
    }
}

proof fn lemma_read_plain(cs: Seq<char>, p: int, k: int, buf: Seq<char>)
    requires
        0 <= p <= k < cs.len(),
        cs[k] == '"',
        forall|i: int| p <= i < k ==> #[trigger] cs[i] != '"' && cs[i] != '\\',
    ensures
        read_str(cs, p, buf) == Some((buf + cs.subrange(p, k), k + 1)),
    decreases k - p,
{
    if p < k {
        lemma_read_plain(cs, p + 1, k, buf.push(cs[p]));
        assert(buf.push(cs[p]) + cs.subrange(p + 1, k) =~= buf + cs.subrange(p, k));
    } else {
        assert(buf + cs.subrange(p, k) =~= buf);
    }
}

/// The text of a token that round-trips lexes back to that one token, and
/// to nothing after it.
pub proof fn lemma_to_string_round_trip(k: TokenKind)
    requires
        round_trips(k),
    ensures
        scan(kind_text(k), 0) matches Scan::Token(t, q) && t.kind == k && q == kind_text(k).len(),
        scan(kind_text(k), kind_text(k).len() as int) is Done,
{
    let cs = kind_text(k);
    match k {
        TokenKind::Identifier(s) => {
            lemma_ident_stop(s, 1, s.len() as int);
            let bs = encode_utf8(s);
            is_char_boundary_start_end_of_seq(bs);
            assert(bs.subrange(0, bs.len() as int) =~= bs);
            assert(bs.subrange(0, bs.len() as int).subrange(0, bs.len() - 0) =~= bs);
            assert(ident_text(s, 0, s.len() as int) == Some(s));
        },
        TokenKind::Str(s) => {
            assert(cs[0] == '"');
            assert forall|i: int| 1 <= i < cs.len() - 1 implies #[trigger] cs[i] != '"' && cs[i]
                != '\\' by {
                assert(cs[i] == s[i - 1]);
            }
            lemma_read_plain(cs, 1, cs.len() - 1, seq![]);
            assert(seq![] + cs.subrange(1, cs.len() - 1) =~= s);
        },
        _ => {},
    }
}

fn one_char(c: char) -> (r: String)
    ensures
        r@ == seq![c],
{
    let mut s = String::new();
    push_char(&mut s, c);
    s
}

impl LexicalTokenVariant {
    /// The source text the token stands for; a string literal comes back
    /// between quotes, with its escapes left resolved.
    pub fn to_string(&self) -> (r: String)
        ensures
            r@ == kind_text(self@),
    {
        match self {
            LexicalTokenVariant::Identifier(val) => val.clone(),
            LexicalTokenVariant::String(val) => {
                let mut s = one_char('"');
                s.append(val.as_str());
                push_char(&mut s, '"');
                s
            },
            LexicalTokenVariant::LeftCurlyBrace => one_char('{'),
            LexicalTokenVariant::RightCurlyBrace => one_char('}'),
            LexicalTokenVariant::Colon => one_char(':'),
            LexicalTokenVariant::NewLine => one_char('\n'),
            LexicalTokenVariant::Query => one_char('?'),
            LexicalTokenVariant::Dot => one_char('.'),
            LexicalTokenVariant::LeftPeren => one_char('('),
            LexicalTokenVariant::RightPeren => one_char(')'),
            LexicalTokenVariant::LeftSquareBrace => one_char('['),
            LexicalTokenVariant::RightSquareBrace => one_char(']'),
        }
    }
}

/// The outcome of one lexing step.
pub(crate) enum LexOutcome {
    Token(LexicalToken),
    Done,
    Dirty,
}

/// Splits a source text into [`LexicalToken`]s.
#[derive(Debug, Clone)]
pub struct Lexer<'a> {
    col: usize,
    line: usize,
    pos: usize,
    buffer: &'a str,
    chars: Vec<char>,
}

impl<'a> Lexer<'a> {
    /// The characters of the source text.
    pub closed spec fn source(&self) -> Seq<char> {
        self.chars@
    }

    /// The number of characters read so far.
    pub closed spec fn position(&self) -> int {
        self.pos as int
    }

    /// The lexer's state is that reached by reading `position()` characters of `source()`.
    pub closed spec fn wf(&self) -> bool {
        &&& self.chars@ == self.buffer@
        &&& self.pos <= self.chars.len()
        &&& self.line == line_at(self.chars@, self.pos as int)
        &&& self.col == col_at(self.chars@, self.pos as int)
    }

    /// The position of a well-formed lexer lies within its source.
    pub proof fn lemma_position(&self)
        requires
            self.wf(),
        ensures
            0 <= self.position() <= self.source().len(),
    {
    }

    /// A lexer at the start of `source`.
    pub fn new(source: &'a str) -> (r: Self)
        ensures
            r.wf(),
            r.source() == source@,
            r.position() == 0,
    {
        let mut chars: Vec<char> = Vec::new();
        let mut it = source.chars();
        loop
            invariant
                chars@ + it.remaining() == source@,
                it.decrease() is Some,
            ensures
                chars@ == source@,
            decreases it.decrease()->0,
        {
            let ghost before = it.remaining();
            match it.next() {
                Some(c) => {
                    chars.push(c);
                    assert(chars@ + it.remaining() =~= source@);
                },
                None => {
                    assert(chars@ =~= source@);
                    break ;
                },
            }
        }
        Lexer { col: 0, line: 0, pos: 0, buffer: source, chars }
    }

    /// A copy of the lexer in the same state.
    pub fn duplicate(&self) -> (r: Self)
        ensures
            r.wf() == self.wf(),
            r.source() == self.source(),
            r.position() == self.position(),
    {
        let chars = self.chars.clone();
        assert(chars@ =~= self.chars@);
        Lexer { col: self.col, line: self.line, pos: self.pos, buffer: self.buffer, chars }
    }

    /// Reads one character, returning it with its index.
    fn advance(&mut self) -> (r: Option<(usize, char)>)
        requires
            old(self).wf(),
        ensures
            final(self).wf(),
            final(self).chars@ == old(self).chars@,
            old(self).pos < old(self).chars.len() ==> r == Some(
                (old(self).pos, old(self).chars@[old(self).pos as int]),
            ) && final(self).pos == old(self).pos + 1,
            old(self).pos >= old(self).chars.len() ==> r is None && final(self).pos
                == old(self).pos,
    {
        if self.pos >= self.chars.len() {
            return None;
        }
        let idx = self.pos;
        let c = self.chars[idx];
        proof {
            lemma_line_col_bound(self.chars@, idx as int);
        }
        self.pos = idx + 1;
        if c == '\n' {
            self.line = self.line + 1;
            self.col = 0;
        } else {
            self.col = self.col + 1;
        }
        Some((idx, c))
    }

    /// Reads characters while `cond` holds of them. Returns the index of the
    /// last character read, or one less than the byte length of the source
    /// when the source is used up.
    fn advance_until<T>(&mut self, cond: T) -> (r: usize) where T: Fn((usize, char)) -> bool
        requires
            old(self).wf(),
            0 < old(self).pos,
            forall|i: usize, c: char| #[trigger] cond.requires(((i, c),)),
        ensures
            final(self).wf(),
            final(self).chars@ == old(self).chars@,
            old(self).pos <= final(self).pos,
            forall|i: int|
                old(self).pos <= i < final(self).pos ==> cond.ensures(
                    ((i as usize, #[trigger] final(self).chars@[i]),),
                    true,
                ),
            final(self).pos < final(self).chars.len() ==> cond.ensures(
                ((final(self).pos, final(self).chars@[final(self).pos as int]),),
                false,
            ) && r == final(self).pos - 1,
            final(self).pos == final(self).chars.len() ==> r + 1 == encode_utf8(
                final(self).chars@,
            ).len() && encode_utf8(final(self).chars@).len() <= usize::MAX,
    {
        let ghost start = self.pos;
        loop
            invariant
                self.wf(),
                self.chars@ == old(self).chars@,
                start == old(self).pos,
                start <= self.pos,
                0 < self.pos,
                forall|i: usize, c: char| #[trigger] cond.requires(((i, c),)),
                forall|i: int|
                    start <= i < self.pos ==> cond.ensures(
                        ((i as usize, #[trigger] self.chars@[i]),),
                        true,
                    ),
            decreases self.chars.len() - self.pos,
        {
            if self.pos < self.chars.len() {
                let idx = self.pos;
                let val = self.chars[idx];
                if !cond((idx, val)) {
                    return idx - 1;
                }
                self.advance();
            } else {
                proof {
                    lemma_encode_len(self.chars@);
                }
                let bytes = self.buffer.as_bytes();
                return bytes.len() - 1;
            }
        }
    }

    /// Reads the body of a string literal, the opening quote having been read.
    fn read_string(&mut self) -> (r: Option<LexicalToken>)
        requires
            old(self).wf(),
        ensures
            final(self).wf(),
            final(self).chars@ == old(self).chars@,
            match read_str(old(self).chars@, old(self).pos as int, seq![]) {
                Some((s, q)) => final(self).pos == q && (r matches Some(t) && t@ == (TokenView {
                    line: line_at(old(self).chars@, old(self).pos as int),
                    col: col_at(old(self).chars@, old(self).pos as int),
                    kind: TokenKind::Str(s),
                })),
                None => final(self).pos == final(self).chars.len() && r is None,
            },
    {
        let line = self.line;
        let col = self.col;
        let mut buf = String::new();
        loop
            invariant
                self.wf(),
                self.chars@ == old(self).chars@,
                line == line_at(old(self).chars@, old(self).pos as int),
                col == col_at(old(self).chars@, old(self).pos as int),
                read_str(self.chars@, self.pos as int, buf@) == read_str(
                    old(self).chars@,
                    old(self).pos as int,
                    seq![],
                ),
            decreases self.chars.len() - self.pos,
        {
            if self.pos >= self.chars.len() {
                return None;
            }
            let val = self.chars[self.pos];
            if val == '\\' {
                self.advance();
                match self.advance() {
                    None => {
                        return None;
                    },
                    Some((_, v)) => {
                        if v == 'n' {
                            push_char(&mut buf, '\n');
                        } else if v == '\\' {
                            push_char(&mut buf, '\\');
                        } else if v == '\'' {
                            push_char(&mut buf, '\'');
                        } else {
                            push_char(&mut buf, '\\');
                            push_char(&mut buf, v);
                        }
                    },
                }
            } else if val == '"' {
                self.advance();
                return Some(
                    LexicalToken { line, col, variant: LexicalTokenVariant::String(buf) },
                );
            } else {
                push_char(&mut buf, val);
                self.advance();
            }
        }
    }

    /// A token of the given kind at the current position.
    fn here(&self, variant: LexicalTokenVariant) -> (r: LexOutcome)
        ensures
            r matches LexOutcome::Token(t) && t.line == self.line && t.col == self.col
                && t.variant == variant,
    {
        LexOutcome::Token(LexicalToken { line: self.line, col: self.col, variant })
    }

    /// One step of the lexer, reporting a failing identifier slice as `Dirty`.
    pub(crate) fn next_step(&mut self) -> (r: LexOutcome)
        requires
            old(self).wf(),
        ensures
            final(self).wf(),
            final(self).source() == old(self).source(),
            match scan(old(self).source(), old(self).position()) {
                Scan::Token(t, q) => r matches LexOutcome::Token(tok) && tok@ == t
                    && final(self).position() == q,
                Scan::Done => r is Done && final(self).position() == final(self).source().len(),
                Scan::Dirty => r is Dirty,
            },
    {
        let ghost cs = self.chars@;
        let ghost p0 = self.pos as int;
        loop
            invariant
                self.wf(),
                self.chars@ == cs,
                cs == old(self).chars@,
                p0 == old(self).pos,
                scan(cs, self.pos as int) == scan(cs, p0),
            decreases self.chars.len() - self.pos,
        {
            let (idx, c) = match self.advance() {
                None => {
                    return LexOutcome::Done;
                },
                Some(x) => x,
            };
            if ('a' <= c && c <= 'z') || ('A' <= c && c <= 'Z') || c == '_' {
                let line = self.line;
                let col = self.col;
                let is_ident_char = |t: (usize, char)| -> (b: bool)
                    ensures
                        b == ident_char(t.1),
                    {
                        let x = t.1;
                        !is_whitespace(x) && x != ':' && x != '{' && x != '}' && x != '?' && x
                            != '.' && x != '(' && x != ')' && x != '[' && x != ']'
                    };
                let end = self.advance_until(is_ident_char);
                proof {
                    lemma_ident_stop(cs, idx + 1, self.pos as int);
                    lemma_encode_len(cs);
                }
                let stop_byte = end + 1;
                if !self.buffer.is_char_boundary(idx) {
                    return LexOutcome::Dirty;
                }
                let (_, rest) = self.buffer.split_at(idx);
                if !rest.is_char_boundary(stop_byte - idx) {
                    return LexOutcome::Dirty;
                }
                let (mid, _) = rest.split_at(stop_byte - idx);
                let text = mid.to_owned();
                proof {
                    assert(encode_utf8(mid@) == mid.spec_bytes());
                }
                return LexOutcome::Token(
                    LexicalToken { line, col, variant: LexicalTokenVariant::Identifier(text) },
                );
            } else if c == '{' {
                return self.here(LexicalTokenVariant::LeftCurlyBrace);
            } else if c == '}' {
                return self.here(LexicalTokenVariant::RightCurlyBrace);
            } else if c == '"' {
                match self.read_string() {
                    Some(t) => {
                        return LexOutcome::Token(t);
                    },
                    None => {
                        return LexOutcome::Done;
                    },
                }
            } else if c == ':' {
                return self.here(LexicalTokenVariant::Colon);
            } else if c == '\\' && self.pos < self.chars.len() && self.chars[self.pos] == '\n' {
                self.advance();
            } else if c == '\n' {
                return self.here(LexicalTokenVariant::NewLine);
            } else if c == '?' {
                return self.here(LexicalTokenVariant::Query);
            } else if c == '.' {
                return self.here(LexicalTokenVariant::Dot);
            } else if c == '(' {
                return self.here(LexicalTokenVariant::LeftPeren);
            } else if c == ')' {
                return self.here(LexicalTokenVariant::RightPeren);
            } else if c == '[' {
                return self.here(LexicalTokenVariant::LeftSquareBrace);
            } else if c == ']' {
                return self.here(LexicalTokenVariant::RightSquareBrace);
            }
        }
    }

    /// The next token as [`Lexer::next`] gives it, or `Err`, with the lexer
    /// left where it was, where the next token is an identifier whose slice
    /// of the source fails.
    pub fn try_next(&mut self) -> (r: Result<Option<LexicalToken>, ()>)
        requires
            old(self).wf(),
        ensures
            final(self).wf(),
            final(self).source() == old(self).source(),
            match scan(old(self).source(), old(self).position()) {
                Scan::Token(t, q) => r matches Ok(Some(tok)) && tok@ == t && final(self).position()
                    == q,
                Scan::Done => r matches Ok(None) && final(self).position()
                    == final(self).source().len(),
                Scan::Dirty => r is Err && final(self).position() == old(self).position(),
            },
    {
        let saved = self.duplicate();
        match self.next_step() {
            LexOutcome::Token(t) => Ok(Some(t)),
            LexOutcome::Done => Ok(None),
            LexOutcome::Dirty => {
                *self = saved;
                Err(())
            },
        }
    }

    /// The next token, or `None` once the source is used up (an unterminated
    /// string literal uses it up too).
    pub fn next(&mut self) -> (r: Option<LexicalToken>)
        requires
            old(self).wf(),
            !(scan(old(self).source(), old(self).position()) is Dirty),
        ensures
            final(self).wf(),
            final(self).source() == old(self).source(),
            match scan(old(self).source(), old(self).position()) {
                Scan::Token(t, q) => r matches Some(tok) && tok@ == t && final(self).position()
                    == q,
                _ => r is None && final(self).position() == final(self).source().len(),
            },
    {
        match self.next_step() {
            LexOutcome::Token(t) => Some(t),
            _ => None,
        }
    }
}

} // verus!
