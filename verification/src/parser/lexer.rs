//! The SMT-LIB lexer: characters to tokens.
//!
//! White space and `;` comments (to the end of the line) separate tokens. A token is a
//! parenthesis; a symbol (a run of letters, digits and `~!@$%^&*_-+=<>.?/`, or any text
//! between `|` bars, where `\` takes the next character as it is); a keyword (`:`
//! followed by a symbol); a numeral, or a decimal `digits.digits`; `#x` followed by
//! hexadecimal digits or `#b` followed by binary digits; or a string between double
//! quotes, where `""` stands for one quote.
use vstd::prelude::*;
use crate::parser::text::{is_white, white, is_digit, digits_value, chars_of};
use crate::parser::smtlib::{DecimalLit, ErrorModel, SmtLibError};

verus! {

/// An SMT-LIB token.
#[derive(Debug)]
pub enum Token {
    LParen,
    RParen,
    Symbol(String),
    Keyword(String),
    Numeral(i64),
    Decimal(DecimalLit),
    /// Value and width in bits.
    HexLit(u64, u32),
    /// Value and width in bits.
    BinLit(u64, u32),
    StringLit(String),
}

/// The mathematical form of a [`Token`].
pub enum TokenModel {
    LParen,
    RParen,
    Symbol(Seq<char>),
    Keyword(Seq<char>),
    Numeral(i64),
    Decimal(DecimalLit),
    HexLit(u64, u32),
    BinLit(u64, u32),
    StringLit(Seq<char>),
}

impl View for Token {
    type V = TokenModel;

    open spec fn view(&self) -> TokenModel {
        match self {
            Token::LParen => TokenModel::LParen,
            Token::RParen => TokenModel::RParen,
            Token::Symbol(s) => TokenModel::Symbol(s@),
            Token::Keyword(s) => TokenModel::Keyword(s@),
            Token::Numeral(n) => TokenModel::Numeral(*n),
            Token::Decimal(d) => TokenModel::Decimal(*d),
            Token::HexLit(v, w) => TokenModel::HexLit(*v, *w),
            Token::BinLit(v, w) => TokenModel::BinLit(*v, *w),
            Token::StringLit(s) => TokenModel::StringLit(s@),
        }
    }
}

/// The mathematical forms of `ts`.
pub open spec fn token_models(ts: Seq<Token>) -> Seq<TokenModel> {
    ts.map_values(|t: Token| t@)
}

/// The result of `char::is_alphanumeric` on `c` (the Unicode `Alphabetic` or
/// `Numeric` property).
pub uninterp spec fn unicode_alphanumeric(c: char) -> bool;

/// Whether `c` is alphanumeric (`char::is_alphanumeric`): a fixed Unicode property of
/// `c`. Which characters have it is left unsaid here.
#[verifier::external_body]
fn alphanumeric(c: char) -> (b: bool)
    ensures
        b == unicode_alphanumeric(c),
{
    c.is_alphanumeric()
}

/// The punctuation allowed in symbols.
pub open spec fn is_symbol_punct(c: char) -> bool {
    c == '~' || c == '!' || c == '@' || c == '$' || c == '%' || c == '^' || c == '&' || c == '*' || c == '_'
        || c == '-' || c == '+' || c == '=' || c == '<' || c == '>' || c == '.' || c == '?' || c == '/'
}

/// A character of a simple symbol.
pub open spec fn is_symbol_char(c: char) -> bool {
    unicode_alphanumeric(c) || is_symbol_punct(c)
}

/// Whether `c` is a character of a simple symbol.
fn symbol_char(c: char) -> (b: bool)
    ensures
        b == is_symbol_char(c),
{
    alphanumeric(c) || c == '~' || c == '!' || c == '@' || c == '$' || c == '%' || c == '^' || c == '&' || c == '*'
        || c == '_' || c == '-' || c == '+' || c == '=' || c == '<' || c == '>' || c == '.' || c == '?' || c == '/'
}

/// An ASCII hexadecimal digit.
pub open spec fn is_hex_digit(c: char) -> bool {
    ('0' <= c <= '9') || ('a' <= c <= 'f') || ('A' <= c <= 'F')
}

/// A binary digit.
pub open spec fn is_bin_digit(c: char) -> bool {
    c == '0' || c == '1'
}

/// The value of a hexadecimal digit.
pub open spec fn hex_digit_value(c: char) -> nat {
    if '0' <= c <= '9' {
        ((c as u32) - 48) as nat
    } else if 'a' <= c <= 'f' {
        ((c as u32) - 87) as nat
    } else {
        ((c as u32) - 55) as nat
    }
}

/// The value of the hexadecimal digits `d`.
pub open spec fn hex_value(d: Seq<char>) -> nat
    decreases d.len(),
{
    if d.len() == 0 { 0 } else { hex_value(d.drop_last()) * 16 + hex_digit_value(d.last()) }
}

/// The value of the binary digits `d`.
pub open spec fn bin_value(d: Seq<char>) -> nat
    decreases d.len(),
{
    if d.len() == 0 { 0 } else { bin_value(d.drop_last()) * 2 + (if d.last() == '1' { 1nat } else { 0nat }) }
}

/// The line (from 1) of position `p` of `s`.
pub open spec fn line_at(s: Seq<char>, p: int) -> int
    decreases p,
{
    if p <= 0 { 1 } else { line_at(s, p - 1) + if s[p - 1] == '\n' { 1int } else { 0int } }
}

/// The column (from 1) of position `p` of `s`.
pub open spec fn col_at(s: Seq<char>, p: int) -> int
    decreases p,
{
    if p <= 0 { 1 } else if s[p - 1] == '\n' { 1 } else { col_at(s, p - 1) + 1 }
}

proof fn lemma_line_col_bound(s: Seq<char>, p: int)
    requires
        p >= 0,
    ensures
        1 <= line_at(s, p) <= p + 1,
        1 <= col_at(s, p) <= p + 1,
    decreases p,
{
    if p > 0 {
        lemma_line_col_bound(s, p - 1);
    }
}

/// The error `message` at position `p` of `s`.
pub open spec fn error_at(s: Seq<char>, p: int, message: Seq<char>) -> ErrorModel {
    ErrorModel { message, line: line_at(s, p), column: col_at(s, p) }
}

/// The position after the comment that starts at `p`: past the next line feed.
pub open spec fn comment_end(s: Seq<char>, p: int) -> int
    decreases s.len() - p,
{
    if p >= s.len() { s.len() as int } else if s[p] == '\n' { p + 1 } else { comment_end(s, p + 1) }
}

/// The position of the first token at or after `p`, past white space and comments.
pub open spec fn skip_space(s: Seq<char>, p: int) -> int
    decreases s.len() - p,
{
    if p < 0 || p >= s.len() {
        p
    } else if is_white(s[p]) {
        skip_space(s, p + 1)
    } else if s[p] == ';' {
        if p < comment_end(s, p + 1) <= s.len() { skip_space(s, comment_end(s, p + 1)) } else { p }
    } else {
        p
    }
}

/// The end of the run of symbol characters that starts at `p`.
pub open spec fn symbol_end(s: Seq<char>, p: int) -> int
    decreases s.len() - p,
{
    if 0 <= p < s.len() && is_symbol_char(s[p]) { symbol_end(s, p + 1) } else { p }
}

/// The end of the run of decimal digits that starts at `p`.
pub open spec fn digits_end(s: Seq<char>, p: int) -> int
    decreases s.len() - p,
{
    if 0 <= p < s.len() && is_digit(s[p]) { digits_end(s, p + 1) } else { p }
}

/// The end of the run of hexadecimal digits that starts at `p`.
pub open spec fn hex_end(s: Seq<char>, p: int) -> int
    decreases s.len() - p,
{
    if 0 <= p < s.len() && is_hex_digit(s[p]) { hex_end(s, p + 1) } else { p }
}

/// The end of the run of binary digits that starts at `p`.
pub open spec fn bin_end(s: Seq<char>, p: int) -> int
    decreases s.len() - p,
{
    if 0 <= p < s.len() && is_bin_digit(s[p]) { bin_end(s, p + 1) } else { p }
}

/// A quoted symbol's text from `p` (after the opening bar), given the text `acc` read
/// so far: the text and the position after the closing bar, or `None` when no bar
/// closes it.
pub open spec fn quoted_from(s: Seq<char>, p: int, acc: Seq<char>) -> Option<(Seq<char>, int)>
    decreases s.len() - p,
{
    if p < 0 || p >= s.len() {
        None
    } else if s[p] == '|' {
        Some((acc, p + 1))
    } else if s[p] == '\\' {
        if p + 1 < s.len() { quoted_from(s, p + 2, acc.push(s[p + 1])) } else { None }
    } else {
        quoted_from(s, p + 1, acc.push(s[p]))
    }
}

/// A string literal's text from `p` (after the opening quote), given the text `acc`
/// read so far: the text and the position after the closing quote, or `None` when no
/// quote closes it.
pub open spec fn string_from(s: Seq<char>, p: int, acc: Seq<char>) -> Option<(Seq<char>, int)>
    decreases s.len() - p,
{
    if p < 0 || p >= s.len() {
        None
    } else if s[p] == '"' {
        if p + 1 < s.len() && s[p + 1] == '"' { string_from(s, p + 2, acc.push('"')) } else { Some((acc, p + 1)) }
    } else {
        string_from(s, p + 1, acc.push(s[p]))
    }
}

/// The value of a numeral's digits: 0 where they are none or too many for an `i64`.
pub open spec fn numeral_value(d: Seq<char>) -> i64 {
    if d.len() > 0 && digits_value(d) <= i64::MAX { digits_value(d) as i64 } else { 0 }
}

/// The value of hexadecimal digits: 0 where they are none or too many for a `u64`.
pub open spec fn hex_lit_value(d: Seq<char>) -> u64 {
    if d.len() > 0 && hex_value(d) <= u64::MAX { hex_value(d) as u64 } else { 0 }
}

/// The value of binary digits: 0 where they are none or too many for a `u64`.
pub open spec fn bin_lit_value(d: Seq<char>) -> u64 {
    if d.len() > 0 && bin_value(d) <= u64::MAX { bin_value(d) as u64 } else { 0 }
}

/// The next token at or after position `p`, with the position after it; `None` at the
/// end of the text.
pub open spec fn next_token(s: Seq<char>, p: int) -> Result<Option<(TokenModel, int)>, ErrorModel> {
    let q = skip_space(s, p);
    if q < 0 || q >= s.len() {
        Ok(None)
    } else {
        let c = s[q];
        if c == '(' {
            Ok(Some((TokenModel::LParen, q + 1)))
        } else if c == ')' {
            Ok(Some((TokenModel::RParen, q + 1)))
        } else if c == '|' {
            match quoted_from(s, q + 1, Seq::empty()) {
                Some((t, r)) => Ok(Some((TokenModel::Symbol(t), r))),
                None => Err(error_at(s, s.len() as int, "Unterminated quoted symbol"@)),
            }
        } else if c == '"' {
            match string_from(s, q + 1, Seq::empty()) {
                Some((t, r)) => Ok(Some((TokenModel::StringLit(t), r))),
                None => Err(error_at(s, s.len() as int, "Unterminated string literal"@)),
            }
        } else if c == ':' {
            let e = symbol_end(s, q + 1);
            Ok(Some((TokenModel::Keyword(s.subrange(q + 1, e)), e)))
        } else if c == '#' {
            if q + 1 < s.len() && (s[q + 1] == 'x' || s[q + 1] == 'X') {
                let e = hex_end(s, q + 2);
                let d = s.subrange(q + 2, e);
                Ok(Some((TokenModel::HexLit(hex_lit_value(d), ((d.len() * 4) % 0x1_0000_0000) as u32), e)))
            } else if q + 1 < s.len() && (s[q + 1] == 'b' || s[q + 1] == 'B') {
                let e = bin_end(s, q + 2);
                let d = s.subrange(q + 2, e);
                Ok(Some((TokenModel::BinLit(bin_lit_value(d), (d.len() % 0x1_0000_0000) as u32), e)))
            } else {
                Err(error_at(s, q, "Invalid # literal"@))
            }
        } else if is_digit(c) {
            let a = digits_end(s, q);
            if a < s.len() && s[a] == '.' {
                let b = digits_end(s, a + 1);
                Ok(Some((TokenModel::Decimal(DecimalLit {
                    whole: numeral_value(s.subrange(q, a)),
                    frac: numeral_value(s.subrange(a + 1, b)),
                    frac_digits: (b - a - 1) as u64,
                }), b)))
            } else {
                Ok(Some((TokenModel::Numeral(numeral_value(s.subrange(q, a))), a)))
            }
        } else {
            let e = symbol_end(s, q);
            if e == q {
                Err(error_at(s, q, "Unexpected character: "@ + seq![c]))
            } else {
                Ok(Some((TokenModel::Symbol(s.subrange(q, e)), e)))
            }
        }
    }
}

/// The tokens of `s` from position `p`, after the tokens `acc` already read.
pub open spec fn tokens_from(s: Seq<char>, p: int, acc: Seq<TokenModel>) -> Result<Seq<TokenModel>, ErrorModel>
    decreases s.len() - p,
{
    match next_token(s, p) {
        Err(e) => Err(e),
        Ok(None) => Ok(acc),
        Ok(Some((t, q))) => if p < q <= s.len() { tokens_from(s, q, acc.push(t)) } else { Ok(acc) },
    }
}

/// The tokens of `s`.
pub open spec fn tokenize(s: Seq<char>) -> Result<Seq<TokenModel>, ErrorModel> {
    tokens_from(s, 0, Seq::empty())
}

/// `comment_end` lies after its start and within the text.
proof fn lemma_comment_end(s: Seq<char>, p: int)
    requires
        0 <= p <= s.len(),
    ensures
        p <= comment_end(s, p) <= s.len(),
        p < s.len() ==> p < comment_end(s, p),
    decreases s.len() - p,
{
    if p < s.len() && s[p] != '\n' {
        lemma_comment_end(s, p + 1);
    }
}

/// `skip_space` moves forward within the text, to the end or to a character that is
/// neither white space nor a comment start.
proof fn lemma_skip_space(s: Seq<char>, p: int)
    requires
        0 <= p <= s.len(),
    ensures
        p <= skip_space(s, p) <= s.len(),
        skip_space(s, p) < s.len() ==> !is_white(s[skip_space(s, p)]) && s[skip_space(s, p)] != ';',
    decreases s.len() - p,
{
    if p < s.len() {
        if is_white(s[p]) {
            lemma_skip_space(s, p + 1);
        } else if s[p] == ';' {
            lemma_comment_end(s, p + 1);
            lemma_skip_space(s, comment_end(s, p + 1));
        }
    }
}

/// The runs end within the text, at or after their start.
proof fn lemma_ends(s: Seq<char>, p: int)
    requires
        0 <= p <= s.len(),
    ensures
        p <= symbol_end(s, p) <= s.len(),
        p <= digits_end(s, p) <= s.len(),
        p <= hex_end(s, p) <= s.len(),
        p <= bin_end(s, p) <= s.len(),
    decreases s.len() - p,
{
    if p < s.len() {
        lemma_ends(s, p + 1);
    }
}

/// A quoted symbol or string ends within the text, after its start.
proof fn lemma_quoted_end(s: Seq<char>, p: int, acc: Seq<char>)
    requires
        0 <= p,
    ensures
        quoted_from(s, p, acc) matches Some((t, r)) ==> p < r <= s.len(),
        string_from(s, p, acc) matches Some((t, r)) ==> p < r <= s.len(),
    decreases s.len() - p,
{
    if p < s.len() {
        if p + 1 < s.len() {
            lemma_quoted_end(s, p + 2, acc.push(s[p + 1]));
            lemma_quoted_end(s, p + 2, acc.push('"'));
        }
        lemma_quoted_end(s, p + 1, acc.push(s[p]));
    }
}

/// A token read at `p` ends after `p`, within the text.
proof fn lemma_next_token_progress(s: Seq<char>, p: int)
    requires
        0 <= p <= s.len(),
    ensures
        next_token(s, p) matches Ok(Some((t, q))) ==> p < q <= s.len(),
{
    lemma_skip_space(s, p);
    let q = skip_space(s, p);
    if q < s.len() {
        lemma_ends(s, q);
        lemma_ends(s, q + 1);
        lemma_quoted_end(s, q + 1, Seq::empty());
        if q + 2 <= s.len() {
            lemma_ends(s, q + 2);
        }
        let a = digits_end(s, q);
        if a < s.len() {
            lemma_ends(s, a + 1);
        }
    }
}

/// The text `t`.
fn text_of(t: &str) -> (r: String)
    ensures
        r@ == t@,
{
    t.to_owned()
}

/// The lexer: the text, the position reached, and that position's line and column.
pub struct Lexer {
    chars: Vec<char>,
    pos: usize,
    line: usize,
    column: usize,
}

impl Lexer {
    /// The text being read.
    pub closed spec fn text(&self) -> Seq<char> {
        self.chars@
    }

    /// The position reached.
    pub closed spec fn position(&self) -> int {
        self.pos as int
    }

    /// The position is within the text, and the line and column are those of the
    /// position.
    pub closed spec fn wf(&self) -> bool {
        &&& self.pos <= self.chars@.len() < usize::MAX
        &&& self.line == line_at(self.chars@, self.pos as int)
        &&& self.column == col_at(self.chars@, self.pos as int)
    }

    /// A lexer at the start of `input`.
    pub fn new(input: &str) -> (l: Lexer)
        requires
            input@.len() < usize::MAX,
        ensures
            l.wf(),
            l.text() == input@,
            l.position() == 0,
    {
        Lexer { chars: chars_of(input), pos: 0, line: 1, column: 1 }
    }

    /// Move past the current character.
    fn advance(&mut self)
        requires
            old(self).wf(),
            old(self).pos < old(self).chars@.len(),
        ensures
            final(self).wf(),
            final(self).chars@ == old(self).chars@,
            final(self).pos == old(self).pos + 1,
    {
        proof {
            lemma_line_col_bound(self.chars@, self.pos as int);
        }
        let c = self.chars[self.pos];
        self.pos = self.pos + 1;
        if c == '\n' {
            self.line = self.line + 1;
            self.column = 1;
        } else {
            self.column = self.column + 1;
        }
    }

    /// The error `message` at the current position.
    fn error(&self, message: String) -> (e: SmtLibError)
        requires
            self.wf(),
        ensures
            e@ == error_at(self.chars@, self.pos as int, message@),
    {
        SmtLibError { message, line: self.line, column: self.column }
    }

    /// Move past white space and comments.
    fn skip_whitespace(&mut self)
        requires
            old(self).wf(),
        ensures
            final(self).wf(),
            final(self).chars@ == old(self).chars@,
            final(self).pos == skip_space(old(self).chars@, old(self).pos as int),
    {
        let ghost s = self.chars@;
        let ghost p0 = self.pos as int;
        while self.pos < self.chars.len()
            invariant_except_break
                self.wf(),
                self.chars@ == s,
                s == old(self).chars@,
                p0 == old(self).pos,
                0 <= p0 <= self.pos,
                skip_space(s, self.pos as int) == skip_space(s, p0),
            ensures
                self.wf(),
                self.chars@ == s,
                self.pos == skip_space(s, p0),
            decreases s.len() - self.pos,
        {
            let c = self.chars[self.pos];
            if white(c) {
                self.advance();
            } else if c == ';' {
                let ghost q0 = self.pos as int;
                self.advance();
                while self.pos < self.chars.len()
                    invariant_except_break
                        self.wf(),
                        self.chars@ == s,
                        q0 < self.pos,
                        comment_end(s, self.pos as int) == comment_end(s, q0 + 1),
                    ensures
                        self.wf(),
                        self.chars@ == s,
                        self.pos == comment_end(s, q0 + 1),
                    decreases s.len() - self.pos,
                {
                    let d = self.chars[self.pos];
                    self.advance();
                    if d == '\n' {
                        break;
                    }
                }
                proof {
                    lemma_comment_end(s, q0 + 1);
                }
            } else {
                break;
            }
        }
    }

    /// Read a run of symbol characters.
    fn read_symbol(&mut self) -> (r: String)
        requires
            old(self).wf(),
        ensures
            final(self).wf(),
            final(self).chars@ == old(self).chars@,
            final(self).pos == symbol_end(old(self).chars@, old(self).pos as int),
            r@ == old(self).chars@.subrange(old(self).pos as int, final(self).pos as int),
    {
        let ghost s = self.chars@;
        let ghost p0 = self.pos as int;
        let mut r = String::new();
        while self.pos < self.chars.len() && symbol_char(self.chars[self.pos])
            invariant
                self.wf(),
                self.chars@ == s,
                s == old(self).chars@,
                p0 == old(self).pos,
                0 <= p0 <= self.pos,
                symbol_end(s, self.pos as int) == symbol_end(s, p0),
                r@ == s.subrange(p0, self.pos as int),
            decreases s.len() - self.pos,
        {
            let c = self.chars[self.pos];
            crate::parser::text::push_char(&mut r, c);
            self.advance();
            assert(s.subrange(p0, self.pos as int) =~= s.subrange(p0, self.pos - 1).push(c));
        }
        r
    }

    /// Read a run of decimal digits as a numeral.
    fn read_numeral(&mut self) -> (v: i64)
        requires
            old(self).wf(),
        ensures
            final(self).wf(),
            final(self).chars@ == old(self).chars@,
            final(self).pos == digits_end(old(self).chars@, old(self).pos as int),
            v == numeral_value(old(self).chars@.subrange(old(self).pos as int, final(self).pos as int)),
    {
        let ghost s = self.chars@;
        let ghost p0 = self.pos as int;
        let mut v: u128 = 0;
        let mut over = false;
        let mut count: usize = 0;
        while self.pos < self.chars.len() && '0' <= self.chars[self.pos] && self.chars[self.pos] <= '9'
            invariant
                self.wf(),
                self.chars@ == s,
                s == old(self).chars@,
                p0 == old(self).pos,
                0 <= p0 <= self.pos,
                count == self.pos - p0,
                digits_end(s, self.pos as int) == digits_end(s, p0),
                !over ==> v == digits_value(s.subrange(p0, self.pos as int)) && v <= i64::MAX,
                over ==> digits_value(s.subrange(p0, self.pos as int)) > i64::MAX,
            decreases s.len() - self.pos,
        {
            let c = self.chars[self.pos];
            let d = (c as u32 - 48) as u128;
            let ghost before = s.subrange(p0, self.pos as int);
            self.advance();
            count = count + 1;
            assert(s.subrange(p0, self.pos as int).drop_last() =~= before);
            assert(s.subrange(p0, self.pos as int).last() == c);
            if !over {
                let w = v * 10 + d;
                if w > 0x7fff_ffff_ffff_ffff {
                    over = true;
                } else {
                    v = w;
                }
            }
        }
        if count > 0 && !over {
            v as i64
        } else {
            0
        }
    }

    /// Read a run of hexadecimal digits: their value and width in bits.
    fn read_hex_digits(&mut self) -> (r: (u64, u32))
        requires
            old(self).wf(),
        ensures
            final(self).wf(),
            final(self).chars@ == old(self).chars@,
            final(self).pos == hex_end(old(self).chars@, old(self).pos as int),
            ({
                let d = old(self).chars@.subrange(old(self).pos as int, final(self).pos as int);
                r == (hex_lit_value(d), ((d.len() * 4) % 0x1_0000_0000) as u32)
            }),
    {
        let ghost s = self.chars@;
        let ghost p0 = self.pos as int;
        let mut v: u128 = 0;
        let mut over = false;
        let mut count: usize = 0;
        while self.pos < self.chars.len() && (('0' <= self.chars[self.pos] && self.chars[self.pos] <= '9')
            || ('a' <= self.chars[self.pos] && self.chars[self.pos] <= 'f') || ('A' <= self.chars[self.pos] && self.chars[self.pos] <= 'F'))
            invariant
                self.wf(),
                self.chars@ == s,
                s == old(self).chars@,
                p0 == old(self).pos,
                0 <= p0 <= self.pos,
                count == self.pos - p0,
                hex_end(s, self.pos as int) == hex_end(s, p0),
                !over ==> v == hex_value(s.subrange(p0, self.pos as int)) && v <= u64::MAX,
                over ==> hex_value(s.subrange(p0, self.pos as int)) > u64::MAX,
            decreases s.len() - self.pos,
        {
            let c = self.chars[self.pos];
            let d: u128 = if '0' <= c && c <= '9' {
                (c as u32 - 48) as u128
            } else if 'a' <= c && c <= 'f' {
                (c as u32 - 87) as u128
            } else {
                (c as u32 - 55) as u128
            };
            let ghost before = s.subrange(p0, self.pos as int);
            self.advance();
            count = count + 1;
            assert(s.subrange(p0, self.pos as int).drop_last() =~= before);
            assert(s.subrange(p0, self.pos as int).last() == c);
            if !over {
                let w = v * 16 + d;
                if w > 0xffff_ffff_ffff_ffff {
                    over = true;
                } else {
                    v = w;
                }
            }
        }
        let value: u64 = if count > 0 && !over { v as u64 } else { 0 };
        let width = ((count as u128 * 4) % 0x1_0000_0000) as u32;
        (value, width)
    }

    /// Read a run of binary digits: their value and width in bits.
    fn read_bin_digits(&mut self) -> (r: (u64, u32))
        requires
            old(self).wf(),
        ensures
            final(self).wf(),
            final(self).chars@ == old(self).chars@,
            final(self).pos == bin_end(old(self).chars@, old(self).pos as int),
            ({
                let d = old(self).chars@.subrange(old(self).pos as int, final(self).pos as int);
                r == (bin_lit_value(d), (d.len() % 0x1_0000_0000) as u32)
            }),
    {
        let ghost s = self.chars@;
        let ghost p0 = self.pos as int;
        let mut v: u128 = 0;
        let mut over = false;
        let mut count: usize = 0;
        while self.pos < self.chars.len() && (self.chars[self.pos] == '0' || self.chars[self.pos] == '1')
            invariant
                self.wf(),
                self.chars@ == s,
                s == old(self).chars@,
                p0 == old(self).pos,
                0 <= p0 <= self.pos,
                count == self.pos - p0,
                bin_end(s, self.pos as int) == bin_end(s, p0),
                !over ==> v == bin_value(s.subrange(p0, self.pos as int)) && v <= u64::MAX,
                over ==> bin_value(s.subrange(p0, self.pos as int)) > u64::MAX,
            decreases s.len() - self.pos,
        {
            let c = self.chars[self.pos];
            let d: u128 = if c == '1' { 1 } else { 0 };
            let ghost before = s.subrange(p0, self.pos as int);
            self.advance();
            count = count + 1;
            assert(s.subrange(p0, self.pos as int).drop_last() =~= before);
            assert(s.subrange(p0, self.pos as int).last() == c);
            if !over {
                let w = v * 2 + d;
                if w > 0xffff_ffff_ffff_ffff {
                    over = true;
                } else {
                    v = w;
                }
            }
        }
        let value: u64 = if count > 0 && !over { v as u64 } else { 0 };
        let width = ((count as u128) % 0x1_0000_0000) as u32;
        (value, width)
    }

    /// Read a quoted symbol; the current character is its opening bar.
    fn read_quoted_symbol(&mut self) -> (r: Result<String, SmtLibError>)
        requires
            old(self).wf(),
            old(self).pos < old(self).chars@.len(),
        ensures
            final(self).wf(),
            final(self).chars@ == old(self).chars@,
            match quoted_from(old(self).chars@, old(self).pos + 1, Seq::empty()) {
                Some((t, q)) => r matches Ok(x) && x@ == t && final(self).pos == q,
                None => r matches Err(e) && e@ == error_at(old(self).chars@, old(self).chars@.len() as int, "Unterminated quoted symbol"@),
            },
    {
        let ghost s = self.chars@;
        let ghost p0 = self.pos as int;
        self.advance();
        let mut acc = String::new();
        while self.pos < self.chars.len()
            invariant
                self.wf(),
                self.chars@ == s,
                s == old(self).chars@,
                p0 == old(self).pos,
                0 <= p0 < self.pos,
                quoted_from(s, self.pos as int, acc@) == quoted_from(s, p0 + 1, Seq::empty()),
            decreases s.len() - self.pos,
        {
            let c = self.chars[self.pos];
            if c == '|' {
                self.advance();
                return Ok(acc);
            } else if c == '\\' {
                self.advance();
                if self.pos < self.chars.len() {
                    let e = self.chars[self.pos];
                    self.advance();
                    crate::parser::text::push_char(&mut acc, e);
                }
            } else {
                crate::parser::text::push_char(&mut acc, c);
                self.advance();
            }
        }
        Err(self.error(text_of("Unterminated quoted symbol")))
    }

    /// Read a string literal; the current character is its opening quote.
    fn read_string(&mut self) -> (r: Result<String, SmtLibError>)
        requires
            old(self).wf(),
            old(self).pos < old(self).chars@.len(),
        ensures
            final(self).wf(),
            final(self).chars@ == old(self).chars@,
            match string_from(old(self).chars@, old(self).pos + 1, Seq::empty()) {
                Some((t, q)) => r matches Ok(x) && x@ == t && final(self).pos == q,
                None => r matches Err(e) && e@ == error_at(old(self).chars@, old(self).chars@.len() as int, "Unterminated string literal"@),
            },
    {
        let ghost s = self.chars@;
        let ghost p0 = self.pos as int;
        self.advance();
        let mut acc = String::new();
        while self.pos < self.chars.len()
            invariant
                self.wf(),
                self.chars@ == s,
                s == old(self).chars@,
                p0 == old(self).pos,
                0 <= p0 < self.pos,
                string_from(s, self.pos as int, acc@) == string_from(s, p0 + 1, Seq::empty()),
            decreases s.len() - self.pos,
        {
            let c = self.chars[self.pos];
            if c == '"' {
                self.advance();
                if self.pos < self.chars.len() && self.chars[self.pos] == '"' {
                    crate::parser::text::push_char(&mut acc, '"');
                    self.advance();
                } else {
                    return Ok(acc);
                }
            } else {
                crate::parser::text::push_char(&mut acc, c);
                self.advance();
            }
        }
        Err(self.error(text_of("Unterminated string literal")))
    }
}

impl Lexer {
    /// The next token, or `None` at the end of the text.
    pub fn next_token(&mut self) -> (r: Result<Option<Token>, SmtLibError>)
        requires
            old(self).wf(),
        ensures
            final(self).wf(),
            final(self).text() == old(self).text(),
            match next_token(old(self).text(), old(self).position()) {
                Ok(None) => r matches Ok(None),
                Ok(Some((t, q))) => r matches Ok(Some(x)) && x@ == t && final(self).position() == q,
                Err(e) => r matches Err(x) && x@ == e,
            },
    {
        let ghost s = self.chars@;
        let ghost p0 = self.pos as int;
        self.skip_whitespace();
        proof {
            lemma_skip_space(s, p0);
        }
        if self.pos >= self.chars.len() {
            return Ok(None);
        }
        let c = self.chars[self.pos];
        if c == '(' {
            self.advance();
            Ok(Some(Token::LParen))
        } else if c == ')' {
            self.advance();
            Ok(Some(Token::RParen))
        } else if c == '|' {
            match self.read_quoted_symbol() {
                Ok(x) => Ok(Some(Token::Symbol(x))),
                Err(e) => Err(e),
            }
        } else if c == '"' {
            match self.read_string() {
                Ok(x) => Ok(Some(Token::StringLit(x))),
                Err(e) => Err(e),
            }
        } else if c == ':' {
            self.advance();
            let x = self.read_symbol();
            Ok(Some(Token::Keyword(x)))
        } else if c == '#' {
            let q = self.pos;
            if q + 1 < self.chars.len() && (self.chars[q + 1] == 'x' || self.chars[q + 1] == 'X') {
                self.advance();
                self.advance();
                let (v, w) = self.read_hex_digits();
                Ok(Some(Token::HexLit(v, w)))
            } else if q + 1 < self.chars.len() && (self.chars[q + 1] == 'b' || self.chars[q + 1] == 'B') {
                self.advance();
                self.advance();
                let (v, w) = self.read_bin_digits();
                Ok(Some(Token::BinLit(v, w)))
            } else {
                Err(self.error(text_of("Invalid # literal")))
            }
        } else if '0' <= c && c <= '9' {
            let n = self.read_numeral();
            if self.pos < self.chars.len() && self.chars[self.pos] == '.' {
                let a = self.pos;
                self.advance();
                let frac = self.read_numeral();
                proof {
                    lemma_ends(s, a + 1);
                }
                let b = self.pos;
                Ok(Some(Token::Decimal(DecimalLit { whole: n, frac, frac_digits: (b - a - 1) as u64 })))
            } else {
                Ok(Some(Token::Numeral(n)))
            }
        } else {
            let q = self.pos;
            let sym = self.read_symbol();
            if self.pos == q {
                let mut m = text_of("Unexpected character: ");
                crate::parser::text::push_char(&mut m, c);
                assert(m@ =~= "Unexpected character: "@ + seq![c]);
                Err(self.error(m))
            } else {
                Ok(Some(Token::Symbol(sym)))
            }
        }
    }

    /// All the tokens from the current position.
    pub fn tokenize(&mut self) -> (r: Result<Vec<Token>, SmtLibError>)
        requires
            old(self).wf(),
        ensures
            match tokens_from(old(self).text(), old(self).position(), Seq::empty()) {
                Ok(ts) => r matches Ok(v) && token_models(v@) == ts,
                Err(e) => r matches Err(x) && x@ == e,
            },
    {
        let ghost s = self.chars@;
        let ghost p0 = self.pos as int;
        let mut tokens: Vec<Token> = Vec::new();
        assert(token_models(tokens@) =~= Seq::<TokenModel>::empty());
        loop
            invariant
                self.wf(),
                self.chars@ == s,
                s == old(self).chars@,
                p0 == old(self).pos,
                tokens_from(s, self.pos as int, token_models(tokens@)) == tokens_from(s, p0, Seq::empty()),
            decreases s.len() - self.pos,
        {
            let ghost p = self.pos as int;
            let ghost before = token_models(tokens@);
            proof {
                lemma_next_token_progress(s, p);
            }
            match self.next_token() {
                Err(e) => {
                    return Err(e);
                },
                Ok(None) => {
                    return Ok(tokens);
                },
                Ok(Some(t)) => {
                    tokens.push(t);
                    assert(token_models(tokens@) =~= before.push(t@));
                },
            }
        }
    }
}

/// The tokens of `input`.
pub fn tokenize_text(input: &str) -> (r: Result<Vec<Token>, SmtLibError>)
    requires
        input@.len() < usize::MAX,
    ensures
        match tokenize(input@) {
            Ok(ts) => r matches Ok(v) && token_models(v@) == ts,
            Err(e) => r matches Err(x) && x@ == e,
        },
{
    let mut lexer = Lexer::new(input);
    lexer.tokenize()
}

} // verus!
