use vstd::prelude::*;
use crate::parser::is_digit;
use crate::error::CompileError;
use crate::symbols::string_eq;

verus! {

/// The kinds of token.
#[derive(Clone, Copy, PartialEq, Eq, Structural, Debug)]
pub enum Tokentype {
    INT,
    IF,
    ELSE,
    IDENTIFIER,
    NUMBER,
    PLUS,
    MINUS,
    /// `=`
    EQ,
    /// `==`
    EQUAL,
    LPAREN,
    RPAREN,
    LBRACE,
    RBRACE,
    SEMICOLON,
    END,
}

/// A token: its kind and the text it was read from.
#[derive(Clone, PartialEq, Debug)]
pub struct Token {
    pub typ: Tokentype,
    pub value: String,
}

/// A token as plain values: its kind and its text.
pub open spec fn token_view(t: Token) -> (Tokentype, Seq<char>) {
    (t.typ, t.value@)
}

pub open spec fn tokens_view(ts: Seq<Token>) -> Seq<(Tokentype, Seq<char>)> {
    ts.map_values(|t: Token| token_view(t))
}

pub open spec fn is_space(c: char) -> bool {
    c == ' ' || c == '\t' || c == '\n' || c == '\r' || c == '\x0B' || c == '\x0C'
}

pub open spec fn is_letter(c: char) -> bool {
    ('a' <= c <= 'z') || ('A' <= c <= 'Z')
}

pub open spec fn is_alnum(c: char) -> bool {
    is_letter(c) || is_digit(c)
}

/// The end of the letters and digits from `i` on.
pub open spec fn word_end(s: Seq<char>, i: int) -> int
    decreases s.len() - i,
{
    if 0 <= i < s.len() && is_alnum(s[i]) {
        word_end(s, i + 1)
    } else {
        i
    }
}

/// The end of the digits from `i` on.
pub open spec fn number_end(s: Seq<char>, i: int) -> int
    decreases s.len() - i,
{
    if 0 <= i < s.len() && is_digit(s[i]) {
        number_end(s, i + 1)
    } else {
        i
    }
}

/// The kind of a word: a keyword or an identifier.
pub open spec fn word_kind(w: Seq<char>) -> Tokentype {
    if w == seq!['i', 'n', 't'] {
        Tokentype::INT
    } else if w == seq!['i', 'f'] {
        Tokentype::IF
    } else if w == seq!['e', 'l', 's', 'e'] {
        Tokentype::ELSE
    } else {
        Tokentype::IDENTIFIER
    }
}

/// The kind of a one-character token other than `=`.
pub open spec fn punct_kind(c: char) -> Option<Tokentype> {
    if c == '+' {
        Some(Tokentype::PLUS)
    } else if c == '-' {
        Some(Tokentype::MINUS)
    } else if c == '(' {
        Some(Tokentype::LPAREN)
    } else if c == ')' {
        Some(Tokentype::RPAREN)
    } else if c == '{' {
        Some(Tokentype::LBRACE)
    } else if c == '}' {
        Some(Tokentype::RBRACE)
    } else if c == ';' {
        Some(Tokentype::SEMICOLON)
    } else {
        None
    }
}

/// `tok` followed by the tokens of `rest`.
pub open spec fn cons_tok(
    tok: (Tokentype, Seq<char>),
    rest: Result<Seq<(Tokentype, Seq<char>)>, CompileError>,
) -> Result<Seq<(Tokentype, Seq<char>)>, CompileError> {
    match rest {
        Ok(ts) => Ok(seq![tok] + ts),
        Err(e) => Err(e),
    }
}

/// The tokens of `s[i..]`, ending in `END`, or the position of the first
/// character that starts no token. Words and numbers are as long as possible.
pub open spec fn lex_from(s: Seq<char>, i: int) -> Result<Seq<(Tokentype, Seq<char>)>, CompileError>
    decreases s.len() - i,
{
    if i < 0 || i >= s.len() {
        Ok(seq![(Tokentype::END, Seq::<char>::empty())])
    } else {
        let c = s[i];
        if is_space(c) {
            lex_from(s, i + 1)
        } else if is_letter(c) || is_digit(c) {
            let e = if is_letter(c) {
                word_end(s, i + 1)
            } else {
                number_end(s, i + 1)
            };
            let w = s.subrange(i, e);
            if i < e <= s.len() {
                cons_tok((if is_letter(c) { word_kind(w) } else { Tokentype::NUMBER }, w), lex_from(s, e))
            } else {
                Err(CompileError::LexError(i as usize))
            }
        } else if c == '=' {
            if i + 1 < s.len() && s[i + 1] == '=' {
                cons_tok((Tokentype::EQUAL, s.subrange(i, i + 2)), lex_from(s, i + 2))
            } else {
                cons_tok((Tokentype::EQ, s.subrange(i, i + 1)), lex_from(s, i + 1))
            }
        } else {
            match punct_kind(c) {
                Some(t) => cons_tok((t, s.subrange(i, i + 1)), lex_from(s, i + 1)),
                None => Err(CompileError::LexError(i as usize)),
            }
        }
    }
}

/// The tokens of a source text.
pub open spec fn lex(s: Seq<char>) -> Result<Seq<(Tokentype, Seq<char>)>, CompileError> {
    lex_from(s, 0)
}

proof fn lemma_word_end(s: Seq<char>, i: int)
    requires
        0 <= i <= s.len(),
    ensures
        i <= word_end(s, i) <= s.len(),
    decreases s.len() - i,
{
    if i < s.len() && is_alnum(s[i]) {
        lemma_word_end(s, i + 1);
    }
}

proof fn lemma_number_end(s: Seq<char>, i: int)
    requires
        0 <= i <= s.len(),
    ensures
        i <= number_end(s, i) <= s.len(),
    decreases s.len() - i,
{
    if i < s.len() && is_digit(s[i]) {
        lemma_number_end(s, i + 1);
    }
}

/// The tokens `p` followed by those of `rest`.
pub open spec fn then_toks(
    p: Seq<(Tokentype, Seq<char>)>,
    rest: Result<Seq<(Tokentype, Seq<char>)>, CompileError>,
) -> Result<Seq<(Tokentype, Seq<char>)>, CompileError> {
    match rest {
        Ok(ts) => Ok(p + ts),
        Err(e) => Err(e),
    }
}

proof fn lemma_then_toks(
    p: Seq<(Tokentype, Seq<char>)>,
    t: (Tokentype, Seq<char>),
    r: Result<Seq<(Tokentype, Seq<char>)>, CompileError>,
)
    ensures
        then_toks(p, cons_tok(t, r)) == then_toks(p.push(t), r),
{
    if let Ok(ts) = r {
        assert(p + (seq![t] + ts) =~= p.push(t) + ts);
    }
}

proof fn lemma_tokens_view_push(ts: Seq<Token>, t: Token)
    ensures
        tokens_view(ts.push(t)) == tokens_view(ts).push(token_view(t)),
{
    assert(tokens_view(ts.push(t)) =~= tokens_view(ts).push(token_view(t)));
}

/// The end of the letters and digits (`only_digits` false), or of the
/// digits, from `i` on.
fn scan_run(s: &str, i: usize, only_digits: bool) -> (e: usize)
    requires
        i <= s@.len(),
    ensures
        !only_digits ==> e == word_end(s@, i as int),
        only_digits ==> e == number_end(s@, i as int),
{
    let n = s.unicode_len();
    let mut e = i;
    while e < n
        invariant
            n == s@.len(),
            i <= e <= n,
            !only_digits ==> word_end(s@, i as int) == word_end(s@, e as int),
            only_digits ==> number_end(s@, i as int) == number_end(s@, e as int),
        decreases n - e,
    {
        let c = s.get_char(e);
        let ok = ('0' <= c && c <= '9') || (!only_digits && (('a' <= c && c <= 'z') || ('A' <= c && c <= 'Z')));
        if !ok {
            return e;
        }
        e = e + 1;
    }
    e
}

/// The text `s[from..to]` as a new string.
fn text(s: &str, from: usize, to: usize) -> (r: String)
    requires
        from <= to <= s@.len(),
    ensures
        r@ == s@.subrange(from as int, to as int),
{
    s.substring_char(from, to).to_owned()
}

/// The kind of a scanned word.
fn word_type(w: &str) -> (r: Tokentype)
    ensures
        r == word_kind(w@),
{
    proof {
        reveal_strlit("int");
        reveal_strlit("if");
        reveal_strlit("else");
        assert("int"@ =~= seq!['i', 'n', 't']);
        assert("if"@ =~= seq!['i', 'f']);
        assert("else"@ =~= seq!['e', 'l', 's', 'e']);
    }
    if string_eq(w, "int") {
        Tokentype::INT
    } else if string_eq(w, "if") {
        Tokentype::IF
    } else if string_eq(w, "else") {
        Tokentype::ELSE
    } else {
        Tokentype::IDENTIFIER
    }
}

fn punct_type(c: char) -> (r: Option<Tokentype>)
    ensures
        r == punct_kind(c),
{
    match c {
        '+' => Some(Tokentype::PLUS),
        '-' => Some(Tokentype::MINUS),
        '(' => Some(Tokentype::LPAREN),
        ')' => Some(Tokentype::RPAREN),
        '{' => Some(Tokentype::LBRACE),
        '}' => Some(Tokentype::RBRACE),
        ';' => Some(Tokentype::SEMICOLON),
        _ => None,
    }
}

/// Splits a source text into tokens, ending with `END`; `LexError` at the
/// first character that starts no token.
pub fn lex_text(s: &str) -> (r: Result<Vec<Token>, CompileError>)
    ensures
        match lex(s@) {
            Ok(ts) => r matches Ok(v) && tokens_view(v@) == ts,
            Err(e) => r == Err::<Vec<Token>, CompileError>(e),
        },
{
    let n = s.unicode_len();
    let mut tokens: Vec<Token> = Vec::new();
    let mut i: usize = 0;
    let mut failed: Option<usize> = None;
    assert(tokens_view(tokens@) =~= Seq::<(Tokentype, Seq<char>)>::empty());
    assert(then_toks(Seq::<(Tokentype, Seq<char>)>::empty(), lex(s@)) =~= lex(s@)) by {
        if let Ok(ts) = lex(s@) {
            assert(Seq::<(Tokentype, Seq<char>)>::empty() + ts =~= ts);
        }
    }
    while i < n && failed.is_none()
        invariant
            n == s@.len(),
            i <= n,
            failed is None ==> then_toks(tokens_view(tokens@), lex_from(s@, i as int)) == lex(s@),
            failed matches Some(k) ==> lex(s@) == Err::<Seq<(Tokentype, Seq<char>)>, CompileError>(
                CompileError::LexError(k),
            ),
        decreases n - i + if failed is None { 1int } else { 0 },
    {
        let ghost before = tokens@;
        let c = s.get_char(i);
        if c == ' ' || c == '\t' || c == '\n' || c == '\r' || c == '\x0B' || c == '\x0C' {
            i = i + 1;
        } else {
            let mut e: usize = i + 1;
            let mut typ = Tokentype::EQ;
            if ('a' <= c && c <= 'z') || ('A' <= c && c <= 'Z') || ('0' <= c && c <= '9') {
                let letter = !('0' <= c && c <= '9');
                e = scan_run(s, i + 1, !letter);
                proof {
                    lemma_word_end(s@, i + 1);
                    lemma_number_end(s@, i + 1);
                }
                if letter {
                    typ = word_type(s.substring_char(i, e));
                } else {
                    typ = Tokentype::NUMBER;
                }
            } else if c == '=' {
                if i + 1 < n && s.get_char(i + 1) == '=' {
                    typ = Tokentype::EQUAL;
                    e = i + 2;
                }
            } else {
                match punct_type(c) {
                    Some(t) => typ = t,
                    None => failed = Some(i),
                }
            }
            if failed.is_none() {
                let tok = Token { typ, value: text(s, i, e) };
                tokens.push(tok);
                proof {
                    lemma_then_toks(tokens_view(before), token_view(tok), lex_from(s@, e as int));
                    lemma_tokens_view_push(before, tok);
                }
                i = e;
            }
        }
    }
    match failed {
        Some(k) => Err(CompileError::LexError(k)),
        None => {
            let end = Token { typ: Tokentype::END, value: String::new() };
            tokens.push(end);
            proof {
                lemma_tokens_view_push(tokens@.drop_last(), end);
                assert(tokens@.drop_last() =~= tokens@.subrange(0, tokens@.len() - 1));
            }
            Ok(tokens)
        },
    }
}

/// A lexer over one source text.
pub struct Lexer {
    source: String,
    pos: usize,
}

impl Lexer {
    pub fn new(source: String) -> (r: Lexer)
        ensures
            r.source() == source@,
    {
        Lexer { source, pos: 0 }
    }

    /// The text being read.
    pub closed spec fn source(&self) -> Seq<char> {
        self.source@
    }

    /// The tokens of the whole source, ending with `END`.
    pub fn tokenize(&mut self) -> (r: Result<Vec<Token>, CompileError>)
        ensures
            final(self).source() == old(self).source(),
            match lex(old(self).source()) {
                Ok(ts) => r matches Ok(v) && tokens_view(v@) == ts,
                Err(e) => r == Err::<Vec<Token>, CompileError>(e),
            },
    {
        let r = lex_text(self.source.as_str());
        self.pos = self.source.unicode_len();
        r
    }
}

} // verus!
