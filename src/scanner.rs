//! The scanner: source text to a sequence of tokens ending in `Eof`.
use crate::error::{Error, Result};
use crate::number::parse_decimal;
use crate::token::{
    alphanumeric, chars_of, is_alphanumeric, is_decimal_digit, is_digit, is_letter, is_numeral,
    is_word, kind_agrees, letter,
    token_agrees, word_kind, Token, TokenKind, TokenType,
};
use vstd::prelude::*;

verus! {

/// Scans one source text, left to right, once.
pub struct Scanner {
    source: String,
    chars: Vec<char>,
    tokens: Vec<Token>,
    start: usize,
    current: usize,
    line: usize,
    /// Where each token of `tokens` starts in `chars`.
    starts: Ghost<Seq<int>>,
}

/// What a successful scan yields: tokens that agree with their lexemes, and one
/// `Eof` at the end.
pub open spec fn scanned(tokens: Seq<Token>) -> bool {
    &&& tokens.len() > 0
    &&& tokens.last().token_type is Eof
    &&& forall|i: int| 0 <= i < tokens.len() ==> token_agrees(#[trigger] tokens[i])
    &&& forall|i: int| 0 <= i < tokens.len() - 1 ==> !(#[trigger] tokens[i].token_type is Eof)
}

/// Characters skipped between tokens.
pub open spec fn is_space(c: char) -> bool {
    c == ' ' || c == '\r' || c == '\t' || c == '\n'
}

/// The number of line breaks in `s`.
pub open spec fn newlines(s: Seq<char>) -> nat
    decreases s.len(),
{
    if s.len() == 0 {
        0
    } else {
        newlines(s.drop_last()) + if s.last() == '\n' {
            1nat
        } else {
            0nat
        }
    }
}

/// The line that position `p` of `chars` is on, counting from 1 and stopping
/// at the largest `usize`.
pub open spec fn line_at(chars: Seq<char>, p: int) -> nat {
    let n = 1 + newlines(chars.subrange(0, p));
    if n < usize::MAX {
        n
    } else {
        usize::MAX as nat
    }
}

proof fn lemma_line_step(chars: Seq<char>, p: int)
    requires
        0 <= p < chars.len(),
    ensures
        line_at(chars, p + 1) == if chars[p] == '\n' {
            if line_at(chars, p) < usize::MAX {
                line_at(chars, p) + 1
            } else {
                line_at(chars, p)
            }
        } else {
            line_at(chars, p)
        },
{
    assert(chars.subrange(0, p + 1).drop_last() =~= chars.subrange(0, p));
}

/// A character that some token, whitespace or a string can hold.
pub open spec fn is_valid_char(c: char) -> bool {
    ||| c == '(' || c == ')' || c == '{' || c == '}' || c == ',' || c == '.' || c == '-' || c == '+'
    ||| c == ';' || c == '*' || c == '!' || c == '=' || c == '<' || c == '>' || c == '/' || c == '"'
    ||| is_space(c)
    ||| is_digit(c)
    ||| is_letter(c)
}

/// Whether `g` is only whitespace and line comments: `None` where it is not;
/// `Some(true)` where it ends inside a comment, `Some(false)` where it does not.
pub open spec fn gap(g: Seq<char>) -> Option<bool>
    decreases g.len(), 0int,
{
    if g.len() == 0 {
        Some(false)
    } else if is_space(g[0]) {
        gap(g.subrange(1, g.len() as int))
    } else if g.len() >= 2 && g[0] == '/' && g[1] == '/' {
        comment(g.subrange(2, g.len() as int))
    } else {
        None
    }
}

/// The rest of a line comment, then whatever follows the line's end.
pub open spec fn comment(g: Seq<char>) -> Option<bool>
    decreases g.len(), 1int,
{
    if g.len() == 0 {
        Some(true)
    } else if g[0] == '\n' {
        gap(g)
    } else {
        comment(g.subrange(1, g.len() as int))
    }
}

/// A token of kind `k` and lexeme `text` is the longest that its first character
/// could start: `rest`, the text after it, could not have extended it.
pub open spec fn ends_cleanly(k: TokenType, text: Seq<char>, rest: Seq<char>) -> bool {
    match k.spec_kind() {
        TokenKind::Bang | TokenKind::Equal | TokenKind::Less | TokenKind::Greater => !(rest.len() > 0
            && rest[0] == '='),
        TokenKind::Slash => !(rest.len() > 0 && rest[0] == '/'),
        TokenKind::Number => {
            &&& !(rest.len() > 0 && is_digit(rest[0]))
            &&& !text.contains('.') ==> !(rest.len() > 1 && rest[0] == '.' && is_digit(rest[1]))
        },
        TokenKind::Identifier | TokenKind::And | TokenKind::Class | TokenKind::Else | TokenKind::False
        | TokenKind::Fun | TokenKind::For | TokenKind::If | TokenKind::Nil | TokenKind::Or
        | TokenKind::Print | TokenKind::Return | TokenKind::Super | TokenKind::This | TokenKind::True
        | TokenKind::Var | TokenKind::While => !(rest.len() > 0 && alphanumeric(rest[0])),
        _ => true,
    }
}

/// Where token `i` ends, when it starts at `starts[i]`.
pub open spec fn token_end(tokens: Seq<Token>, starts: Seq<int>, i: int) -> int {
    starts[i] + tokens[i].text@.len()
}

/// Where the token before `i` ends; 0 for the first.
pub open spec fn prev_end(tokens: Seq<Token>, starts: Seq<int>, i: int) -> int {
    if i == 0 {
        0
    } else {
        token_end(tokens, starts, i - 1)
    }
}

/// Token `i` is the text of `chars` at `starts[i]`, has only whitespace and
/// comments before it back to the previous token, and is as long as it can be.
pub open spec fn placed_at(tokens: Seq<Token>, starts: Seq<int>, chars: Seq<char>, i: int) -> bool {
    &&& prev_end(tokens, starts, i) <= starts[i]
    &&& token_end(tokens, starts, i) <= chars.len()
    &&& tokens[i].text@ == chars.subrange(starts[i], token_end(tokens, starts, i))
    &&& tokens[i].line == line_at(chars, token_end(tokens, starts, i))
    &&& gap(chars.subrange(prev_end(tokens, starts, i), starts[i])) == Some(false)
    &&& ends_cleanly(
        tokens[i].token_type,
        tokens[i].text@,
        chars.subrange(token_end(tokens, starts, i), chars.len() as int),
    )
}

pub open spec fn placed(tokens: Seq<Token>, starts: Seq<int>, chars: Seq<char>) -> bool {
    &&& starts.len() == tokens.len()
    &&& forall|i: int| 0 <= i < tokens.len() ==> #[trigger] placed_at(tokens, starts, chars, i)
}

/// `chars` is the tokens, in order from `starts`, with whitespace and comments
/// between them and after the last.
pub open spec fn lays_out(tokens: Seq<Token>, starts: Seq<int>, chars: Seq<char>) -> bool {
    &&& placed(tokens, starts, chars)
    &&& prev_end(tokens, starts, tokens.len() as int) <= chars.len()
    &&& gap(chars.subrange(prev_end(tokens, starts, tokens.len() as int), chars.len() as int)) is Some
}

/// Scanning stops at position `p`: the text before it lays out as `tokens`
/// from `starts` with only whitespace and comments after the last, and at `p`,
/// where a token would start, stands a character that no token can begin or a
/// quote that is never closed.
pub open spec fn fails_at(chars: Seq<char>, tokens: Seq<Token>, starts: Seq<int>, p: int) -> bool {
    &&& placed(tokens, starts, chars)
    &&& 0 <= prev_end(tokens, starts, tokens.len() as int) <= p < chars.len()
    &&& gap(chars.subrange(prev_end(tokens, starts, tokens.len() as int), p)) == Some(false)
    &&& {
        ||| !is_valid_char(chars[p])
        ||| (chars[p] == '"' && forall|j: int| p < j < chars.len() ==> chars[j] != '"')
    }
}

/// What can make a scan fail; a text without it scans.
pub open spec fn scan_fails_on(chars: Seq<char>) -> bool {
    exists|tokens: Seq<Token>, starts: Seq<int>, p: int| #[trigger] fails_at(chars, tokens, starts, p)
}

proof fn lemma_gap_push(g: Seq<char>, c: char)
    ensures
        gap(g) == Some(false) && is_space(c) ==> gap(g.push(c)) == Some(false),
        gap(g) == Some(true) ==> gap(g.push(c)) == Some(c != '\n'),
    decreases g.len(), 0int,
{
    let h = g.push(c);
    if g.len() > 0 {
        assert(h[0] == g[0]);
        if is_space(g[0]) {
            assert(h.subrange(1, h.len() as int) =~= g.subrange(1, g.len() as int).push(c));
            lemma_gap_push(g.subrange(1, g.len() as int), c);
        } else if g.len() >= 2 && g[0] == '/' && g[1] == '/' {
            assert(h[1] == g[1]);
            assert(h.subrange(2, h.len() as int) =~= g.subrange(2, g.len() as int).push(c));
            lemma_comment_push(g.subrange(2, g.len() as int), c);
        }
    } else {
        assert(h[0] == c);
        assert(h.subrange(1, h.len() as int) =~= Seq::<char>::empty());
        assert(gap(h.subrange(1, h.len() as int)) == Some(false));
    }
}

proof fn lemma_comment_push(g: Seq<char>, c: char)
    ensures
        comment(g) == Some(false) && is_space(c) ==> comment(g.push(c)) == Some(false),
        comment(g) == Some(true) ==> comment(g.push(c)) == Some(c != '\n'),
    decreases g.len(), 1int,
{
    let h = g.push(c);
    if g.len() > 0 {
        assert(h[0] == g[0]);
        if g[0] == '\n' {
            lemma_gap_push(g, c);
        } else {
            assert(h.subrange(1, h.len() as int) =~= g.subrange(1, g.len() as int).push(c));
            lemma_comment_push(g.subrange(1, g.len() as int), c);
        }
    } else {
        assert(h[0] == c);
        assert(h.subrange(1, h.len() as int) =~= Seq::<char>::empty());
        if c == '\n' {
            assert(gap(h.subrange(1, h.len() as int)) == Some(false));
            assert(gap(h) == Some(false));
        } else {
            assert(comment(h.subrange(1, h.len() as int)) == Some(true));
        }
    }
}

proof fn lemma_gap_slashes(g: Seq<char>)
    ensures
        gap(g) == Some(false) ==> gap(g + seq!['/', '/']) == Some(true),
    decreases g.len(), 0int,
{
    let h = g + seq!['/', '/'];
    if g.len() > 0 {
        assert(h[0] == g[0]);
        if is_space(g[0]) {
            assert(h.subrange(1, h.len() as int) =~= g.subrange(1, g.len() as int) + seq!['/', '/']);
            lemma_gap_slashes(g.subrange(1, g.len() as int));
        } else if g.len() >= 2 && g[0] == '/' && g[1] == '/' {
            assert(h[1] == g[1]);
            assert(h.subrange(2, h.len() as int) =~= g.subrange(2, g.len() as int) + seq!['/', '/']);
            lemma_comment_slashes(g.subrange(2, g.len() as int));
        }
    } else {
        assert(h[0] == '/' && h[1] == '/');
        assert(h.subrange(2, h.len() as int) =~= Seq::<char>::empty());
        assert(comment(h.subrange(2, h.len() as int)) == Some(true));
    }
}

proof fn lemma_comment_slashes(g: Seq<char>)
    ensures
        comment(g) == Some(false) ==> comment(g + seq!['/', '/']) == Some(true),
    decreases g.len(), 1int,
{
    let h = g + seq!['/', '/'];
    if g.len() > 0 {
        assert(h[0] == g[0]);
        if g[0] == '\n' {
            lemma_gap_slashes(g);
        } else {
            assert(h.subrange(1, h.len() as int) =~= g.subrange(1, g.len() as int) + seq!['/', '/']);
            lemma_comment_slashes(g.subrange(1, g.len() as int));
        }
    }
}

impl Scanner {
    pub closed spec fn wf(&self) -> bool {
        &&& self.chars@ == self.source@
        &&& self.start <= self.current <= self.chars.len()
        &&& self.line >= 1
        &&& forall|i: int| 0 <= i < self.tokens.len() ==> token_agrees(#[trigger] self.tokens@[i])
        &&& forall|i: int| 0 <= i < self.tokens.len() ==> !(#[trigger] self.tokens@[i].token_type is Eof)
    }

    /// The text being scanned.
    pub closed spec fn source_text(&self) -> Seq<char> {
        self.source@
    }

    /// Where the last token so far ends.
    pub closed spec fn last_end(&self) -> int {
        prev_end(self.tokens@, self.starts@, self.tokens@.len() as int)
    }

    /// The tokens so far are placed, and a token may start at `start`.
    pub closed spec fn ready(&self) -> bool {
        &&& placed(self.tokens@, self.starts@, self.chars@)
        &&& self.line == line_at(self.chars@, self.current as int)
        &&& 0 <= self.last_end()
        &&& self.last_end() <= self.start
        &&& gap(self.chars@.subrange(self.last_end(), self.start as int)) == Some(false)
    }

    /// Between tokens: what follows the last token up to `current` is skipped
    /// text; a comment it ends in runs on to a line end.
    pub closed spec fn laid(&self) -> bool {
        &&& placed(self.tokens@, self.starts@, self.chars@)
        &&& self.line == line_at(self.chars@, self.current as int)
        &&& 0 <= self.last_end()
        &&& self.last_end() <= self.current
        &&& gap(self.chars@.subrange(self.last_end(), self.current as int)) matches Some(open) && (open
            ==> self.current == self.chars.len() || self.chars@[self.current as int] == '\n')
    }

    /// A scanner positioned at the start of `source`, on line 1.
    pub fn new(source: String) -> (r: Scanner)
        ensures
            r.wf(),
            r.laid(),
            r.source_text() == source@,
    {
        let chars = chars_of(source.as_str());
        assert(chars@.subrange(0, 0) =~= Seq::<char>::empty());
        assert(line_at(chars@, 0) == 1);
        Scanner {
            source,
            chars,
            tokens: Vec::new(),
            start: 0,
            current: 0,
            line: 1,
            starts: Ghost(Seq::empty()),
        }
    }

    /// Scans the whole source: its tokens, each agreeing with its lexeme, laid
    /// out on the source in order with only whitespace and comments between
    /// them, each as long as it can be; then `Eof`. Or the first scan error.
    pub fn scan_tokens(self) -> (r: Result<Vec<Token>>)
        requires
            self.wf(),
            self.laid(),
        ensures
            r matches Ok(ts) ==> scanned(ts@) && exists|starts: Seq<int>|
                lays_out(ts@.drop_last(), starts, self.source_text()),
            r matches Ok(ts) ==> ts@.last().line == line_at(
                self.source_text(),
                self.source_text().len() as int,
            ),
            r matches Err(e) ==> e is ScanError,
            r is Err ==> scan_fails_on(self.source_text()),
    {
        let mut s = self;
        while s.current < s.chars.len()
            invariant
                s.wf(),
                s.laid(),
                s.chars@ == self.source@,
            decreases s.chars.len() - s.current,
        {
            s.start = s.current;
            match s.scan_token() {
                Ok(()) => {},
                Err(e) => {
                    return Err(e);
                },
            }
        }
        let ghost starts = s.starts@;
        let ghost body = s.tokens@;
        let eof = Token { token_type: TokenType::Eof, text: String::new(), line: s.line };
        let mut tokens = s.tokens;
        tokens.push(eof);
        assert(scanned(tokens@)) by {
            assert(tokens@.last() == eof);
            assert forall|i: int| 0 <= i < tokens.len() - 1 implies !(
            #[trigger] tokens@[i].token_type is Eof) by {
                assert(tokens@[i] == s.tokens@[i]);
            }
            assert forall|i: int| 0 <= i < tokens.len() implies token_agrees(
                #[trigger] tokens@[i],
            ) by {
                if i < tokens.len() - 1 {
                    assert(tokens@[i] == s.tokens@[i]);
                }
            }
        }
        assert(tokens@.drop_last() =~= body);
        assert(lays_out(tokens@.drop_last(), starts, self.source_text()));
        Ok(tokens)
    }

    fn advance(&mut self) -> (c: char)
        requires
            old(self).wf(),
            old(self).current < old(self).chars.len(),
        ensures
            final(self).wf(),
            c == old(self).chars@[old(self).current as int],
            final(self).current == old(self).current + 1,
            final(self).start == old(self).start,
            final(self).chars == old(self).chars,
            final(self).line == old(self).line,
            final(self).tokens == old(self).tokens,
            final(self).starts == old(self).starts,
    {
        let c = self.chars[self.current];
        self.current = self.current + 1;
        c
    }

    /// Consumes the next character where it is `expected`.
    fn match_char(&mut self, expected: char) -> (r: bool)
        requires
            old(self).wf(),
        ensures
            final(self).wf(),
            r == (old(self).current < old(self).chars.len() && old(self).chars@[old(
                self,
            ).current as int] == expected),
            final(self).current == old(self).current + if r {
                1int
            } else {
                0int
            },
            final(self).start == old(self).start,
            final(self).chars == old(self).chars,
            final(self).line == old(self).line,
            final(self).tokens == old(self).tokens,
            final(self).starts == old(self).starts,
    {
        if self.current >= self.chars.len() {
            return false;
        }
        if self.chars[self.current] != expected {
            return false;
        }
        self.current = self.current + 1;
        true
    }

    fn new_line(&mut self)
        requires
            old(self).wf(),
        ensures
            final(self).wf(),
            final(self).current == old(self).current,
            final(self).start == old(self).start,
            final(self).chars == old(self).chars,
            final(self).tokens == old(self).tokens,
            final(self).starts == old(self).starts,
            final(self).line == if old(self).line < usize::MAX {
                old(self).line + 1
            } else {
                old(self).line as int
            },
    {
        if self.line < usize::MAX {
            self.line = self.line + 1;
        }
    }

    /// Appends a token for the lexeme `chars[start..current]`.
    fn add_token(&mut self, kind: TokenType)
        requires
            old(self).wf(),
            old(self).ready(),
            kind_agrees(kind, old(self).chars@.subrange(old(self).start as int, old(self).current as int)),
            ends_cleanly(
                kind,
                old(self).chars@.subrange(old(self).start as int, old(self).current as int),
                old(self).chars@.subrange(old(self).current as int, old(self).chars.len() as int),
            ),
            !(kind is Eof),
        ensures
            final(self).wf(),
            final(self).current == old(self).current,
            final(self).start == old(self).start,
            final(self).chars == old(self).chars,
            placed(final(self).tokens@, final(self).starts@, final(self).chars@),
            final(self).last_end() == final(self).current,
            final(self).line == old(self).line,
    {
        let text = String::from_str(self.source.as_str().substring_char(self.start, self.current));
        let token = Token { token_type: kind, text, line: self.line };
        let ghost old_tokens = self.tokens@;
        let ghost old_starts = self.starts@;
        self.tokens.push(token);
        self.starts = Ghost(self.starts@.push(self.start as int));
        assert(token_agrees(token));
        assert forall|i: int| 0 <= i < self.tokens.len() implies token_agrees(
            #[trigger] self.tokens@[i],
        ) && !(self.tokens@[i].token_type is Eof) by {
            if i < self.tokens.len() - 1 {
                assert(self.tokens@[i] == old(self).tokens@[i]);
            }
        }
        let ghost n = old_tokens.len() as int;
        assert forall|i: int| 0 <= i < self.tokens.len() implies #[trigger] placed_at(
            self.tokens@,
            self.starts@,
            self.chars@,
            i,
        ) by {
            if i < n {
                assert(placed_at(old_tokens, old_starts, self.chars@, i));
                assert(self.tokens@[i] == old_tokens[i]);
                assert(self.starts@[i] == old_starts[i]);
                if i > 0 {
                    assert(self.tokens@[i - 1] == old_tokens[i - 1]);
                    assert(self.starts@[i - 1] == old_starts[i - 1]);
                }
            } else {
                if n > 0 {
                    assert(self.tokens@[n - 1] == old_tokens[n - 1]);
                    assert(self.starts@[n - 1] == old_starts[n - 1]);
                }
            }
        }
    }

    /// Scans one lexeme starting at `start`, or skips whitespace or a comment.
    fn scan_token(&mut self) -> (r: Result<()>)
        requires
            old(self).wf(),
            old(self).laid(),
            old(self).start == old(self).current,
            old(self).current < old(self).chars.len(),
        ensures
            final(self).wf(),
            final(self).current > old(self).current,
            final(self).chars == old(self).chars,
            r is Ok ==> final(self).laid(),
            r matches Err(e) ==> e is ScanError,
            r is Err ==> scan_fails_on(final(self).chars@),
    {
        let ghost s = self.start as int;
        let ghost le = self.last_end();
        let ghost before = self.chars@.subrange(le, s);
        let c = self.advance();
        proof {
            lemma_line_step(self.chars@, s);
        }
        assert(self.chars@.subrange(s, s + 1) =~= seq![c]);
        assert(self.chars@.subrange(le, s + 1) =~= before.push(c));
        assert(c != '\n' ==> gap(before) == Some(false));
        match c {
            '(' => self.add_token(TokenType::LeftParen),
            ')' => self.add_token(TokenType::RightParen),
            '{' => self.add_token(TokenType::LeftBrace),
            '}' => self.add_token(TokenType::RightBrace),
            ',' => self.add_token(TokenType::Comma),
            '.' => self.add_token(TokenType::Dot),
            '-' => self.add_token(TokenType::Minus),
            '+' => self.add_token(TokenType::Plus),
            ';' => self.add_token(TokenType::Semicolon),
            '*' => self.add_token(TokenType::Star),
            '!' => {
                if self.match_char('=') {
                    proof {
                        lemma_line_step(self.chars@, s + 1);
                    }
                    assert(self.chars@.subrange(s, s + 2) =~= seq!['!', '=']);
                    self.add_token(TokenType::BangEqual);
                } else {
                    self.add_token(TokenType::Bang);
                }
            },
            '=' => {
                if self.match_char('=') {
                    proof {
                        lemma_line_step(self.chars@, s + 1);
                    }
                    assert(self.chars@.subrange(s, s + 2) =~= seq!['=', '=']);
                    self.add_token(TokenType::EqualEqual);
                } else {
                    self.add_token(TokenType::Equal);
                }
            },
            '>' => {
                if self.match_char('=') {
                    proof {
                        lemma_line_step(self.chars@, s + 1);
                    }
                    assert(self.chars@.subrange(s, s + 2) =~= seq!['>', '=']);
                    self.add_token(TokenType::GreaterEqual);
                } else {
                    self.add_token(TokenType::Greater);
                }
            },
            '<' => {
                if self.match_char('=') {
                    proof {
                        lemma_line_step(self.chars@, s + 1);
                    }
                    assert(self.chars@.subrange(s, s + 2) =~= seq!['<', '=']);
                    self.add_token(TokenType::LessEqual);
                } else {
                    self.add_token(TokenType::Less);
                }
            },
            '/' => {
                if self.match_char('/') {
                    proof {
                        lemma_line_step(self.chars@, s + 1);
                    }
                    proof {
                        assert(self.chars@.subrange(le, s + 2) =~= before + seq!['/', '/']);
                        lemma_gap_slashes(before);
                    }
                    while self.current < self.chars.len() && self.chars[self.current] != '\n'
                        invariant
                            self.wf(),
                            self.current > s,
                            self.chars == old(self).chars,
                            self.tokens == old(self).tokens,
                            self.starts == old(self).starts,
                            0 <= le <= self.current,
                            placed(self.tokens@, self.starts@, self.chars@),
                            le == self.last_end(),
                            gap(self.chars@.subrange(le, self.current as int)) == Some(true),
                            self.line == line_at(self.chars@, self.current as int),
                        decreases self.chars.len() - self.current,
                    {
                        proof {
                            let cur = self.current as int;
                            assert(self.chars@.subrange(le, cur + 1) =~= self.chars@.subrange(
                                le,
                                cur,
                            ).push(self.chars@[cur]));
                            lemma_gap_push(self.chars@.subrange(le, cur), self.chars@[cur]);
                        }
                        self.current = self.current + 1;
                        proof {
                            lemma_line_step(self.chars@, self.current as int - 1);
                        }
                    }
                } else {
                    self.add_token(TokenType::Slash);
                }
            },
            '"' => {
                return self.string();
            },
            ' ' | '\r' | '\t' => {
                proof {
                    lemma_gap_push(before, c);
                }
            },
            '\n' => {
                proof {
                    lemma_gap_push(before, c);
                    assert(gap(before) == Some(true) || gap(before) == Some(false));
                }
                self.new_line();
            },
            _ => {
                if is_decimal_digit(c) {
                    return self.number();
                } else if letter(c) {
                    self.identifier();
                } else {
                    assert(!is_valid_char(self.chars@[s]));
                    assert(fails_at(self.chars@, self.tokens@, self.starts@, s));
                    return Err(
                        Error::ScanError {
                            line: self.line,
                            msg: String::from_str("unexpected character"),
                        },
                    );
                }
            },
        }
        proof {
            if self.last_end() == self.current {
                assert(self.chars@.subrange(self.current as int, self.current as int) =~= Seq::<
                    char,
                >::empty());
            }
        }
        Ok(())
    }

    /// A string literal; the opening quote is consumed.
    fn string(&mut self) -> (r: Result<()>)
        requires
            old(self).wf(),
            old(self).ready(),
            old(self).current == old(self).start + 1,
            old(self).chars@[old(self).start as int] == '"',
        ensures
            final(self).wf(),
            final(self).current > old(self).start,
            final(self).chars == old(self).chars,
            r is Ok ==> final(self).laid(),
            r matches Err(e) ==> e is ScanError,
            r is Err ==> scan_fails_on(final(self).chars@),
    {
        let ghost s = self.start as int;
        while self.current < self.chars.len() && self.chars[self.current] != '"'
            invariant
                self.wf(),
                self.ready(),
                self.start == s,
                self.current > s,
                self.chars == old(self).chars,
                self.chars@[s] == '"',
                forall|i: int| s < i < self.current ==> self.chars@[i] != '"',
            decreases self.chars.len() - self.current,
        {
            if self.chars[self.current] == '\n' {
                self.new_line();
            }
            self.current = self.current + 1;
            proof {
                lemma_line_step(self.chars@, self.current as int - 1);
            }
        }
        if self.current >= self.chars.len() {
            assert(self.chars@[s] == '"' && forall|j: int|
                s < j < self.chars.len() ==> self.chars@[j] != '"');
            assert(fails_at(self.chars@, self.tokens@, self.starts@, s));
            return Err(
                Error::ScanError { line: self.line, msg: String::from_str("unterminated string") },
            );
        }
        self.current = self.current + 1;
        proof {
            lemma_line_step(self.chars@, self.current as int - 1);
        }
        let payload = String::from_str(
            self.source.as_str().substring_char(self.start + 1, self.current - 1),
        );
        proof {
            let text = self.chars@.subrange(s, self.current as int);
            assert(payload@ =~= text.subrange(1, text.len() - 1));
            assert(!payload@.contains('"')) by {
                if payload@.contains('"') {
                    let k = choose|k: int| 0 <= k < payload@.len() && payload@[k] == '"';
                    assert(self.chars@[s + 1 + k] == '"');
                }
            }
        }
        self.add_token(TokenType::String(payload));
        proof {
            assert(self.chars@.subrange(self.current as int, self.current as int) =~= Seq::<char>::empty());
        }
        Ok(())
    }

    /// A number literal; its first digit is consumed.
    fn number(&mut self) -> (r: Result<()>)
        requires
            old(self).wf(),
            old(self).ready(),
            old(self).current == old(self).start + 1,
            is_digit(old(self).chars@[old(self).start as int]),
        ensures
            final(self).wf(),
            final(self).current > old(self).start,
            final(self).chars == old(self).chars,
            r is Ok ==> final(self).laid(),
            r matches Err(e) ==> e is ScanError,
            r is Err ==> scan_fails_on(final(self).chars@),
    {
        let ghost s = self.start as int;
        while self.current < self.chars.len() && is_decimal_digit(self.chars[self.current])
            invariant
                self.wf(),
                self.ready(),
                self.start == s,
                self.current > s,
                self.chars == old(self).chars,
                forall|i: int| s <= i < self.current ==> is_digit(self.chars@[i]),
            decreases self.chars.len() - self.current,
        {
            self.current = self.current + 1;
            proof {
                lemma_line_step(self.chars@, self.current as int - 1);
            }
        }
        let ghost mut dot: int = -1;
        if self.current < self.chars.len() - 1 && self.chars[self.current] == '.' && is_decimal_digit(
            self.chars[self.current + 1],
        ) {
            proof {
                dot = self.current as int;
            }
            self.current = self.current + 1;
            proof {
                lemma_line_step(self.chars@, self.current as int - 1);
            }
            while self.current < self.chars.len() && is_decimal_digit(self.chars[self.current])
                invariant
                    self.wf(),
                    self.ready(),
                    self.start == s,
                    s < dot < self.current,
                    self.chars == old(self).chars,
                    self.chars@[dot] == '.',
                    forall|i: int| s <= i < self.current && i != dot ==> is_digit(self.chars@[i]),
                    dot + 1 < self.chars.len(),
                    is_digit(self.chars@[dot + 1]),
                decreases self.chars.len() - self.current,
            {
                self.current = self.current + 1;
                proof {
                    lemma_line_step(self.chars@, self.current as int - 1);
                }
            }
        }
        let text = self.source.as_str().substring_char(self.start, self.current);
        let ghost t = self.chars@.subrange(s, self.current as int);
        let ghost rest = self.chars@.subrange(self.current as int, self.chars.len() as int);
        assert(t == text@);
        proof {
            if dot < 0 {
                assert forall|i: int| 0 <= i < t.len() implies is_digit(#[trigger] t[i]) by {
                    assert(t[i] == self.chars@[s + i]);
                }
                assert(!t.contains('.'));
                if rest.len() > 1 {
                    assert(rest[0] == self.chars@[self.current as int]);
                    assert(rest[1] == self.chars@[self.current + 1]);
                }
            } else {
                let p = dot - s;
                assert(t[p] == '.');
                assert forall|i: int| 0 <= i < t.len() && i != p implies is_digit(#[trigger] t[i]) by {
                    assert(t[i] == self.chars@[s + i]);
                }
                assert(p < t.len() - 1) by {
                    if p == t.len() - 1 {
                        assert(self.current == dot + 1);
                    }
                }
                assert(t.contains('.'));
            }
            if rest.len() > 0 {
                assert(rest[0] == self.chars@[self.current as int]);
            }
            assert(is_numeral(t));
        }
        match parse_decimal(text) {
            Some(n) => {
                self.add_token(TokenType::Number(n));
                proof {
                    assert(self.chars@.subrange(self.current as int, self.current as int) =~= Seq::<char>::empty());
                }
                Ok(())
            },
            None => Err(Error::ScanError { line: self.line, msg: String::from_str("invalid number") }),
        }
    }

    /// An identifier or keyword; its first letter is consumed.
    fn identifier(&mut self)
        requires
            old(self).wf(),
            old(self).ready(),
            old(self).current == old(self).start + 1,
            is_letter(old(self).chars@[old(self).start as int]),
        ensures
            final(self).wf(),
            final(self).current > old(self).start,
            final(self).chars == old(self).chars,
            final(self).laid(),
    {
        let ghost s = self.start as int;
        while self.current < self.chars.len() && is_alphanumeric(self.chars[self.current])
            invariant
                self.wf(),
                self.ready(),
                self.start == s,
                self.current > s,
                self.chars == old(self).chars,
                is_letter(self.chars@[s]),
                forall|i: int|
                    s < i < self.current ==> alphanumeric(self.chars@[i]),
            decreases self.chars.len() - self.current,
        {
            self.current = self.current + 1;
            proof {
                lemma_line_step(self.chars@, self.current as int - 1);
            }
        }
        let kind = word_kind(&self.chars, self.start, self.current);
        proof {
            let t = self.chars@.subrange(s, self.current as int);
            assert forall|i: int| 0 < i < t.len() implies alphanumeric(#[trigger] t[i]) by {
                assert(t[i] == self.chars@[s + i]);
            }
            assert(is_word(t));
            let rest = self.chars@.subrange(self.current as int, self.chars.len() as int);
            if rest.len() > 0 {
                assert(rest[0] == self.chars@[self.current as int]);
            }
        }
        self.add_token(kind);
        proof {
            assert(self.chars@.subrange(self.current as int, self.current as int) =~= Seq::<char>::empty());
        }
    }
}

} // verus!
