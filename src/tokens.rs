//! The lexer: classifies a character stream into a flat sequence of tokens.
//!
//! The model of a lexer is the sequence of characters it has not consumed
//! yet. Each spec function below reads such a remaining input from its start.
use vstd::prelude::*;

use crate::chars::{char_is_numeric, char_is_whitespace, is_numeric, is_space, push_char};

verus! {

/// A classified piece of input. `String` and `Number` carry the matched text.
#[derive(Debug, PartialEq, Clone)]
pub enum Token {
    String(String),
    Number(String),
    Null,
    True,
    False,
    Comma,
    Colon,
    ObjectStart,
    ObjectEnd,
    ArrayStart,
    ArrayEnd,
    EndOfFile,
    Error,
}

/// The mathematical value of a `Token`: payloads as character sequences.
pub enum TokenView {
    String(Seq<char>),
    Number(Seq<char>),
    Null,
    True,
    False,
    Comma,
    Colon,
    ObjectStart,
    ObjectEnd,
    ArrayStart,
    ArrayEnd,
    EndOfFile,
    Error,
}

impl View for Token {
    type V = TokenView;

    open spec fn view(&self) -> TokenView {
        match self {
            Token::String(s) => TokenView::String(s@),
            Token::Number(s) => TokenView::Number(s@),
            Token::Null => TokenView::Null,
            Token::True => TokenView::True,
            Token::False => TokenView::False,
            Token::Comma => TokenView::Comma,
            Token::Colon => TokenView::Colon,
            Token::ObjectStart => TokenView::ObjectStart,
            Token::ObjectEnd => TokenView::ObjectEnd,
            Token::ArrayStart => TokenView::ArrayStart,
            Token::ArrayEnd => TokenView::ArrayEnd,
            Token::EndOfFile => TokenView::EndOfFile,
            Token::Error => TokenView::Error,
        }
    }
}

/// The views of a sequence of tokens.
pub open spec fn views(ts: Seq<Token>) -> Seq<TokenView> {
    ts.map_values(|t: Token| t@)
}

/// A character that ends a number without being part of it.
pub open spec fn ends_number(c: char) -> bool {
    c == ',' || c == ']' || c == '}' || is_space(c)
}

/// Whether `s` begins with `prefix`.
pub open spec fn starts_with(s: Seq<char>, prefix: Seq<char>) -> bool {
    prefix.len() <= s.len() && s.take(prefix.len() as int) == prefix
}

/// How many whitespace characters `s` begins with.
pub open spec fn leading_spaces(s: Seq<char>) -> nat
    decreases s.len(),
{
    if s.len() > 0 && is_space(s[0]) {
        1 + leading_spaces(s.drop_first())
    } else {
        0
    }
}

/// How many characters of `s` belong to a string body before its closing
/// quote. A backslash marks the next quote, whenever it comes, as content;
/// `escaped` says whether such a mark is pending.
pub open spec fn string_body_len(s: Seq<char>, escaped: bool) -> nat
    decreases s.len(),
{
    if s.len() == 0 || (s[0] == '"' && !escaped) {
        0
    } else {
        let next_escaped = if s[0] == '\\' {
            true
        } else if s[0] == '"' {
            false
        } else {
            escaped
        };
        1 + string_body_len(s.drop_first(), next_escaped)
    }
}

/// How many characters of `s` continue a number: all up to the first one
/// that ends it.
pub open spec fn number_tail_len(s: Seq<char>) -> nat
    decreases s.len(),
{
    if s.len() > 0 && !ends_number(s[0]) {
        1 + number_tail_len(s.drop_first())
    } else {
        0
    }
}

/// The token that `s` begins with, where `s` does not begin with whitespace,
/// and how many characters it takes. A keyword's first letter without the
/// rest of the keyword is an `Error` of one character. The character after
/// an opening quote always belongs to the string, whatever it is; a quote
/// at the very end of the input is an empty string.
pub open spec fn token_at(s: Seq<char>) -> (TokenView, nat) {
    if s.len() == 0 {
        (TokenView::EndOfFile, 0)
    } else {
        let c = s[0];
        if c == ':' {
            (TokenView::Colon, 1)
        } else if c == ',' {
            (TokenView::Comma, 1)
        } else if c == '{' {
            (TokenView::ObjectStart, 1)
        } else if c == '}' {
            (TokenView::ObjectEnd, 1)
        } else if c == '[' {
            (TokenView::ArrayStart, 1)
        } else if c == ']' {
            (TokenView::ArrayEnd, 1)
        } else if c == 'n' && starts_with(s.drop_first(), seq!['u', 'l', 'l']) {
            (TokenView::Null, 4)
        } else if c == 't' && starts_with(s.drop_first(), seq!['r', 'u', 'e']) {
            (TokenView::True, 4)
        } else if c == 'f' && starts_with(s.drop_first(), seq!['a', 'l', 's', 'e']) {
            (TokenView::False, 5)
        } else if c == '"' {
            if s.len() == 1 {
                (TokenView::String(seq![]), 1)
            } else {
                let n = string_body_len(s.skip(2), false);
                let taken = if n + 2 < s.len() {
                    n + 3
                } else {
                    n + 2
                };
                (TokenView::String(s.subrange(1, n + 2 as int)), taken as nat)
            }
        } else if is_numeric(c) || c == '-' {
            let n = number_tail_len(s.drop_first());
            (TokenView::Number(s.take(n + 1 as int)), n + 1)
        } else {
            (TokenView::Error, 1)
        }
    }
}

/// The token that the remaining input `s` yields next, and how many
/// characters that consumes, leading whitespace included.
pub open spec fn scan(s: Seq<char>) -> (TokenView, nat) {
    let w = leading_spaces(s);
    let (t, n) = token_at(s.skip(w as int));
    (t, w + n)
}

/// The tokens that draining the remaining input `s` yields.
pub open spec fn lex(s: Seq<char>) -> Seq<TokenView>
    decreases s.len(),
    via lex_decreases
{
    if s.len() == 0 {
        seq![]
    } else {
        let (t, n) = scan(s);
        seq![t] + lex(s.skip(n as int))
    }
}

#[via_fn]
proof fn lex_decreases(s: Seq<char>) {
    if s.len() > 0 {
        lemma_scan_progress(s);
    }
}

/// Leading whitespace never outruns the input.
pub proof fn lemma_leading_spaces_bound(s: Seq<char>)
    ensures
        leading_spaces(s) <= s.len(),
    decreases s.len(),
{
    if s.len() > 0 && is_space(s[0]) {
        lemma_leading_spaces_bound(s.drop_first());
    }
}

proof fn lemma_string_body_bound(s: Seq<char>, escaped: bool)
    ensures
        string_body_len(s, escaped) <= s.len(),
    decreases s.len(),
{
    if s.len() > 0 && !(s[0] == '"' && !escaped) {
        let next_escaped = if s[0] == '\\' {
            true
        } else if s[0] == '"' {
            false
        } else {
            escaped
        };
        lemma_string_body_bound(s.drop_first(), next_escaped);
    }
}

proof fn lemma_number_tail_bound(s: Seq<char>)
    ensures
        number_tail_len(s) <= s.len(),
    decreases s.len(),
{
    if s.len() > 0 && !ends_number(s[0]) {
        lemma_number_tail_bound(s.drop_first());
    }
}

proof fn lemma_token_at_bound(s: Seq<char>)
    ensures
        token_at(s).1 <= s.len(),
{
    if s.len() > 1 {
        lemma_string_body_bound(s.skip(2), false);
    }
    if s.len() > 0 {
        lemma_number_tail_bound(s.drop_first());
    }
}

/// A nonempty remaining input always loses at least one character, and
/// never more than it holds.
pub proof fn lemma_scan_progress(s: Seq<char>)
    requires
        s.len() > 0,
    ensures
        0 < scan(s).1 <= s.len(),
{
    lemma_leading_spaces_bound(s);
    let w = leading_spaces(s);
    let r = s.skip(w as int);
    if r.len() > 0 {
        if r.len() > 1 {
            lemma_string_body_bound(r.skip(2), false);
        }
        lemma_number_tail_bound(r.drop_first());
    }
}

/// A single forward cursor over an in-memory input.
pub struct Lexer {
    input: Vec<char>,
    pos: usize,
}

impl View for Lexer {
    type V = Seq<char>;

    /// The characters not consumed yet.
    closed spec fn view(&self) -> Seq<char> {
        self.input@.skip(self.pos as int)
    }
}

impl Lexer {
    #[verifier::type_invariant]
    spec fn cursor_in_bounds(&self) -> bool {
        self.pos <= self.input.len()
    }

    /// A lexer at the start of `input`.
    pub fn new(input: &str) -> (l: Lexer)
        ensures
            l@ == input@,
    {
        let mut buffer: Vec<char> = Vec::new();
        for c in it: input.chars()
            invariant
                buffer@ == it.seq().take(it.index() as int),
                it.seq() == input@,
        {
            buffer.push(c);
        }
        assert(buffer@.skip(0) =~= input@);
        Lexer { input: buffer, pos: 0 }
    }

    fn read(&mut self) -> (r: Option<char>)
        ensures
            old(self)@.len() == 0 ==> r is None && final(self)@ == old(self)@,
            old(self)@.len() > 0 ==> r == Some(old(self)@[0]) && final(self)@ == old(self)@.drop_first(),
    {
        proof {
            use_type_invariant(&*self);
        }
        if self.pos < self.input.len() {
            let c = self.input[self.pos];
            self.pos = self.pos + 1;
            assert(self@ =~= old(self)@.drop_first());
            Some(c)
        } else {
            None
        }
    }

    fn peek(&self) -> (r: Option<char>)
        ensures
            self@.len() == 0 ==> r is None,
            self@.len() > 0 ==> r == Some(self@[0]),
    {
        proof {
            use_type_invariant(self);
        }
        if self.pos < self.input.len() {
            Some(self.input[self.pos])
        } else {
            None
        }
    }

    fn skip_whitespace(&mut self)
        ensures
            final(self)@ == old(self)@.skip(leading_spaces(old(self)@) as int),
    {
        let ghost start = self@;
        loop
            invariant
                start.len() >= self@.len(),
                leading_spaces(start) == (start.len() - self@.len()) + leading_spaces(self@),
                self@ == start.skip(start.len() - self@.len()),
            ensures
                leading_spaces(start) == start.len() - self@.len(),
                self@ == start.skip(start.len() - self@.len()),
            decreases self@.len(),
        {
            match self.peek() {
                Some(c) => {
                    if !char_is_whitespace(c) {
                        break;
                    }
                    let ghost before = self@;
                    self.read();
                    assert(start.skip(start.len() - self@.len()) =~= before.drop_first());
                },
                None => break,
            }
        }
    }

    /// Consumes `target` if the remaining input begins with it; otherwise
    /// consumes nothing.
    fn read_ident(&mut self, target: &[char]) -> (r: bool)
        ensures
            r == starts_with(old(self)@, target@),
            r ==> final(self)@ == old(self)@.skip(target@.len() as int),
            !r ==> final(self)@ == old(self)@,
    {
        proof {
            use_type_invariant(&*self);
        }
        let len = target.len();
        if len > self.input.len() - self.pos {
            return false;
        }
        let mut i: usize = 0;
        while i < len
            invariant
                0 <= i <= len == target@.len(),
                len <= self.input.len() - self.pos,
                self.pos <= self.input.len(),
                forall|j: int| 0 <= j < i ==> self@[j] == target@[j],
            decreases len - i,
        {
            if self.input[self.pos + i] != target[i] {
                assert(self@.take(len as int)[i as int] != target@[i as int]);
                return false;
            }
            i = i + 1;
        }
        assert(self@.take(len as int) =~= target@);
        self.pos = self.pos + len;
        assert(self@ =~= old(self)@.skip(len as int));
        true
    }

    /// Scans a string body that begins with `init`, up to and past its
    /// closing quote.
    fn read_string(&mut self, init: char) -> (t: Token)
        ensures
            ({
                let n = string_body_len(old(self)@, false);
                &&& n <= old(self)@.len()
                &&& t@ == TokenView::String(seq![init] + old(self)@.take(n as int))
                &&& final(self)@ == old(self)@.skip(
                    if n < old(self)@.len() { n + 1 as int } else { n as int },
                )
            }),
    {
        let ghost start = self@;
        let mut ident = String::new();
        let mut slash = false;
        push_char(&mut ident, init);
        loop
            invariant
                start.len() >= self@.len(),
                self@ == start.skip(start.len() - self@.len()),
                ident@ == seq![init] + start.take(start.len() - self@.len()),
                string_body_len(start, false) == (start.len() - self@.len())
                    + string_body_len(self@, slash),
            ensures
                start.len() >= self@.len(),
                self@ == start.skip(start.len() - self@.len()),
                ident@ == seq![init] + start.take(start.len() - self@.len()),
                string_body_len(start, false) == start.len() - self@.len(),
            decreases self@.len(),
        {
            let ghost before = self@;
            let ghost k = start.len() - self@.len();
            match self.peek() {
                None => break,
                Some(c) => {
                    if c == '"' && !slash {
                        break;
                    }
                    if c == '\\' {
                        slash = true;
                    } else if c == '"' {
                        slash = false;
                    }
                    push_char(&mut ident, c);
                    self.read();
                    assert(start.skip(k + 1) =~= before.drop_first());
                    assert(start.take(k + 1) =~= start.take(k).push(c));
                },
            }
        }
        self.read();
        proof {
            let n = string_body_len(start, false);
            if n < start.len() {
                assert(self@ =~= start.skip(n + 1 as int));
            }
        }
        Token::String(ident)
    }

    /// Scans a number that begins with `init`, up to the character that
    /// ends it.
    fn read_number(&mut self, init: char) -> (t: Token)
        ensures
            ({
                let n = number_tail_len(old(self)@);
                &&& n <= old(self)@.len()
                &&& t@ == TokenView::Number(seq![init] + old(self)@.take(n as int))
                &&& final(self)@ == old(self)@.skip(n as int)
            }),
    {
        let ghost start = self@;
        let mut number = String::new();
        push_char(&mut number, init);
        loop
            invariant
                start.len() >= self@.len(),
                self@ == start.skip(start.len() - self@.len()),
                number@ == seq![init] + start.take(start.len() - self@.len()),
                number_tail_len(start) == (start.len() - self@.len()) + number_tail_len(self@),
            ensures
                start.len() >= self@.len(),
                self@ == start.skip(start.len() - self@.len()),
                number@ == seq![init] + start.take(start.len() - self@.len()),
                number_tail_len(start) == start.len() - self@.len(),
            decreases self@.len(),
        {
            let ghost before = self@;
            let ghost k = start.len() - self@.len();
            match self.peek() {
                None => break,
                Some(c) => {
                    if c == ',' || c == ']' || c == '}' || char_is_whitespace(c) {
                        break;
                    }
                    push_char(&mut number, c);
                    self.read();
                    assert(start.skip(k + 1) =~= before.drop_first());
                    assert(start.take(k + 1) =~= start.take(k).push(c));
                },
            }
        }
        Token::Number(number)
    }

    /// Skips whitespace, then consumes and classifies one token.
    pub fn next_token(&mut self) -> (t: Token)
        ensures
            t@ == scan(old(self)@).0,
            final(self)@ == old(self)@.skip(scan(old(self)@).1 as int),
    {
        let ghost s = self@;
        self.skip_whitespace();
        let ghost r = self@;
        proof {
            lemma_leading_spaces_bound(s);
        }
        let t = match self.read() {
            Some(':') => Token::Colon,
            Some(',') => Token::Comma,
            Some('{') => Token::ObjectStart,
            Some('}') => Token::ObjectEnd,
            Some('[') => Token::ArrayStart,
            Some(']') => Token::ArrayEnd,
            Some(c) => {
                if c == 'n' && self.read_ident(&['u', 'l', 'l']) {
                    Token::Null
                } else if c == 't' && self.read_ident(&['r', 'u', 'e']) {
                    Token::True
                } else if c == 'f' && self.read_ident(&['a', 'l', 's', 'e']) {
                    Token::False
                } else if c == '"' {
                    match self.read() {
                        Some(first) => {
                            let t = self.read_string(first);
                            proof {
                                let n = string_body_len(r.skip(2), false);
                                assert(r.skip(2) =~= r.drop_first().drop_first());
                                lemma_string_body_bound(r.skip(2), false);
                                assert(r.subrange(1, n + 2 as int) =~= seq![first] + r.skip(
                                    2,
                                ).take(n as int));
                            }
                            t
                        },
                        None => Token::String(String::new()),
                    }
                } else if char_is_numeric(c) || c == '-' {
                    let t = self.read_number(c);
                    proof {
                        let n = number_tail_len(r.drop_first());
                        assert(r.take(n + 1 as int) =~= seq![c] + r.drop_first().take(n as int));
                    }
                    t
                } else {
                    Token::Error
                }
            },
            None => Token::EndOfFile,
        };
        proof {
            let n = token_at(r).1;
            lemma_token_at_bound(r);
            assert(self@ =~= r.skip(n as int));
            assert(self@ =~= s.skip(leading_spaces(s) + n as int));
        }
        t
    }

    /// Drains the input: calls `next_token` while any input remains.
    pub fn read_to_end(&mut self) -> (tokens: Vec<Token>)
        ensures
            views(tokens@) == lex(old(self)@),
            final(self)@.len() == 0,
    {
        let mut tokens: Vec<Token> = Vec::new();
        while self.peek().is_some()
            invariant
                views(tokens@) + lex(self@) == lex(old(self)@),
            decreases self@.len(),
        {
            let ghost before = self@;
            proof {
                lemma_scan_progress(before);
            }
            let t = self.next_token();
            assert(views(tokens@.push(t)) =~= views(tokens@).push(t@));
            tokens.push(t);
            assert(views(tokens@) + lex(self@) =~= views(tokens@).drop_last() + lex(before));
        }
        assert(views(tokens@) + lex(self@) =~= views(tokens@));
        tokens
    }
}

} // verus!
