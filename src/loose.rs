//! A looser lexer for JSON-like text: bare words and single-quoted strings
//! become string tokens, numbers take only number characters, and each
//! punctuation token carries its own text. It knows no keywords: `null`
//! is a bare word.
use vstd::prelude::*;

use crate::chars::{
    char_is_alphabetic, char_is_numeric, char_is_whitespace, is_alphabetic, is_numeric, push_char,
};
use crate::tokens::{leading_spaces, lemma_leading_spaces_bound};

verus! {

/// A classified piece of input.
#[derive(Debug, PartialEq, Clone)]
pub enum Token<'a> {
    String(String),
    Number(String),
    Comma(&'a str),
    Colon(&'a str),
    ObjectStart(&'a str),
    ObjectEnd(&'a str),
    ArrayStart(&'a str),
    ArrayEnd(&'a str),
    EndOfFile,
    Error,
}

/// The mathematical value of a `Token`: all text as character sequences.
pub enum TokenView {
    String(Seq<char>),
    Number(Seq<char>),
    Comma(Seq<char>),
    Colon(Seq<char>),
    ObjectStart(Seq<char>),
    ObjectEnd(Seq<char>),
    ArrayStart(Seq<char>),
    ArrayEnd(Seq<char>),
    EndOfFile,
    Error,
}

impl<'a> View for Token<'a> {
    type V = TokenView;

    open spec fn view(&self) -> TokenView {
        match self {
            Token::String(s) => TokenView::String(s@),
            Token::Number(s) => TokenView::Number(s@),
            Token::Comma(s) => TokenView::Comma(s@),
            Token::Colon(s) => TokenView::Colon(s@),
            Token::ObjectStart(s) => TokenView::ObjectStart(s@),
            Token::ObjectEnd(s) => TokenView::ObjectEnd(s@),
            Token::ArrayStart(s) => TokenView::ArrayStart(s@),
            Token::ArrayEnd(s) => TokenView::ArrayEnd(s@),
            Token::EndOfFile => TokenView::EndOfFile,
            Token::Error => TokenView::Error,
        }
    }
}

/// A character that may continue a number.
pub open spec fn is_number_char(c: char) -> bool {
    is_numeric(c) || c == '.' || c == 'e' || c == 'E' || c == '+' || c == '-'
}

/// How many alphabetic characters `s` begins with.
pub open spec fn alphabetic_run(s: Seq<char>) -> nat
    decreases s.len(),
{
    if s.len() > 0 && is_alphabetic(s[0]) {
        1 + alphabetic_run(s.drop_first())
    } else {
        0
    }
}

/// How many number characters `s` begins with.
pub open spec fn number_run(s: Seq<char>) -> nat
    decreases s.len(),
{
    if s.len() > 0 && is_number_char(s[0]) {
        1 + number_run(s.drop_first())
    } else {
        0
    }
}

/// The token that `s` begins with, where `s` does not begin with whitespace,
/// and how many characters it takes. A quote opens a string whose first
/// character is taken as it comes and whose letters follow; the character
/// after them is taken as its closing quote. A quote at the very end of the
/// input is an empty string.
pub open spec fn token_at(s: Seq<char>) -> (TokenView, nat) {
    if s.len() == 0 {
        (TokenView::EndOfFile, 0)
    } else {
        let c = s[0];
        if c == ':' {
            (TokenView::Colon(seq![':']), 1)
        } else if c == ',' {
            (TokenView::Comma(seq![',']), 1)
        } else if c == '{' {
            (TokenView::ObjectStart(seq!['{']), 1)
        } else if c == '}' {
            (TokenView::ObjectEnd(seq!['}']), 1)
        } else if c == '[' {
            (TokenView::ArrayStart(seq!['[']), 1)
        } else if c == ']' {
            (TokenView::ArrayEnd(seq![']']), 1)
        } else if is_numeric(c) || c == '-' {
            let n = number_run(s.drop_first());
            (TokenView::Number(s.take(n + 1 as int)), n + 1)
        } else if c == '"' || c == '\'' {
            if s.len() == 1 {
                (TokenView::String(seq![]), 1)
            } else {
                let n = alphabetic_run(s.skip(2));
                let taken = if n + 2 < s.len() {
                    n + 3
                } else {
                    n + 2
                };
                (TokenView::String(s.subrange(1, n + 2 as int)), taken as nat)
            }
        } else if is_alphabetic(c) {
            let n = alphabetic_run(s.drop_first());
            (TokenView::String(s.take(n + 1 as int)), n + 1)
        } else {
            (TokenView::Error, 1)
        }
    }
}

/// The token that the remaining input `s` yields next, and how many
/// characters that consumes, leading whitespace included.
pub open spec fn scan(s: Seq<char>) -> (TokenView, nat) {
    let w = leading_spaces(s);
    let (t, n) = token_at(s.skip(w as int));
    (t, w + n)
}

proof fn lemma_alphabetic_run_bound(s: Seq<char>)
    ensures
        alphabetic_run(s) <= s.len(),
    decreases s.len(),
{
    if s.len() > 0 && is_alphabetic(s[0]) {
        lemma_alphabetic_run_bound(s.drop_first());
    }
}

proof fn lemma_number_run_bound(s: Seq<char>)
    ensures
        number_run(s) <= s.len(),
    decreases s.len(),
{
    if s.len() > 0 && is_number_char(s[0]) {
        lemma_number_run_bound(s.drop_first());
    }
}

proof fn lemma_token_at_bound(s: Seq<char>)
    ensures
        token_at(s).1 <= s.len(),
{
    if s.len() > 1 {
        lemma_alphabetic_run_bound(s.skip(2));
    }
    if s.len() > 0 {
        lemma_alphabetic_run_bound(s.drop_first());
        lemma_number_run_bound(s.drop_first());
    }
}

/// A single forward cursor over an in-memory input.
pub struct Lexer {
    input: Vec<char>,
    pos: usize,
}

impl View for Lexer {
    type V = Seq<char>;

    /// The characters not consumed yet.
    closed spec fn view(&self) -> Seq<char> {
        self.input@.skip(self.pos as int)
    }
}

impl Lexer {
    #[verifier::type_invariant]
    spec fn cursor_in_bounds(&self) -> bool {
        self.pos <= self.input.len()
    }

    /// A lexer at the start of `input`.
    pub fn new(input: &str) -> (l: Lexer)
        ensures
            l@ == input@,
    {
        let mut buffer: Vec<char> = Vec::new();
        for c in it: input.chars()
            invariant
                buffer@ == it.seq().take(it.index() as int),
                it.seq() == input@,
        {
            buffer.push(c);
        }
        assert(buffer@.skip(0) =~= input@);
        Lexer { input: buffer, pos: 0 }
    }

    fn read(&mut self) -> (r: Option<char>)
        ensures
            old(self)@.len() == 0 ==> r is None && final(self)@ == old(self)@,
            old(self)@.len() > 0 ==> r == Some(old(self)@[0]) && final(self)@ == old(self)@.drop_first(),
    {
        proof {
            use_type_invariant(&*self);
        }
        if self.pos < self.input.len() {
            let c = self.input[self.pos];
            self.pos = self.pos + 1;
            assert(self@ =~= old(self)@.drop_first());
            Some(c)
        } else {
            None
        }
    }

    fn peek(&self) -> (r: Option<char>)
        ensures
            self@.len() == 0 ==> r is None,
            self@.len() > 0 ==> r == Some(self@[0]),
    {
        proof {
            use_type_invariant(self);
        }
        if self.pos < self.input.len() {
            Some(self.input[self.pos])
        } else {
            None
        }
    }

    fn skip_whitespace(&mut self)
        ensures
            final(self)@ == old(self)@.skip(leading_spaces(old(self)@) as int),
    {
        let ghost start = self@;
        loop
            invariant
                start.len() >= self@.len(),
                leading_spaces(start) == (start.len() - self@.len()) + leading_spaces(self@),
                self@ == start.skip(start.len() - self@.len()),
            ensures
                leading_spaces(start) == start.len() - self@.len(),
                self@ == start.skip(start.len() - self@.len()),
            decreases self@.len(),
        {
            match self.peek() {
                Some(c) => {
                    if !char_is_whitespace(c) {
                        break;
                    }
                    let ghost before = self@;
                    self.read();
                    assert(start.skip(start.len() - self@.len()) =~= before.drop_first());
                },
                None => break,
            }
        }
    }

    /// Scans a word that begins with `init` and continues with letters.
    /// Inside quotes, the character after the letters is consumed as the
    /// closing quote.
    fn read_string(&mut self, init: char, inside: bool) -> (t: Token<'static>)
        ensures
            ({
                let n = alphabetic_run(old(self)@);
                &&& n <= old(self)@.len()
                &&& t@ == TokenView::String(seq![init] + old(self)@.take(n as int))
                &&& final(self)@ == old(self)@.skip(
                    if inside && n < old(self)@.len() { n + 1 as int } else { n as int },
                )
            }),
    {
        let ghost start = self@;
        let mut ident = String::new();
        push_char(&mut ident, init);
        loop
            invariant
                start.len() >= self@.len(),
                self@ == start.skip(start.len() - self@.len()),
                ident@ == seq![init] + start.take(start.len() - self@.len()),
                alphabetic_run(start) == (start.len() - self@.len()) + alphabetic_run(self@),
            ensures
                start.len() >= self@.len(),
                self@ == start.skip(start.len() - self@.len()),
                ident@ == seq![init] + start.take(start.len() - self@.len()),
                alphabetic_run(start) == start.len() - self@.len(),
            decreases self@.len(),
        {
            let ghost before = self@;
            let ghost k = start.len() - self@.len();
            match self.peek() {
                None => break,
                Some(c) => {
                    if !char_is_alphabetic(c) {
                        break;
                    }
                    push_char(&mut ident, c);
                    self.read();
                    assert(start.skip(k + 1) =~= before.drop_first());
                    assert(start.take(k + 1) =~= start.take(k).push(c));
                },
            }
        }
        if inside {
            self.read();
            proof {
                let n = alphabetic_run(start);
                if n < start.len() {
                    assert(self@ =~= start.skip(n + 1 as int));
                }
            }
        }
        Token::String(ident)
    }

    /// Scans a number that begins with `init` and continues with number
    /// characters.
    fn read_number(&mut self, init: char) -> (t: Token<'static>)
        ensures
            ({
                let n = number_run(old(self)@);
                &&& n <= old(self)@.len()
                &&& t@ == TokenView::Number(seq![init] + old(self)@.take(n as int))
                &&& final(self)@ == old(self)@.skip(n as int)
            }),
    {
        let ghost start = self@;
        let mut number = String::new();
        push_char(&mut number, init);
        loop
            invariant
                start.len() >= self@.len(),
                self@ == start.skip(start.len() - self@.len()),
                number@ == seq![init] + start.take(start.len() - self@.len()),
                number_run(start) == (start.len() - self@.len()) + number_run(self@),
            ensures
                start.len() >= self@.len(),
                self@ == start.skip(start.len() - self@.len()),
                number@ == seq![init] + start.take(start.len() - self@.len()),
                number_run(start) == start.len() - self@.len(),
            decreases self@.len(),
        {
            let ghost before = self@;
            let ghost k = start.len() - self@.len();
            match self.peek() {
                None => break,
                Some(c) => {
                    if !char_is_numeric(c) && c != '.' && c != 'e' && c != 'E' && c != '+' && c
                        != '-' {
                        break;
                    }
                    push_char(&mut number, c);
                    self.read();
                    assert(start.skip(k + 1) =~= before.drop_first());
                    assert(start.take(k + 1) =~= start.take(k).push(c));
                },
            }
        }
        Token::Number(number)
    }

    /// Skips whitespace, then consumes and classifies one token.
    pub fn next_token(&mut self) -> (t: Token<'static>)
        ensures
            t@ == scan(old(self)@).0,
            final(self)@ == old(self)@.skip(scan(old(self)@).1 as int),
    {
        let ghost s = self@;
        self.skip_whitespace();
        let ghost r = self@;
        proof {
            lemma_leading_spaces_bound(s);
            reveal_strlit(":");
            assert(":"@ =~= seq![':']);
            reveal_strlit(",");
            assert(","@ =~= seq![',']);
            reveal_strlit("{");
            assert("{"@ =~= seq!['{']);
            reveal_strlit("}");
            assert("}"@ =~= seq!['}']);
            reveal_strlit("[");
            assert("["@ =~= seq!['[']);
            reveal_strlit("]");
            assert("]"@ =~= seq![']']);
        }
        let t = match self.read() {
            Some(':') => Token::Colon(":"),
            Some(',') => Token::Comma(","),
            Some('{') => Token::ObjectStart("{"),
            Some('}') => Token::ObjectEnd("}"),
            Some('[') => Token::ArrayStart("["),
            Some(']') => Token::ArrayEnd("]"),
            Some(c) => {
                if char_is_numeric(c) || c == '-' {
                    let t = self.read_number(c);
                    proof {
                        let n = number_run(r.drop_first());
                        assert(r.take(n + 1 as int) =~= seq![c] + r.drop_first().take(n as int));
                    }
                    t
                } else if c == '"' || c == '\'' {
                    match self.read() {
                        Some(first) => {
                            let t = self.read_string(first, true);
                            proof {
                                let n = alphabetic_run(r.skip(2));
                                assert(r.skip(2) =~= r.drop_first().drop_first());
                                lemma_alphabetic_run_bound(r.skip(2));
                                assert(r.subrange(1, n + 2 as int) =~= seq![first] + r.skip(
                                    2,
                                ).take(n as int));
                            }
                            t
                        },
                        None => Token::String(String::new()),
                    }
                } else if char_is_alphabetic(c) {
                    let t = self.read_string(c, false);
                    proof {
                        let n = alphabetic_run(r.drop_first());
                        assert(r.take(n + 1 as int) =~= seq![c] + r.drop_first().take(n as int));
                    }
                    t
                } else {
                    Token::Error
                }
            },
            None => Token::EndOfFile,
        };
        proof {
            let n = token_at(r).1;
            lemma_token_at_bound(r);
            assert(self@ =~= r.skip(n as int));
            assert(self@ =~= s.skip(leading_spaces(s) + n as int));
        }
        t
    }
}

} // verus!
